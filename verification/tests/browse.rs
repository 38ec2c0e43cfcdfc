use rustydlna7::browse::{
    browse_target, generate_browse_response, generate_browse_response_inner, shown_path, Listing,
};
use rustydlna7::codec::decode;
use rustydlna7::order::{le, sort_names};
use rustydlna7::sanitize::sanitize_path;

fn listing(dirs: &[&str], files: &[&str]) -> Listing {
    let mut l = Listing::new();
    for f in files {
        l.note(f.to_string(), false);
    }
    for d in dirs {
        l.note(d.to_string(), true);
    }
    l
}

fn body_of(resp: &str) -> &str {
    resp.split("\r\n\r\n").nth(1).unwrap_or("")
}

#[test]
fn correctness_browse_build() {
    let root = listing(&["sub"], &["plain.mp4", "my movie.mp4", "a&b.mp4"]);
    let resp = generate_browse_response("", 0, 5000, "127.0.0.1", root);
    let (head, body) = resp.split_once("\r\n\r\n").expect("browse headers");
    assert!(head.starts_with("HTTP/1.1 200 OK"), "browse status");
    assert!(head.contains("Connection: Keep-Alive"), "browse keep-alive");
    assert!(head.contains(&format!("Content-Length: {}", body.len())), "browse length");
    assert!(body.contains("&lt;container id=\"sub/\""), "sub container");
    assert!(body.contains("<NumberReturned>4</NumberReturned>"), "root count");
    assert!(body.contains("<TotalMatches>4</TotalMatches>"), "root total");
    let pa = body.find("a&amp;amp;b.mp4").expect("amp item");
    let pm = body.find("my%20movie.mp4").expect("space item");
    let pp = body.find("plain.mp4").expect("plain item");
    assert!(pa < pm && pm < pp, "files sorted");
    let sub = generate_browse_response("sub/", 0, 5000, "127.0.0.1", listing(&[], &["deep.mp4"]));
    let sbody = body_of(&sub);
    assert!(sbody.contains("sub/deep.mp4"), "nested item");
    assert!(sbody.contains("<NumberReturned>1</NumberReturned>"), "nested count");
}

#[test]
fn browse_title_escapes_apos() {
    let resp = generate_browse_response("", 0, 5000, "127.0.0.1", listing(&[], &["q'x.mp4"]));
    let body = body_of(&resp);
    assert!(
        body.contains("q&amp;apos;x.mp4"),
        "title must DIDL-escape apostrophe, got:\n{}",
        &body[..body.len().min(600)]
    );
    assert!(
        !body.contains("q'x.mp4"),
        "raw apostrophe must not survive in titles/ids, got:\n{}",
        &body[..body.len().min(600)]
    );
}

#[test]
fn browse_container_id_escapes_apos() {
    let resp = generate_browse_response("", 0, 5000, "127.0.0.1", listing(&["d'x"], &[]));
    let body = body_of(&resp);
    assert!(
        body.contains("d&amp;apos;x/"),
        "container id must escape apostrophe, got:\n{}",
        &body[..body.len().min(600)]
    );
    assert!(
        !body.contains("d'x/"),
        "raw apostrophe must not survive in container ids, got:\n{}",
        &body[..body.len().min(600)]
    );
}

#[test]
fn browse_percent_file_roundtrips() {
    let resp = generate_browse_response("", 0, 5000, "127.0.0.1", listing(&[], &["%2e.mp4"]));
    let body = body_of(&resp);
    assert!(
        body.contains("%252e.mp4"),
        "advertised id must double the %, got:\n{}",
        &body[..body.len().min(600)]
    );
    let advertised = "/%252e.mp4";
    let opened = sanitize_path(&decode(advertised));
    assert_eq!(opened, "%2e.mp4", "GET of advertised URL must reopen the same file");
}

#[test]
fn browse_amp_stays_escaped() {
    let resp = generate_browse_response("", 0, 5000, "127.0.0.1", listing(&[], &["a&b.mp4"]));
    let body = body_of(&resp);
    assert!(
        body.contains("a&amp;amp;b.mp4"),
        "amp escaping changed:\n{}",
        &body[..body.len().min(600)]
    );
}

#[test]
fn browse_wire_has_no_raw_markup() {
    let resp =
        generate_browse_response("", 0, 5000, "127.0.0.1", listing(&[], &["q'x.mp4", "a&b.mp4"]));
    let body = body_of(&resp).to_string();
    for needle in ["q'x.mp4", "q\"x"] {
        assert!(
            !body.contains(needle),
            "raw {} in wire: {}",
            needle,
            &body[..body.len().min(400)]
        );
    }
}

#[test]
fn a_whole_reply_is_as_expected() {
    let (resp, dirs) = generate_browse_response_inner(
        "movies/",
        0,
        5000,
        "10.0.0.7",
        listing(&["b & c", "action"], &["caf\u{e9}.mp4"]),
    );
    assert_eq!(dirs, ["action", "b & c"]);
    let soap = concat_all(&[
        "<?xml version=\"1.0\" encoding=\"utf-8\"?><s:Envelope xmlns:s=\"http://schemas.xmlsoap.org/soap/envelope/\" s:encodingStyle=\"http://schemas.xmlsoap.org/soap/encoding/\"><s:Body><u:BrowseResponse xmlns:u=\"urn:schemas-upnp-org:service:ContentDirectory:1\"><Result>",
        "&lt;DIDL-Lite xmlns:dc=\"http://purl.org/dc/elements/1.1/\" xmlns:upnp=\"urn:schemas-upnp-org:metadata-1-0/upnp/\" xmlns=\"urn:schemas-upnp-org:metadata-1-0/DIDL-Lite/\"&gt;",
        "&lt;container id=\"movies/action/\" parentID=\"movies//\" restricted=\"1\" searchable=\"1\" childCount=\"0\"&gt;&lt;dc:title&gt;action&lt;/dc:title&gt;&lt;upnp:class&gt;object.container.storageFolder&lt;/upnp:class&gt;&lt;upnp:storageUsed&gt;-1&lt;/upnp:storageUsed&gt;&lt;/container&gt;",
        "&lt;container id=\"movies/b &amp;amp; c/\" parentID=\"movies//\" restricted=\"1\" searchable=\"1\" childCount=\"0\"&gt;&lt;dc:title&gt;b &amp;amp; c&lt;/dc:title&gt;&lt;upnp:class&gt;object.container.storageFolder&lt;/upnp:class&gt;&lt;upnp:storageUsed&gt;-1&lt;/upnp:storageUsed&gt;&lt;/container&gt;",
        "&lt;item id=\"movies/caf&eacute;.mp4\" parentID=\"movies/\" restricted=\"1\" searchable=\"1\"&gt;&lt;dc:title&gt;caf\u{e9}.mp4&lt;/dc:title&gt;&lt;upnp:class&gt;object.item.videoItem&lt;/upnp:class&gt;&lt;res protocolInfo=\"http-get:*:video/mp4:*\"&gt;http://10.0.0.7:8200/movies/caf&eacute;.mp4&lt;/res&gt;&lt;/item&gt;",
        "&lt;/DIDL-Lite&gt;</Result><NumberReturned>3</NumberReturned><TotalMatches>3</TotalMatches><UpdateID>0</UpdateID></u:BrowseResponse></s:Body></s:Envelope>",
    ]);
    let expected = format!(
        "HTTP/1.1 200 OK\r\nConnection: Keep-Alive\r\nContent-Type: text/xml;\r\nContent-Length: {}\r\nServer: RustyDLNA DLNADOC/1.50 UPnP/1.0 RustyDLNA7/1.3.0\r\n\r\n{}",
        soap.len(),
        soap
    );
    assert_eq!(resp, expected);
}

fn concat_all(parts: &[&str]) -> String {
    parts.concat()
}

#[test]
fn an_empty_directory_gives_an_empty_listing() {
    // There is nothing to page through, so that any page may be asked for.
    let resp = generate_browse_response("empty/", u32::MAX, u32::MAX, "127.0.0.1", Listing::new());
    assert!(body_of(&resp).contains("<NumberReturned>0</NumberReturned><TotalMatches>0<"));
    assert!(!resp.contains("&lt;item") && !resp.contains("&lt;container"));
}

#[test]
fn pages_join_to_the_whole() {
    fn entries(start: u32, count: u32) -> (String, bool) {
        let l = listing(&["d1", "d0"], &["f2", "f0", "f1"]);
        let resp = generate_browse_response("x/", start, count, "h", l);
        let body = body_of(&resp).to_string();
        let from = body.find("DIDL-Lite/\"&gt;").unwrap() + "DIDL-Lite/\"&gt;".len();
        let to = body.find("&lt;/DIDL-Lite&gt;").unwrap();
        let left = 5u32.saturating_sub(start);
        let shown = format!("<NumberReturned>{}<", left.min(count));
        (body[from..to].to_string(), body.contains(&shown))
    }
    let whole = entries(0, 5000).0;
    assert_eq!(whole.matches("&lt;container id").count(), 2);
    assert_eq!(whole.matches("&lt;item id").count(), 3);
    for cut in 0..6u32 {
        let (a, a_count) = entries(0, cut);
        let (b, b_count) = entries(cut, 5000);
        assert_eq!(format!("{}{}", a, b), whole, "cut at {}", cut);
        assert!(a_count && b_count, "cut at {}", cut);
    }
    assert_eq!(entries(9, 3).0, "");
}

#[test]
fn listings_do_not_depend_on_the_order_of_the_names() {
    let a = generate_browse_response(
        "",
        0,
        5000,
        "h",
        listing(&["b", "a", "B"], &["z", "\u{e9}", "y", "\u{65e5}", ""]),
    );
    let b = generate_browse_response(
        "",
        0,
        5000,
        "h",
        listing(&["B", "b", "a"], &["", "\u{65e5}", "y", "\u{e9}", "z"]),
    );
    assert_eq!(a, b);
}

#[test]
fn names_are_sorted_as_strings_are() {
    let names: Vec<String> = [
        "b", "", "a", "ab", "B", "\u{e9}", "z", "\u{1f600}", "\u{ffff}", "a", "a b", "a/b",
    ]
    .iter()
    .map(|s| s.to_string())
    .collect();
    let mut expected = names.clone();
    expected.sort_unstable();
    assert_eq!(sort_names(names), expected);
    assert!(le(b"", b"a") && le(b"a", b"a") && le(b"a", b"ab") && le(b"ab", b"b"));
    assert!(!le(b"a", b"") && !le(b"ab", b"a") && !le(b"\xff", b"a"));
}

#[test]
fn the_shown_path_keeps_one_trailing_slash() {
    for (path, shown) in [
        ("", ""),
        ("movies/", "movies/"),
        ("movies//", "movies/"),
        ("movies", "movies"),
        ("movies\\", "movies/"),
        ("my%20dir/", "my dir/"),
        ("../", ""),
        ("a/../../b/", "b/"),
        ("64%24/", "64$/"),
    ] {
        assert_eq!(shown_path(path), shown, "{:?}", path);
    }
}

#[test]
fn a_path_without_a_slash_runs_into_the_names() {
    let resp = generate_browse_response("movies", 0, 5000, "h", listing(&[], &["apple.mp4"]));
    assert!(resp.contains("&lt;item id=\"moviesapple.mp4\" parentID=\"movies\""));
}

#[test]
fn a_listed_directory_is_browsed_under_its_id() {
    let resp = generate_browse_response("a/", 0, 5000, "h", listing(&["R&B (live)"], &[]));
    assert!(resp.contains("&lt;container id=\"a/R&amp;amp;B (live)/\""));
    assert_eq!(browse_target("a/R&B (live)/", "/media"), "/media/a/R&B (live)");
    assert_eq!(shown_path("a/R&B (live)/"), "a/R&B (live)/");
}
