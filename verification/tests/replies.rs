use rustydlna7::browse::{generate_browse_response, Listing};
use rustydlna7::cache::Cache;
use rustydlna7::cli::parse_args;
use rustydlna7::codec::encode;
use rustydlna7::get::{
    answer_get, chunk_len, extract_target, plan_get, resolve_media_path, route, FileReply, Found,
    GetPlan, BODY_CHUNK, HEADER_ROOM, NOT_FOUND, NOT_SATISFIABLE, WRITE_TIMEOUT_SECS,
};
use rustydlna7::pages::{
    bake_static, ssdp_response, AppConfig, StaticPage, CONNECTION_MGR_XML, CONTENT_DIR_XML,
    ROOT_DESC_XML, XML_CAPS, X_MS_MEDIA_RECEIVER_REGISTRAR_XML,
};
use rustydlna7::post::{answer_probe, plan_post, probed_target, strip_id, PostPlan};
use rustydlna7::precache::{Precache, PAGE_SIZE};
use rustydlna7::framing::{REQUEST_LIMIT, HEADER_DEADLINE_NANOS};

const IP: &str = "127.0.0.1";

fn config() -> AppConfig {
    AppConfig::new(IP, "/media")
}

fn get(path: &str) -> Vec<u8> {
    format!("GET {} HTTP/1.1\r\nHost: {}\r\n\r\n", path, IP).into_bytes()
}

fn get_with(path: &str, header: &str) -> Vec<u8> {
    format!("GET {} HTTP/1.1\r\nHost: {}\r\n{}\r\n\r\n", path, IP, header).into_bytes()
}

fn post(target: &str, body: &str) -> Vec<u8> {
    format!(
        "POST {} HTTP/1.1\r\nHost: {}\r\nContent-Length: {}\r\nContent-Type: text/xml\r\n\r\n{}",
        target,
        IP,
        body.len(),
        body
    )
    .into_bytes()
}

fn browse(id: &str) -> Vec<u8> {
    post(
        "/ctl/ContentDir",
        &format!("<s:Envelope><s:Body><ObjectID>{}</ObjectID></s:Body></s:Envelope>", id),
    )
}

fn opened(req: &[u8]) -> String {
    match plan_get(req, &config()) {
        GetPlan::Open(path) => path,
        GetPlan::Reply(reply) => format!("reply {}", reply),
    }
}

/// The reply to a request for a file of `size` bytes: what is sent before the
/// body, and which bytes of the file are.
fn served(req: &[u8], found: Found) -> (String, u64, u64) {
    let mut header = [0u8; HEADER_ROOM];
    match answer_get(req, found, &mut header) {
        FileReply::Refuse(reply) => (reply.to_string(), 0, 0),
        FileReply::Send { header_len, offset, length } => {
            (String::from_utf8(header[..header_len].to_vec()).unwrap(), offset, length)
        }
    }
}

/// What the directory at `path` holds, for a small media directory.
fn holds(path: &str) -> Listing {
    let (dirs, files): (&[&str], &[&str]) = match path {
        "/media/" => (&["my dir", "movies", "empty", "a&bdir"], &["root.mp4", "my movie.mp4"]),
        "/media/movies" => (&["action"], &["zebra.mp4", "film.mp4", "apple.mp4"]),
        "/media/movies/action" => (&[], &["deep.mp4"]),
        "/media/my dir" => (&[], &["inner.mp4"]),
        "/media/a&bdir" => (&[], &["inner2.mp4"]),
        _ => (&[], &[]),
    };
    let mut l = Listing::new();
    for d in dirs {
        l.note(d.to_string(), true);
    }
    for f in files {
        l.note(f.to_string(), false);
    }
    l
}

fn walked() -> (Cache, u64) {
    let mut walk = Precache::new();
    loop {
        let target = match walk.pending() {
            Some(path) => resolve_media_path("/media", path),
            None => break,
        };
        walk = walk.absorb(IP, holds(&target));
    }
    let count = walk.dir_count();
    (walk.finish(), count)
}

fn listing_of(path: &str) -> String {
    let target = resolve_media_path("/media", path);
    generate_browse_response(path, 0, PAGE_SIZE, IP, holds(&target))
}

/// What is sent for a POST request, or what is probed for it.
fn posted(req: &[u8], cache: &Cache) -> String {
    match plan_post(req, cache, &config()) {
        PostPlan::Ignore => "".to_string(),
        PostPlan::Reply(reply) => reply.to_string(),
        PostPlan::Probe { path, id } => format!("probe {} for {}", path, id),
    }
}

#[test]
fn source_static_routes_and_helpers_locked() {
    // Four fixed pages, each at its own path.
    for (path, page) in [
        ("/ContentDir.xml", StaticPage::ContentDir),
        ("/X_MS_MediaReceiver_Registrar.xml", StaticPage::Registrar),
        ("/ConnectionMgr.xml", StaticPage::ConnectionMgr),
        ("/rootDesc.xml", StaticPage::RootDesc),
    ] {
        assert_eq!(route(path.as_bytes()), Some(page), "missing static route: {}", path);
    }
    let baked = bake_static("xy");
    assert!(
        baked.contains("Content-Length: 2") && baked.contains("Content-Type: text/xml"),
        "bake_static header shape changed"
    );
    let ssdp = ssdp_response("{}");
    for piece in [
        "LOCATION: http://{}:8200/rootDesc.xml",
        "SERVER: DLNA/1.0 DLNADOC/1.50 UPnP/1.0 RustyDLNA7/1.3.0",
        "ST: urn:schemas-upnp-org:device:MediaServer:1",
        "USN: uuid:4d696e6e-444c-164e-9d41-b827eb96c6c2",
    ] {
        assert!(ssdp.contains(piece), "SSDP template changed: {}", piece);
    }
    let (cache, _) = walked();
    let root = posted(&browse("0"), &cache);
    for piece in [
        "Connection: Keep-Alive",
        "Content-Type: text/xml;",
        "Server: RustyDLNA DLNADOC/1.50 UPnP/1.0 RustyDLNA7/1.3.0",
    ] {
        assert!(root.contains(piece), "Browse header changed: {}", piece);
    }
    let (header, _, _) = served(&get("/root.mp4"), Found::File(9));
    assert!(header.contains("206 Partial Content"), "file streaming must always answer 206");
    assert!(
        header.contains(&format!("Content-Range: bytes {}-{}/{}", 0, 8, 9)),
        "Content-Range template changed"
    );
    assert!(header.contains("Content-Type: video/mp4"), "stream Content-Type changed");
    assert!(NOT_FOUND.contains("HTTP/1.1 404 NOT FOUND"), "404 status line changed");
    assert!(
        NOT_SATISFIABLE.contains("HTTP/1.1 416 Range Not Satisfiable"),
        "416 status line changed"
    );
    assert!(cache.get(b"0").is_some(), "root cache key 0 missing");
    assert!(cache.get(b"64$0").is_some(), "64$0 alias missing");
    assert_eq!(strip_id(b"64$movies/"), b"movies/", "64$ stripping logic changed");
    assert_eq!(
        served(&get_with("/f", "range: bytes=5-"), Found::File(9)).1,
        0,
        "Range header search changed (must stay case-sensitive)"
    );
    assert!(
        XML_CAPS.contains(
            "dc:title,dc:date,upnp:class,upnp:album,upnp:episodeNumber,upnp:originalTrackNumber"
        ),
        "SortCaps changed"
    );
    assert!(root.contains(":8200"), "TCP port changed");
    assert_eq!(HEADER_DEADLINE_NANOS, 5_000_000_000, "read timeout changed");
    assert_eq!(WRITE_TIMEOUT_SECS, 5, "write timeout changed");
    for piece in [
        "object.container.storageFolder",
        "object.item.videoItem",
        "http-get:*:video/mp4:*",
        "childCount",
        "storageUsed",
        "<NumberReturned>",
        "<TotalMatches>",
        "<UpdateID>0</UpdateID>",
        "DIDL-Lite",
        "restricted",
        "searchable",
    ] {
        assert!(root.contains(piece), "DIDL template changed: {}", piece);
    }
    assert_eq!(REQUEST_LIMIT, 4096, "request buffer size changed");
    assert_eq!(BODY_CHUNK, 16 * 1024, "chunk size changed");
    let (empty, _, _) = served(&get("/empty.mp4"), Found::File(0));
    assert!(empty.contains("bytes 0-0/0"), "Content-Range end calculation changed");
    // The second chance for an id that begins like the prefix.
    let mut odd = Cache::new();
    odd.insert(b"64$x/".to_vec(), "second".to_string());
    assert_eq!(posted(&browse("64$x/"), &odd), "second", "cache second-chance changed");
    assert_eq!(PAGE_SIZE, 5000, "both listings must use 0, 5000");
}

#[test]
fn fixed_pages_are_sent_with_their_length() {
    let config = config();
    for (path, page, body, marker) in [
        ("/rootDesc.xml", StaticPage::RootDesc, ROOT_DESC_XML, "MediaServer:1"),
        ("/ContentDir.xml", StaticPage::ContentDir, CONTENT_DIR_XML, "GetSearchCapabilities"),
        ("/ConnectionMgr.xml", StaticPage::ConnectionMgr, CONNECTION_MGR_XML, "GetProtocolInfo"),
        (
            "/X_MS_MediaReceiver_Registrar.xml",
            StaticPage::Registrar,
            X_MS_MEDIA_RECEIVER_REGISTRAR_XML,
            "IsAuthorized",
        ),
    ] {
        let expected = format!(
            "HTTP/1.1 200 OK\r\nContent-Length: {}\r\nContent-Type: text/xml\r\n\r\n{}",
            body.len(),
            body
        );
        assert!(body.contains(marker));
        assert_eq!(config.page(page), expected);
        let req = get_with(path, "Range: bytes=5-");
        match plan_get(&req, &config) {
            GetPlan::Reply(reply) => assert_eq!(reply, expected),
            GetPlan::Open(opened) => panic!("{} opened {}", path, opened),
        }
    }
    assert_eq!(config.local_ip(), IP);
    assert_eq!(config.dir_path(), "/media");
    // The length counts bytes, not characters.
    assert!(bake_static("\u{e9}").contains("Content-Length: 2\r\n"));
}

#[test]
fn fixed_pages_need_their_exact_path() {
    for path in ["/rootDesc.xml?x=1", "/rootDesc.xml/", "/ROOTDESC.XML", "/%72ootDesc.xml", "/"] {
        assert_eq!(route(path.as_bytes()), None, "{}", path);
    }
    assert_eq!(opened(&get("/%72ootDesc.xml")), "/media/rootDesc.xml");
}

#[test]
fn targets_end_at_the_next_space() {
    assert_eq!(extract_target(b"GET /a b HTTP/1.1\r\n\r\n"), b"/a");
    assert_eq!(extract_target(b"GET  HTTP/1.1\r\n\r\n"), b"");
    assert_eq!(extract_target(b"GET /root.mp4\r\n\r\n"), b"");
    assert_eq!(extract_target(b"GET "), b"");
    // A second request behind the first is not looked at.
    let mut two = get("/root.mp4");
    two.extend_from_slice(&get("/movies/film.mp4"));
    assert_eq!(opened(&two), "/media/root.mp4");
}

#[test]
fn files_are_opened_inside_the_media_directory() {
    for (path, expected) in [
        ("/root.mp4", "/media/root.mp4"),
        ("/root.mp4/", "/media/root.mp4"),
        ("//movies///film.mp4", "/media/movies/film.mp4"),
        ("/../../root.mp4", "/media/root.mp4"),
        ("/..%5c..%2fetc/passwd", "/media/etc/passwd"),
        ("/..\\root.mp4", "/media/root.mp4"),
        ("/%252e%252e%2fx", "/media/%2e%2e/x"),
        ("/a&amp;amp;b.mp4", "/media/a&b.mp4"),
        ("/plus%2Bfile.mp4", "/media/plus+file.mp4"),
        ("/root.mp4?x=1", "/media/root.mp4?x=1"),
        ("/caf&eacute;/song.mp4", "/media/caf\u{e9}/song.mp4"),
        ("/", "/media/"),
        ("http://127.0.0.1:8200/root.mp4", "/media/http:/127.0.0.1:8200/root.mp4"),
    ] {
        assert_eq!(opened(&get(path)), expected, "{}", path);
    }
}

#[test]
fn bytes_that_are_no_text_are_replaced() {
    assert_eq!(opened(b"GET /a\xff\xfeb.mp4 HTTP/1.1\r\n\r\n"), "/media/a\u{fffd}\u{fffd}b.mp4");
    assert_eq!(opened("GET /\u{65e5}.mp4 HTTP/1.1\r\n\r\n".as_bytes()), "/media/\u{65e5}.mp4");
    let (cache, _) = walked();
    let mut req = b"POST / HTTP/1.1\r\n\r\n<ObjectID>d\xff/<".to_vec();
    assert_eq!(posted(&req, &cache), "probe /media/d\u{fffd} for d\u{fffd}/");
    req.clear();
    assert_eq!(posted(&req, &cache), "");
}

#[test]
fn advertised_paths_reopen_their_file() {
    for path in ["my movie.mp4", "a&b (1).mp4", "%2e.mp4", "caf\u{e9}/x, y#1?.mp4", "q'x.mp4"] {
        let url = format!("/{}", encode(path));
        let once = url.replace("&amp;", "&");
        let twice = once.replace("&amp;", "&");
        for sent in [url, once, twice] {
            assert_eq!(opened(&get(&sent)), format!("/media/{}", path), "{}", sent);
        }
    }
}

#[test]
fn files_are_sent_from_the_byte_asked_for() {
    let file = Found::File(1024);
    for (range, start) in [
        ("X-None: 1", 0u64),
        ("Range: bytes=0-", 0),
        ("Range: bytes=10-", 10),
        ("Range: bytes=5-10", 5),
        ("Range: bytes=-10", 0),
        ("Range: bytes=1023-", 1023),
        ("Range: bytes=1024-", 1024),
        ("Range: bytes=00010-", 10),
        ("Range: bytes=10-20-30", 10),
        ("Range:bytes=5-", 0),
    ] {
        let (header, offset, length) = served(&get_with("/root.mp4", range), file);
        let expected = format!(
            "HTTP/1.1 206 Partial Content\r\nContent-Range: bytes {}-1023/1024\r\nContent-Type: video/mp4\r\nContent-Length: {}\r\n\r\n",
            start,
            1024 - start
        );
        assert_eq!((header, offset, length), (expected, start, 1024 - start), "{}", range);
    }
    assert_eq!(
        served(&get("/empty.mp4"), Found::File(0)).0,
        "HTTP/1.1 206 Partial Content\r\nContent-Range: bytes 0-0/0\r\nContent-Type: video/mp4\r\nContent-Length: 0\r\n\r\n"
    );
    let (header, _, length) = served(&get("/huge.mp4"), Found::File(u64::MAX));
    assert!(header.contains("bytes 0-18446744073709551614/18446744073709551615\r\n"));
    assert_eq!(length, u64::MAX);
}

#[test]
fn what_cannot_be_sent_is_refused() {
    let beyond = get_with("/root.mp4", "Range: bytes=1025-");
    assert_eq!(
        served(&beyond, Found::File(1024)).0,
        "HTTP/1.1 416 Range Not Satisfiable\r\n\r\n"
    );
    assert_eq!(served(&beyond, Found::Nothing).0, "HTTP/1.1 404 NOT FOUND\r\n\r\n");
    assert_eq!(served(&get("/movies/"), Found::Directory).0, "HTTP/1.1 404 NOT FOUND\r\n\r\n");
}

#[test]
fn chunks_are_no_larger_than_what_is_left() {
    for (left, n) in [(0u64, 0usize), (1, 1), (16383, 16383), (16384, 16384), (u64::MAX, 16384)] {
        assert_eq!(chunk_len(left), n);
    }
}

#[test]
fn every_directory_is_listed_once_at_the_start() {
    let (cache, count) = walked();
    assert_eq!(count, 6);
    for path in ["", "movies/", "movies/action/", "my dir/", "a&bdir/", "empty/"] {
        let listing = listing_of(path);
        let id = if path.is_empty() { "0" } else { path };
        assert_eq!(posted(&browse(id), &cache), listing, "{:?}", path);
        assert_eq!(posted(&browse(&format!("64${}", id)), &cache), listing, "{:?}", path);
    }
    assert_eq!(posted(&browse("64$64$0"), &cache), listing_of(""));
    assert_eq!(cache.get(b""), None);
    assert_eq!(cache.get(b"movies"), None);
    let movies = listing_of("movies/");
    assert!(movies.contains("&lt;container id=\"movies/action/\" parentID=\"movies//\""));
    assert!(movies.contains("<NumberReturned>4</NumberReturned><TotalMatches>4</TotalMatches>"));
}

#[test]
fn an_empty_media_directory_is_one_directory() {
    let walk = Precache::new();
    assert_eq!(walk.pending(), Some(""));
    let walk = walk.absorb(IP, Listing::new());
    assert_eq!(walk.pending(), None);
    assert_eq!(walk.dir_count(), 1);
    let cache = walk.finish();
    assert!(posted(&browse("0"), &cache).contains("<NumberReturned>0</NumberReturned>"));
}

#[test]
fn directories_wait_in_the_order_of_their_names() {
    let mut l = Listing::new();
    l.note("b".to_string(), true);
    l.note("a".to_string(), true);
    l.note("f".to_string(), false);
    let walk = Precache::new().absorb(IP, l);
    assert_eq!(walk.pending(), Some("a/"));
    let mut l = Listing::new();
    l.note("x".to_string(), true);
    let walk = walk.absorb(IP, l);
    assert_eq!(walk.pending(), Some("b/"));
    let walk = walk.absorb(IP, Listing::new());
    assert_eq!(walk.pending(), Some("a/x/"));
}

#[test]
fn posts_are_answered_by_object_id_alone() {
    let (cache, _) = walked();
    let root = listing_of("");
    for target in ["/foo", "/", "/rootDesc.xml"] {
        let body = "<?xml?><ObjectID>0</ObjectID>";
        assert_eq!(posted(&post(target, body), &cache), root);
    }
    for body in [
        "<ObjectID>0</ObjectID><StartingIndex>5</StartingIndex><RequestedCount>1</RequestedCount>",
        "<ObjectID>0</ObjectID_missing>",
        "<ObjectID foo=\"bar\">0</ObjectID><ObjectID>movies/</ObjectID>",
        "<ObjectID>0</ObjectID><u:GetSortCapabilities/>",
    ] {
        assert_eq!(posted(&post("/ctl", body), &cache), root, "{}", body);
    }
    assert_eq!(
        posted(&browse("GetSortCapabilities"), &cache),
        "probe /media/GetSortCapabilities for GetSortCapabilities"
    );
}

#[test]
fn sort_capabilities_are_answered_without_an_object_id() {
    let (cache, _) = walked();
    let reply = posted(&post("/ctl", "<u:GetSortCapabilities></u:GetSortCapabilities>"), &cache);
    assert_eq!(reply, bake_static(XML_CAPS));
    assert_eq!(reply, config().sort_caps());
    assert!(!reply.contains("Server:"));
    assert_eq!(posted(&post("/ctl", "<u:Foo></u:Foo>"), &cache), "");
    assert_eq!(posted(&post("/ctl", "<ObjectID></ObjectID>"), &cache), "");
    assert_eq!(posted(&post("/ctl", "<ObjectID"), &cache), "");
    assert_eq!(posted(&post("/ctl", "<u:getsortcapabilities/>"), &cache), "");
}

#[test]
fn unknown_ids_are_probed_inside_the_media_directory() {
    let (cache, _) = walked();
    for (id, expected) in [
        ("nosuchdir/", "probe /media/nosuchdir for nosuchdir/"),
        ("64$nosuchdir/", "probe /media/nosuchdir for nosuchdir/"),
        ("my%20dir/", "probe /media/my dir for my dir/"),
        ("64$my%20dir/", "probe /media/my dir for my dir/"),
        ("a&amp;amp;bdir/", "probe /media/a&bdir for a&bdir/"),
        ("64$", "probe /media/ for "),
        ("../", "probe /media/ for ../"),
        ("64$../", "probe /media/ for ../"),
        ("..%5c..%5cetc/", "probe /media/etc for ..\\..\\etc/"),
        ("%252e%252e%2f", "probe /media/%2e%2e for %2e%2e/"),
        (" 0 ", "probe /media/ 0  for  0 "),
    ] {
        assert_eq!(posted(&browse(id), &cache), expected, "{}", id);
    }
}

#[test]
fn only_a_directory_is_listed_after_a_probe() {
    assert_eq!(probed_target("my dir/", Some(true), "/media"), Some("/media/my dir".to_string()));
    assert_eq!(probed_target("root.mp4", Some(false), "/media"), None);
    assert_eq!(probed_target("nosuchdir/", None, "/media"), None);
    // Decoded once more, and still inside.
    assert_eq!(probed_target("%2e%2e/x", Some(true), "/media"), Some("/media/x".to_string()));
}

#[test]
fn later_replies_take_the_place_of_earlier_ones() {
    let mut cache = Cache::new();
    for key in ["m", "b", "z", "", "mm", "a", "b", "z"] {
        cache.insert(key.as_bytes().to_vec(), format!("first {}", key));
    }
    cache.insert(b"b".to_vec(), "second b".to_string());
    assert_eq!(cache.get(b"b"), Some("second b"));
    for key in ["m", "z", "", "mm", "a"] {
        assert_eq!(cache.get(key.as_bytes()), Some(format!("first {}", key).as_str()));
    }
    assert_eq!(cache.get(b"c"), None);
    assert_eq!(cache.get(b"zz"), None);
}

#[test]
fn searches_are_answered_with_the_location() {
    let reply = ssdp_response(IP);
    assert_eq!(reply.len(), 295);
    assert_eq!(
        reply,
        "HTTP/1.1 200 OK\r\nCACHE-CONTROL: max-age=1800\r\nEXT:\r\nLOCATION: http://127.0.0.1:8200/rootDesc.xml\r\nSERVER: DLNA/1.0 DLNADOC/1.50 UPnP/1.0 RustyDLNA7/1.3.0\r\nST: urn:schemas-upnp-org:device:MediaServer:1\r\nUSN: uuid:4d696e6e-444c-164e-9d41-b827eb96c6c2::urn:schemas-upnp-org:device:MediaServer:1\r\n\r\n"
    );
}

#[test]
fn encoded_ids_list_the_same_directory() {
    for path in ["my dir/", "caf\u{e9}/x, y/", "Tom & Jerry/"] {
        let cache = Cache::new();
        let id = encode(path);
        let target = format!("/media/{}", &path[..path.len() - 1]);
        assert_eq!(posted(&browse(&id), &cache), format!("probe {} for {}", target, path));
        assert_eq!(probed_target(path, Some(true), "/media"), Some(target));
    }
}

#[test]
fn the_program_takes_three_arguments() {
    let args = |list: &[&str]| -> Vec<String> { list.iter().map(|s| s.to_string()).collect() };
    match parse_args(&args(&["server", "10.0.0.7", "/media", "239.255.255.250"])) {
        Ok(read) => {
            assert_eq!(read.local_ip, "10.0.0.7");
            assert_eq!(read.dir_path, "/media");
            assert_eq!(read.multicast_ip, "239.255.255.250");
        }
        Err(message) => panic!("{}", message),
    }
    for wrong in [&["server"][..], &["server", "only-one"], &["server", "a", "b", "c", "d"]] {
        match parse_args(&args(wrong)) {
            Ok(_) => panic!("{:?}", wrong),
            Err(message) => assert_eq!(
                message,
                "Usage: server <LOCAL_IP> <MEDIA_DIR_PATH> <MULTICAST_IP>"
            ),
        }
    }
}

#[test]
fn listed_directories_are_answered_by_their_ids() {
    fn unescape(s: &str) -> String {
        s.replace("&lt;", "<")
            .replace("&gt;", ">")
            .replace("&quot;", "\"")
            .replace("&apos;", "'")
            .replace("&amp;", "&")
    }
    let (cache, _) = walked();
    let root = posted(&browse("0"), &cache);
    let mut ids: Vec<String> = Vec::new();
    for part in root.split("&lt;container id=\"").skip(1) {
        let id = part.split('"').next().unwrap();
        ids.push(unescape(&unescape(id)));
    }
    assert_eq!(ids, ["a&bdir/", "empty/", "movies/", "my dir/"]);
    for id in ids {
        assert_eq!(posted(&browse(&id), &cache), listing_of(&id));
    }
}

#[test]
fn names_are_encoded_piece_by_piece() {
    let (dir, name) = ("caf\u{e9} & co/", "x (1)%.mp4");
    assert_eq!(encode(&format!("{}{}", dir, name)), format!("{}{}", encode(dir), encode(name)));
}

#[test]
fn a_probed_directory_is_listed_as_a_kept_one_is() {
    let (cache, _) = walked();
    let kept = posted(&browse("movies/"), &cache);
    assert_eq!(answer_probe("movies/", IP, holds("/media/movies")), kept);
    let mut many = Listing::new();
    for i in 0..5001u32 {
        many.note(format!("{:04}", i), false);
    }
    let reply = answer_probe("many/", IP, many);
    assert!(reply.contains("<NumberReturned>5000</NumberReturned><TotalMatches>5000<"));
    assert!(reply.contains("many/0000") && !reply.contains("many/5000"));
}

#[test]
fn a_directory_that_is_passed_over_is_probed() {
    let mut l = Listing::new();
    l.note("a".to_string(), true);
    l.note("loop".to_string(), true);
    let walk = Precache::new().absorb(IP, l).absorb(IP, Listing::new());
    assert_eq!(walk.pending(), Some("loop/"));
    let walk = walk.pass_over();
    assert_eq!(walk.pending(), None);
    assert_eq!(walk.dir_count(), 2);
    let cache = walk.finish();
    assert!(cache.get(b"a/").is_some());
    assert!(posted(&browse("0"), &cache).contains("&lt;container id=\"loop/\""));
    assert_eq!(posted(&browse("loop/"), &cache), "probe /media/loop for loop/");
}
