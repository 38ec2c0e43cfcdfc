use rustydlna7::bytes::{bytes_at, bytes_equal, decimal_digits, find_byte, find_bytes, push_u64, put_slice};
use rustydlna7::framing::{
    classify, header_time_left, headers_complete, rhunt_complete, Method, ReadEvent, ReadStep,
    RequestBuffer, HEADER_DEADLINE_NANOS, REQUEST_LIMIT,
};
use rustydlna7::request::{contains_sortcaps, extract_object_id, parse_range_header};

const RANGE_CORPUS: &[&str] = &[
    "GET /root.mp4 HTTP/1.1\r\nHost: x\r\n\r\n",
    "GET /root.mp4 HTTP/1.1\r\nHost: x\r\nRange: bytes=0-\r\n\r\n",
    "GET /root.mp4 HTTP/1.1\r\nHost: x\r\nRange: bytes=10-\r\n\r\n",
    "GET /root.mp4 HTTP/1.1\r\nHost: x\r\nRange: bytes=1023-\r\n\r\n",
    "GET /root.mp4 HTTP/1.1\r\nHost: x\r\nRange: bytes=99999-\r\n\r\n",
    "GET /root.mp4 HTTP/1.1\r\nHost: x\r\nRange: bytes=5-10\r\n\r\n",
    "GET /root.mp4 HTTP/1.1\r\nHost: x\r\nRange: bytes=-10\r\n\r\n",
    "GET /root.mp4 HTTP/1.1\r\nHost: x\r\nRange: bytes=abc-\r\n\r\n",
    "GET /root.mp4 HTTP/1.1\r\nHost: x\r\nRange: bytes=10\r\n\r\n",
    "GET /root.mp4 HTTP/1.1\r\nHost: x\r\nrange: bytes=5-\r\n\r\n",
    "GET /root.mp4 HTTP/1.1\r\nHost: x\r\nRange: bytes=+5-\r\n\r\n",
    "GET /root.mp4 HTTP/1.1\r\nHost: x\r\nRange: bytes=007-\r\n\r\n",
    "GET /root.mp4 HTTP/1.1\r\nHost: x\r\nRange: bytes=18446744073709551615-\r\n\r\n",
    "GET /root.mp4 HTTP/1.1\r\nHost: x\r\nRange: bytes=18446744073709551616-\r\n\r\n",
    "GET /root.mp4 HTTP/1.1\r\nHost: x\r\nRange: bytes= 5-\r\n\r\n",
    "GET /root.mp4 HTTP/1.1\r\nHost: x\r\nRange: bytes=5a-\r\n\r\n",
    "GET /root.mp4 HTTP/1.1\r\nHost: x\r\nRange: bytes=-\r\n\r\n",
    "GET /a.mp4 HTTP/1.1\r\nHost: 127.0.0.1\r\nRange: bytes=10-\r\nX-Client: VLC/3.0\r\n\r\n",
];

const RANGE_EXPECTED: &[u64] = &[
    0, 0, 10, 1023, 99999, 5, 0, 0, 0, 0, 5, 7, 18446744073709551615, 0, 0,
    0, 0, 10,
];

const SORTCAPS_CORPUS: &[&[u8]] = &[
    b"POST /ctl/ContentDir HTTP/1.1\r\nHost: x\r\n\r\n<s:Envelope><s:Body><ObjectID>0</ObjectID></s:Body></s:Envelope>",
    b"POST /ctl/ContentDir HTTP/1.1\r\nHost: x\r\n\r\n<s:Envelope><s:Body><u:GetSortCapabilities></u:GetSortCapabilities></s:Body></s:Envelope>",
    b"POST /ctl/ContentDir HTTP/1.1\r\nHost: x\r\n\r\n<s:Envelope><s:Body><u:Foo>no oid here, padding padding padding</u:Foo></s:Body></s:Envelope>",
    b"POST /ctl/ContentDir HTTP/1.1\r\nHost: x\r\n\r\n",
    b"GET /root.mp4 HTTP/1.1\r\nHost: x\r\n\r\n",
    b"GetSortCapabilities",
    b"GetSortCapabilitie",
    b"XGetSortCapabilities",
    b"GetSortCapabilitiesGetSortCapabilities",
];

const SORTCAPS_EXPECTED: &[bool] =
    &[false, true, false, false, false, true, false, true, true];

const OID_CORPUS: &[&[u8]] = &[
    b"<ObjectID>0</ObjectID>",
    b"<ObjectID>movies/</ObjectID>",
    b"<ObjectID>64$movies/</ObjectID>",
    b"<ObjectID></ObjectID>",
    b"<ObjectID>0</ObjectID_missing>",
    b"<ObjectID>0",
    b"<ObjectID",
    b"<objectid>0</objectid>",
    b"<ObjectID foo=\"bar\">movies/</ObjectID>",
    b"<ObjectID>GetSortCapabilities</ObjectID>",
    b"<ObjectID> 0 </ObjectID>",
    b"<ObjectID>movies/</ObjectID><ObjectID>0</ObjectID>",
    b"no oid here, but GetSortCapabilities is present",
    b"no oid here",
    b"",
    b"ObjectID",
    b"ObjectID>",
    b"ObjectID><",
    b"xxObjectID>y<",
    b"OObjectID>q</ObjectID>",
    b"<ObjectID>a>b</ObjectID>",
    b"<ObjectID><</ObjectID>",
    b"<ObjectID>>",
];

const OID_EXPECTED: &[&str] = &[
    "0",
    "movies/",
    "64$movies/",
    "",
    "0",
    "",
    "",
    "",
    "movies/",
    "GetSortCapabilities",
    " 0 ",
    "movies/",
    "",
    "",
    "",
    "",
    "",
    "",
    "y",
    "q",
    "a>b",
    "",
    "",
];

fn chunked(req: &[u8], chunk: usize) -> Vec<Vec<u8>> {
    req.chunks(chunk).map(|c| c.to_vec()).collect()
}

/// Feeds reads to a request buffer until it is complete, and returns how many
/// bytes it then holds. A buffer that is closed gives `None`.
fn feed_live(chunks: &[&[u8]]) -> Option<usize> {
    let mut buf = RequestBuffer::new();
    for c in chunks {
        match buf.on_read(ReadEvent::Data(c)) {
            ReadStep::Dispatch => return Some(buf.request().len()),
            ReadStep::Close => return None,
            ReadStep::More => {}
        }
    }
    None
}

#[test]
fn correctness_range() {
    assert_eq!(RANGE_CORPUS.len(), RANGE_EXPECTED.len(), "table drift");
    for (r, expected) in RANGE_CORPUS.iter().zip(RANGE_EXPECTED.iter()) {
        assert_eq!(&parse_range_header(r.as_bytes()), expected, "range {:?}", r);
    }
    // Non-UTF8 range values fall back to 0 like the lossy+parse path.
    let bad1 = b"GET /r.mp4 HTTP/1.1\r\nHost: x\r\nRange: bytes=\xFF-".to_vec();
    let bad2 = b"GET /r.mp4 HTTP/1.1\r\nHost: x\r\nRange: bytes=1\xFF2-".to_vec();
    assert_eq!(parse_range_header(&bad1), 0, "range non-utf8");
    assert_eq!(parse_range_header(&bad2), 0, "range non-utf8 mid");
}

#[test]
fn correctness_sortcaps_scan() {
    assert_eq!(SORTCAPS_CORPUS.len(), SORTCAPS_EXPECTED.len(), "table drift");
    for (r, expected) in SORTCAPS_CORPUS.iter().zip(SORTCAPS_EXPECTED.iter()) {
        assert_eq!(&contains_sortcaps(r), expected, "sortcaps {:?}", r);
    }
}

#[test]
fn correctness_object_id() {
    assert_eq!(OID_CORPUS.len(), OID_EXPECTED.len(), "table drift");
    for (body, expected) in OID_CORPUS.iter().zip(OID_EXPECTED.iter()) {
        let mut req = b"POST /ctl/ContentDir HTTP/1.1\r\nHost: x\r\n\r\n".to_vec();
        req.extend_from_slice(body);
        assert_eq!(extract_object_id(&req), expected.as_bytes(), "oid {:?}", body);
    }
}

#[test]
fn correctness_header_build() {
    // push_u64 renders exactly like format!("{}", v) for all u64.
    for v in [
        0u64,
        1,
        9,
        10,
        99,
        100,
        1023,
        1024,
        65535,
        1_000_000,
        u32::MAX as u64,
        u64::MAX / 10,
        u64::MAX - 1,
        u64::MAX,
    ] {
        let mut buf = [0u8; 32];
        let mut p = 0usize;
        push_u64(&mut buf, &mut p, v);
        assert_eq!(&buf[..p], format!("{}", v).as_bytes(), "push_u64 {}", v);
    }
    // 206 headers byte-identical to the format! reference, incl. the
    // empty-file (0-0/0) and range==size inverted quirks.
    for (range, size) in [
        (0u64, 1024u64),
        (10, 1024),
        (1023, 1024),
        (1024, 1024),
        (0, 0),
        (0, 1),
        (0, 9),
        (5, 200),
        (1023, 262_144),
        (0, u64::MAX),
        (7, u64::MAX),
        (u64::MAX, u64::MAX),
    ] {
        let expected = format!(
            "HTTP/1.1 206 Partial Content\r\nContent-Range: bytes {}-{}/{}\r\nContent-Type: video/mp4\r\nContent-Length: {}\r\n\r\n",
            range,
            size.saturating_sub(1),
            size,
            size - range
        );
        let mut buf = [0u8; 256];
        let mut p = 0usize;
        put_slice(&mut buf, &mut p, b"HTTP/1.1 206 Partial Content\r\nContent-Range: bytes ");
        push_u64(&mut buf, &mut p, range);
        put_slice(&mut buf, &mut p, b"-");
        push_u64(&mut buf, &mut p, size.saturating_sub(1));
        put_slice(&mut buf, &mut p, b"/");
        push_u64(&mut buf, &mut p, size);
        put_slice(&mut buf, &mut p, b"\r\nContent-Type: video/mp4\r\nContent-Length: ");
        push_u64(&mut buf, &mut p, size - range);
        put_slice(&mut buf, &mut p, b"\r\n\r\n");
        assert_eq!(&buf[..p], expected.as_bytes(), "header {:?}/{:?}", range, size);
    }
}

#[test]
fn correctness_header_framing() {
    // Detection position must not depend on packet chunking: the first
    // completed prefix wins no matter how reads split the stream.
    let bodies: &[&[u8]] = &[
        b"GET /root.mp4 HTTP/1.1\r\nHost: x\r\n\r\n",
        b"POST /ctl/ContentDir HTTP/1.1\r\nHost: x\r\nContent-Length: 70\r\nContent-Type: text/xml\r\n\r\n<body>hello world, this is a longer request body for scanning</body>",
        b"GET /a.mp4 HTTP/1.1\r\nHost: x\r\nX-Pad: AAAA\r\n\r\n",
        b"\r\n\r\n",
        b"xxx\r\n\r\nyyy",
    ];
    for body in bodies {
        let end_of_headers = body
            .windows(4)
            .position(|w| w == b"\r\n\r\n")
            .map(|p| p + 4)
            .expect("corpus has a terminator");
        for chunk in [1usize, 2, 3, 7, 64, 511, 512, 1024, 4096] {
            // Detection fires at the first read boundary at/after the
            // terminator end (a terminator split across reads is still
            // caught thanks to the 3-byte overlap).
            let mut end = 0usize;
            let mut expect = None;
            while end < body.len() {
                end = (end + chunk).min(body.len());
                if end >= end_of_headers {
                    expect = Some(end);
                    break;
                }
            }
            let owned = chunked(body, chunk);
            let refs: Vec<&[u8]> = owned.iter().map(|v| v.as_slice()).collect();
            assert_eq!(feed_live(&refs), expect, "framing chunk={}", chunk);
        }
    }
    // ~3.5KB header block without terminator until the very end.
    let mut big = b"GET /root.mp4 HTTP/1.1\r\nHost: x\r\nX-Pad: ".to_vec();
    big.extend(std::iter::repeat(b'Q').take(3500));
    big.extend_from_slice(b"\r\n\r\n");
    for chunk in [64usize, 511, 512, 1000] {
        let owned = chunked(&big, chunk);
        let refs: Vec<&[u8]> = owned.iter().map(|v| v.as_slice()).collect();
        assert_eq!(feed_live(&refs), Some(big.len()), "big framing chunk={}", chunk);
    }
    // No terminator in 4096 bytes stays silent at every chunking.
    let bare = vec![b'Z'; 4096];
    for chunk in [1usize, 512, 4096] {
        let owned = chunked(&bare, chunk);
        let refs: Vec<&[u8]> = owned.iter().map(|v| v.as_slice()).collect();
        assert_eq!(feed_live(&refs), None, "unterminated chunk={}", chunk);
    }
}

#[test]
fn terminator_scans_agree() {
    for (window, expected) in [
        (&b""[..], false),
        (b"\r\n\r", false),
        (b"\r\n\r\n", true),
        (b"\r\r\n\r\n", true),
        (b"x\r\n\r\ny", true),
        (b"\r\n\n\r\n", false),
        (b"\n\r\n\r\n\r", true),
    ] {
        assert_eq!(rhunt_complete(window), expected, "{:?}", window);
        assert_eq!(headers_complete(window), expected, "{:?}", window);
    }
}

#[test]
fn a_full_buffer_is_answered_if_its_last_bytes_end_the_header() {
    let mut exact = b"GET / HTTP/1.1\r\nX-Pad: ".to_vec();
    exact.resize(REQUEST_LIMIT - 4, b'C');
    exact.extend_from_slice(b"\r\n\r\n");
    let mut buf = RequestBuffer::new();
    assert_eq!(buf.room(), REQUEST_LIMIT);
    assert_eq!(buf.on_read(ReadEvent::Data(&exact[..4000])), ReadStep::More);
    assert_eq!(buf.room(), 96);
    assert_eq!(buf.on_read(ReadEvent::Data(&exact[4000..])), ReadStep::Dispatch);
    assert_eq!(buf.request(), &exact[..]);
}

#[test]
fn a_connection_without_a_request_is_closed() {
    for event in [ReadEvent::Data(&[]), ReadEvent::Failed, ReadEvent::Expired] {
        let mut buf = RequestBuffer::new();
        assert_eq!(buf.on_read(ReadEvent::Data(b"GET /")), ReadStep::More);
        assert_eq!(buf.on_read(event), ReadStep::Close);
        assert_eq!(buf.request(), b"GET /");
    }
}

#[test]
fn the_header_deadline_does_not_move() {
    assert_eq!(header_time_left(0), HEADER_DEADLINE_NANOS);
    assert_eq!(HEADER_DEADLINE_NANOS, 5_000_000_000);
    assert_eq!(header_time_left(4_999_999_999), 1);
    assert_eq!(header_time_left(5_000_000_000), 0);
    assert_eq!(header_time_left(u64::MAX), 0);
}

#[test]
fn methods_are_told_apart_by_case_and_space() {
    assert_eq!(classify(b"GET / HTTP/1.1\r\n\r\n"), Method::Get);
    assert_eq!(classify(b"POST / HTTP/1.1\r\n\r\n"), Method::Post);
    for other in [
        &b""[..],
        b"GET",
        b"GET/",
        b"POST\t",
        b"get / HTTP/1.1",
        b"post / HTTP/1.1",
        b"HEAD / HTTP/1.1",
        b"SUBSCRIBE / HTTP/1.1",
        b" GET /",
    ] {
        assert_eq!(classify(other), Method::Other, "{:?}", other);
    }
}

#[test]
fn a_range_that_was_written_is_read_back() {
    for v in [0u64, 7, 10, 1023, u64::MAX] {
        let mut req = b"GET /f HTTP/1.1\r\nRange: bytes=".to_vec();
        req.extend_from_slice(&decimal_digits(v));
        req.extend_from_slice(b"-5-9\r\nRange: bytes=1-\r\n\r\n");
        assert_eq!(parse_range_header(&req), v);
    }
    assert_eq!(parse_range_header(b"Range: bytes=+"), 0);
    assert_eq!(parse_range_header(b"Range: bytes=++5-"), 0);
    assert_eq!(parse_range_header(b"Range: bytes=10 -"), 0);
}

#[test]
fn an_object_id_that_was_written_is_read_back() {
    let req = b"POST /x HTTP/1.1\r\n\r\n<ObjectID dt=\"string\">a/b c/</ObjectID><ObjectID>0<";
    assert_eq!(extract_object_id(req), b"a/b c/");
}

#[test]
fn numbers_are_written_over_a_buffer_in_place() {
    let mut buf = [b'.'; 8];
    let mut p = 2usize;
    push_u64(&mut buf, &mut p, 305);
    assert_eq!((&buf[..], p), (&b"..305..."[..], 5));
    put_slice(&mut buf, &mut p, b"ab");
    assert_eq!((&buf[..], p), (&b"..305ab."[..], 7));
    assert_eq!(decimal_digits(0), b"0");
    assert_eq!(decimal_digits(u64::MAX), b"18446744073709551615");
}

#[test]
fn byte_searches_find_the_first_occurrence() {
    assert!(bytes_at(b"abcabc", b"ca", 2));
    assert!(!bytes_at(b"abcabc", b"ca", 5));
    assert!(bytes_equal(b"ab", b"ab") && !bytes_equal(b"ab", b"abc"));
    assert_eq!(find_bytes(b"abcabc", b"bc", 0), Some(1));
    assert_eq!(find_bytes(b"abcabc", b"bc", 2), Some(4));
    assert_eq!(find_bytes(b"abcabc", b"bd", 0), None);
    assert_eq!(find_byte(b"abcabc", b'c', 3), Some(5));
    assert_eq!(find_byte(b"abcabc", b'd', 0), None);
}

#[test]
fn a_range_does_not_depend_on_what_follows() {
    let req = b"GET /f HTTP/1.1\r\nRange: bytes=10-\r\n\r\n";
    for rest in [&b""[..], b"GET /g HTTP/1.1\r\nRange: bytes=5-\r\n\r\n", b"-", b"99-"] {
        let mut all = req.to_vec();
        all.extend_from_slice(rest);
        assert_eq!(parse_range_header(&all), 10);
    }
    // A request without a range is another matter.
    assert_eq!(parse_range_header(b"GET /f HTTP/1.1\r\n\r\nRange: bytes=5-\r\n"), 5);
}
