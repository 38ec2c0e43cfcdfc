use rustydlna7::codec::{decode, encode, escape_didl, hexv_table, replace_into};
use rustydlna7::sanitize::sanitize_path;
use std::borrow::Cow;

const DECODE_CORPUS: &[&str] = &[
    "",
    "movies/",
    "movies/action/deep.mp4",
    "root.mp4",
    "my%20movie.mp4",
    "paren%281%29.mp4",
    "quote%27mp4.mp4",
    "quote&apos;mp4.mp4",
    "hash%23tag.mp4",
    "comma%2Ctest.mp4",
    "a&amp;amp;b.mp4",
    "a&amp;b.mp4",
    "a&b.mp4",
    "&amp;amp;amp;",
    "caf&eacute;/song.mp4",
    "caf\u{e9}/song.mp4",
    "%2E%2E/root.mp4",
    "../root.mp4",
    "movies/../root.mp4",
    "./root.mp4",
    "//root.mp4",
    "root%.mp4",
    "root%ZZ.mp4",
    "root%2.mp4",
    "%",
    "%2",
    "%41",
    "%2b",
    "%2B",
    "%2F",
    "%00",
    "%2520",
    "%+2",
    "%-2",
    "%\u{e9}",
    "%\u{e9}X",
    "my%2520movie.mp4",
    "plus+file.mp4",
    "plus%2Bfile.mp4",
    "100% sure",
    "\u{e9}",
    "a/b/c/d/e/f/g/h/i/j/k/l/m/n/o/p.mp4",
    "hash#tag.mp4",
    "comma,test.mp4",
    "note.txt",
    "my dir/inner.mp4",
    "a&bdir/inner2.mp4",
    "%41%42%43%20%26%20%27test%27",
];

const DECODE_EXPECTED: &[&str] = &[
    "",
    "movies/",
    "movies/action/deep.mp4",
    "root.mp4",
    "my movie.mp4",
    "paren(1).mp4",
    "quote'mp4.mp4",
    "quote'mp4.mp4",
    "hash#tag.mp4",
    "comma,test.mp4",
    "a&b.mp4",
    "a&b.mp4",
    "a&b.mp4",
    "&",
    "caf\u{e9}/song.mp4",
    "caf\u{e9}/song.mp4",
    "../root.mp4",
    "../root.mp4",
    "movies/../root.mp4",
    "./root.mp4",
    "//root.mp4",
    "root%.mp4",
    "root%ZZ.mp4",
    "root%2.mp4",
    "%",
    "\u{2}",
    "A",
    "+",
    "+",
    "/",
    "\0",
    "%20",
    "\u{2}",
    "%-2",
    "%\u{e9}",
    "%\u{e9}X",
    "my%20movie.mp4",
    "plus+file.mp4",
    "plus+file.mp4",
    "100% sure",
    "\u{e9}",
    "a/b/c/d/e/f/g/h/i/j/k/l/m/n/o/p.mp4",
    "hash#tag.mp4",
    "comma,test.mp4",
    "note.txt",
    "my dir/inner.mp4",
    "a&bdir/inner2.mp4",
    "ABC & 'test'",
];

const ENCODE_CORPUS: &[&str] = &[
    "",
    "movies/",
    "my movie.mp4",
    "a&b.mp4",
    "paren(1).mp4",
    "quote'mp4.mp4",
    "hash#tag.mp4",
    "comma,test.mp4",
    "note.txt",
    "caf\u{e9}",
    "caf\u{e9}/song.mp4",
    "a\"b",
    "x/y.z-foo_bar~",
    "my dir/inner.mp4",
    "a&bdir/",
    "plus+file.mp4",
    "%20",
    "100%",
    "a/b/c/d.mp4",
    "UPPER lower 0123",
];

const ENCODE_EXPECTED: &[&str] = &[
    "",
    "movies/",
    "my%20movie.mp4",
    "a&amp;amp;b.mp4",
    "paren%281%29.mp4",
    "quote%27mp4.mp4",
    "hash%23tag.mp4",
    "comma%2Ctest.mp4",
    "note.txt",
    "caf&eacute;",
    "caf&eacute;/song.mp4",
    "a%22b",
    "x/y.z-foo_bar~",
    "my%20dir/inner.mp4",
    "a&amp;amp;bdir/",
    "plus+file.mp4",
    "%2520",
    "100%25",
    "a/b/c/d.mp4",
    "UPPER%20lower%200123",
];

const SANITIZE_CORPUS: &[&str] = &[
    "",
    "root.mp4",
    "movies/film.mp4",
    "movies/action/deep.mp4",
    "../root.mp4",
    "../../root.mp4",
    "../../etc/passwd",
    "./root.mp4",
    "/",
    "a//b///c",
    "./x/./y",
    "a&b/../c",
    "..",
    ".",
    "...",
    "my dir/inner.mp4",
    "a/b/c/d/e/f/g/h/i/j/k.mp4",
    "movies/../root.mp4",
    "a/../../b",
    "caf\u{e9}/song.mp4",
    "trailing/",
    "/leading/slash",
];

const SANITIZE_EXPECTED: &[&str] = &[
    "",
    "root.mp4",
    "movies/film.mp4",
    "movies/action/deep.mp4",
    "root.mp4",
    "root.mp4",
    "etc/passwd",
    "root.mp4",
    "",
    "a/b/c",
    "x/y",
    "c",
    "",
    "",
    "",
    "my dir/inner.mp4",
    "a/b/c/d/e/f/g/h/i/j/k.mp4",
    "root.mp4",
    "b",
    "caf\u{e9}/song.mp4",
    "trailing",
    "leading/slash",
];

const SANITIZE_ADV_CORPUS: &[&str] = &[
    "",
    "root.mp4",
    "movies/film.mp4",
    "../root.mp4",
    "..\\secret.txt",
    "a\\b\\c",
    ".../secret.txt",
    "....",
    ".. /secret.txt",
    "...\\secret.txt",
    "a/.../b",
    "movies/../root.mp4",
    "my dir/inner.mp4",
    "a/b/c/d/e/f/g/h/i/j/k.mp4",
    "trailing/",
    "/leading/slash",
    "a//b///c",
    "normal/long/path/with/many/components/file.mp4",
    "caf\u{e9}/song.mp4",
];

const SANITIZE_ADV_EXPECTED: &[&str] = &[
    "",
    "root.mp4",
    "movies/film.mp4",
    "root.mp4",
    "secret.txt",
    "a/b/c",
    "secret.txt",
    "",
    "secret.txt",
    "secret.txt",
    "a/b",
    "root.mp4",
    "my dir/inner.mp4",
    "a/b/c/d/e/f/g/h/i/j/k.mp4",
    "trailing",
    "leading/slash",
    "a/b/c",
    "normal/long/path/with/many/components/file.mp4",
    "caf\u{e9}/song.mp4",
];

const PIPELINE_CORPUS: &[(&str, &str)] = &[
    ("../root.mp4", "root.mp4"),
    ("..%2Froot.mp4", "root.mp4"),
    ("%2e%2e%2froot.mp4", "root.mp4"),
    ("..%5croot.mp4", "root.mp4"),
    ("..\\root.mp4", "root.mp4"),
    ("%252e%252e%2froot.mp4", "%2e%2e/root.mp4"), // single-pass stays
    (".../root.mp4", "root.mp4"),
    ("..%20/root.mp4", "root.mp4"),
    ("movies/../root.mp4", "root.mp4"),
    ("movies%2f..%2f..%2fetc/passwd", "etc/passwd"),
    ("my%20movie.mp4", "my movie.mp4"),
    ("movies%2Ffilm.mp4", "movies/film.mp4"),
    ("a&amp;amp;b.mp4", "a&b.mp4"),
    ("quote&apos;x.mp4", "quote'x.mp4"),
    ("caf&eacute;/song.mp4", "caf\u{e9}/song.mp4"),
    ("C:/Windows/win.ini", "C:/Windows/win.ini"),
    ("%c0%ae%c0%ae/x.mp4", "\u{c0}\u{ae}\u{c0}\u{ae}/x.mp4"),
    ("\u{FF0E}\u{FF0E}/x.mp4", "\u{FF0E}\u{FF0E}/x.mp4"),
    ("file%4", "file\u{4}"), // lone trailing "%H" -> control char
    ("%+2F", "\u{2}F"),      // "%+H" quirk -> low nibble, not '/'
    ("100%.mp4", "100%.mp4"),
    ("%2520.mp4", "%20.mp4"),
    ("a//b///c.mp4", "a/b/c.mp4"),
    ("./x/./y.mp4", "x/y.mp4"),
    ("&amp;../x.mp4", "&../x.mp4"), // entity -> "&", literal "&.." dir
    ("..;/x.mp4", "..;/x.mp4"),     // semicolon: literal dir, no climb
];

const ESCAPE_CORPUS: &[&str] = &[
    "",
    "plain.mp4",
    "my movie.mp4",
    "a&b.mp4",
    "q'x.mp4",
    "a\"b.mp4",
    "a<b>.mp4",
    "a>b.mp4",
    "a&b<c>d\"e'f.mp4",
    "&&&&",
    "''''",
    "<<>>",
    "my movie part 2 final cut remastered edition directors cut.mp4",
    "aaaaaaaaaa&bbbbbbbbbb cccccccccc,dddddddddd#eeeeeeeeee",
    "a&bdir/",
    "movies/",
    "caf\u{e9}/song.mp4",
    "\u{e9}\u{e9}\u{e9}\u{e9}",
    "x\u{301}y",
    "long plain run without any escapable characters 0123456789 abcdefghijklmnopqrstuvwxyz",
    "mixed & and plain text with spaces and (parens) and, commas #hash",
];

const ESCAPE_EXPECTED: &[&str] = &[
    "",
    "plain.mp4",
    "my movie.mp4",
    "a&amp;amp;b.mp4",
    "q&amp;apos;x.mp4",
    "a&amp;quot;b.mp4",
    "a&amp;lt;b&amp;gt;.mp4",
    "a&amp;gt;b.mp4",
    "a&amp;amp;b&amp;lt;c&amp;gt;d&amp;quot;e&amp;apos;f.mp4",
    "&amp;amp;&amp;amp;&amp;amp;&amp;amp;",
    "&amp;apos;&amp;apos;&amp;apos;&amp;apos;",
    "&amp;lt;&amp;lt;&amp;gt;&amp;gt;",
    "my movie part 2 final cut remastered edition directors cut.mp4",
    "aaaaaaaaaa&amp;amp;bbbbbbbbbb cccccccccc,dddddddddd#eeeeeeeeee",
    "a&amp;amp;bdir/",
    "movies/",
    "caf\u{e9}/song.mp4",
    "\u{e9}\u{e9}\u{e9}\u{e9}",
    "x\u{301}y",
    "long plain run without any escapable characters 0123456789 abcdefghijklmnopqrstuvwxyz",
    "mixed &amp;amp; and plain text with spaces and (parens) and, commas #hash",
];

/// Decode, then sanitize, as a GET request does.
fn get_pipeline(raw: &str) -> String {
    sanitize_path(&decode(raw))
}

#[test]
fn correctness_decode() {
    assert_eq!(DECODE_CORPUS.len(), DECODE_EXPECTED.len(), "table drift");
    for (s, expected) in DECODE_CORPUS.iter().zip(DECODE_EXPECTED.iter()) {
        assert_eq!(&decode(s), expected, "decode {:?}", s);
    }
    // Triple-encoded entity collapses; '%%' stays literal.
    assert_eq!(decode("&amp;amp;amp;"), "&");
    assert_eq!(decode("%%41"), "%%41");
}

#[test]
fn correctness_encode() {
    assert_eq!(ENCODE_CORPUS.len(), ENCODE_EXPECTED.len(), "table drift");
    for (s, expected) in ENCODE_CORPUS.iter().zip(ENCODE_EXPECTED.iter()) {
        assert_eq!(&encode(s), expected, "encode {:?}", s);
    }
}

#[test]
fn correctness_sanitize() {
    assert_eq!(SANITIZE_CORPUS.len(), SANITIZE_EXPECTED.len(), "table drift");
    assert_eq!(
        SANITIZE_ADV_CORPUS.len(),
        SANITIZE_ADV_EXPECTED.len(),
        "table drift"
    );
    for (p, expected) in SANITIZE_CORPUS
        .iter()
        .zip(SANITIZE_EXPECTED.iter())
        .chain(SANITIZE_ADV_CORPUS.iter().zip(SANITIZE_ADV_EXPECTED.iter()))
    {
        let got = sanitize_path(p);
        assert_eq!(&got, expected, "sanitize {:?}", p);
        assert!(
            !got.split('/').any(|c| c == ".."),
            "sanitize climbs for {:?} -> {:?}",
            p,
            got
        );
        assert!(!got.contains('\\'), "backslash survives for {:?} -> {:?}", p, got);
    }
}

#[test]
fn correctness_escape() {
    assert_eq!(ESCAPE_CORPUS.len(), ESCAPE_EXPECTED.len(), "table drift");
    for (s, expected) in ESCAPE_CORPUS.iter().zip(ESCAPE_EXPECTED.iter()) {
        assert_eq!(&escape_didl(s).into_owned(), expected, "escape {:?}", s);
    }
}

#[test]
fn correctness_pipeline() {
    for &(raw, expected) in PIPELINE_CORPUS {
        let got = get_pipeline(raw);
        assert_eq!(got, expected, "pipeline {:?}", raw);
        assert!(
            !got.split('/').any(|c| c == ".."),
            "pipeline climbs for {:?} -> {:?}",
            raw,
            got
        );
        assert!(!got.contains('\\'), "pipeline backslash for {:?} -> {:?}", raw, got);
        // POST double-decode stage (generate_browse_response decodes again).
        let twice = sanitize_path(&decode(&decode(raw)));
        assert!(
            !twice.split('/').any(|c| c == ".."),
            "pipeline 2x climbs for {:?} -> {:?}",
            raw,
            twice
        );
        assert!(!twice.contains('\\'), "pipeline 2x backslash for {:?} -> {:?}", raw, twice);
    }
}

#[test]
fn traversal_never_escapes() {
    // (raw wire input, must-not-contain-outside-marker)
    let attacks = [
        "../",
        "..%2F",
        "..%2f",
        "%2e%2e/",
        "%2E%2E%5C",
        "..%5c",
        "..%5C",
        "..\\",
        "..\\..\\",
        "%252e%252e%2f", // double-encode: 1st -> "%2e%2e/", 2nd -> "../"
        "%252e%252e%255c",
        ".../",
        "....",
        ".. /",
        "a/..%20/b",
        "C:/Windows/",
        "/etc/",
        "movies/../../etc/passwd",
        // --- extended tactics: mixed/long climbs, encodings, OS angles ---
        "..%2f..%2f..%2fetc/passwd", // triple encoded climb
        "%2e%2e%2f",                 // fully-encoded dots + slash
        "..%5c..%5c",                // double backslash climb
        "%255c..%255c",              // double-encoded backslash (stays literal)
        "%25252e",                   // triple-encoded dot (stays literal)
        "..%00/",                    // null byte component (open fails, never climbs)
        "..%0d%0a/",                 // CRLF decodes into filename, not headers
        "%+2f",                      // "%+H" quirk -> low nibble, NOT '/'
        "file%4",                    // lone trailing "%H" -> control char
        "%c0%ae%c0%ae/",             // overlong UTF-8 -> latin1 chars, not ".."
        "..%c0%af",                  // overlong slash -> latin1, not separator
        "\u{FF0E}\u{FF0E}/",         // fullwidth dots: literal file, not ".."
        "\u{FF0F}etc\u{FF0F}",       // fullwidth slashes: not separators
        "&amp;../",                  // entity -> "&", then literal "&.."
        "&amp;amp;..%2f",            // double entity + encoded slash
        "C:/",                       // drive root (format! join keeps inside)
        "C%3a/Windows/win.ini",      // encoded colon drive
        "//server/share/",           // UNC collapses to inside path
        "%2fetc%2fpasswd",           // encoded absolute
        "....//",                    // quad dot collapses
        "..%2e/",                    // dotdot-dot: all dots, skipped
        ".%2e/",                     // dot-encoded-dot
        "..%20/",                    // dotdot-space: stripped, skipped
        ".. /",                      // raw dotdot-space
        ". /",                       // dot-space
        "a/.../b",                   // ellipsis component skipped
        "...\\secret.txt",           // triple-dot + backslash
        "..;/",                      // semicolon: literal "..;" dir
        "http://127.0.0.1:8200/root.mp4", // absolute URI form
    ];
    for raw in attacks {
        // GET pipeline: single decode then sanitize (as in handle_get).
        let once = sanitize_path(&decode(raw));
        assert!(
            !once.split('/').any(|c| c == ".."),
            "GET pipeline escapes for {:?} -> {:?}",
            raw,
            once
        );
        assert!(!once.contains('\\'), "backslash survives for {:?} -> {:?}", raw, once);
        // POST pipeline: double decode (fallback decodes again) then sanitize,
        // as generate_browse_response does. Must still not escape.
        let twice = sanitize_path(&decode(&decode(raw)));
        assert!(
            !twice.split('/').any(|c| c == ".."),
            "POST double-decode escapes for {:?} -> {:?}",
            raw,
            twice
        );
        assert!(!twice.contains('\\'), "backslash survives 2x for {:?} -> {:?}", raw, twice);
    }
    // Legit paths unchanged (no over-blocking).
    for (input, expected) in [
        ("root.mp4", "root.mp4"),
        ("movies/film.mp4", "movies/film.mp4"),
        ("a//b///c", "a/b/c"),
        ("movies/../root.mp4", "root.mp4"),
        ("my dir/inner.mp4", "my dir/inner.mp4"),
        ("%252e.mp4", "%2e.mp4"), // single-pass: literal %2e file, not ".."
        ("%2520.mp4", "%20.mp4"), // literal %20 file, not space
        ("a<b>.mp4", "a<b>.mp4"), // angles are literal post-encode (%3C)
        ("a?b.mp4", "a?b.mp4"),   // '?' literal (encoded %3F on the wire)
        ("100%.mp4", "100%.mp4"), // '%' literal (encoded %25 on the wire)
    ] {
        assert_eq!(sanitize_path(&decode(input)), expected, "legit {:?}", input);
    }
}

#[test]
fn encode_escapes_markup_and_percent() {
    // `< >` must never survive into ids/res URLs as raw angles.
    assert_eq!(encode("<"), "%3C", "encode(<) must percent-encode");
    assert_eq!(encode(">"), "%3E", "encode(>) must percent-encode");
    // `%` must be encoded or advertised URLs mis-decode (`%2e.mp4` -> `..mp4`).
    assert_eq!(encode("%"), "%25", "encode(%) must percent-encode");
    assert_eq!(encode("%2e.mp4"), "%252e.mp4", "literal %2e must round-trip");
    // `\` (separator after sanitize) and `?` (client query-split) too.
    assert_eq!(encode("\\"), "%5C", "encode(backslash)");
    assert_eq!(encode("?"), "%3F", "encode(?)");
}

#[test]
fn encode_keeps_existing_mapping() {
    // Guards: the long-locked mapping from tests/dlna_exact.rs must not move.
    assert_eq!(encode("my movie.mp4"), "my%20movie.mp4");
    assert_eq!(encode("a&b.mp4"), "a&amp;amp;b.mp4");
    assert_eq!(encode("paren(1).mp4"), "paren%281%29.mp4");
    assert_eq!(encode("quote'mp4.mp4"), "quote%27mp4.mp4");
    assert_eq!(encode("hash#tag.mp4"), "hash%23tag.mp4");
    assert_eq!(encode("comma,test.mp4"), "comma%2Ctest.mp4");
    assert_eq!(encode("plus+file.mp4"), "plus+file.mp4");
}

#[test]
fn source_decode_encode_logic_locked() {
    // The doubly escaped ampersand is resolved before the single one.
    for (piece, expected) in [
        ("&amp;amp;", "&"),
        ("&amp;", "&"),
        ("&apos;", "'"),
        ("&eacute;", "\u{e9}"),
    ] {
        assert_eq!(decode(piece), expected, "decode() changed: {}", piece);
    }
    assert_eq!(decode("a&amp;amp;apos;b"), "a'b");
    // Hexadecimal bytes are read as an unsigned radix-16 number is.
    assert_eq!(decode("%fF%+a%a"), "\u{ff}\u{a}\u{a}");
    for (c, piece) in [
        (" ", "%20"),
        ("'", "%27"),
        ("(", "%28"),
        (")", "%29"),
        ("\"", "%22"),
        ("#", "%23"),
        (",", "%2C"),
        ("&", "&amp;amp;"),
        ("\u{e9}", "&eacute;"),
    ] {
        assert_eq!(encode(c), piece, "encode() changed: {}", piece);
    }
}

#[test]
fn hexv_table_knows_the_digits_of_both_cases() {
    let t = hexv_table();
    for code in 0..256usize {
        let c = code as u8 as char;
        let expected = match c.to_digit(16) {
            Some(d) => d as i8,
            None => -1,
        };
        assert_eq!(t[code], expected, "code {}", code);
    }
}

#[test]
fn replace_into_matches_replace() {
    for (hay, pat, rep) in [
        ("a&amp;b&amp;", "&amp;", "&"),
        ("aaaa", "aa", "b"),
        ("aaaaa", "aa", "b"),
        ("caf\u{e9}", "\u{e9}", "&eacute;"),
        ("&amp;amp;amp;", "&amp;amp;", "&"),
        ("a", "", "-"),
        ("caf\u{e9}", "", "<>"),
        ("", "", "x"),
        ("ab", "", ""),
    ] {
        let mut out = "left over".to_string();
        assert!(replace_into(hay, pat, rep, &mut out));
        assert_eq!(out, hay.replace(pat, rep));
    }
    let mut out = String::new();
    assert!(replace_into("a", "", "-", &mut out));
    assert_eq!(out, "-a-");
    let mut out = "left over".to_string();
    assert!(!replace_into("abc", "x", "y", &mut out));
    assert_eq!(out, "left over", "untouched on a miss");
}

#[test]
fn decode_of_encode_gives_the_name_back() {
    for name in [
        "my movie.mp4",
        "a&b.mp4",
        "Tom & Jerry (1950), part #1?.mp4",
        "100%.mp4",
        "%2e.mp4",
        "back\\slash <1> \"q\" 'r'",
        "caf\u{e9}/song.mp4",
        "\u{65e5}\u{672c}.mp4",
    ] {
        assert_eq!(decode(&encode(name)), name);
    }
    // A name that spells an entity is where it stops.
    assert_eq!(decode(&encode("a&amp;b")), "a&b");
}

#[test]
fn decode_keeps_a_lone_ampersand() {
    assert_eq!(decode("Tom & Jerry/"), "Tom & Jerry/");
    assert_eq!(decode("R&B&co;"), "R&B&co;");
}

#[test]
fn escaped_text_reads_back_after_two_readers() {
    fn unescape(s: &str) -> String {
        s.replace("&lt;", "<")
            .replace("&gt;", ">")
            .replace("&quot;", "\"")
            .replace("&apos;", "'")
            .replace("&amp;", "&")
    }
    for s in ["a<b>\"c\"'d'&e", "&lt;", "plain", "&&amp;&"] {
        assert_eq!(unescape(&unescape(&escape_didl(s))), s);
    }
}

#[test]
fn escape_borrows_where_there_is_nothing_to_escape() {
    assert!(matches!(escape_didl("plain (1), #2"), Cow::Borrowed("plain (1), #2")));
    assert!(matches!(escape_didl("a<b"), Cow::Owned(_)));
}

#[test]
fn escaped_and_encoded_text_holds_no_markup() {
    let nasty = "<a href=\"x\">'&'</a> (#,?\\)";
    let esc = escape_didl(nasty);
    let enc = encode(nasty);
    for c in ['<', '>', '"', '\''] {
        assert!(!esc.contains(c), "{} in {}", c, esc);
        assert!(!enc.contains(c), "{} in {}", c, enc);
    }
    for c in [' ', '(', ')', '#', ',', '\\', '?'] {
        assert!(!enc.contains(c), "{} in {}", c, enc);
    }
}

#[test]
fn sanitize_is_idempotent_and_ignores_outer_slashes() {
    for p in ["../a/./b//c/", "x\\..\\y", "..", "a/.. /b", ". ./...", "movies/film.mp4"] {
        let once = sanitize_path(p);
        assert_eq!(sanitize_path(&once), once);
        assert_eq!(sanitize_path(&format!("/{}", p)), once);
        assert_eq!(sanitize_path(&format!("{}/", p)), once);
    }
    assert_eq!(sanitize_path("a/b/../../../c"), "c");
    assert_eq!(sanitize_path("a. /b .."), "a. /b ..");
}

#[test]
fn names_are_never_encoded_alike() {
    let names = ["a b", "a%20b", "a&b", "a&amp;b", "a&amp;amp;b", "\u{e9}", "&eacute;", "%", "%25"];
    for a in names {
        for b in names {
            assert_eq!(encode(a) == encode(b), a == b, "{} and {}", a, b);
        }
    }
}

#[test]
fn decode_keeps_what_stands_before_the_first_escape() {
    for rest in ["%41", "&amp;x", "a%2", "%%41", ""] {
        assert_eq!(decode(&format!("plain + {}", rest)), format!("plain + {}", decode(rest)));
    }
}

#[test]
fn a_backslash_leads_where_a_slash_does() {
    for p in ["a\\b", "..\\..\\x", "a\\../b\\", "\\", "a\\...\\b"] {
        assert_eq!(sanitize_path(p), sanitize_path(&p.replace('\\', "/")));
    }
}

#[test]
fn the_front_of_a_path_may_be_sanitized_first() {
    for (a, b) in [("x/../y", "../z"), ("../..", "a"), ("a/b/", "../../../c"), ("", "x"), ("a", "")] {
        let whole = sanitize_path(&format!("{}/{}", a, b));
        assert_eq!(sanitize_path(&format!("{}/{}", sanitize_path(a), b)), whole);
    }
}
