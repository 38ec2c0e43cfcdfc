//! Replies to GET requests: the fixed pages, and the files of the media
//! directory from the byte that the request asks for.

use crate::bytes;
use crate::bytes::{bytes_equal, find_byte, push_u64, put_slice};
use crate::codec;
use crate::codec::decode;
use crate::codec_laws;
use crate::framing;
use crate::pages;
use crate::pages::{AppConfig, StaticPage};
use crate::request;
use crate::request::parse_range_header;
use crate::sanitize;
use crate::sanitize::sanitize_path;
use crate::seqs;
use crate::text;
use crate::text::{cow_text, read_text};
use vstd::prelude::*;
use vstd::string::*;
use vstd::utf8;

verus! {

/// Room enough for the header of every reply with a file.
pub const HEADER_ROOM: usize = 256;

/// The most bytes of a file that are sent at a time.
pub const BODY_CHUNK: usize = 16384;

/// The seconds within which each write must be done.
pub const WRITE_TIMEOUT_SECS: u64 = 5;

/// The reply where there is no such file.
pub const NOT_FOUND: &'static str = "HTTP/1.1 404 NOT FOUND\r\n\r\n";

/// The reply where the first byte asked for lies behind the end of the file.
pub const NOT_SATISFIABLE: &'static str = "HTTP/1.1 416 Range Not Satisfiable\r\n\r\n";

/// What a GET request asks for: the bytes from behind its method up to the
/// next space, none where there is no space.
pub open spec fn request_target(req: Seq<u8>) -> Seq<u8> {
    match seqs::index_from(req, ' ' as u8, 4) {
        Some(end) => req.subrange(4, end),
        None => Seq::empty(),
    }
}

/// What a GET request asks for.
pub fn extract_target(req: &[u8]) -> (r: &[u8])
    requires
        req@.len() >= 4,
    ensures
        r@ == request_target(req@),
{
    proof {
        seqs::lemma_index_from(req@, ' ' as u8, 4);
    }
    match find_byte(req, ' ' as u8, 4) {
        Some(end) => &req[4..end],
        None => {
            let none = &req[4..4];
            assert(none@ =~= Seq::empty());
            none
        },
    }
}

/// The fixed page that stands at a path.
pub open spec fn page_at(target: Seq<u8>) -> Option<StaticPage> {
    if target == "/rootDesc.xml".spec_bytes() {
        Some(StaticPage::RootDesc)
    } else if target == "/ContentDir.xml".spec_bytes() {
        Some(StaticPage::ContentDir)
    } else if target == "/ConnectionMgr.xml".spec_bytes() {
        Some(StaticPage::ConnectionMgr)
    } else if target == "/X_MS_MediaReceiver_Registrar.xml".spec_bytes() {
        Some(StaticPage::Registrar)
    } else {
        None
    }
}

/// The fixed page that stands at a path.
pub fn route(target: &[u8]) -> (r: Option<StaticPage>)
    ensures
        r == page_at(target@),
{
    if bytes_equal(target, "/rootDesc.xml".as_bytes()) {
        Some(StaticPage::RootDesc)
    } else if bytes_equal(target, "/ContentDir.xml".as_bytes()) {
        Some(StaticPage::ContentDir)
    } else if bytes_equal(target, "/ConnectionMgr.xml".as_bytes()) {
        Some(StaticPage::ConnectionMgr)
    } else if bytes_equal(target, "/X_MS_MediaReceiver_Registrar.xml".as_bytes()) {
        Some(StaticPage::Registrar)
    } else {
        None
    }
}

/// The path below the media directory that a client's text stands for.
pub open spec fn inner_path(text: Seq<char>) -> Seq<char> {
    sanitize::sanitized(codec::decoded(text))
}

/// The file system path that a client's text stands for.
pub open spec fn media_path(dir: Seq<char>, text: Seq<char>) -> Seq<char> {
    dir.push('/') + inner_path(text)
}

/// The file system path that a client's text stands for.
pub fn resolve_media_path(dir_path: &str, text: &str) -> (r: String)
    ensures
        r@ == media_path(dir_path@, text@),
{
    let inner = sanitize_path(decode(text).as_str());
    let mut path = dir_path.to_owned();
    path.push('/');
    path.push_str(inner.as_str());
    path
}

/// What to do with a GET request.
pub enum GetPlan<'a> {
    /// Send this.
    Reply(&'a str),
    /// Open the file at this path.
    Open(String),
}

/// What a plan for a GET request comes to.
pub enum GetOutcome {
    Reply(Seq<char>),
    Open(Seq<char>),
}

impl<'a> View for GetPlan<'a> {
    type V = GetOutcome;

    open spec fn view(&self) -> GetOutcome {
        match self {
            GetPlan::Reply(reply) => GetOutcome::Reply(reply@),
            GetPlan::Open(path) => GetOutcome::Open(path@),
        }
    }
}

/// What is done for a target, where `dir` is served.
pub open spec fn get_outcome(target: Seq<u8>, dir: Seq<char>) -> GetOutcome {
    match page_at(target) {
        Some(page) => GetOutcome::Reply(pages::baked(pages::page_body(page))),
        None => GetOutcome::Open(media_path(dir, text::text_of(target))),
    }
}

/// Decides what to do with a GET request: its target alone counts.
pub fn plan_get<'a>(req: &[u8], config: &'a AppConfig) -> (plan: GetPlan<'a>)
    requires
        framing::method_of(req@) == framing::Method::Get,
    ensures
        plan@ == get_outcome(request_target(req@), config.dir()),
{
    proof {
        reveal_strlit("GET ");
        assert("GET ".is_ascii());
        assert("GET ".spec_bytes().len() == 4);
    }
    let target = extract_target(req);
    match route(target) {
        Some(page) => GetPlan::Reply(config.page(page)),
        None => {
            let text = read_text(target);
            GetPlan::Open(resolve_media_path(config.dir_path(), cow_text(&text)))
        },
    }
}

/// The header of a reply with the bytes of a file from `start` on. The last
/// byte of an empty file is given as byte 0.
pub open spec fn partial_header(start: u64, size: u64) -> Seq<u8> {
    let last: nat = if size > 0 {
        (size - 1) as nat
    } else {
        0
    };
    "HTTP/1.1 206 Partial Content\r\n".spec_bytes() + "Content-Range: bytes ".spec_bytes()
        + bytes::decimal(start as nat) + "-".spec_bytes() + bytes::decimal(last)
        + "/".spec_bytes() + bytes::decimal(size as nat) + "\r\n".spec_bytes()
        + "Content-Type: video/mp4\r\n".spec_bytes() + "Content-Length: ".spec_bytes()
        + bytes::decimal((size - start) as nat) + "\r\n\r\n".spec_bytes()
}

/// Writing behind a prefix adds to it.
proof fn lemma_written_prefix(buf: Seq<u8>, pos: int, s: Seq<u8>)
    requires
        0 <= pos,
        pos + s.len() <= buf.len(),
    ensures
        bytes::written(buf, pos, s).len() == buf.len(),
        bytes::written(buf, pos, s).take(pos + s.len()) == buf.take(pos) + s,
{
    assert(bytes::written(buf, pos, s).take(pos + s.len()) =~= buf.take(pos) + s);
}

fn append_bytes(buf: &mut [u8], pos: &mut usize, s: &[u8])
    requires
        *old(pos) + s@.len() <= old(buf)@.len(),
    ensures
        final(buf)@.len() == old(buf)@.len(),
        *final(pos) == *old(pos) + s@.len(),
        final(buf)@.take(*final(pos) as int) == old(buf)@.take(*old(pos) as int) + s@,
{
    proof {
        lemma_written_prefix(buf@, *pos as int, s@);
    }
    put_slice(buf, pos, s);
}

fn append_number(buf: &mut [u8], pos: &mut usize, v: u64)
    requires
        *old(pos) + 20 <= old(buf)@.len(),
    ensures
        final(buf)@.len() == old(buf)@.len(),
        *final(pos) == *old(pos) + bytes::decimal(v as nat).len(),
        *final(pos) <= *old(pos) + 20,
        final(buf)@.take(*final(pos) as int) == old(buf)@.take(*old(pos) as int)
            + bytes::decimal(v as nat),
{
    proof {
        bytes::lemma_decimal_u64_len(v);
        lemma_written_prefix(buf@, *pos as int, bytes::decimal(v as nat));
    }
    push_u64(buf, pos, v);
}

/// Writes the header of a reply with the bytes of a file from `start` on, and
/// returns its length.
pub fn write_partial_header(buf: &mut [u8], start: u64, size: u64) -> (n: usize)
    requires
        old(buf)@.len() >= HEADER_ROOM,
        start <= size,
    ensures
        final(buf)@.len() == old(buf)@.len(),
        n <= HEADER_ROOM,
        final(buf)@.take(n as int) == partial_header(start, size),
{
    proof {
        reveal_strlit("HTTP/1.1 206 Partial Content\r\n");
        reveal_strlit("Content-Range: bytes ");
        reveal_strlit("-");
        reveal_strlit("/");
        reveal_strlit("\r\n");
        reveal_strlit("Content-Type: video/mp4\r\n");
        reveal_strlit("Content-Length: ");
        reveal_strlit("\r\n\r\n");
        assert("HTTP/1.1 206 Partial Content\r\n".is_ascii());
        assert("Content-Range: bytes ".is_ascii());
        assert("-".is_ascii());
        assert("/".is_ascii());
        assert("\r\n".is_ascii());
        assert("Content-Type: video/mp4\r\n".is_ascii());
        assert("Content-Length: ".is_ascii());
        assert("\r\n\r\n".is_ascii());
    }
    let mut n: usize = 0;
    assert(buf@.take(0) =~= Seq::<u8>::empty());
    append_bytes(buf, &mut n, "HTTP/1.1 206 Partial Content\r\n".as_bytes());
    assert(buf@.take(n as int) =~= "HTTP/1.1 206 Partial Content\r\n".spec_bytes());
    append_bytes(buf, &mut n, "Content-Range: bytes ".as_bytes());
    append_number(buf, &mut n, start);
    append_bytes(buf, &mut n, "-".as_bytes());
    append_number(buf, &mut n, size.saturating_sub(1));
    append_bytes(buf, &mut n, "/".as_bytes());
    append_number(buf, &mut n, size);
    append_bytes(buf, &mut n, "\r\n".as_bytes());
    append_bytes(buf, &mut n, "Content-Type: video/mp4\r\n".as_bytes());
    append_bytes(buf, &mut n, "Content-Length: ".as_bytes());
    append_number(buf, &mut n, size - start);
    append_bytes(buf, &mut n, "\r\n\r\n".as_bytes());
    n
}

/// What to send once the file of a GET request has been looked for.
#[derive(Clone, Copy, Debug)]
pub enum FileReply {
    /// Send this and nothing else.
    Refuse(&'static str),
    /// Send the first `header_len` bytes of the header, then `length` bytes
    /// of the file from `offset` on.
    Send { header_len: usize, offset: u64, length: u64 },
}

/// What was found at the path of a GET request.
#[derive(Clone, Copy, Debug, PartialEq, Eq, Structural)]
pub enum Found {
    /// Nothing that can be opened.
    Nothing,
    Directory,
    /// A file of so many bytes.
    File(u64),
}

/// What comes of a GET request whose path has been looked for.
pub enum FileOutcome {
    Refuse(Seq<char>),
    Send { header: Seq<u8>, offset: int, length: int },
}

/// What comes of a GET request that asks for the bytes from `start` on.
pub open spec fn file_outcome(start: nat, found: Found) -> FileOutcome {
    match found {
        Found::File(size) => if start > size {
            FileOutcome::Refuse(NOT_SATISFIABLE@)
        } else {
            FileOutcome::Send {
                header: partial_header(start as u64, size),
                offset: start as int,
                length: size - start,
            }
        },
        _ => FileOutcome::Refuse(NOT_FOUND@),
    }
}

/// Decides what to send of what was found. Directories are not sent. The
/// header of a file goes to `header`.
pub fn answer_get(req: &[u8], found: Found, header: &mut [u8]) -> (reply: FileReply)
    requires
        old(header)@.len() >= HEADER_ROOM,
    ensures
        final(header)@.len() == old(header)@.len(),
        match found {
            Found::File(size) => {
                let start = request::range_start(req@);
                if start > size {
                    reply == FileReply::Refuse(NOT_SATISFIABLE)
                } else {
                    &&& reply matches FileReply::Send { header_len, offset, length }
                    &&& header_len <= HEADER_ROOM
                    &&& final(header)@.take(header_len as int) == partial_header(offset, size)
                    &&& offset == start
                    &&& length == size - start
                }
            },
            _ => reply == FileReply::Refuse(NOT_FOUND),
        },
        !(reply is Send) ==> final(header)@ == old(header)@,
        file_outcome(request::range_start(req@), found) == match reply {
            FileReply::Refuse(refusal) => FileOutcome::Refuse(refusal@),
            FileReply::Send { header_len, offset, length } => FileOutcome::Send {
                header: final(header)@.take(header_len as int),
                offset: offset as int,
                length: length as int,
            },
        },
{
    let size = match found {
        Found::File(size) => size,
        _ => {
            return FileReply::Refuse(NOT_FOUND);
        },
    };
    let start = parse_range_header(req);
    if start > size {
        return FileReply::Refuse(NOT_SATISFIABLE);
    }
    let header_len = write_partial_header(header, start, size);
    FileReply::Send { header_len, offset: start, length: size - start }
}

/// How much of the `remaining` bytes to send at a time.
pub open spec fn chunk_size(remaining: u64) -> usize {
    if remaining < BODY_CHUNK {
        remaining as usize
    } else {
        BODY_CHUNK
    }
}

/// How much of the `remaining` bytes to send at a time.
pub fn chunk_len(remaining: u64) -> (n: usize)
    ensures
        n == chunk_size(remaining),
{
    if remaining < BODY_CHUNK as u64 {
        remaining as usize
    } else {
        BODY_CHUNK
    }
}

/// What a GET request asks for does not depend on what follows its target: a
/// second request behind it is not looked at.
pub proof fn law_target_ignores_the_rest(req: Seq<u8>, rest: Seq<u8>)
    requires
        seqs::index_from(req, ' ' as u8, 4) is Some,
    ensures
        request_target(req + rest) == request_target(req),
{
    let all = req + rest;
    seqs::lemma_index_from(req, ' ' as u8, 4);
    seqs::lemma_index_from(all, ' ' as u8, 4);
    if let Some(end) = seqs::index_from(req, ' ' as u8, 4) {
        assert(all[end] == ' ' as u8);
        assert forall|j: int| 4 <= j < end implies all[j] != ' ' as u8 by {
            assert(req[j] != ' ' as u8);
        }
        assert(seqs::index_from(all, ' ' as u8, 4) == Some(end));
        assert(all.subrange(4, end) =~= req.subrange(4, end));
    }
}

/// Whatever a client sends, the path that is opened for it leads from the
/// media directory downwards.
pub proof fn law_media_path_is_inside(dir: Seq<char>, text: Seq<char>)
    ensures
        media_path(dir, text) == dir.push('/') + inner_path(text),
        sanitize::is_inside(inner_path(text)),
{
    sanitize::law_sanitized_is_inside(codec::decoded(text));
}

/// The path of a URL as a client may send it that has taken it from a listing:
/// as it stands there, unescaped once, or unescaped twice.
pub open spec fn is_reading(url: Seq<char>, sent: Seq<char>) -> bool {
    ||| sent == url
    ||| sent == codec_laws::xml_unescaped(url)
    ||| sent == codec_laws::xml_unescaped(codec_laws::xml_unescaped(url))
}

/// A path in the media directory that is encoded for a URL and asked for
/// again leads to the same file, however often the client has unescaped it.
/// Names that spell an entity are left out.
pub proof fn law_advertised_path_reopens(dir: Seq<char>, path: Seq<char>, sent: Seq<char>)
    requires
        sanitize::is_inside(path),
        codec_laws::entity_free(path),
        is_reading(codec::encoded(path), sent),
    ensures
        media_path(dir, seq!['/'] + sent) == dir.push('/') + path,
{
    let slash = seq!['/'];
    let full = slash + path;
    let url = codec::encoded(path);
    let once = codec_laws::xml_unescaped(url);
    assert(codec::encoded(slash) =~= slash) by {
        assert(slash.drop_last() =~= Seq::empty());
        reveal_with_fuel(seqs::expand, 2);
    }
    codec_laws::law_encode_concat(slash, path);
    lemma_entity_free_slash(path);
    assert(!slash.contains('&'));
    codec_laws::lemma_unescape_prefix(slash, url);
    codec_laws::lemma_unescape_prefix(slash, once);
    codec_laws::law_decode_encode(full);
    codec_laws::law_decode_what_clients_read(full);
    sanitize::law_sanitize_leading_slash(path);
    sanitize::law_sanitize_keeps_inside(path);
}

proof fn lemma_entity_free_slash(path: Seq<char>)
    requires
        codec_laws::entity_free(path),
    ensures
        codec_laws::entity_free(seq!['/'] + path),
{
    codec_laws::lemma_escape_literals();
    reveal_strlit("&eacute;");
    let full = seq!['/'] + path;
    assert forall|pat: Seq<char>|
        pat.len() > 0 && pat[0] == '&' && #[trigger] seqs::contains_seq(
            full,
            pat,
        ) implies seqs::contains_seq(path, pat) by {
        let i = choose|i: int| seqs::occurs_at(full, pat, i);
        assert(full.subrange(i, i + pat.len())[0] == full[i]);
        assert(i > 0);
        assert(path.subrange(i - 1, i - 1 + pat.len()) =~= full.subrange(i, i + pat.len()));
        assert(seqs::occurs_at(path, pat, i - 1));
    }
}

/// The header of a reply with a file says from which byte to which byte of how
/// many the file is sent, and how many bytes follow; it holds four lines and
/// nothing more.
pub proof fn law_partial_header_says_what_is_sent(start: u64, size: u64)
    requires
        start <= size,
    ensures
        ({
            let last: int = if size > 0 {
                size - 1
            } else {
                0
            };
            let status = "HTTP/1.1 206 Partial Content\r\n".spec_bytes();
            let range = "Content-Range: bytes ".spec_bytes() + bytes::decimal(start as nat)
                + "-".spec_bytes() + bytes::decimal(last as nat) + "/".spec_bytes()
                + bytes::decimal(size as nat) + "\r\n".spec_bytes();
            let kind = "Content-Type: video/mp4\r\n".spec_bytes();
            let length = "Content-Length: ".spec_bytes() + bytes::decimal((size - start) as nat)
                + "\r\n\r\n".spec_bytes();
            let header = partial_header(start, size);
            &&& seqs::starts_with(header, status)
            &&& seqs::contains_seq(header, range)
            &&& seqs::contains_seq(header, kind)
            &&& seqs::ends_with(header, length)
            &&& header.len() == status.len() + range.len() + kind.len() + length.len()
        }),
{
    let none: Seq<u8> = Seq::empty();
    let last: int = if size > 0 {
        size - 1
    } else {
        0
    };
    let status = "HTTP/1.1 206 Partial Content\r\n".spec_bytes();
    let range = "Content-Range: bytes ".spec_bytes() + bytes::decimal(start as nat)
        + "-".spec_bytes() + bytes::decimal(last as nat) + "/".spec_bytes() + bytes::decimal(
        size as nat,
    ) + "\r\n".spec_bytes();
    let kind = "Content-Type: video/mp4\r\n".spec_bytes();
    let length = "Content-Length: ".spec_bytes() + bytes::decimal((size - start) as nat)
        + "\r\n\r\n".spec_bytes();
    let header = partial_header(start, size);
    lemma_header_lines(start, size, status, range, kind, length);
    seqs::lemma_parts(header, status, range, kind, none, none, length);
}

proof fn lemma_header_lines(
    start: u64,
    size: u64,
    status: Seq<u8>,
    range: Seq<u8>,
    kind: Seq<u8>,
    length: Seq<u8>,
)
    requires
        start <= size,
        status == "HTTP/1.1 206 Partial Content\r\n".spec_bytes(),
        range == "Content-Range: bytes ".spec_bytes() + bytes::decimal(start as nat)
            + "-".spec_bytes() + bytes::decimal(
            if size > 0 {
                (size - 1) as nat
            } else {
                0
            },
        ) + "/".spec_bytes() + bytes::decimal(size as nat) + "\r\n".spec_bytes(),
        kind == "Content-Type: video/mp4\r\n".spec_bytes(),
        length == "Content-Length: ".spec_bytes() + bytes::decimal((size - start) as nat)
            + "\r\n\r\n".spec_bytes(),
    ensures
        partial_header(start, size) == status + range + kind + Seq::<u8>::empty()
            + Seq::<u8>::empty() + length,
{
    assert(partial_header(start, size) =~= status + range + kind + Seq::<u8>::empty()
        + Seq::<u8>::empty() + length);
}

/// All of a file from the byte asked for on is sent, and as many bytes are
/// announced as are sent. This holds of the byte behind the last one, too:
/// nothing follows.
pub proof fn law_the_rest_of_a_file_is_sent(start: nat, size: u64)
    requires
        start <= size,
    ensures
        file_outcome(start, Found::File(size)) matches FileOutcome::Send {
            header,
            offset,
            length,
        } && offset == start && offset + length == size && header == partial_header(
            start as u64,
            size,
        ) && seqs::ends_with(
            header,
            "Content-Length: ".spec_bytes() + bytes::decimal(length as nat)
                + "\r\n\r\n".spec_bytes(),
        ),
{
    law_partial_header_says_what_is_sent(start as u64, size);
}

/// What cannot be sent is refused: a byte behind the end of a file, a
/// directory, and what is not there.
pub proof fn law_what_cannot_be_sent_is_refused(start: nat, found: Found)
    ensures
        (found matches Found::File(size) && start > size) ==> file_outcome(start, found)
            == FileOutcome::Refuse("HTTP/1.1 416 Range Not Satisfiable\r\n\r\n"@),
        !(found is File) ==> file_outcome(start, found) == FileOutcome::Refuse(
            "HTTP/1.1 404 NOT FOUND\r\n\r\n"@,
        ),
{
}

/// While bytes are left, at least one is sent at a time, and never more than
/// are left or than a chunk of 16 KiB holds.
pub proof fn law_chunks_make_progress(left: u64)
    ensures
        left > 0 ==> chunk_size(left) > 0,
        chunk_size(left) <= left,
        chunk_size(left) <= 16384,
        chunk_size(left) == left || chunk_size(left) == 16384,
{
}

/// The target of a GET request is what stands between its method and the next
/// space, whatever follows.
pub proof fn law_target_reads_back(target: Seq<u8>, rest: Seq<u8>)
    requires
        !target.contains(' ' as u8),
    ensures
        request_target("GET ".spec_bytes() + target + seq![' ' as u8] + rest) == target,
{
    reveal_strlit("GET ");
    assert("GET ".is_ascii());
    let method = "GET ".spec_bytes();
    assert(method.len() == 4);
    let req = method + target + seq![' ' as u8] + rest;
    let end = 4 + target.len() as int;
    seqs::lemma_index_from(req, ' ' as u8, 4);
    assert(req[end] == ' ' as u8);
    assert forall|j: int| 4 <= j < end implies req[j] != ' ' as u8 by {
        assert(target.contains(target[j - 4]));
    }
    assert(seqs::index_from(req, ' ' as u8, 4) == Some(end));
    assert(req.subrange(4, end) =~= target);
}

/// A GET request without a space behind its target asks for nothing.
pub proof fn law_target_needs_a_space(target: Seq<u8>)
    requires
        !target.contains(' ' as u8),
    ensures
        request_target("GET ".spec_bytes() + target).len() == 0,
{
    reveal_strlit("GET ");
    assert("GET ".is_ascii());
    let req = "GET ".spec_bytes() + target;
    seqs::lemma_index_from(req, ' ' as u8, 4);
    if let Some(k) = seqs::index_from(req, ' ' as u8, 4) {
        assert(target.contains(target[k - 4]));
    }
}

/// Each fixed page stands at its own path, and is sent with its own text.
pub proof fn law_fixed_pages_stand_at_their_paths(dir: Seq<char>)
    ensures
        get_outcome("/rootDesc.xml".spec_bytes(), dir) == GetOutcome::Reply(
            pages::baked(pages::ROOT_DESC_XML@),
        ),
        get_outcome("/ContentDir.xml".spec_bytes(), dir) == GetOutcome::Reply(
            pages::baked(pages::CONTENT_DIR_XML@),
        ),
        get_outcome("/ConnectionMgr.xml".spec_bytes(), dir) == GetOutcome::Reply(
            pages::baked(pages::CONNECTION_MGR_XML@),
        ),
        get_outcome("/X_MS_MediaReceiver_Registrar.xml".spec_bytes(), dir) == GetOutcome::Reply(
            pages::baked(pages::X_MS_MEDIA_RECEIVER_REGISTRAR_XML@),
        ),
{
    reveal_strlit("/rootDesc.xml");
    reveal_strlit("/ContentDir.xml");
    reveal_strlit("/ConnectionMgr.xml");
    reveal_strlit("/X_MS_MediaReceiver_Registrar.xml");
    assert("/rootDesc.xml".is_ascii());
    assert("/ContentDir.xml".is_ascii());
    assert("/ConnectionMgr.xml".is_ascii());
    assert("/X_MS_MediaReceiver_Registrar.xml".is_ascii());
    assert("/rootDesc.xml".spec_bytes().len() == 13);
    assert("/ContentDir.xml".spec_bytes().len() == 15);
    assert("/ConnectionMgr.xml".spec_bytes().len() == 18);
    assert("/X_MS_MediaReceiver_Registrar.xml".spec_bytes().len() == 33);
}

/// The target of a fixed page.
pub open spec fn is_page_path(target: Seq<u8>) -> bool {
    ||| target == "/rootDesc.xml".spec_bytes()
    ||| target == "/ContentDir.xml".spec_bytes()
    ||| target == "/ConnectionMgr.xml".spec_bytes()
    ||| target == "/X_MS_MediaReceiver_Registrar.xml".spec_bytes()
}

/// Every other target opens a path inside the media directory, and nothing
/// else.
pub proof fn law_other_targets_open_inside(target: Seq<u8>, dir: Seq<char>)
    requires
        !is_page_path(target),
    ensures
        get_outcome(target, dir) matches GetOutcome::Open(path) && path.len() > dir.len()
            && path.take(dir.len() as int) == dir && path[dir.len() as int] == '/'
            && sanitize::is_inside(path.skip(dir.len() + 1int)),
{
    let inner = inner_path(text::text_of(target));
    law_media_path_is_inside(dir, text::text_of(target));
    let path = dir.push('/') + inner;
    assert(path.take(dir.len() as int) =~= dir);
    assert(path.skip(dir.len() + 1int) =~= inner);
}

/// A target that is no fixed page and that names a file of the media directory
/// in plain characters opens that file, whatever the characters are: a plus
/// sign, say, is a plus sign.
pub proof fn law_a_plain_target_opens_its_file(dir: Seq<char>, path: Seq<char>)
    requires
        sanitize::is_inside(path),
        !path.contains('&'),
        !path.contains('%'),
        !is_page_path(utf8::encode_utf8(seq!['/'] + path)),
    ensures
        get_outcome(utf8::encode_utf8(seq!['/'] + path), dir) == GetOutcome::Open(
            dir.push('/') + path,
        ),
{
    let full = seq!['/'] + path;
    text::law_text_reads_back(full);
    assert forall|i: int| 0 <= i < full.len() implies full[i] != '&' && full[i] != '%' by {
        if i > 0 {
            assert(path.contains(path[i - 1]));
        }
    }
    codec::law_decode_plain(full);
    sanitize::law_sanitize_leading_slash(path);
    sanitize::law_sanitize_keeps_inside(path);
}

/// A GET request for the URL that was made of a path in the media directory
/// opens the file at that path, however often the client has unescaped the
/// URL, unless a fixed page stands there. Names that spell an entity are left
/// out.
pub proof fn law_an_advertised_target_opens_its_file(
    dir: Seq<char>,
    path: Seq<char>,
    sent: Seq<char>,
)
    requires
        sanitize::is_inside(path),
        codec_laws::entity_free(path),
        is_reading(codec::encoded(path), sent),
        !is_page_path(utf8::encode_utf8(seq!['/'] + sent)),
    ensures
        get_outcome(utf8::encode_utf8(seq!['/'] + sent), dir) == GetOutcome::Open(
            dir.push('/') + path,
        ),
{
    text::law_text_reads_back(seq!['/'] + sent);
    law_advertised_path_reopens(dir, path, sent);
}

/// Bytes that are no UTF-8 are read with replacements, and then as any text.
pub proof fn law_other_bytes_are_read_with_replacements(target: Seq<u8>, dir: Seq<char>)
    requires
        !utf8::valid_utf8(target),
        !is_page_path(target),
    ensures
        get_outcome(target, dir) == GetOutcome::Open(
            dir.push('/') + sanitize::sanitized(codec::decoded(text::utf8_lossy(target))),
        ),
{
}

/// A target that is text and no fixed page opens what the text decodes to in
/// the media directory.
pub proof fn law_a_target_opens_what_it_decodes_to(target: Seq<char>, dir: Seq<char>)
    requires
        !is_page_path(utf8::encode_utf8(target)),
    ensures
        get_outcome(utf8::encode_utf8(target), dir) == GetOutcome::Open(
            dir + seq!['/'] + sanitize::sanitized(codec::decoded(target)),
        ),
        media_path(dir, target) == dir + seq!['/'] + sanitize::sanitized(codec::decoded(target)),
{
    text::law_text_reads_back(target);
    assert(dir.push('/') =~= dir + seq!['/']);
}

} // verus!
