//! Directory listings: the reply to a Browse request.

use crate::codec;
use crate::codec::{decode, encode, escape_didl};
use crate::get;
use crate::order;
use crate::order::sort_names;
use crate::sanitize;
use crate::sanitize::sanitize_path;
use crate::text;
use crate::text::{chars_of, cow_text, push_decimal};
use vstd::prelude::*;
use vstd::string::*;
use vstd::utf8;

verus! {

/// What stands before the entries of a listing.
pub const SOAP_HEAD: &'static str = "<?xml version=\"1.0\" encoding=\"utf-8\"?><s:Envelope xmlns:s=\"http://schemas.xmlsoap.org/soap/envelope/\" s:encodingStyle=\"http://schemas.xmlsoap.org/soap/encoding/\"><s:Body><u:BrowseResponse xmlns:u=\"urn:schemas-upnp-org:service:ContentDirectory:1\"><Result>&lt;DIDL-Lite xmlns:dc=\"http://purl.org/dc/elements/1.1/\" xmlns:upnp=\"urn:schemas-upnp-org:metadata-1-0/upnp/\" xmlns=\"urn:schemas-upnp-org:metadata-1-0/DIDL-Lite/\"&gt;";

/// The path that a listing shows for the path that was asked for: the
/// resolved path, with a slash at its end where the request had one.
pub open spec fn display_path(path: Seq<char>) -> Seq<char> {
    let asked = codec::decoded(path);
    let inner = sanitize::sanitized(asked);
    if inner.len() == 0 {
        Seq::empty()
    } else if asked.len() > 0 && sanitize::is_separator(asked.last()) {
        inner.push('/')
    } else {
        inner
    }
}

/// The path that a listing shows.
pub fn shown_path(path: &str) -> (r: String)
    ensures
        r@ == display_path(path@),
{
    let asked = decode(path);
    let mut inner = sanitize_path(asked.as_str());
    let cs = chars_of(asked.as_str());
    if !inner.as_str().is_empty() && cs.len() > 0 {
        let last = cs[cs.len() - 1];
        if last == '/' || last == '\\' {
            inner.push('/');
        }
    }
    inner
}

/// The id of a directory in a listing that shows `shown`.
pub open spec fn container_id(shown: Seq<char>, name: Seq<char>) -> Seq<char> {
    codec::escaped(shown) + codec::escaped(name) + "/"@
}

/// The entry of a directory in a listing that shows `shown`.
pub open spec fn container_entry(shown: Seq<char>, name: Seq<char>) -> Seq<char> {
    "&lt;container id=\""@ + container_id(shown, name) + "\" parentID=\""@ + codec::escaped(shown)
        + "/\""@ + " restricted=\"1\" searchable=\"1\" childCount=\"0\"&gt;"@
        + "&lt;dc:title&gt;"@ + codec::escaped(name) + "&lt;/dc:title&gt;"@
        + "&lt;upnp:class&gt;object.container.storageFolder&lt;/upnp:class&gt;"@
        + "&lt;upnp:storageUsed&gt;-1&lt;/upnp:storageUsed&gt;"@ + "&lt;/container&gt;"@
}

/// The id of a file in a listing that shows `shown`; behind the address of
/// the server it is the URL of the file.
pub open spec fn item_id(shown: Seq<char>, name: Seq<char>) -> Seq<char> {
    codec::encoded(shown) + codec::encoded(name)
}

/// The entry of a file in a listing that shows `shown`.
pub open spec fn item_entry(shown: Seq<char>, name: Seq<char>, ip: Seq<char>) -> Seq<char> {
    "&lt;item id=\""@ + item_id(shown, name) + "\" parentID=\""@ + codec::encoded(shown) + "\""@
        + " restricted=\"1\" searchable=\"1\"&gt;"@ + "&lt;dc:title&gt;"@ + codec::escaped(name)
        + "&lt;/dc:title&gt;"@ + "&lt;upnp:class&gt;object.item.videoItem&lt;/upnp:class&gt;"@
        + "&lt;res protocolInfo=\"http-get:*:video/mp4:*\"&gt;"@ + "http://"@ + ip + ":8200/"@
        + item_id(shown, name) + "&lt;/res&gt;"@ + "&lt;/item&gt;"@
}

/// The entry at position `i`: the directories come before the files.
pub open spec fn entry(
    shown: Seq<char>,
    ip: Seq<char>,
    dirs: Seq<Seq<char>>,
    files: Seq<Seq<char>>,
    i: int,
) -> Seq<char> {
    let name = (dirs + files)[i];
    if i < dirs.len() {
        container_entry(shown, name)
    } else {
        item_entry(shown, name, ip)
    }
}

/// The entries from position `from` up to position `to`.
pub open spec fn entries(
    shown: Seq<char>,
    ip: Seq<char>,
    dirs: Seq<Seq<char>>,
    files: Seq<Seq<char>>,
    from: int,
    to: int,
) -> Seq<char>
    decreases to - from,
{
    if to <= from {
        Seq::empty()
    } else {
        entries(shown, ip, dirs, files, from, to - 1) + entry(shown, ip, dirs, files, to - 1)
    }
}

/// The position behind the last entry of a page of a listing with `total`
/// entries.
pub open spec fn page_end(start: u32, count: u32, total: nat) -> int {
    if start + count < total {
        start + count
    } else {
        total as int
    }
}

/// The number of entries on a page of a listing with `total` entries.
pub open spec fn page_len(start: u32, count: u32, total: nat) -> nat {
    if page_end(start, count, total) > start {
        (page_end(start, count, total) - start) as nat
    } else {
        0
    }
}

/// The SOAP envelope of a listing. Both counts are those of the page.
pub open spec fn envelope(entries: Seq<char>, count: nat) -> Seq<char> {
    SOAP_HEAD@ + entries + "&lt;/DIDL-Lite&gt;</Result>"@ + "<NumberReturned>"@
        + text::decimal_text(count) + "</NumberReturned>"@ + "<TotalMatches>"@
        + text::decimal_text(count) + "</TotalMatches>"@
        + "<UpdateID>0</UpdateID></u:BrowseResponse></s:Body></s:Envelope>"@
}

/// The HTTP header of a SOAP envelope of `length` bytes.
pub open spec fn soap_header(length: nat) -> Seq<char> {
    "HTTP/1.1 200 OK\r\n"@ + "Connection: Keep-Alive\r\n"@ + "Content-Type: text/xml;\r\n"@
        + "Content-Length: "@ + text::decimal_text(length) + "\r\n"@
        + "Server: RustyDLNA DLNADOC/1.50 UPnP/1.0 RustyDLNA7/1.3.0\r\n\r\n"@
}

/// A SOAP envelope with its HTTP header. The length counts bytes.
pub open spec fn soap_reply(soap: Seq<char>) -> Seq<char> {
    soap_header(utf8::encode_utf8(soap).len()) + soap
}

/// The reply to a request for `count` entries from position `start` on of the
/// directory at `path`, which holds the directories `dirs` and the files
/// `files`.
pub open spec fn browse_reply(
    path: Seq<char>,
    start: u32,
    count: u32,
    ip: Seq<char>,
    dirs: Seq<Seq<char>>,
    files: Seq<Seq<char>>,
) -> Seq<char> {
    let total = dirs.len() + files.len();
    soap_reply(
        envelope(
            entries(
                display_path(path),
                ip,
                order::sorted_names(dirs),
                order::sorted_names(files),
                start as int,
                page_end(start, count, total),
            ),
            page_len(start, count, total),
        ),
    )
}

/// The names in a directory as they are found.
pub struct Listing {
    pub dirs: Vec<String>,
    pub files: Vec<String>,
}

/// The directories and the files once one more name has been noted.
pub open spec fn noted(
    dirs: Seq<Seq<char>>,
    files: Seq<Seq<char>>,
    name: Seq<char>,
    is_dir: bool,
) -> (Seq<Seq<char>>, Seq<Seq<char>>) {
    if is_dir {
        (dirs.push(name), files)
    } else {
        (dirs, files.push(name))
    }
}

impl Listing {
    /// An empty directory, or one that could not be read.
    pub fn new() -> (r: Listing)
        ensures
            r.dirs@ == Seq::<String>::empty(),
            r.files@ == Seq::<String>::empty(),
    {
        Listing { dirs: Vec::new(), files: Vec::new() }
    }

    /// Notes one name.
    pub fn note(&mut self, name: String, is_dir: bool)
        ensures
            is_dir ==> final(self).dirs@ == old(self).dirs@.push(name) && final(self).files
                == old(self).files,
            !is_dir ==> final(self).files@ == old(self).files@.push(name) && final(self).dirs
                == old(self).dirs,
            (final(self).dir_names(), final(self).file_names()) == noted(
                old(self).dir_names(),
                old(self).file_names(),
                name@,
                is_dir,
            ),
    {
        let ghost dirs = self.dirs@;
        let ghost files = self.files@;
        if is_dir {
            self.dirs.push(name);
            assert(order::texts(self.dirs@) =~= order::texts(dirs).push(name@));
        } else {
            self.files.push(name);
            assert(order::texts(self.files@) =~= order::texts(files).push(name@));
        }
    }

    /// The names of the directories.
    pub open spec fn dir_names(&self) -> Seq<Seq<char>> {
        order::texts(self.dirs@)
    }

    /// The names of the other files.
    pub open spec fn file_names(&self) -> Seq<Seq<char>> {
        order::texts(self.files@)
    }
}

/// The file system path of the directory that a Browse request is about.
pub fn browse_target(path: &str, dir_path: &str) -> (r: String)
    ensures
        r@ == get::media_path(dir_path@, path@),
{
    get::resolve_media_path(dir_path, path)
}

fn render_container(
    esc_path: &str,
    title: &str,
    Ghost(shown): Ghost<Seq<char>>,
    Ghost(name): Ghost<Seq<char>>,
) -> (r: String)
    requires
        esc_path@ == codec::escaped(shown),
        title@ == codec::escaped(name),
    ensures
        r@ == container_entry(shown, name),
{
    let mut id = esc_path.to_owned();
    id.push_str(title);
    id.push_str("/");
    let mut out = "&lt;container id=\"".to_owned();
    out.push_str(id.as_str());
    out.push_str("\" parentID=\"");
    out.push_str(esc_path);
    out.push_str("/\"");
    out.push_str(" restricted=\"1\" searchable=\"1\" childCount=\"0\"&gt;");
    out.push_str("&lt;dc:title&gt;");
    out.push_str(title);
    out.push_str("&lt;/dc:title&gt;");
    out.push_str("&lt;upnp:class&gt;object.container.storageFolder&lt;/upnp:class&gt;");
    out.push_str("&lt;upnp:storageUsed&gt;-1&lt;/upnp:storageUsed&gt;");
    out.push_str("&lt;/container&gt;");
    out
}

fn render_item(
    enc_path: &str,
    name: &str,
    title: &str,
    ip: &str,
    Ghost(shown): Ghost<Seq<char>>,
) -> (r: String)
    requires
        enc_path@ == codec::encoded(shown),
        title@ == codec::escaped(name@),
    ensures
        r@ == item_entry(shown, name@, ip@),
{
    let mut id = enc_path.to_owned();
    id.push_str(encode(name).as_str());
    let mut out = "&lt;item id=\"".to_owned();
    out.push_str(id.as_str());
    out.push_str("\" parentID=\"");
    out.push_str(enc_path);
    out.push_str("\"");
    out.push_str(" restricted=\"1\" searchable=\"1\"&gt;");
    out.push_str("&lt;dc:title&gt;");
    out.push_str(title);
    out.push_str("&lt;/dc:title&gt;");
    out.push_str("&lt;upnp:class&gt;object.item.videoItem&lt;/upnp:class&gt;");
    out.push_str("&lt;res protocolInfo=\"http-get:*:video/mp4:*\"&gt;");
    out.push_str("http://");
    out.push_str(ip);
    out.push_str(":8200/");
    out.push_str(id.as_str());
    out.push_str("&lt;/res&gt;");
    out.push_str("&lt;/item&gt;");
    out
}

/// The reply to a request for `requested_count` entries from position
/// `starting_index` on of the directory at `path`, and the names of all its
/// directories in ascending order.
pub fn generate_browse_response_inner(
    path: &str,
    starting_index: u32,
    requested_count: u32,
    ip: &str,
    listing: Listing,
) -> (r: (String, Vec<String>))
    requires
        listing.dirs@.len() + listing.files@.len() > 0 ==> starting_index + requested_count
            <= u32::MAX,
    ensures
        r.0@ == browse_reply(
            path@,
            starting_index,
            requested_count,
            ip@,
            listing.dir_names(),
            listing.file_names(),
        ),
        order::texts(r.1@) == order::sorted_names(listing.dir_names()),
{
    let shown = shown_path(path);
    let enc_path = encode(shown.as_str());
    let esc_cow = escape_didl(shown.as_str());
    let esc_path = cow_text(&esc_cow);
    let ghost total = listing.dirs@.len() + listing.files@.len();
    proof {
        order::law_sorted_names(listing.dir_names());
        order::law_sorted_names(listing.file_names());
    }
    let dirs = sort_names(listing.dirs);
    let files = sort_names(listing.files);
    let ghost ds = order::texts(dirs@);
    let ghost fs = order::texts(files@);
    let mut soap = SOAP_HEAD.to_owned();
    let mut count: u64 = 0;
    assert(soap@ + Seq::<char>::empty() =~= soap@);
    if dirs.len() > 0 || files.len() > 0 {
        let end = (starting_index + requested_count) as usize;
        let mut i: usize = starting_index as usize;
        while i < end && (i < dirs.len() || i - dirs.len() < files.len())
            invariant
                ds == order::texts(dirs@),
                fs == order::texts(files@),
                ds.len() == dirs@.len(),
                fs.len() == files@.len(),
                total == dirs@.len() + files@.len(),
                esc_path@ == codec::escaped(shown@),
                enc_path@ == codec::encoded(shown@),
                end == starting_index + requested_count,
                end <= u32::MAX,
                starting_index <= i,
                i == starting_index || i <= page_end(starting_index, requested_count, total),
                count == i - starting_index,
                soap@ == SOAP_HEAD@ + entries(
                    shown@,
                    ip@,
                    ds,
                    fs,
                    starting_index as int,
                    i as int,
                ),
            decreases end - i,
        {
            let name = if i < dirs.len() {
                dirs[i].as_str()
            } else {
                files[i - dirs.len()].as_str()
            };
            assert(name@ == (ds + fs)[i as int]);
            let title_cow = escape_didl(name);
            let title = cow_text(&title_cow);
            let text = if i < dirs.len() {
                render_container(esc_path, title, Ghost(shown@), Ghost(name@))
            } else {
                render_item(enc_path.as_str(), name, title, ip, Ghost(shown@))
            };
            assert(text@ == entry(shown@, ip@, ds, fs, i as int));
            soap.push_str(text.as_str());
            proof {
                let done = entries(shown@, ip@, ds, fs, starting_index as int, i as int);
                assert(SOAP_HEAD@ + (done + text@) =~= SOAP_HEAD@ + done + text@);
            }
            i += 1;
            count += 1;
        }
        assert(i == page_end(starting_index, requested_count, total) || (i == starting_index && i
            >= page_end(starting_index, requested_count, total)));
    }
    assert(soap@ == SOAP_HEAD@ + entries(
        shown@,
        ip@,
        ds,
        fs,
        starting_index as int,
        page_end(starting_index, requested_count, total),
    ));
    soap.push_str("&lt;/DIDL-Lite&gt;</Result>");
    soap.push_str("<NumberReturned>");
    push_decimal(&mut soap, count);
    soap.push_str("</NumberReturned>");
    soap.push_str("<TotalMatches>");
    push_decimal(&mut soap, count);
    soap.push_str("</TotalMatches>");
    soap.push_str("<UpdateID>0</UpdateID></u:BrowseResponse></s:Body></s:Envelope>");
    let mut reply = "HTTP/1.1 200 OK\r\n".to_owned();
    reply.push_str("Connection: Keep-Alive\r\n");
    reply.push_str("Content-Type: text/xml;\r\n");
    reply.push_str("Content-Length: ");
    push_decimal(&mut reply, soap.as_str().as_bytes().len() as u64);
    reply.push_str("\r\n");
    reply.push_str("Server: RustyDLNA DLNADOC/1.50 UPnP/1.0 RustyDLNA7/1.3.0\r\n\r\n");
    reply.push_str(soap.as_str());
    (reply, dirs)
}

/// The reply to a request for `requested_count` entries from position
/// `starting_index` on of the directory at `path`.
pub fn generate_browse_response(
    path: &str,
    starting_index: u32,
    requested_count: u32,
    ip: &str,
    listing: Listing,
) -> (r: String)
    requires
        listing.dirs@.len() + listing.files@.len() > 0 ==> starting_index + requested_count
            <= u32::MAX,
    ensures
        r@ == browse_reply(
            path@,
            starting_index,
            requested_count,
            ip@,
            listing.dir_names(),
            listing.file_names(),
        ),
{
    generate_browse_response_inner(path, starting_index, requested_count, ip, listing).0
}

/// A name is noted among the directories or among the files, behind those that
/// are there, and the others stay as they are.
pub proof fn law_a_name_is_noted_once(
    dirs: Seq<Seq<char>>,
    files: Seq<Seq<char>>,
    name: Seq<char>,
)
    ensures
        noted(dirs, files, name, true) == (dirs + seq![name], files),
        noted(dirs, files, name, false) == (dirs, files + seq![name]),
{
    assert(dirs.push(name) =~= dirs + seq![name]);
    assert(files.push(name) =~= files + seq![name]);
}

} // verus!
