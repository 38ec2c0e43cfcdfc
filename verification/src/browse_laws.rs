//! What holds of every listing.

use crate::browse;
use crate::codec;
use crate::codec_laws;
use crate::get;
use crate::order;
use crate::sanitize;
use crate::seqs;
use crate::text;
use vstd::prelude::*;
use vstd::seq_lib;
use vstd::string::*;
use vstd::utf8;

verus! {

/// The path of a directory as listings show it: empty for the media directory
/// itself, else a path inside it with a slash at its end.
pub open spec fn is_dir_path(path: Seq<char>) -> bool {
    path.len() > 0 ==> {
        &&& path.last() == '/'
        &&& path.len() > 1
        &&& sanitize::is_inside(path.drop_last())
    }
}

/// The path of the directory `name` in the directory at `path`.
pub open spec fn child_path(path: Seq<char>, name: Seq<char>) -> Seq<char> {
    (path + name).push('/')
}

/// As many bytes follow the header of a listing as it announces.
pub proof fn law_listing_length_is_announced(soap: Seq<char>)
    ensures
        ({
            let length = utf8::encode_utf8(soap).len();
            utf8::encode_utf8(browse::soap_reply(soap)) == utf8::encode_utf8(
                browse::soap_header(length),
            ) + utf8::encode_utf8(soap)
        }),
{
    text::lemma_encode_concat(browse::soap_header(utf8::encode_utf8(soap).len()), soap);
}

/// A listing does not depend on the order in which the file system gives the
/// names out.
pub proof fn law_listing_ignores_order(
    path: Seq<char>,
    start: u32,
    count: u32,
    ip: Seq<char>,
    dirs1: Seq<Seq<char>>,
    files1: Seq<Seq<char>>,
    dirs2: Seq<Seq<char>>,
    files2: Seq<Seq<char>>,
)
    requires
        dirs1.to_multiset() == dirs2.to_multiset(),
        files1.to_multiset() == files2.to_multiset(),
    ensures
        browse::browse_reply(path, start, count, ip, dirs1, files1) == browse::browse_reply(
            path,
            start,
            count,
            ip,
            dirs2,
            files2,
        ),
{
    order::law_sorting_ignores_order(dirs1, dirs2);
    order::law_sorting_ignores_order(files1, files2);
    dirs1.to_multiset_ensures();
    dirs2.to_multiset_ensures();
    files1.to_multiset_ensures();
    files2.to_multiset_ensures();
}

/// Pages that follow each other hold the entries of the whole, each once.
pub proof fn law_pages_join(
    shown: Seq<char>,
    ip: Seq<char>,
    dirs: Seq<Seq<char>>,
    files: Seq<Seq<char>>,
    from: int,
    mid: int,
    to: int,
)
    requires
        from <= mid <= to,
    ensures
        browse::entries(shown, ip, dirs, files, from, to) == browse::entries(
            shown,
            ip,
            dirs,
            files,
            from,
            mid,
        ) + browse::entries(shown, ip, dirs, files, mid, to),
    decreases to - mid,
{
    let a = browse::entries(shown, ip, dirs, files, from, mid);
    if to == mid {
        assert(a + Seq::<char>::empty() =~= a);
    } else {
        law_pages_join(shown, ip, dirs, files, from, mid, to - 1);
        let b = browse::entries(shown, ip, dirs, files, mid, to - 1);
        let last = browse::entry(shown, ip, dirs, files, to - 1);
        assert(a + b + last =~= a + (b + last));
    }
}

/// The id of a directory, unescaped once by the reader of the envelope and
/// once by the reader of the DIDL in it, is the path of the directory.
pub proof fn law_container_id_reads_back(shown: Seq<char>, name: Seq<char>)
    ensures
        codec_laws::xml_unescaped(
            codec_laws::xml_unescaped(browse::container_id(shown, name)),
        ) == child_path(shown, name),
{
    reveal_strlit("/");
    let slash = seq!['/'];
    let f = |c: char| codec::escaped_char(c);
    assert(codec::escaped(slash) =~= slash) by {
        assert(slash.drop_last() =~= Seq::empty());
        reveal_with_fuel(seqs::expand, 2);
    }
    seqs::lemma_expand_concat(shown, name, f);
    seqs::lemma_expand_concat(shown + name, slash, f);
    assert(child_path(shown, name) =~= shown + name + slash);
    assert("/"@ =~= slash);
    codec_laws::law_escape_reads_back(child_path(shown, name));
}

/// Neither an id nor a title of a listing holds an angle bracket or a quote:
/// no name of a file or directory can become markup or end an attribute.
pub proof fn law_entries_have_no_markup(shown: Seq<char>, name: Seq<char>, x: char)
    requires
        codec::is_markup(x),
        x != '&',
    ensures
        !browse::container_id(shown, name).contains(x),
        !browse::item_id(shown, name).contains(x),
        !codec::escaped(shown).contains(x),
        !codec::encoded(shown).contains(x),
        !codec::escaped(name).contains(x),
{
    reveal_strlit("/");
    codec_laws::law_escape_has_no_markup(shown, x);
    codec_laws::law_escape_has_no_markup(name, x);
    codec_laws::law_encode_has_no_reserved(shown, x);
    codec_laws::law_encode_has_no_reserved(name, x);
    let id = browse::container_id(shown, name);
    let a = codec::escaped(shown);
    let b = codec::escaped(name);
    assert forall|i: int| 0 <= i < id.len() implies id[i] != x by {
        if i < a.len() {
            assert(a.contains(a[i]));
        } else if i < a.len() + b.len() {
            assert(b.contains(b[i - a.len()]));
        }
    }
    let item = browse::item_id(shown, name);
    let c = codec::encoded(shown);
    let d = codec::encoded(name);
    assert forall|i: int| 0 <= i < item.len() implies item[i] != x by {
        if i < c.len() {
            assert(c.contains(c[i]));
        } else {
            assert(d.contains(d[i - c.len()]));
        }
    }
}

/// A name in a directory makes a path inside the media directory.
proof fn lemma_child_is_inside(path: Seq<char>, name: Seq<char>)
    requires
        is_dir_path(path),
        sanitize::is_name(name),
    ensures
        sanitize::is_inside(path + name),
        is_dir_path(child_path(path, name)),
{
    let full = path + name;
    assert(!name.contains('\\')) by {
        assert forall|i: int| 0 <= i < name.len() implies name[i] != '\\' by {
            assert(!sanitize::is_separator(name[i]));
        }
    }
    if path.len() == 0 {
        assert(full =~= name);
        sanitize::lemma_components_single(name);
    } else {
        let parent = path.drop_last();
        assert(full =~= parent.push('/') + name);
        sanitize::lemma_components_push(parent, name);
        let comps = sanitize::components(parent);
        assert forall|i: int|
            0 <= i < sanitize::components(full).len() implies sanitize::is_name(
            #[trigger] sanitize::components(full)[i],
        ) by {
            if i < comps.len() {
                assert(sanitize::is_name(comps[i]));
            }
        }
        assert forall|i: int| 0 <= i < full.len() implies full[i] != '\\' by {
            if i < parent.len() {
                assert(parent.contains(parent[i]));
            } else if i >= path.len() {
                assert(name.contains(name[i - path.len()]));
            }
        }
    }
    assert(child_path(path, name).drop_last() =~= full);
}

/// A file that is listed in a directory is opened again when a client asks
/// for the URL that the listing gives for it, however often the client has
/// unescaped it. Names that spell an entity are left out.
pub proof fn law_listed_file_reopens(
    dir: Seq<char>,
    path: Seq<char>,
    name: Seq<char>,
    sent: Seq<char>,
)
    requires
        is_dir_path(path),
        sanitize::is_name(name),
        codec_laws::entity_free(path + name),
        get::is_reading(browse::item_id(path, name), sent),
    ensures
        get::media_path(dir, text::text_of(utf8::encode_utf8(seq!['/'] + sent))) == dir.push('/')
            + (path + name),
{
    text::law_text_reads_back(seq!['/'] + sent);
    lemma_child_is_inside(path, name);
    codec_laws::law_encode_concat(path, name);
    get::law_advertised_path_reopens(dir, path + name, sent);
}

/// A directory that is listed is browsed under the path that its id stands
/// for: the listing is made from that very directory, and shows that very
/// path. Paths that decoding changes are left out.
pub proof fn law_listed_directory_browses(dir: Seq<char>, path: Seq<char>, name: Seq<char>)
    requires
        is_dir_path(path),
        sanitize::is_name(name),
        codec::decoded(child_path(path, name)) == child_path(path, name),
    ensures
        is_dir_path(child_path(path, name)),
        get::media_path(dir, child_path(path, name)) == dir.push('/') + (path + name),
        browse::display_path(child_path(path, name)) == child_path(path, name),
{
    lemma_child_is_inside(path, name);
    sanitize::law_sanitize_trailing_slash(path + name);
    sanitize::law_sanitize_keeps_inside(path + name);
}

/// A client that asks for a directory by its path, encoded as in a URL, is
/// shown what a client is shown that asks by the path itself: the same
/// directory is probed and listed, under the same path. Paths that decoding
/// changes are left out.
pub proof fn law_encoded_path_lists_the_directory(dir: Seq<char>, path: Seq<char>)
    requires
        is_dir_path(path),
        path.len() > 0,
        codec_laws::entity_free(path),
        codec::decoded(path) == path,
    ensures
        codec::decoded(codec::encoded(path)) == path,
        get::media_path(dir, codec::encoded(path)) == dir.push('/') + path.drop_last(),
        get::media_path(dir, path) == dir.push('/') + path.drop_last(),
        browse::display_path(path) == path,
{
    let inner = path.drop_last();
    assert(path =~= inner.push('/'));
    codec_laws::law_decode_encode(path);
    sanitize::law_sanitize_trailing_slash(inner);
    sanitize::law_sanitize_keeps_inside(inner);
}

/// The id of a directory is its path, escaped.
proof fn lemma_container_id(shown: Seq<char>, name: Seq<char>)
    ensures
        browse::container_id(shown, name) == codec::escaped(child_path(shown, name)),
{
    reveal_strlit("/");
    let slash = seq!['/'];
    let f = |c: char| codec::escaped_char(c);
    assert(codec::escaped(slash) =~= slash) by {
        assert(slash.drop_last() =~= Seq::empty());
        reveal_with_fuel(seqs::expand, 2);
    }
    seqs::lemma_expand_concat(shown, name, f);
    seqs::lemma_expand_concat(shown + name, slash, f);
    assert(child_path(shown, name) =~= shown + name + slash);
    assert("/"@ =~= slash);
}

/// The entry of a directory is a container: its id is the escaped path of the
/// directory, its title the escaped name, its class that of a folder. It holds
/// these and what every such entry holds, and nothing more.
pub proof fn law_container_entry_names_its_directory(shown: Seq<char>, name: Seq<char>)
    ensures
        ({
            let text = browse::container_entry(shown, name);
            let opening = "&lt;container id=\""@ + codec::escaped(child_path(shown, name))
                + "\" parentID=\""@ + codec::escaped(shown) + "/\""@;
            let flags = " restricted=\"1\" searchable=\"1\" childCount=\"0\"&gt;"@;
            let title = "&lt;dc:title&gt;"@ + codec::escaped(name) + "&lt;/dc:title&gt;"@;
            let class = "&lt;upnp:class&gt;object.container.storageFolder&lt;/upnp:class&gt;"@;
            let used = "&lt;upnp:storageUsed&gt;-1&lt;/upnp:storageUsed&gt;"@;
            let closing = "&lt;/container&gt;"@;
            &&& seqs::starts_with(text, opening)
            &&& seqs::contains_seq(text, flags)
            &&& seqs::contains_seq(text, title)
            &&& seqs::contains_seq(text, class)
            &&& seqs::contains_seq(text, used)
            &&& seqs::ends_with(text, closing)
            &&& text.len() == opening.len() + flags.len() + title.len() + class.len() + used.len()
                + closing.len()
        }),
{
    lemma_container_id(shown, name);
    let text = browse::container_entry(shown, name);
    let opening = "&lt;container id=\""@ + codec::escaped(child_path(shown, name))
        + "\" parentID=\""@ + codec::escaped(shown) + "/\""@;
    let flags = " restricted=\"1\" searchable=\"1\" childCount=\"0\"&gt;"@;
    let title = "&lt;dc:title&gt;"@ + codec::escaped(name) + "&lt;/dc:title&gt;"@;
    let class = "&lt;upnp:class&gt;object.container.storageFolder&lt;/upnp:class&gt;"@;
    let used = "&lt;upnp:storageUsed&gt;-1&lt;/upnp:storageUsed&gt;"@;
    let closing = "&lt;/container&gt;"@;
    assert(text =~= opening + flags + title + class + used + closing);
    seqs::lemma_parts(text, opening, flags, title, class, used, closing);
}

/// The entry of a file is an item: its id is the encoded path of the file, its
/// title the escaped name, its class that of a video, and its resource the
/// encoded path at the address of the server. It holds these and what every
/// such entry holds, and nothing more.
pub proof fn law_item_entry_names_its_file(shown: Seq<char>, name: Seq<char>, ip: Seq<char>)
    ensures
        ({
            let text = browse::item_entry(shown, name, ip);
            let opening = "&lt;item id=\""@ + codec::encoded(shown + name) + "\" parentID=\""@
                + codec::encoded(shown) + "\""@;
            let flags = " restricted=\"1\" searchable=\"1\"&gt;"@;
            let title = "&lt;dc:title&gt;"@ + codec::escaped(name) + "&lt;/dc:title&gt;"@;
            let class = "&lt;upnp:class&gt;object.item.videoItem&lt;/upnp:class&gt;"@;
            let resource = "&lt;res protocolInfo=\"http-get:*:video/mp4:*\"&gt;"@ + "http://"@ + ip
                + ":8200/"@ + codec::encoded(shown + name) + "&lt;/res&gt;"@;
            let closing = "&lt;/item&gt;"@;
            &&& seqs::starts_with(text, opening)
            &&& seqs::contains_seq(text, flags)
            &&& seqs::contains_seq(text, title)
            &&& seqs::contains_seq(text, class)
            &&& seqs::contains_seq(text, resource)
            &&& seqs::ends_with(text, closing)
            &&& text.len() == opening.len() + flags.len() + title.len() + class.len()
                + resource.len() + closing.len()
        }),
{
    codec_laws::law_encode_concat(shown, name);
    let text = browse::item_entry(shown, name, ip);
    let opening = "&lt;item id=\""@ + codec::encoded(shown + name) + "\" parentID=\""@
        + codec::encoded(shown) + "\""@;
    let flags = " restricted=\"1\" searchable=\"1\"&gt;"@;
    let title = "&lt;dc:title&gt;"@ + codec::escaped(name) + "&lt;/dc:title&gt;"@;
    let class = "&lt;upnp:class&gt;object.item.videoItem&lt;/upnp:class&gt;"@;
    let resource = "&lt;res protocolInfo=\"http-get:*:video/mp4:*\"&gt;"@ + "http://"@ + ip
        + ":8200/"@ + codec::encoded(shown + name) + "&lt;/res&gt;"@;
    let closing = "&lt;/item&gt;"@;
    assert(text =~= opening + flags + title + class + resource + closing);
    seqs::lemma_parts(text, opening, flags, title, class, resource, closing);
}

/// The envelope of a listing holds its entries behind the head, and says twice
/// how many they are. It holds nothing more.
pub proof fn law_envelope_counts_its_entries(entries: Seq<char>, count: nat)
    ensures
        ({
            let text = browse::envelope(entries, count);
            let listed = entries + "&lt;/DIDL-Lite&gt;</Result>"@;
            let returned = "<NumberReturned>"@ + text::decimal_text(count) + "</NumberReturned>"@;
            let total = "<TotalMatches>"@ + text::decimal_text(count) + "</TotalMatches>"@;
            let end = "<UpdateID>0</UpdateID></u:BrowseResponse></s:Body></s:Envelope>"@;
            &&& seqs::starts_with(text, browse::SOAP_HEAD@ + listed)
            &&& seqs::contains_seq(text, returned)
            &&& seqs::contains_seq(text, total)
            &&& seqs::ends_with(text, end)
            &&& text.len() == browse::SOAP_HEAD@.len() + listed.len() + returned.len() + total.len()
                + end.len()
        }),
{
    let none: Seq<char> = Seq::empty();
    let text = browse::envelope(entries, count);
    let listed = entries + "&lt;/DIDL-Lite&gt;</Result>"@;
    let returned = "<NumberReturned>"@ + text::decimal_text(count) + "</NumberReturned>"@;
    let total = "<TotalMatches>"@ + text::decimal_text(count) + "</TotalMatches>"@;
    let end = "<UpdateID>0</UpdateID></u:BrowseResponse></s:Body></s:Envelope>"@;
    let front = browse::SOAP_HEAD@ + listed;
    assert(text =~= front + returned + total + none + none + end);
    seqs::lemma_parts(text, front, returned, total, none, none, end);
}

/// A listing is sent as a success, as XML, with the number of its bytes before
/// it, and ends with its own text.
pub proof fn law_listing_is_sent_whole(soap: Seq<char>)
    ensures
        ({
            let text = browse::soap_reply(soap);
            let length = "Content-Length: "@ + text::decimal_text(utf8::encode_utf8(soap).len())
                + "\r\n"@;
            let server = "Server: RustyDLNA DLNADOC/1.50 UPnP/1.0 RustyDLNA7/1.3.0\r\n\r\n"@;
            &&& seqs::starts_with(text, "HTTP/1.1 200 OK\r\n"@)
            &&& seqs::contains_seq(text, "Connection: Keep-Alive\r\n"@)
            &&& seqs::contains_seq(text, "Content-Type: text/xml;\r\n"@)
            &&& seqs::contains_seq(text, length)
            &&& seqs::contains_seq(text, server)
            &&& seqs::ends_with(text, soap)
            &&& text.len() == "HTTP/1.1 200 OK\r\n"@.len() + "Connection: Keep-Alive\r\n"@.len()
                + "Content-Type: text/xml;\r\n"@.len() + length.len() + server.len() + soap.len()
        }),
{
    let length = "Content-Length: "@ + text::decimal_text(utf8::encode_utf8(soap).len())
        + "\r\n"@;
    let server = "Server: RustyDLNA DLNADOC/1.50 UPnP/1.0 RustyDLNA7/1.3.0\r\n\r\n"@;
    let text = browse::soap_reply(soap);
    assert(text =~= "HTTP/1.1 200 OK\r\n"@ + "Connection: Keep-Alive\r\n"@
        + "Content-Type: text/xml;\r\n"@ + length + server + soap);
    seqs::lemma_parts(
        text,
        "HTTP/1.1 200 OK\r\n"@,
        "Connection: Keep-Alive\r\n"@,
        "Content-Type: text/xml;\r\n"@,
        length,
        server,
        soap,
    );
}

/// The entries of a directory, one for each name: a container for each of its
/// directories, and behind them an item for each of its files.
pub open spec fn entry_of_each(
    shown: Seq<char>,
    ip: Seq<char>,
    dirs: Seq<Seq<char>>,
    files: Seq<Seq<char>>,
) -> Seq<Seq<char>> {
    dirs.map_values(|d: Seq<char>| browse::container_entry(shown, d)) + files.map_values(
        |f: Seq<char>| browse::item_entry(shown, f, ip),
    )
}

/// A stretch of a listing holds one entry for each name in it, in order, and
/// nothing else. Whether an entry is a container or an item is decided by
/// whether the name is that of a directory, at every position.
pub proof fn law_each_name_has_its_entry(
    shown: Seq<char>,
    ip: Seq<char>,
    dirs: Seq<Seq<char>>,
    files: Seq<Seq<char>>,
    from: int,
    to: int,
)
    requires
        0 <= from <= to <= dirs.len() + files.len(),
    ensures
        browse::entries(shown, ip, dirs, files, from, to) == entry_of_each(
            shown,
            ip,
            dirs,
            files,
        ).subrange(from, to).flatten(),
    decreases to - from,
{
    let all = entry_of_each(shown, ip, dirs, files);
    if from == to {
        assert(all.subrange(from, to) =~= Seq::empty());
        assert(all.subrange(from, to).flatten() =~= Seq::empty());
    } else {
        law_each_name_has_its_entry(shown, ip, dirs, files, from, to - 1);
        assert(all.subrange(from, to) =~= all.subrange(from, to - 1).push(all[to - 1]));
        all.subrange(from, to - 1).lemma_flatten_push(all[to - 1]);
        assert(all[to - 1] == browse::entry(shown, ip, dirs, files, to - 1));
    }
}

/// The reply to a request for `count` names from position `start` on holds the
/// entries of those names and no others, and says how many they are: the
/// directories in ascending order before the files in ascending order.
pub proof fn law_a_page_lists_its_names(
    path: Seq<char>,
    start: u32,
    count: u32,
    ip: Seq<char>,
    dirs: Seq<Seq<char>>,
    files: Seq<Seq<char>>,
)
    ensures
        ({
            let all = entry_of_each(
                browse::display_path(path),
                ip,
                order::sorted_names(dirs),
                order::sorted_names(files),
            );
            let from = if start < all.len() {
                start as int
            } else {
                all.len() as int
            };
            let to = if start + count < all.len() {
                start + count
            } else {
                all.len() as int
            };
            &&& all.len() == dirs.len() + files.len()
            &&& browse::browse_reply(path, start, count, ip, dirs, files) == browse::soap_reply(
                browse::envelope(all.subrange(from, to).flatten(), (to - from) as nat),
            )
        }),
{
    let shown = browse::display_path(path);
    let ds = order::sorted_names(dirs);
    let fs = order::sorted_names(files);
    order::law_sorted_names(dirs);
    order::law_sorted_names(files);
    let all = entry_of_each(shown, ip, ds, fs);
    let to = if start + count < all.len() {
        start + count
    } else {
        all.len() as int
    };
    if start < all.len() {
        law_each_name_has_its_entry(shown, ip, ds, fs, start as int, to);
    } else {
        assert(all.subrange(all.len() as int, to) =~= Seq::empty());
        assert(all.subrange(all.len() as int, to).flatten() =~= Seq::empty());
    }
}

/// The name of a directory on a page has a container entry in the reply, and
/// the name of a file has an item entry.
pub proof fn law_listed_names_stand_in_the_reply(
    path: Seq<char>,
    start: u32,
    count: u32,
    ip: Seq<char>,
    dirs: Seq<Seq<char>>,
    files: Seq<Seq<char>>,
    i: int,
)
    requires
        start <= i < start + count,
        i < dirs.len() + files.len(),
    ensures
        i < dirs.len() ==> seqs::contains_seq(
            browse::browse_reply(path, start, count, ip, dirs, files),
            browse::container_entry(browse::display_path(path), order::sorted_names(dirs)[i]),
        ),
        i >= dirs.len() ==> seqs::contains_seq(
            browse::browse_reply(path, start, count, ip, dirs, files),
            browse::item_entry(
                browse::display_path(path),
                order::sorted_names(files)[i - dirs.len()],
                ip,
            ),
        ),
{
    let shown = browse::display_path(path);
    let ds = order::sorted_names(dirs);
    let fs = order::sorted_names(files);
    order::law_sorted_names(dirs);
    order::law_sorted_names(files);
    let all = entry_of_each(shown, ip, ds, fs);
    let to = if start + count < all.len() {
        start + count
    } else {
        all.len() as int
    };
    law_a_page_lists_its_names(path, start, count, ip, dirs, files);
    let before = all.subrange(start as int, i);
    let behind = all.subrange(i + 1, to);
    let page = all.subrange(start as int, to);
    assert(page =~= before.push(all[i]) + behind);
    seq_lib::lemma_flatten_concat(before.push(all[i]), behind);
    before.lemma_flatten_push(all[i]);
    seqs::lemma_occurs_between(page.flatten(), before.flatten(), all[i], behind.flatten());
    lemma_reply_holds_its_entries(page.flatten(), (to - start) as nat, all[i]);
}

/// What stands among the entries of a listing stands in the reply.
proof fn lemma_reply_holds_its_entries(entries: Seq<char>, count: nat, pat: Seq<char>)
    requires
        seqs::contains_seq(entries, pat),
    ensures
        seqs::contains_seq(browse::soap_reply(browse::envelope(entries, count)), pat),
{
    let soap = browse::envelope(entries, count);
    let head = browse::SOAP_HEAD@;
    let n = (head.len() + entries.len()) as int;
    assert(soap.take(n) =~= head + entries);
    assert(soap =~= soap.take(n) + soap.skip(n));
    seqs::lemma_contains_around(soap, head, entries, soap.skip(n), pat);
    let none: Seq<char> = Seq::empty();
    let front = browse::soap_header(utf8::encode_utf8(soap).len());
    assert(browse::soap_reply(soap) =~= front + soap + none);
    seqs::lemma_contains_around(browse::soap_reply(soap), front, soap, none, pat);
}

/// A page is full, unless the listing ends on it; and it holds nothing where it
/// would begin behind the end.
pub proof fn law_pages_are_full(start: u32, count: u32, total: nat)
    ensures
        browse::page_len(start, count, total) <= count,
        start < total ==> browse::page_len(start, count, total) == count || start
            + browse::page_len(start, count, total) == total,
        start <= total ==> start + browse::page_len(start, count, total) <= total,
        start >= total ==> browse::page_len(start, count, total) == 0,
{
}

/// The path that a listing shows is the path that was listed, with a slash at
/// its end exactly where the request had one, of either kind; the media
/// directory itself is shown as the empty path.
pub proof fn law_shown_path_is_the_listed_one(path: Seq<char>)
    ensures
        ({
            let shown = browse::display_path(path);
            let inner = get::inner_path(path);
            let asked = codec::decoded(path);
            &&& inner.len() == 0 ==> shown.len() == 0
            &&& inner.len() > 0 && (asked.last() == '/' || asked.last() == '\\') ==> shown
                == inner.push('/')
            &&& inner.len() > 0 && asked.last() != '/' && asked.last() != '\\' ==> shown == inner
        }),
{
    let asked = codec::decoded(path);
    if asked.len() == 0 {
        assert(asked =~= Seq::empty());
        sanitize::law_sanitize_empty();
    }
}

} // verus!
