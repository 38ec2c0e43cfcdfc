//! Replies to POST requests: the sort capabilities and directory listings.

use crate::browse;
use crate::browse::{browse_target, generate_browse_response, Listing};
use crate::browse_laws;
use crate::bytes::bytes_at;
use crate::cache::Cache;
use crate::codec;
use crate::codec::decode;
use crate::codec_laws;
use crate::get;
use crate::get::resolve_media_path;
use crate::pages;
use crate::pages::AppConfig;
use crate::precache;
use crate::precache::PAGE_SIZE;
use crate::precache_laws;
use crate::request;
use crate::request::{contains_sortcaps, extract_object_id};
use crate::sanitize;
use crate::seqs;
use crate::text;
use crate::text::{cow_text, read_text};
use vstd::prelude::*;
use vstd::string::*;
use vstd::utf8;

verus! {

/// An object id without the prefix that some clients put before it.
pub open spec fn bare_id(id: Seq<u8>) -> Seq<u8> {
    if seqs::starts_with(id, "64$".spec_bytes()) {
        id.skip(3)
    } else {
        id
    }
}

/// An object id without the prefix that some clients put before it.
pub fn strip_id(id: &[u8]) -> (r: &[u8])
    ensures
        r@ == bare_id(id@),
{
    proof {
        reveal_strlit("64$");
        assert("64$".is_ascii());
        assert("64$".spec_bytes().len() == 3);
    }
    if bytes_at(id, "64$".as_bytes(), 0) {
        let bare = &id[3..id.len()];
        assert(bare@ =~= id@.skip(3));
        bare
    } else {
        id
    }
}

/// The reply that is kept for an object id: that of the bare id, else that of
/// the id as it was sent.
pub open spec fn kept_reply(cache: Map<Seq<u8>, Seq<char>>, id: Seq<u8>) -> Option<Seq<char>> {
    if cache.dom().contains(bare_id(id)) {
        Some(cache[bare_id(id)])
    } else if cache.dom().contains(id) {
        Some(cache[id])
    } else {
        None
    }
}

/// An id that is not taken for the prefix and the id of another directory.
pub open spec fn is_own_id(id: Seq<u8>, cache: Map<Seq<u8>, Seq<char>>) -> bool {
    bare_id(id) == id || !cache.dom().contains(bare_id(id))
}

/// What to do with a POST request.
pub enum PostPlan<'a> {
    /// Close without an answer.
    Ignore,
    /// Send this.
    Reply(&'a str),
    /// See what stands at `path`; if it is a directory, list `id`.
    Probe { path: String, id: String },
}

/// What a plan for a POST request comes to.
pub enum PostOutcome {
    Ignore,
    Reply(Seq<char>),
    Probe { path: Seq<char>, id: Seq<char> },
}

impl<'a> View for PostPlan<'a> {
    type V = PostOutcome;

    open spec fn view(&self) -> PostOutcome {
        match self {
            PostPlan::Ignore => PostOutcome::Ignore,
            PostPlan::Reply(reply) => PostOutcome::Reply(reply@),
            PostPlan::Probe { path, id } => PostOutcome::Probe { path: path@, id: id@ },
        }
    }
}

/// What is done for an id that no reply is kept for and that reads `text`.
pub open spec fn probe_outcome(text: Seq<char>, dir: Seq<char>) -> PostOutcome {
    PostOutcome::Probe { path: get::media_path(dir, text), id: codec::decoded(text) }
}

/// What is done for an object id.
pub open spec fn id_outcome(
    id: Seq<u8>,
    cache: Map<Seq<u8>, Seq<char>>,
    dir: Seq<char>,
) -> PostOutcome {
    match kept_reply(cache, id) {
        Some(kept) => PostOutcome::Reply(kept),
        None => probe_outcome(text::text_of(bare_id(id)), dir),
    }
}

/// What is done for a POST request. An object id counts for more than the
/// name of an action.
pub open spec fn post_outcome(
    req: Seq<u8>,
    cache: Map<Seq<u8>, Seq<char>>,
    dir: Seq<char>,
) -> PostOutcome {
    let id = request::object_id(req);
    if id.len() > 0 {
        id_outcome(id, cache, dir)
    } else if request::asks_sortcaps(req) {
        PostOutcome::Reply(pages::baked(pages::XML_CAPS@))
    } else {
        PostOutcome::Ignore
    }
}

/// Plans the listing of a directory that no reply is kept for.
pub fn plan_probe<'a>(text: &str, dir_path: &str) -> (plan: PostPlan<'a>)
    ensures
        plan@ == probe_outcome(text@, dir_path@),
{
    PostPlan::Probe { path: resolve_media_path(dir_path, text), id: decode(text) }
}

/// Decides what to do with a POST request.
pub fn plan_post<'a>(req: &[u8], cache: &'a Cache, config: &'a AppConfig) -> (plan: PostPlan<'a>)
    ensures
        plan@ == post_outcome(req@, cache@, config.dir()),
{
    let id = extract_object_id(req);
    if id.len() == 0 {
        return if contains_sortcaps(req) {
            PostPlan::Reply(config.sort_caps())
        } else {
            PostPlan::Ignore
        };
    }
    let bare = strip_id(id);
    proof {
        reveal_strlit("64$");
        assert("64$".is_ascii());
        assert("64$".spec_bytes().len() == 3);
        assert(bare@.len() == id@.len() ==> bare@ == id@);
    }
    if let Some(reply) = cache.get(bare) {
        return PostPlan::Reply(reply);
    }
    if bare.len() != id.len() {
        if let Some(reply) = cache.get(id) {
            return PostPlan::Reply(reply);
        }
    }
    let text = read_text(bare);
    plan_probe(cow_text(&text), config.dir_path())
}

/// The path of the directory to list once a probe is done, if it found one.
pub open spec fn target_after(
    id: Seq<char>,
    is_dir: Option<bool>,
    dir: Seq<char>,
) -> Option<Seq<char>> {
    if is_dir == Some(true) {
        Some(get::media_path(dir, id))
    } else {
        None
    }
}

/// The path of the directory to list once a probe is done: `is_dir` says
/// whether what was found is a directory, `None` that nothing was found.
pub fn probed_target(id: &str, is_dir: Option<bool>, dir_path: &str) -> (r: Option<String>)
    ensures
        match r {
            Some(path) => target_after(id@, is_dir, dir_path@) == Some(path@),
            None => target_after(id@, is_dir, dir_path@) is None,
        },
{
    match is_dir {
        Some(true) => Some(browse_target(id, dir_path)),
        _ => None,
    }
}

/// The reply to a probe that found a directory: the listing that would be kept
/// of it, had it been listed when the server started.
pub fn answer_probe(id: &str, ip: &str, listing: Listing) -> (r: String)
    ensures
        r@ == precache::listing_reply(id@, ip@, listing.dir_names(), listing.file_names()),
{
    generate_browse_response(id, 0, PAGE_SIZE, ip, listing)
}

/// A request with an object id is answered by that id alone: neither its
/// target nor its headers nor the rest of its body count.
pub proof fn law_only_the_object_id_counts(
    a: Seq<u8>,
    b: Seq<u8>,
    cache: Map<Seq<u8>, Seq<char>>,
    dir: Seq<char>,
)
    requires
        request::object_id(a).len() > 0,
        request::object_id(a) == request::object_id(b),
    ensures
        post_outcome(a, cache, dir) == post_outcome(b, cache, dir),
        post_outcome(a, cache, dir) == id_outcome(request::object_id(a), cache, dir),
{
}

/// Whatever object id a client sends, what is probed for it and what is then
/// listed lead from the media directory downwards, though the id is decoded
/// once more before it is listed.
pub proof fn law_probe_is_inside(text: Seq<char>)
    ensures
        sanitize::is_inside(get::inner_path(text)),
        sanitize::is_inside(get::inner_path(codec::decoded(text))),
{
    sanitize::law_sanitized_is_inside(codec::decoded(text));
    sanitize::law_sanitized_is_inside(codec::decoded(codec::decoded(text)));
}

/// Once the walk through the media directory is done, every directory that it
/// can reach is answered with its listing: by its id with the prefix before
/// it, and by its id alone, unless that begins like the prefix and what is
/// left without it is the id of another directory.
pub proof fn law_every_directory_is_answered(
    tree: precache_laws::Tree,
    over: Set<Seq<char>>,
    ip: Seq<char>,
    cache: Map<Seq<u8>, Seq<char>>,
    dir: Seq<char>,
    path: Seq<char>,
)
    requires
        precache_laws::is_walk(tree, over, ip, cache, Seq::empty()),
        precache_laws::in_tree(tree, over, path),
    ensures
        id_outcome("64$".spec_bytes() + precache::cache_key(path), cache, dir)
            == PostOutcome::Reply(precache_laws::tree_reply(tree, ip, path)),
        is_own_id(precache::cache_key(path), cache) ==> id_outcome(
            precache::cache_key(path),
            cache,
            dir,
        ) == PostOutcome::Reply(precache_laws::tree_reply(tree, ip, path)),
{
    let prefix = "64$".spec_bytes();
    let key = precache::cache_key(path);
    reveal_strlit("64$");
    assert("64$".is_ascii());
    assert(prefix.len() == 3);
    precache_laws::law_walk_is_complete(tree, over, ip, cache, path, key);
    let full = prefix + key;
    assert(full.subrange(0, 3) =~= prefix);
    assert(full.skip(3) =~= key);
}

/// A client that takes the id of a directory from a listing, unescapes it as
/// the two readers of the listing do and asks for it, is answered with the
/// listing of that directory. The listing must show the path that it was made
/// for, and the id must not be taken for the prefix and another id.
pub proof fn law_listed_directory_is_answered(
    tree: precache_laws::Tree,
    over: Set<Seq<char>>,
    ip: Seq<char>,
    cache: Map<Seq<u8>, Seq<char>>,
    dir: Seq<char>,
    path: Seq<char>,
    name: Seq<char>,
)
    requires
        precache_laws::is_walk(tree, over, ip, cache, Seq::empty()),
        precache_laws::in_tree(tree, over, path),
        tree(path).0.contains(name),
        !over.contains(browse_laws::child_path(path, name)),
        browse::display_path(path) == path,
        is_own_id(utf8::encode_utf8(browse_laws::child_path(path, name)), cache),
    ensures
        ({
            let id = browse::container_id(browse::display_path(path), name);
            let read = codec_laws::xml_unescaped(codec_laws::xml_unescaped(id));
            id_outcome(utf8::encode_utf8(read), cache, dir) == PostOutcome::Reply(
                precache_laws::tree_reply(tree, ip, browse_laws::child_path(path, name)),
            )
        }),
{
    browse_laws::law_container_id_reads_back(path, name);
    precache_laws::lemma_child_in_tree(tree, over, path, name);
    law_every_directory_is_answered(
        tree,
        over,
        ip,
        cache,
        dir,
        browse_laws::child_path(path, name),
    );
}

/// A directory that the walk has passed over is probed when a client asks for
/// it, and then answered with its listing. Paths that decoding changes, and
/// ids that begin like the prefix, are left out.
pub proof fn law_passed_over_directory_is_probed(
    tree: precache_laws::Tree,
    over: Set<Seq<char>>,
    ip: Seq<char>,
    cache: Map<Seq<u8>, Seq<char>>,
    dir: Seq<char>,
    path: Seq<char>,
)
    requires
        precache_laws::is_walk(tree, over, ip, cache, Seq::empty()),
        over.contains(path),
        path.len() > 0,
        path.last() == '/',
        codec::decoded(path) == path,
        bare_id(utf8::encode_utf8(path)) == utf8::encode_utf8(path),
    ensures
        id_outcome(utf8::encode_utf8(path), cache, dir) == (PostOutcome::Probe {
            path: get::media_path(dir, path),
            id: path,
        }),
        precache::listing_reply(path, ip, tree(path).0, tree(path).1) == precache_laws::tree_reply(
            tree,
            ip,
            path,
        ),
{
    precache_laws::lemma_passed_over_is_not_kept(tree, over, ip, cache, path);
    text::law_text_reads_back(path);
}

/// The prefix is the three characters `64$`. It is taken off once where an id
/// begins with it, and every other id stays as it is.
pub proof fn law_the_prefix_is_taken_off(rest: Seq<u8>, id: Seq<u8>)
    requires
        id.len() >= 3 ==> id.take(3) != seq!['6' as u8, '4' as u8, '$' as u8],
    ensures
        bare_id(seq!['6' as u8, '4' as u8, '$' as u8] + rest) == rest,
        bare_id(id) == id,
{
    let prefix = seq!['6' as u8, '4' as u8, '$' as u8];
    reveal_strlit("64$");
    assert("64$".is_ascii());
    assert("64$".spec_bytes() =~= prefix);
    let full = prefix + rest;
    assert(full.subrange(0, 3) =~= prefix);
    assert(full.skip(3) =~= rest);
    if id.len() >= 3 {
        assert(id.subrange(0, 3) =~= id.take(3));
    }
}

/// A reply that is kept under an id is sent to whoever asks for it with the
/// prefix before it, and to whoever asks for it as it is, unless it is taken
/// for the prefix and the id of another directory.
pub proof fn law_kept_replies_are_sent(
    id: Seq<u8>,
    cache: Map<Seq<u8>, Seq<char>>,
    dir: Seq<char>,
)
    requires
        cache.dom().contains(id),
    ensures
        id_outcome(seq!['6' as u8, '4' as u8, '$' as u8] + id, cache, dir) == PostOutcome::Reply(
            cache[id],
        ),
        is_own_id(id, cache) ==> id_outcome(id, cache, dir) == PostOutcome::Reply(cache[id]),
{
    law_the_prefix_is_taken_off(id, Seq::empty());
}

/// A client that asks for a path that no reply is kept for, with the prefix or
/// without, has that path looked up in the media directory; if a directory
/// stands there, the decoded path is listed.
pub proof fn law_other_ids_are_probed(
    path: Seq<char>,
    cache: Map<Seq<u8>, Seq<char>>,
    dir: Seq<char>,
)
    requires
        ({
            let id = utf8::encode_utf8(path);
            let full = seq!['6' as u8, '4' as u8, '$' as u8] + id;
            &&& !cache.dom().contains(id)
            &&& !cache.dom().contains(full)
            &&& id.len() >= 3 ==> id.take(3) != seq!['6' as u8, '4' as u8, '$' as u8]
        }),
    ensures
        ({
            let id = utf8::encode_utf8(path);
            let full = seq!['6' as u8, '4' as u8, '$' as u8] + id;
            let probe = PostOutcome::Probe {
                path: get::media_path(dir, path),
                id: codec::decoded(path),
            };
            id_outcome(id, cache, dir) == probe && id_outcome(full, cache, dir) == probe
        }),
{
    let id = utf8::encode_utf8(path);
    law_the_prefix_is_taken_off(id, id);
    text::law_text_reads_back(path);
}

/// A request without an object id is answered with the sort capabilities
/// exactly if it asks for them by name, and else gets no answer.
pub proof fn law_requests_without_an_id(
    req: Seq<u8>,
    cache: Map<Seq<u8>, Seq<char>>,
    dir: Seq<char>,
)
    requires
        request::object_id(req).len() == 0,
    ensures
        seqs::contains_seq(req, "GetSortCapabilities".spec_bytes()) ==> post_outcome(
            req,
            cache,
            dir,
        ) == PostOutcome::Reply(pages::baked(pages::XML_CAPS@)),
        !seqs::contains_seq(req, "GetSortCapabilities".spec_bytes()) ==> post_outcome(
            req,
            cache,
            dir,
        ) == PostOutcome::Ignore,
{
}

/// A request is answered by the object id that stands in it, also where it
/// holds the name of an action.
pub proof fn law_an_object_id_decides(
    head: Seq<u8>,
    attributes: Seq<u8>,
    id: Seq<u8>,
    tail: Seq<u8>,
    cache: Map<Seq<u8>, Seq<char>>,
    dir: Seq<char>,
)
    requires
        ({
            let needle = "ObjectID".spec_bytes();
            seqs::find_from(
                head + needle + attributes + seq!['>' as u8] + id + seq!['<' as u8] + tail,
                needle,
                0,
            ) == Some(head.len() as int)
        }),
        !attributes.contains('>' as u8),
        !id.contains('<' as u8),
        id.len() > 0,
    ensures
        ({
            let needle = "ObjectID".spec_bytes();
            let req = head + needle + attributes + seq!['>' as u8] + id + seq!['<' as u8] + tail;
            &&& post_outcome(req, cache, dir) == id_outcome(id, cache, dir)
            &&& cache.dom().contains(id) && is_own_id(id, cache) ==> post_outcome(req, cache, dir)
                == PostOutcome::Reply(cache[id])
        }),
{
    request::law_object_id_reads_back(head, attributes, id, tail);
}

/// Only a directory is listed, and what is listed is what the id stands for in
/// the media directory.
pub proof fn law_only_directories_are_listed(id: Seq<char>, dir: Seq<char>)
    ensures
        target_after(id, Some(true), dir) == Some(get::media_path(dir, id)),
        target_after(id, Some(false), dir) is None,
        target_after(id, None, dir) is None,
{
}

/// An id that is no UTF-8 is read with replacements, and then probed as any
/// other.
pub proof fn law_other_bytes_are_probed_with_replacements(
    id: Seq<u8>,
    cache: Map<Seq<u8>, Seq<char>>,
    dir: Seq<char>,
)
    requires
        !utf8::valid_utf8(bare_id(id)),
        !cache.dom().contains(id),
        !cache.dom().contains(bare_id(id)),
    ensures
        id_outcome(id, cache, dir) == (PostOutcome::Probe {
            path: get::media_path(dir, text::utf8_lossy(bare_id(id))),
            id: codec::decoded(text::utf8_lossy(bare_id(id))),
        }),
{
}

} // verus!
