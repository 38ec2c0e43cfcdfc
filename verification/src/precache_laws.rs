//! The walk through the media directory reaches every directory, and keeps
//! its listing under its id.

use crate::browse;
use crate::browse_laws;
use crate::order;
use crate::precache;
use vstd::prelude::*;
use vstd::string::*;
use vstd::utf8;

verus! {

/// What each directory holds: the directories and the files in it, by the
/// path of the directory.
pub type Tree = spec_fn(Seq<char>) -> (Seq<Seq<char>>, Seq<Seq<char>>);

/// The path that is reached by entering directories in turn.
pub open spec fn path_of(names: Seq<Seq<char>>) -> Seq<char>
    decreases names.len(),
{
    if names.len() == 0 {
        Seq::empty()
    } else {
        browse_laws::child_path(path_of(names.drop_last()), names.last())
    }
}

/// Each directory of `names` stands in the one before it, the first in the
/// media directory, and none is passed over: `over` holds the paths of those
/// that are.
pub open spec fn is_chain(tree: Tree, over: Set<Seq<char>>, names: Seq<Seq<char>>) -> bool
    decreases names.len(),
{
    names.len() > 0 ==> {
        &&& is_chain(tree, over, names.drop_last())
        &&& tree(path_of(names.drop_last())).0.contains(names.last())
        &&& !over.contains(path_of(names))
    }
}

/// The path of a directory that can be reached from the media directory
/// through none that is passed over.
pub open spec fn in_tree(tree: Tree, over: Set<Seq<char>>, path: Seq<char>) -> bool {
    exists|names: Seq<Seq<char>>| #[trigger] is_chain(tree, over, names) && path_of(names) == path
}

/// The listing of the directory at `path`.
pub open spec fn tree_reply(tree: Tree, ip: Seq<char>, path: Seq<char>) -> Seq<char> {
    precache::listing_reply(path, ip, tree(path).0, tree(path).1)
}

/// The directory at `path` has been listed, or waits to be.
pub open spec fn is_known(
    cache: Map<Seq<u8>, Seq<char>>,
    queue: Seq<Seq<char>>,
    path: Seq<char>,
) -> bool {
    cache.dom().contains(precache::cache_key(path)) || queue.contains(path)
}

/// What holds at every point of the walk: only directories of the tree are
/// listed, only they and those to be passed over wait, the media directory is
/// one of them, the listings are right, what stands in a listed directory is
/// known or passed over, and the media directory has its two ids.
pub open spec fn is_walk(
    tree: Tree,
    over: Set<Seq<char>>,
    ip: Seq<char>,
    cache: Map<Seq<u8>, Seq<char>>,
    queue: Seq<Seq<char>>,
) -> bool {
    let root = precache::cache_key(Seq::empty());
    &&& !over.contains(Seq::empty())
    &&& forall|path: Seq<char>| #[trigger] queue.contains(path) ==> in_tree(tree, over, path)
        || over.contains(path)
    &&& forall|key: Seq<u8>| #[trigger]
        cache.dom().contains(key) && key != precache::root_alias() ==> exists|path: Seq<char>|
            in_tree(tree, over, path) && key == #[trigger] precache::cache_key(path)
    &&& is_known(cache, queue, Seq::empty())
    &&& forall|path: Seq<char>|
        in_tree(tree, over, path) && #[trigger] cache.dom().contains(precache::cache_key(path))
            ==> cache[precache::cache_key(path)] == tree_reply(tree, ip, path)
    &&& forall|path: Seq<char>, name: Seq<char>|
        in_tree(tree, over, path) && cache.dom().contains(precache::cache_key(path)) && #[trigger] tree(
            path,
        ).0.contains(name) ==> is_known(cache, queue, browse_laws::child_path(path, name))
            || over.contains(browse_laws::child_path(path, name))
    &&& cache.dom().contains(precache::root_alias()) == cache.dom().contains(root)
    &&& cache.dom().contains(root) ==> cache[precache::root_alias()] == cache[root]
}

/// A path of the tree is empty or ends in a slash, and is not passed over.
proof fn lemma_tree_path_shape(tree: Tree, over: Set<Seq<char>>, path: Seq<char>)
    requires
        in_tree(tree, over, path),
    ensures
        path.len() > 0 ==> path.last() == '/' && !over.contains(path),
{
    let names = choose|names: Seq<Seq<char>>| #[trigger]
        is_chain(tree, over, names) && path_of(names) == path;
}

/// Two directories have two ids, and none has the other id of the media
/// directory.
pub proof fn law_ids_are_distinct(tree: Tree, over: Set<Seq<char>>, a: Seq<char>, b: Seq<char>)
    requires
        in_tree(tree, over, a),
        in_tree(tree, over, b),
    ensures
        precache::cache_key(a) == precache::cache_key(b) ==> a == b,
        precache::cache_key(a) != precache::root_alias(),
{
    lemma_tree_path_shape(tree, over, a);
    lemma_tree_path_shape(tree, over, b);
    lemma_keys_are_distinct(a, b);
}

/// Two paths that are empty or end in a slash have two ids.
proof fn lemma_keys_are_distinct(a: Seq<char>, b: Seq<char>)
    requires
        a.len() > 0 ==> a.last() == '/',
        b.len() > 0 ==> b.last() == '/',
    ensures
        precache::cache_key(a) == precache::cache_key(b) ==> a == b,
        precache::cache_key(a) != precache::root_alias(),
{
    reveal_strlit("0");
    reveal_strlit("64$0");
    utf8::encode_utf8_decode_utf8(a);
    utf8::encode_utf8_decode_utf8(b);
    utf8::encode_utf8_decode_utf8("0"@);
    utf8::encode_utf8_decode_utf8("64$0"@);
    assert("0"@.last() == '0' && "64$0"@.last() == '0');
}

proof fn lemma_root_in_tree(tree: Tree, over: Set<Seq<char>>)
    ensures
        in_tree(tree, over, Seq::empty()),
{
    assert(is_chain(tree, over, Seq::empty()));
}

/// What stands in a directory of the tree is in the tree, unless it is passed
/// over.
pub proof fn lemma_child_in_tree(tree: Tree, over: Set<Seq<char>>, path: Seq<char>, name: Seq<char>)
    requires
        in_tree(tree, over, path),
        tree(path).0.contains(name),
        !over.contains(browse_laws::child_path(path, name)),
    ensures
        in_tree(tree, over, browse_laws::child_path(path, name)),
{
    let names = choose|names: Seq<Seq<char>>| #[trigger]
        is_chain(tree, over, names) && path_of(names) == path;
    let longer = names.push(name);
    assert(longer.drop_last() =~= names);
    assert(is_chain(tree, over, longer));
}

/// Sorting keeps every name.
proof fn lemma_sorted_contains(names: Seq<Seq<char>>, name: Seq<char>)
    ensures
        order::sorted_names(names).contains(name) == names.contains(name),
{
    order::law_sorted_names(names);
    names.to_multiset_ensures();
    order::sorted_names(names).to_multiset_ensures();
    assert(names.contains(name) <==> names.to_multiset().count(name) > 0);
    assert(order::sorted_names(names).contains(name) <==> order::sorted_names(
        names,
    ).to_multiset().count(name) > 0);
}

/// The walk begins at the media directory.
pub proof fn law_walk_begins(tree: Tree, over: Set<Seq<char>>, ip: Seq<char>)
    requires
        !over.contains(Seq::empty()),
    ensures
        is_walk(tree, over, ip, Map::empty(), seq![Seq::<char>::empty()]),
{
    let root: Seq<char> = Seq::empty();
    let queue = seq![root];
    lemma_root_in_tree(tree, over);
    assert(queue[0] == root);
    assert(queue.contains(root));
}

/// Passing over a directory keeps what holds of the walk.
pub proof fn law_walk_passes_over(
    tree: Tree,
    over: Set<Seq<char>>,
    ip: Seq<char>,
    cache: Map<Seq<u8>, Seq<char>>,
    queue: Seq<Seq<char>>,
)
    requires
        is_walk(tree, over, ip, cache, queue),
        queue.len() > 0,
        over.contains(queue[0]),
    ensures
        is_walk(tree, over, ip, cache, queue.drop_first()),
{
    let rest = queue.drop_first();
    assert forall|path: Seq<char>| #[trigger] rest.contains(path) implies in_tree(
        tree,
        over,
        path,
    ) || over.contains(path) by {
        let i = choose|i: int| 0 <= i < rest.len() && rest[i] == path;
        assert(queue[i + 1] == path);
        assert(queue.contains(path));
    }
    assert forall|path: Seq<char>|
        is_known(cache, queue, path) && !over.contains(path) implies #[trigger] is_known(
        cache,
        rest,
        path,
    ) by {
        if queue.contains(path) {
            let i = choose|i: int| 0 <= i < queue.len() && queue[i] == path;
            assert(rest[i - 1] == path);
        }
    }
    assert(is_known(cache, rest, Seq::empty()));
    assert forall|path: Seq<char>, name: Seq<char>|
        in_tree(tree, over, path) && cache.dom().contains(precache::cache_key(path))
            && #[trigger] tree(path).0.contains(name) implies is_known(
        cache,
        rest,
        browse_laws::child_path(path, name),
    ) || over.contains(browse_laws::child_path(path, name)) by {
        let child = browse_laws::child_path(path, name);
        assert(is_known(cache, queue, child) || over.contains(child));
        assert(over.contains(child) || is_known(cache, rest, child));
    }
}

/// Listing a directory keeps what holds of the walk.
pub proof fn law_walk_goes_on(
    tree: Tree,
    over: Set<Seq<char>>,
    ip: Seq<char>,
    cache: Map<Seq<u8>, Seq<char>>,
    queue: Seq<Seq<char>>,
)
    requires
        is_walk(tree, over, ip, cache, queue),
        queue.len() > 0,
        !over.contains(queue[0]),
    ensures
        is_walk(
            tree,
            over,
            ip,
            precache::cached_after(cache, queue[0], tree_reply(tree, ip, queue[0])),
            precache::queue_after(queue, tree(queue[0]).0),
        ),
{
    let root: Seq<char> = Seq::empty();
    let alias = precache::root_alias();
    let p = queue[0];
    let dirs = tree(p).0;
    let reply = tree_reply(tree, ip, p);
    let cache2 = precache::cached_after(cache, p, reply);
    let queue2 = precache::queue_after(queue, dirs);
    let rest = queue.drop_first();
    let sorted = order::sorted_names(dirs);
    let below = sorted.map_values(|name: Seq<char>| browse_laws::child_path(p, name));
    assert(queue.contains(p));
    lemma_root_in_tree(tree, over);
    law_ids_are_distinct(tree, over, p, root);
    law_ids_are_distinct(tree, over, root, root);
    assert forall|path: Seq<char>| #[trigger] queue2.contains(path) implies in_tree(
        tree,
        over,
        path,
    ) || over.contains(path) by {
        let i = choose|i: int| 0 <= i < queue2.len() && queue2[i] == path;
        if i < rest.len() {
            assert(queue[i + 1] == path);
            assert(queue.contains(path));
        } else {
            let name = sorted[i - rest.len()];
            assert(below[i - rest.len()] == path);
            assert(sorted.contains(name));
            lemma_sorted_contains(dirs, name);
            if !over.contains(path) {
                lemma_child_in_tree(tree, over, p, name);
            }
        }
    }
    assert forall|key: Seq<u8>| #[trigger]
        cache2.dom().contains(key) && key != alias implies exists|path: Seq<char>|
        in_tree(tree, over, path) && key == #[trigger] precache::cache_key(path) by {
        if key != precache::cache_key(p) {
            assert(cache.dom().contains(key));
        }
    }
    assert forall|path: Seq<char>| is_known(cache, queue, path) implies #[trigger] is_known(
        cache2,
        queue2,
        path,
    ) by {
        if queue.contains(path) && path != p {
            let i = choose|i: int| 0 <= i < queue.len() && queue[i] == path;
            assert(queue2[i - 1] == path);
        }
    }
    assert forall|path: Seq<char>|
        in_tree(tree, over, path) && #[trigger] cache2.dom().contains(
            precache::cache_key(path),
        ) implies cache2[precache::cache_key(path)] == tree_reply(tree, ip, path) by {
        law_ids_are_distinct(tree, over, path, p);
        if path != p {
            assert(cache.dom().contains(precache::cache_key(path)));
        }
    }
    assert forall|path: Seq<char>, name: Seq<char>|
        in_tree(tree, over, path) && cache2.dom().contains(precache::cache_key(path)) && #[trigger] tree(
            path,
        ).0.contains(name) implies is_known(
        cache2,
        queue2,
        browse_laws::child_path(path, name),
    ) || over.contains(browse_laws::child_path(path, name)) by {
        law_ids_are_distinct(tree, over, path, p);
        let child = browse_laws::child_path(path, name);
        if path == p {
            lemma_sorted_contains(dirs, name);
            let i = choose|i: int| 0 <= i < sorted.len() && sorted[i] == name;
            assert(below[i] == child);
            assert(queue2[rest.len() + i] == child);
        } else {
            assert(cache.dom().contains(precache::cache_key(path)));
            assert(is_known(cache, queue, child) || over.contains(child));
            assert(is_known(cache2, queue2, child) || over.contains(child));
        }
    }
    assert(is_known(cache2, queue2, root));
}

/// Once nothing waits, every directory that can be reached through none that
/// is passed over has its listing under its id, the media directory under both
/// of its ids, and nothing else is kept.
pub proof fn law_walk_is_complete(
    tree: Tree,
    over: Set<Seq<char>>,
    ip: Seq<char>,
    cache: Map<Seq<u8>, Seq<char>>,
    path: Seq<char>,
    key: Seq<u8>,
)
    requires
        is_walk(tree, over, ip, cache, Seq::empty()),
    ensures
        in_tree(tree, over, path) ==> cache.dom().contains(precache::cache_key(path))
            && cache[precache::cache_key(path)] == tree_reply(tree, ip, path),
        cache.dom().contains(precache::root_alias()),
        cache[precache::root_alias()] == tree_reply(tree, ip, Seq::empty()),
        cache.dom().contains(key) ==> key == precache::root_alias() || exists|p: Seq<char>|
            in_tree(tree, over, p) && key == #[trigger] precache::cache_key(p),
{
    lemma_root_in_tree(tree, over);
    lemma_chain_is_kept(tree, over, ip, cache, Seq::empty());
    if in_tree(tree, over, path) {
        let names = choose|names: Seq<Seq<char>>| #[trigger]
            is_chain(tree, over, names) && path_of(names) == path;
        lemma_chain_is_kept(tree, over, ip, cache, names);
    }
}

/// Nothing is kept of a directory that is passed over.
pub proof fn lemma_passed_over_is_not_kept(
    tree: Tree,
    over: Set<Seq<char>>,
    ip: Seq<char>,
    cache: Map<Seq<u8>, Seq<char>>,
    path: Seq<char>,
)
    requires
        is_walk(tree, over, ip, cache, Seq::empty()),
        over.contains(path),
        path.len() > 0,
        path.last() == '/',
    ensures
        !cache.dom().contains(utf8::encode_utf8(path)),
{
    let key = precache::cache_key(path);
    lemma_keys_are_distinct(path, path);
    if cache.dom().contains(key) {
        let p = choose|p: Seq<char>|
            in_tree(tree, over, p) && key == #[trigger] precache::cache_key(p);
        lemma_tree_path_shape(tree, over, p);
        lemma_keys_are_distinct(path, p);
    }
}

proof fn lemma_chain_is_kept(
    tree: Tree,
    over: Set<Seq<char>>,
    ip: Seq<char>,
    cache: Map<Seq<u8>, Seq<char>>,
    names: Seq<Seq<char>>,
)
    requires
        is_walk(tree, over, ip, cache, Seq::empty()),
        is_chain(tree, over, names),
    ensures
        in_tree(tree, over, path_of(names)),
        cache.dom().contains(precache::cache_key(path_of(names))),
    decreases names.len(),
{
    let none: Seq<Seq<char>> = Seq::empty();
    if names.len() == 0 {
        assert(!none.contains(Seq::empty()));
    } else {
        let parent = names.drop_last();
        lemma_chain_is_kept(tree, over, ip, cache, parent);
        assert(tree(path_of(parent)).0.contains(names.last()));
        assert(is_known(cache, none, path_of(names)));
        assert(!none.contains(path_of(names)));
    }
}

/// The media directory is asked for as `0` or as `64$0`, and every other
/// directory by its path, which ends in a slash.
pub proof fn law_ids_are_paths(path: Seq<char>, name: Seq<char>)
    ensures
        precache::cache_key(Seq::empty()) == seq!['0' as u8],
        precache::root_alias() == seq!['6' as u8, '4' as u8, '$' as u8, '0' as u8],
        path.len() > 0 ==> precache::cache_key(path) == utf8::encode_utf8(path),
        browse_laws::child_path(path, name) == path + name + seq!['/'],
{
    reveal_strlit("0");
    reveal_strlit("64$0");
    assert("0".is_ascii());
    assert("64$0".is_ascii());
    assert("0".spec_bytes() =~= seq!['0' as u8]);
    assert("64$0".spec_bytes() =~= seq!['6' as u8, '4' as u8, '$' as u8, '0' as u8]);
    assert(browse_laws::child_path(path, name) =~= path + name + seq!['/']);
}

/// Listing a directory keeps its reply under its id, that of the media
/// directory under both of its ids, and leaves what is kept under other ids as
/// it is.
pub proof fn law_a_reply_is_kept_under_its_id(
    cache: Map<Seq<u8>, Seq<char>>,
    path: Seq<char>,
    reply: Seq<char>,
    other: Seq<u8>,
)
    requires
        path.len() > 0 ==> path.last() == '/',
    ensures
        ({
            let kept = precache::cached_after(cache, path, reply);
            let id = if path.len() == 0 {
                seq!['0' as u8]
            } else {
                utf8::encode_utf8(path)
            };
            let alias = seq!['6' as u8, '4' as u8, '$' as u8, '0' as u8];
            &&& kept.dom().contains(id) && kept[id] == reply
            &&& path.len() == 0 ==> kept.dom().contains(alias) && kept[alias] == reply
            &&& other != id && (path.len() > 0 || other != alias) ==> {
                &&& kept.dom().contains(other) == cache.dom().contains(other)
                &&& kept[other] == cache[other]
            }
        }),
{
    law_ids_are_paths(path, path);
    lemma_keys_are_distinct(path, Seq::empty());
    if path.len() == 0 {
        assert(path =~= Seq::empty());
    }
}

/// Directories are listed in the order in which they were found. Those in the
/// directory that has been listed come behind all that wait, in ascending
/// order, each once.
pub proof fn law_directories_wait_in_order(queue: Seq<Seq<char>>, dirs: Seq<Seq<char>>, i: int)
    requires
        queue.len() > 0,
    ensures
        ({
            let next = precache::queue_after(queue, dirs);
            let waiting = queue.len() - 1;
            &&& next.len() == waiting + dirs.len()
            &&& 0 <= i < waiting ==> next[i] == queue[i + 1]
            &&& waiting <= i < next.len() ==> next[i] == queue[0] + order::sorted_names(dirs)[i
                - waiting] + seq!['/']
        }),
{
    order::law_sorted_names(dirs);
    let waiting = queue.len() - 1;
    if waiting <= i < waiting + dirs.len() {
        law_ids_are_paths(queue[0], order::sorted_names(dirs)[i - waiting]);
    }
}

/// Each directory that is listed counts as one.
pub proof fn law_directories_are_counted(n: u64)
    ensures
        n < u64::MAX ==> precache::counted(n) == n + 1,
        n == u64::MAX ==> precache::counted(n) == n,
{
}

/// A listing that is kept holds an entry for each of the first 5000 names, and
/// says that there are as many as it holds: no more than these.
pub proof fn law_a_kept_listing_is_whole(
    path: Seq<char>,
    ip: Seq<char>,
    dirs: Seq<Seq<char>>,
    files: Seq<Seq<char>>,
)
    ensures
        ({
            let all = browse_laws::entry_of_each(
                browse::display_path(path),
                ip,
                order::sorted_names(dirs),
                order::sorted_names(files),
            );
            let to = if all.len() > 5000 {
                5000
            } else {
                all.len() as int
            };
            precache::listing_reply(path, ip, dirs, files) == browse::soap_reply(
                browse::envelope(all.take(to).flatten(), to as nat),
            )
        }),
{
    browse_laws::law_a_page_lists_its_names(path, 0, 5000, ip, dirs, files);
    let all = browse_laws::entry_of_each(
        browse::display_path(path),
        ip,
        order::sorted_names(dirs),
        order::sorted_names(files),
    );
    let to = if all.len() > 5000 {
        5000
    } else {
        all.len() as int
    };
    assert(all.take(to) =~= all.subrange(0, to));
}

} // verus!
