//! The walk through the media directory that lists every directory once.

use crate::browse;
use crate::browse::{generate_browse_response_inner, Listing};
use crate::browse_laws;
use crate::bytes::bytes_equal;
use crate::cache::Cache;
use crate::order;
use std::collections::VecDeque;
use vstd::prelude::*;
use vstd::string::*;
use vstd::utf8;

verus! {

/// The most entries that are listed of a directory.
pub const PAGE_SIZE: u32 = 5000;

/// The id under which a client asks for the directory at `path`.
pub open spec fn cache_key(path: Seq<char>) -> Seq<u8> {
    if path.len() == 0 {
        "0".spec_bytes()
    } else {
        utf8::encode_utf8(path)
    }
}

/// The other id of the media directory itself.
pub open spec fn root_alias() -> Seq<u8> {
    "64$0".spec_bytes()
}

/// The reply that is kept for the directory at `path`.
pub open spec fn listing_reply(
    path: Seq<char>,
    ip: Seq<char>,
    dirs: Seq<Seq<char>>,
    files: Seq<Seq<char>>,
) -> Seq<char> {
    browse::browse_reply(path, 0, PAGE_SIZE, ip, dirs, files)
}

/// The cache once the directory at `path` has been listed.
pub open spec fn cached_after(
    cache: Map<Seq<u8>, Seq<char>>,
    path: Seq<char>,
    reply: Seq<char>,
) -> Map<Seq<u8>, Seq<char>> {
    let kept = cache.insert(cache_key(path), reply);
    if cache_key(path) == cache_key(Seq::empty()) {
        kept.insert(root_alias(), reply)
    } else {
        kept
    }
}

/// The directories that wait to be listed once the first of them, which holds
/// the directories `dirs`, has been.
pub open spec fn queue_after(queue: Seq<Seq<char>>, dirs: Seq<Seq<char>>) -> Seq<Seq<char>> {
    let path = queue[0];
    queue.drop_first() + order::sorted_names(dirs).map_values(
        |name: Seq<char>| browse_laws::child_path(path, name),
    )
}

/// The number of directories listed, once one more has been.
pub open spec fn counted(n: u64) -> u64 {
    if n < u64::MAX {
        (n + 1) as u64
    } else {
        u64::MAX
    }
}

/// A walk under way: what has been listed, and what waits to be.
pub struct Precache {
    cache: Cache,
    queue: VecDeque<String>,
    dir_count: u64,
}

impl Precache {
    /// The replies that have been made.
    pub closed spec fn cached(&self) -> Map<Seq<u8>, Seq<char>> {
        self.cache@
    }

    /// The paths of the directories that wait to be listed.
    pub closed spec fn queued(&self) -> Seq<Seq<char>> {
        order::texts(self.queue@)
    }

    /// The number of directories that have been listed.
    pub closed spec fn listed(&self) -> u64 {
        self.dir_count
    }

    /// A walk that begins at the media directory itself.
    pub fn new() -> (r: Precache)
        ensures
            r.cached() == Map::<Seq<u8>, Seq<char>>::empty(),
            r.queued() == seq![Seq::<char>::empty()],
            r.listed() == 0,
    {
        let mut queue: VecDeque<String> = VecDeque::new();
        queue.push_back(String::new());
        assert(order::texts(queue@) =~= seq![Seq::<char>::empty()]);
        Precache { cache: Cache::new(), queue, dir_count: 0 }
    }

    /// The path of the directory to list next.
    pub fn pending(&self) -> (r: Option<&str>)
        ensures
            match r {
                Some(path) => self.queued().len() > 0 && path@ == self.queued()[0],
                None => self.queued().len() == 0,
            },
    {
        if self.queue.len() > 0 {
            Some(self.queue[0].as_str())
        } else {
            None
        }
    }

    /// The number of directories that have been listed.
    pub fn dir_count(&self) -> (r: u64)
        ensures
            r == self.listed(),
    {
        self.dir_count
    }

    /// Takes in what the pending directory holds: keeps its listing, and adds
    /// its directories to those that wait.
    pub fn absorb(self, ip: &str, listing: Listing) -> (r: Precache)
        requires
            self.queued().len() > 0,
        ensures
            r.cached() == cached_after(
                self.cached(),
                self.queued()[0],
                listing_reply(
                    self.queued()[0],
                    ip@,
                    listing.dir_names(),
                    listing.file_names(),
                ),
            ),
            r.queued() == queue_after(self.queued(), listing.dir_names()),
            r.listed() == counted(self.listed()),
    {
        let ghost waiting = self.queued();
        let mut cache = self.cache;
        let mut queue = self.queue;
        let path = match queue.pop_front() {
            Some(path) => path,
            None => String::new(),
        };
        let ghost rest = waiting.drop_first();
        assert(order::texts(queue@) =~= rest);
        assert(path@ == waiting[0]);
        let (reply, child_dirs) = generate_browse_response_inner(
            path.as_str(),
            0,
            PAGE_SIZE,
            ip,
            listing,
        );
        let key_text = if path.as_str().is_empty() {
            "0"
        } else {
            path.as_str()
        };
        let is_root = bytes_equal(key_text.as_bytes(), "0".as_bytes());
        let mut key: Vec<u8> = Vec::new();
        key.extend_from_slice(key_text.as_bytes());
        assert(key@ =~= cache_key(path@));
        cache.insert(key, reply.clone());
        if is_root {
            let mut alias: Vec<u8> = Vec::new();
            alias.extend_from_slice("64$0".as_bytes());
            assert(alias@ =~= root_alias());
            cache.insert(alias, reply);
        }
        let ghost names = order::texts(child_dirs@);
        let ghost below = names.map_values(
            |name: Seq<char>| browse_laws::child_path(path@, name),
        );
        let mut i: usize = 0;
        assert(rest + below.take(0) =~= rest);
        while i < child_dirs.len()
            invariant
                i <= child_dirs@.len(),
                names == order::texts(child_dirs@),
                below == names.map_values(
                    |name: Seq<char>| browse_laws::child_path(path@, name),
                ),
                order::texts(queue@) == rest + below.take(i as int),
            decreases child_dirs@.len() - i,
        {
            let mut child = path.clone();
            child.push_str(child_dirs[i].as_str());
            child.push('/');
            let ghost before = queue@;
            queue.push_back(child);
            proof {
                assert(child@ == below[i as int]);
                assert(order::texts(queue@) =~= order::texts(before).push(child@));
                assert(below.take(i + 1) =~= below.take(i as int).push(below[i as int]));
                assert((rest + below.take(i as int)).push(child@) =~= rest + below.take(i + 1));
            }
            i += 1;
        }
        assert(below.take(i as int) =~= below);
        Precache { cache, queue, dir_count: self.dir_count.saturating_add(1) }
    }

    /// Passes over the pending directory: its listing is not kept, and what it
    /// holds is not walked through.
    pub fn pass_over(self) -> (r: Precache)
        requires
            self.queued().len() > 0,
        ensures
            r.cached() == self.cached(),
            r.queued() == self.queued().drop_first(),
            r.listed() == self.listed(),
    {
        let ghost waiting = self.queued();
        let mut queue = self.queue;
        queue.pop_front();
        assert(order::texts(queue@) =~= waiting.drop_first());
        Precache { cache: self.cache, queue, dir_count: self.dir_count }
    }

    /// The replies that have been made.
    pub fn finish(self) -> (r: Cache)
        ensures
            r@ == self.cached(),
    {
        self.cache
    }
}

} // verus!
