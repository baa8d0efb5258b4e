//! The traversal engine around the worker pool: the shared pending queue,
//! the worker-to-aggregator messages, the aggregator that detects pool
//! completion, and a sequential reference for the whole hashing stage.

use crate::fingerprint::distinct_keys;
use crate::fingerprint::lemma_aggregation_order_irrelevant;
use crate::fingerprint::pairs_map;
use crate::fingerprint::FingerprintMap;
use crate::hasher::digest_of;
use crate::hasher::digest_string;
use crate::paths::is_excluded;
use crate::paths::is_excluded_spec;
use crate::paths::lemma_rel_path_normalized;
use crate::paths::no_backslash;
use crate::paths::rel_path_spec;
use crate::paths::relative_path;
use vstd::prelude::*;

verus! {

/// The queue of absolute file paths awaiting hashing. It is filled once,
/// before draining starts; a host that shares it across workers wraps it in
/// a lock, so that each path is popped exactly once.
pub struct PendingQueue {
    items: Vec<String>,
}

impl View for PendingQueue {
    type V = Seq<Seq<char>>;

    closed spec fn view(&self) -> Seq<Seq<char>> {
        self.items@.map_values(|s: String| s@)
    }
}

impl PendingQueue {
    /// Creates a queue holding the given paths.
    pub fn new(paths: Vec<String>) -> (q: PendingQueue)
        ensures
            q@ == paths@.map_values(|s: String| s@),
    {
        PendingQueue { items: paths }
    }

    /// How many paths are still pending.
    pub fn len(&self) -> (n: usize)
        ensures
            n == self@.len(),
    {
        self.items.len()
    }

    /// Pops one pending path; returns `None` exactly when the queue is
    /// empty, otherwise removes and returns the queue's last path.
    pub fn pop(&mut self) -> (r: Option<String>)
        ensures
            old(self)@.len() == 0 ==> r is None && final(self)@ == old(self)@,
            old(self)@.len() > 0 ==> final(self)@ == old(self)@.drop_last() && (r matches Some(p)
                && p@ == old(self)@.last()),
    {
        let ghost prev = self.items@;
        let r = self.items.pop();
        proof {
            if prev.len() > 0 {
                assert(self.items@.map_values(|s: String| s@) =~= prev.map_values(
                    |s: String| s@,
                ).drop_last());
            } else {
                assert(self.items@.map_values(|s: String| s@) =~= prev.map_values(|s: String| s@));
            }
        }
        r
    }
}

/// One unit sent from a worker to the aggregator: a hashed file as a
/// (relative path, digest) pair, or the worker's termination signal.
pub enum WorkMessage {
    Item(String, String),
    Done,
}

/// The single consumer that drains worker messages into the final
/// fingerprint map. It is complete once every worker of the pool has sent
/// its one termination signal, however many items arrived in between.
pub struct Aggregator {
    map: FingerprintMap,
    done: usize,
    pool_size: usize,
}

impl Aggregator {
    /// The map built so far.
    pub closed spec fn map_view(&self) -> Map<Seq<char>, Seq<char>> {
        self.map@
    }

    /// How many termination signals have been counted.
    pub closed spec fn done_count(&self) -> nat {
        self.done as nat
    }

    /// How many workers' termination signals are awaited.
    pub closed spec fn pool(&self) -> nat {
        self.pool_size as nat
    }

    /// Well-formed: the map is well-formed and no more terminations were
    /// counted than workers exist.
    pub closed spec fn wf(&self) -> bool {
        self.map.wf() && self.done <= self.pool_size
    }

    /// Creates an aggregator awaiting `pool_size` workers.
    pub fn new(pool_size: usize) -> (a: Aggregator)
        ensures
            a.wf(),
            a.map_view() == Map::<Seq<char>, Seq<char>>::empty(),
            a.done_count() == 0,
            a.pool() == pool_size,
    {
        Aggregator { map: FingerprintMap::new(), done: 0, pool_size }
    }

    /// Feeds one worker message in: an item is inserted into the map (last
    /// write wins), a termination signal is counted.
    pub fn receive(&mut self, msg: WorkMessage)
        requires
            old(self).wf(),
        ensures
            final(self).wf(),
            final(self).pool() == old(self).pool(),
            (match msg {
                WorkMessage::Item(p, d) => final(self).map_view() == old(self).map_view().insert(
                    p@,
                    d@,
                ) && final(self).done_count() == old(self).done_count(),
                WorkMessage::Done => {
                    &&& final(self).map_view() == old(self).map_view()
                    &&& final(self).done_count() == if old(self).done_count() < old(self).pool() {
                        old(self).done_count() + 1
                    } else {
                        old(self).done_count()
                    }
                },
            }),
    {
        match msg {
            WorkMessage::Item(p, d) => {
                self.map.insert(p, d);
            },
            WorkMessage::Done => {
                if self.done < self.pool_size {
                    self.done = self.done + 1;
                }
            },
        }
    }

    /// Whether every worker of the pool has signaled termination.
    pub fn is_complete(&self) -> (r: bool)
        ensures
            r == (self.done_count() == self.pool()),
    {
        self.done == self.pool_size
    }

    /// Hands the finished map out, once the pool has completed.
    pub fn into_map(self) -> (m: FingerprintMap)
        requires
            self.wf(),
            self.done_count() == self.pool(),
        ensures
            m.wf(),
            m@ == self.map_view(),
    {
        self.map
    }
}

/// What one worker emits for one readable file: nothing when the path is
/// excluded or does not lie under the root, otherwise the root-relative
/// path paired with the content digest.
pub open spec fn entry_spec(root: Seq<char>, path: Seq<char>, content: Seq<u8>) -> Option<
    (Seq<char>, Seq<char>),
> {
    if !is_excluded_spec(path) && root.is_prefix_of(path) {
        Some((rel_path_spec(path, root), digest_of(content)))
    } else {
        None
    }
}

/// The hash-and-normalize step of one worker, for one file it could read.
pub fn fingerprint_entry(root: &str, path: &str, content: &Vec<u8>) -> (r: Option<(String, String)>)
    ensures
        r is Some <==> entry_spec(root@, path@, content@) is Some,
        (r matches Some(e) ==> entry_spec(root@, path@, content@) == Some((e.0@, e.1@))),
{
    if is_excluded(path) {
        return None;
    }
    match relative_path(path, root) {
        Some(rel) => {
            let digest = digest_string(content);
            Some((rel, digest))
        },
        None => None,
    }
}

/// The files' view: each (absolute path, content) pair as plain sequences.
pub open spec fn files_view(files: Seq<(String, Vec<u8>)>) -> Seq<(Seq<char>, Seq<u8>)> {
    files.map_values(|f: (String, Vec<u8>)| (f.0@, f.1@))
}

/// The fingerprint map that a list of readable files builds: every file
/// that is not excluded and lies under the root contributes its relative
/// path and content digest; at equal relative paths the later file wins.
pub open spec fn walk_map(root: Seq<char>, files: Seq<(Seq<char>, Seq<u8>)>) -> Map<
    Seq<char>,
    Seq<char>,
>
    decreases files.len(),
{
    if files.len() == 0 {
        Map::empty()
    } else {
        let m = walk_map(root, files.drop_last());
        match entry_spec(root, files.last().0, files.last().1) {
            Some(e) => m.insert(e.0, e.1),
            None => m,
        }
    }
}

/// Hashes the given files one after another — the sequential reference for
/// the worker pool: a pool run that delivers the same files builds the same
/// map, whatever the arrival order of its items.
pub fn fingerprint_files(root: &str, files: &Vec<(String, Vec<u8>)>) -> (m: FingerprintMap)
    ensures
        m.wf(),
        m@ == walk_map(root@, files_view(files@)),
{
    let mut m = FingerprintMap::new();
    let mut i: usize = 0;
    while i < files.len()
        invariant
            i <= files@.len(),
            m.wf(),
            m@ == walk_map(root@, files_view(files@).take(i as int)),
        decreases files@.len() - i,
    {
        let entry = fingerprint_entry(root, files[i].0.as_str(), &files[i].1);
        match entry {
            Some(e) => {
                m.insert(e.0, e.1);
            },
            None => {},
        }
        proof {
            let fv = files_view(files@);
            assert(fv.take(i + 1).drop_last() =~= fv.take(i as int));
            assert(fv.take(i + 1).last() == fv[i as int]);
        }
        i += 1;
    }
    proof {
        assert(files_view(files@).take(files@.len() as int) =~= files_view(files@));
    }
    m
}

/// The (relative path, digest) items that the files contribute — what the
/// worker pool, as a whole, emits for them — in file order.
pub open spec fn walk_items(root: Seq<char>, files: Seq<(Seq<char>, Seq<u8>)>) -> Seq<
    (Seq<char>, Seq<char>),
>
    decreases files.len(),
{
    if files.len() == 0 {
        Seq::empty()
    } else {
        let rest = walk_items(root, files.drop_last());
        match entry_spec(root, files.last().0, files.last().1) {
            Some(e) => rest.push(e),
            None => rest,
        }
    }
}

/// The walked map is exactly the map that the contributed items build.
pub proof fn lemma_walk_map_is_items_map(root: Seq<char>, files: Seq<(Seq<char>, Seq<u8>)>)
    ensures
        walk_map(root, files) == pairs_map(walk_items(root, files)),
    decreases files.len(),
{
    if files.len() == 0 {
    } else {
        let t = files.drop_last();
        lemma_walk_map_is_items_map(root, t);
        let rest = walk_items(root, t);
        match entry_spec(root, files.last().0, files.last().1) {
            Some(e) => {
                assert(rest.push(e).drop_last() =~= rest);
                assert(rest.push(e).last() == e);
            },
            None => {},
        }
    }
}

/// Law: a pool run never loses, duplicates, or corrupts an entry. Whatever
/// items the workers delivered — in any arrival order, as long as they are
/// the contributed items and no two share a path (each file is popped by
/// exactly one worker) — the aggregated map equals the map the
/// single-threaded reference builds over the same files.
pub proof fn lemma_pool_run_matches_reference(
    root: Seq<char>,
    files: Seq<(Seq<char>, Seq<u8>)>,
    delivered: Seq<(Seq<char>, Seq<char>)>,
)
    requires
        delivered.to_multiset() == walk_items(root, files).to_multiset(),
        distinct_keys(delivered),
        distinct_keys(walk_items(root, files)),
    ensures
        pairs_map(delivered) == walk_map(root, files),
{
    lemma_walk_map_is_items_map(root, files);
    lemma_aggregation_order_irrelevant(delivered, walk_items(root, files));
}

/// Law: over a tree of regular files, none excluded, all lying under the
/// root, with pairwise distinct relative paths, the contributed items carry
/// one entry per file and no two of them share a path.
pub proof fn lemma_walk_items_distinct(root: Seq<char>, files: Seq<(Seq<char>, Seq<u8>)>)
    requires
        forall|i: int|
            0 <= i < files.len() ==> !is_excluded_spec((#[trigger] files[i]).0)
                && root.is_prefix_of(files[i].0),
        forall|i: int, j: int|
            0 <= i < j < files.len() ==> rel_path_spec(files[i].0, root) != rel_path_spec(
                files[j].0,
                root,
            ),
    ensures
        walk_items(root, files).len() == files.len(),
        forall|i: int|
            0 <= i < files.len() ==> walk_items(root, files)[i] == (
                rel_path_spec((#[trigger] files[i]).0, root),
                digest_of(files[i].1),
            ),
        distinct_keys(walk_items(root, files)),
    decreases files.len(),
{
    if files.len() == 0 {
    } else {
        let t = files.drop_last();
        lemma_walk_items_distinct(root, t);
        let e = (rel_path_spec(files.last().0, root), digest_of(files.last().1));
        assert(entry_spec(root, files.last().0, files.last().1) == Some(e));
        assert(walk_items(root, files) == walk_items(root, t).push(e));
        assert forall|i: int| 0 <= i < files.len() implies walk_items(root, files)[i] == (
            rel_path_spec((#[trigger] files[i]).0, root),
            digest_of(files[i].1),
        ) by {
            if i < files.len() - 1 {
                assert(t[i] == files[i]);
                assert(walk_items(root, files)[i] == walk_items(root, t)[i]);
            }
        }
        let items = walk_items(root, files);
        assert forall|i: int, j: int| 0 <= i < j < items.len() implies (#[trigger] items[i]).0 != (
        #[trigger] items[j]).0 by {
            assert(items[i] == (rel_path_spec(files[i].0, root), digest_of(files[i].1)));
            assert(items[j] == (rel_path_spec(files[j].0, root), digest_of(files[j].1)));
        }
    }
}

/// Law: every path in a walked map is forward-slash-normalized — no key
/// ever contains a back-slash separator, whatever the input tree carried.
pub proof fn lemma_walk_keys_normalized(root: Seq<char>, files: Seq<(Seq<char>, Seq<u8>)>)
    ensures
        forall|p: Seq<char>| #[trigger] walk_map(root, files).contains_key(p) ==> no_backslash(p),
    decreases files.len(),
{
    if files.len() == 0 {
    } else {
        let t = files.drop_last();
        lemma_walk_keys_normalized(root, t);
        assert forall|p: Seq<char>| #[trigger] walk_map(root, files).contains_key(
            p,
        ) implies no_backslash(p) by {
            let eo = entry_spec(root, files.last().0, files.last().1);
            if eo is Some && p == eo.unwrap().0 {
                lemma_rel_path_normalized(files.last().0, root);
            } else {
                assert(walk_map(root, t).contains_key(p));
            }
        }
    }
}

/// Law: a tree of regular files, none excluded, all lying under the root,
/// with pairwise distinct relative paths, walks to a map of exactly one
/// entry per file; and a relative path is in the map exactly when one of
/// the files bears it.
pub proof fn lemma_walk_count(root: Seq<char>, files: Seq<(Seq<char>, Seq<u8>)>)
    requires
        forall|i: int|
            0 <= i < files.len() ==> !is_excluded_spec((#[trigger] files[i]).0)
                && root.is_prefix_of(files[i].0),
        forall|i: int, j: int|
            0 <= i < j < files.len() ==> rel_path_spec(files[i].0, root) != rel_path_spec(
                files[j].0,
                root,
            ),
    ensures
        walk_map(root, files).dom().finite(),
        walk_map(root, files).dom().len() == files.len(),
        forall|p: Seq<char>|
            #[trigger] walk_map(root, files).contains_key(p) <==> exists|i: int|
                0 <= i < files.len() && rel_path_spec((#[trigger] files[i]).0, root) == p,
    decreases files.len(),
{
    if files.len() == 0 {
    } else {
        let t = files.drop_last();
        lemma_walk_count(root, t);
        let key = rel_path_spec(files.last().0, root);
        assert(entry_spec(root, files.last().0, files.last().1) == Some(
            (key, digest_of(files.last().1)),
        ));
        assert(!walk_map(root, t).contains_key(key)) by {
            if walk_map(root, t).contains_key(key) {
                let i = choose|i: int|
                    0 <= i < t.len() && rel_path_spec((#[trigger] t[i]).0, root) == key;
                assert(rel_path_spec(files[i].0, root) != rel_path_spec(
                    files[files.len() - 1].0,
                    root,
                ));
            }
        }
        assert(walk_map(root, files).dom() =~= walk_map(root, t).dom().insert(key));
        assert forall|p: Seq<char>| #[trigger] walk_map(root, files).contains_key(p) implies exists|
            i: int,
        | 0 <= i < files.len() && rel_path_spec((#[trigger] files[i]).0, root) == p by {
            if p == key {
                assert(rel_path_spec(files[files.len() - 1].0, root) == p);
            } else {
                let i = choose|i: int|
                    0 <= i < t.len() && rel_path_spec((#[trigger] t[i]).0, root) == p;
                assert(rel_path_spec(files[i].0, root) == p);
            }
        }
        assert forall|p: Seq<char>|
            (exists|i: int|
                0 <= i < files.len() && rel_path_spec((#[trigger] files[i]).0, root)
                    == p) implies #[trigger] walk_map(root, files).contains_key(p) by {
            let i = choose|i: int|
                0 <= i < files.len() && rel_path_spec((#[trigger] files[i]).0, root) == p;
            if i < files.len() - 1 {
                assert(rel_path_spec((t[i]).0, root) == p);
                assert(walk_map(root, t).contains_key(p));
            }
        }
    }
}

} // verus!
