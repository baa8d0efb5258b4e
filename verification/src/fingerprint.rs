//! The fingerprint map — relative path mapped to content digest — and the
//! diff engine that computes the synchronization work-list from two maps.

use vstd::prelude::*;

verus! {

/// The map that a sequence of (path, digest) pairs builds up, later pairs
/// overwriting earlier ones at the same path.
pub open spec fn pairs_map(s: Seq<(Seq<char>, Seq<char>)>) -> Map<Seq<char>, Seq<char>>
    decreases s.len(),
{
    if s.len() == 0 {
        Map::empty()
    } else {
        pairs_map(s.drop_last()).insert(s.last().0, s.last().1)
    }
}

/// No two pairs carry the same path.
pub open spec fn distinct_keys(s: Seq<(Seq<char>, Seq<char>)>) -> bool {
    forall|i: int, j: int| 0 <= i < j < s.len() ==> s[i].0 != s[j].0
}

/// The view of one stored entry.
pub open spec fn entry_view(e: (String, String)) -> (Seq<char>, Seq<char>) {
    (e.0@, e.1@)
}

/// The views of all stored entries.
pub open spec fn entries_view(s: Seq<(String, String)>) -> Seq<(Seq<char>, Seq<char>)> {
    s.map_values(|e: (String, String)| entry_view(e))
}

/// A path is in the built map exactly when some pair carries it, and the
/// map's domain is finite.
pub proof fn lemma_pairs_map_contains(s: Seq<(Seq<char>, Seq<char>)>)
    ensures
        forall|p: Seq<char>|
            #[trigger] pairs_map(s).contains_key(p) <==> exists|i: int|
                0 <= i < s.len() && s[i].0 == p,
        pairs_map(s).dom().finite(),
    decreases s.len(),
{
    if s.len() == 0 {
    } else {
        let t = s.drop_last();
        lemma_pairs_map_contains(t);
        assert forall|p: Seq<char>| #[trigger] pairs_map(s).contains_key(p) implies exists|i: int|
            0 <= i < s.len() && s[i].0 == p by {
            if p == s.last().0 {
                assert(s[s.len() - 1].0 == p);
            } else {
                let i = choose|i: int| 0 <= i < t.len() && t[i].0 == p;
                assert(s[i].0 == p);
            }
        }
        assert forall|p: Seq<char>| (exists|i: int| 0 <= i < s.len() && s[i].0 == p) implies #[trigger] pairs_map(
            s,
        ).contains_key(p) by {
            let i = choose|i: int| 0 <= i < s.len() && s[i].0 == p;
            if i < s.len() - 1 {
                assert(t[i].0 == p);
            }
        }
    }
}

/// With distinct keys, each pair's digest is the built map's value at the
/// pair's path, and the map holds exactly one entry per pair.
pub proof fn lemma_pairs_map_distinct(s: Seq<(Seq<char>, Seq<char>)>)
    requires
        distinct_keys(s),
    ensures
        forall|i: int| 0 <= i < s.len() ==> pairs_map(s)[#[trigger] s[i].0] == s[i].1,
        pairs_map(s).dom().finite(),
        pairs_map(s).dom().len() == s.len(),
    decreases s.len(),
{
    lemma_pairs_map_contains(s);
    if s.len() == 0 {
    } else {
        let t = s.drop_last();
        assert(distinct_keys(t));
        lemma_pairs_map_distinct(t);
        lemma_pairs_map_contains(t);
        assert(!pairs_map(t).contains_key(s.last().0));
        assert(pairs_map(s).dom() =~= pairs_map(t).dom().insert(s.last().0));
        assert forall|i: int| 0 <= i < s.len() implies pairs_map(s)[#[trigger] s[i].0] == s[i].1 by {
            if i < s.len() - 1 {
                assert(s[i].0 != s.last().0);
                assert(t[i].0 == s[i].0 && t[i].1 == s[i].1);
            }
        }
    }
}

/// A fingerprint map: every discovered regular file's root-relative path
/// mapped to the digest of its content. Stored entries carry distinct
/// paths; the view is the abstract map they build.
pub struct FingerprintMap {
    entries: Vec<(String, String)>,
}

impl View for FingerprintMap {
    type V = Map<Seq<char>, Seq<char>>;

    closed spec fn view(&self) -> Map<Seq<char>, Seq<char>> {
        pairs_map(entries_view(self.entries@))
    }
}

impl FingerprintMap {
    /// Well-formed: no two stored entries share a path.
    pub closed spec fn wf(&self) -> bool {
        distinct_keys(entries_view(self.entries@))
    }

    /// Creates an empty fingerprint map.
    pub fn new() -> (m: FingerprintMap)
        ensures
            m.wf(),
            m@ == Map::<Seq<char>, Seq<char>>::empty(),
    {
        FingerprintMap { entries: Vec::new() }
    }

    /// The number of paths the map holds.
    pub fn len(&self) -> (n: usize)
        requires
            self.wf(),
        ensures
            n == self@.dom().len(),
    {
        proof {
            lemma_pairs_map_distinct(entries_view(self.entries@));
        }
        self.entries.len()
    }

    /// Looks a path up; returns its digest when the path is present.
    pub fn get(&self, path: &String) -> (r: Option<&String>)
        requires
            self.wf(),
        ensures
            r is Some <==> self@.contains_key(path@),
            (r matches Some(d) ==> d@ == self@[path@]),
    {
        let n = self.entries.len();
        let mut i: usize = 0;
        while i < n
            invariant
                self.wf(),
                i <= n == self.entries.len(),
                forall|j: int| 0 <= j < i ==> entries_view(self.entries@)[j].0 != path@,
            decreases n - i,
        {
            if self.entries[i].0 == *path {
                proof {
                    lemma_pairs_map_contains(entries_view(self.entries@));
                    lemma_pairs_map_distinct(entries_view(self.entries@));
                    assert(entries_view(self.entries@)[i as int].0 == path@);
                }
                return Some(&self.entries[i].1);
            }
            i += 1;
        }
        proof {
            lemma_pairs_map_contains(entries_view(self.entries@));
        }
        None
    }

    /// The (path, digest) pairs the map holds, exactly one per path of its
    /// domain, in no promised order.
    pub fn pairs(&self) -> (r: &Vec<(String, String)>)
        requires
            self.wf(),
        ensures
            r@.len() == self@.dom().len(),
            forall|i: int|
                0 <= i < r@.len() ==> self@.contains_key((#[trigger] r@[i]).0@) && self@[r@[i].0@]
                    == r@[i].1@,
            forall|p: Seq<char>|
                #[trigger] self@.contains_key(p) ==> exists|i: int|
                    0 <= i < r@.len() && (#[trigger] r@[i]).0@ == p,
            forall|i: int, j: int| 0 <= i < j < r@.len() ==> (#[trigger] r@[i]).0@ != (
            #[trigger] r@[j]).0@,
    {
        proof {
            let sv = entries_view(self.entries@);
            lemma_pairs_map_contains(sv);
            lemma_pairs_map_distinct(sv);
            assert forall|p: Seq<char>| #[trigger] self@.contains_key(p) implies exists|i: int|
                0 <= i < self.entries@.len() && (#[trigger] self.entries@[i]).0@ == p by {
                let i = choose|i: int| 0 <= i < sv.len() && sv[i].0 == p;
                assert(self.entries@[i].0@ == p);
            }
            assert forall|i: int| 0 <= i < self.entries@.len() implies self@.contains_key(
                (#[trigger] self.entries@[i]).0@,
            ) && self@[self.entries@[i].0@] == self.entries@[i].1@ by {
                assert(sv[i].0 == self.entries@[i].0@);
                assert(pairs_map(sv)[sv[i].0] == sv[i].1);
            }
            assert forall|i: int, j: int| 0 <= i < j < self.entries@.len() implies (
            #[trigger] self.entries@[i]).0@ != (#[trigger] self.entries@[j]).0@ by {
                assert(sv[i].0 == self.entries@[i].0@);
                assert(sv[j].0 == self.entries@[j].0@);
            }
        }
        &self.entries
    }

    /// Inserts a (path, digest) pair; an existing entry for the same path
    /// is replaced — last write wins.
    pub fn insert(&mut self, path: String, digest: String)
        requires
            old(self).wf(),
        ensures
            final(self).wf(),
            final(self)@ == old(self)@.insert(path@, digest@),
    {
        let n = self.entries.len();
        let mut out: Vec<(String, String)> = Vec::new();
        let mut i: usize = 0;
        while i < n
            invariant
                old(self).wf(),
                self.entries@ == old(self).entries@,
                i <= n == self.entries@.len(),
                distinct_keys(entries_view(out@)),
                forall|j: int|
                    #![trigger entries_view(out@)[j]]
                    0 <= j < out@.len() ==> entries_view(out@)[j].0 != path@,
                forall|j: int|
                    #![trigger out@[j]]
                    0 <= j < out@.len() ==> exists|k: int|
                        0 <= k < i && out@[j] == #[trigger] self.entries@[k],
                forall|k: int|
                    #![trigger self.entries@[k]]
                    0 <= k < i && entries_view(self.entries@)[k].0 != path@ ==> exists|j: int|
                        0 <= j < out@.len() && #[trigger] out@[j] == self.entries@[k],
            decreases n - i,
        {
            let ghost sv = entries_view(self.entries@);
            let key = self.entries[i].0.clone();
            let same = key == path;
            if !same {
                let value = self.entries[i].1.clone();
                let ghost prev = out@;
                out.push((key, value));
                proof {
                    assert(out@[out@.len() - 1] == self.entries@[i as int]);
                    lemma_entries_view_push(prev, self.entries@[i as int]);
                    assert forall|j: int| 0 <= j < prev.len() implies (#[trigger] entries_view(
                        prev,
                    )[j]).0 != sv[i as int].0 by {
                        let k = choose|k: int| 0 <= k < i && prev[j] == #[trigger] self.entries@[k];
                        assert(entries_view(prev)[j].0 == sv[k].0);
                        assert(sv[k].0 != sv[i as int].0);
                    }
                    assert(distinct_keys(entries_view(out@)));
                    assert forall|j: int| #![trigger out@[j]] 0 <= j < out@.len() implies exists|
                        k: int,
                    |
                        0 <= k < i + 1 && out@[j] == #[trigger] self.entries@[k] by {
                        if j < out@.len() - 1 {
                            let k = choose|k: int|
                                0 <= k < i && prev[j] == #[trigger] self.entries@[k];
                            assert(out@[j] == self.entries@[k]);
                        } else {
                            assert(out@[j] == self.entries@[i as int]);
                        }
                    }
                    assert forall|k: int|
                        #![trigger self.entries@[k]]
                        0 <= k < i + 1 && entries_view(self.entries@)[k].0 != path@ implies exists|
                        j: int,
                    | 0 <= j < out@.len() && #[trigger] out@[j] == self.entries@[k] by {
                        if k < i {
                            let j = choose|j: int|
                                0 <= j < prev.len() && #[trigger] prev[j] == self.entries@[k];
                            assert(out@[j] == self.entries@[k]);
                        } else {
                            assert(out@[out@.len() - 1] == self.entries@[k]);
                        }
                    }
                }
            } else {
                proof {
                    assert(entries_view(self.entries@)[i as int].0 == path@);
                }
            }
            i += 1;
        }
        let ghost pre = out@;
        out.push((path, digest));
        proof {
            let old_sv = entries_view(old(self).entries@);
            let new_sv = entries_view(out@);
            lemma_entries_view_push(pre, (path, digest));
            assert(new_sv =~= entries_view(pre).push((path@, digest@)));
            assert(new_sv[new_sv.len() - 1] == (path@, digest@));
            assert(distinct_keys(new_sv));
            lemma_pairs_map_contains(old_sv);
            lemma_pairs_map_distinct(old_sv);
            lemma_pairs_map_contains(new_sv);
            lemma_pairs_map_distinct(new_sv);
            let m1 = pairs_map(new_sv);
            let m2 = old(self)@.insert(path@, digest@);
            assert forall|p: Seq<char>| #[trigger] m1.dom().contains(p) implies m2.dom().contains(
                p,
            ) && m1[p] == m2[p] by {
                assert(m1.contains_key(p));
                if p == path@ {
                    assert(new_sv[new_sv.len() - 1].0 == p);
                    assert(m1[p] == digest@);
                } else {
                    let j = choose|j: int| 0 <= j < new_sv.len() && new_sv[j].0 == p;
                    assert(j < new_sv.len() - 1);
                    assert(pre[j] == out@[j]);
                    let k = choose|k: int| 0 <= k < n && pre[j] == #[trigger] old(self).entries@[k];
                    assert(old_sv[k].0 == p && old_sv[k].1 == new_sv[j].1);
                    assert(old(self)@.contains_key(p));
                    assert(m1[p] == new_sv[j].1);
                    assert(old(self)@[p] == old_sv[k].1);
                }
            }
            assert forall|p: Seq<char>| #[trigger] m2.dom().contains(p) implies m1.dom().contains(
                p,
            ) by {
                if p == path@ {
                    assert(new_sv[new_sv.len() - 1].0 == p);
                    assert(m1.contains_key(p));
                } else {
                    assert(old(self)@.contains_key(p));
                    let k = choose|k: int| 0 <= k < old_sv.len() && old_sv[k].0 == p;
                    assert(old_sv[k].0 != path@);
                    let j = choose|j: int|
                        0 <= j < pre.len() && #[trigger] pre[j] == old(self).entries@[k];
                    assert(out@[j] == pre[j]);
                    assert(new_sv[j].0 == p);
                    assert(m1.contains_key(p));
                }
            }
            assert(m1 =~= m2);
        }
        self.entries = out;
    }
}

/// Appending one entry appends its view.
proof fn lemma_entries_view_push(s: Seq<(String, String)>, e: (String, String))
    ensures
        entries_view(s.push(e)) =~= entries_view(s).push(entry_view(e)),
{
}

/// The diff condition: a path is reported when it is present in `current`
/// and either absent from `baseline` or mapped there to a different digest.
pub open spec fn diff_cond(
    current: Map<Seq<char>, Seq<char>>,
    baseline: Map<Seq<char>, Seq<char>>,
    p: Seq<char>,
) -> bool {
    current.contains_key(p) && (!baseline.contains_key(p) || baseline[p] != current[p])
}

/// Computes the synchronization work-list: exactly the paths of `src` that
/// are new or modified with respect to `dst`, each reported once, in no
/// promised order. Paths present only in `dst` (deletions) are never
/// reported, and the diff of a map against itself is empty.
pub fn get_difference(src: FingerprintMap, dst: FingerprintMap) -> (r: Vec<String>)
    requires
        src.wf(),
        dst.wf(),
    ensures
        forall|i: int| 0 <= i < r@.len() ==> diff_cond(src@, dst@, #[trigger] r@[i]@),
        forall|p: Seq<char>|
            #[trigger] diff_cond(src@, dst@, p) ==> exists|i: int| 0 <= i < r@.len() && r@[i]@ == p,
        forall|i: int, j: int| 0 <= i < j < r@.len() ==> r@[i]@ != r@[j]@,
        src@ == dst@ ==> r@.len() == 0,
{
    let n = src.entries.len();
    let mut r: Vec<String> = Vec::new();
    let mut i: usize = 0;
    while i < n
        invariant
            src.wf(),
            dst.wf(),
            i <= n == src.entries@.len(),
            forall|j: int|
                #![trigger r@[j]]
                0 <= j < r@.len() ==> diff_cond(src@, dst@, r@[j]@),
            forall|j: int|
                #![trigger r@[j]]
                0 <= j < r@.len() ==> exists|k: int|
                    0 <= k < i && r@[j]@ == (#[trigger] entries_view(src.entries@)[k]).0,
            forall|k: int|
                #![trigger entries_view(src.entries@)[k]]
                0 <= k < i && diff_cond(src@, dst@, entries_view(src.entries@)[k].0)
                    ==> exists|j: int|
                    0 <= j < r@.len() && (#[trigger] r@[j])@ == entries_view(src.entries@)[k].0,
            forall|a: int, b: int| 0 <= a < b < r@.len() ==> r@[a]@ != r@[b]@,
        decreases n - i,
    {
        let ghost sv = entries_view(src.entries@);
        proof {
            lemma_pairs_map_contains(sv);
            lemma_pairs_map_distinct(sv);
        }
        let key = src.entries[i].0.clone();
        let changed = match dst.get(&key) {
            Some(remote) => !(*remote == src.entries[i].1),
            None => true,
        };
        proof {
            assert(key@ == sv[i as int].0);
            assert(src@[sv[i as int].0] == sv[i as int].1);
            assert(changed == diff_cond(src@, dst@, sv[i as int].0));
        }
        if changed {
            let ghost prev = r@;
            r.push(key);
            proof {
                assert(r@[r@.len() - 1]@ == sv[i as int].0);
                assert forall|j: int| #![trigger r@[j]] 0 <= j < r@.len() implies exists|k: int|
                    0 <= k < i + 1 && r@[j]@ == (#[trigger] sv[k]).0 by {
                    if j < r@.len() - 1 {
                        let k = choose|k: int| 0 <= k < i && prev[j]@ == (#[trigger] sv[k]).0;
                        assert(r@[j] == prev[j]);
                    } else {
                        assert(r@[j]@ == sv[i as int].0);
                    }
                }
                assert forall|a: int, b: int| 0 <= a < b < r@.len() implies r@[a]@ != r@[b]@ by {
                    if b < r@.len() - 1 {
                        assert(prev[a]@ != prev[b]@);
                    } else {
                        let k = choose|k: int| 0 <= k < i && prev[a]@ == (#[trigger] sv[k]).0;
                        assert(sv[k].0 != sv[i as int].0);
                    }
                }
                assert forall|k: int|
                    #![trigger sv[k]]
                    0 <= k < i + 1 && diff_cond(src@, dst@, sv[k].0) implies exists|j: int|
                    0 <= j < r@.len() && (#[trigger] r@[j])@ == sv[k].0 by {
                    if k < i {
                        let j = choose|j: int|
                            0 <= j < prev.len() && (#[trigger] prev[j])@ == sv[k].0;
                        assert(r@[j] == prev[j]);
                    } else {
                        assert(r@[r@.len() - 1]@ == sv[k].0);
                    }
                }
            }
        }
        i += 1;
    }
    proof {
        let sv = entries_view(src.entries@);
        lemma_pairs_map_contains(sv);
        assert forall|p: Seq<char>| #[trigger] diff_cond(src@, dst@, p) implies exists|j: int|
            0 <= j < r@.len() && r@[j]@ == p by {
            let k = choose|k: int| 0 <= k < sv.len() && sv[k].0 == p;
            assert(diff_cond(src@, dst@, sv[k].0));
        }
        if src@ == dst@ && r@.len() > 0 {
            assert(diff_cond(src@, dst@, r@[0]@));
            assert(false);
        }
    }
    r
}

/// Law: the diff of any fingerprint map against itself reports nothing.
pub proof fn lemma_self_diff_empty(m: Map<Seq<char>, Seq<char>>)
    ensures
        forall|p: Seq<char>| !diff_cond(m, m, p),
{
}

/// Law: a deleted path — present in the baseline but absent from the
/// current map — is never reported by the diff.
pub proof fn lemma_deletions_not_reported(
    current: Map<Seq<char>, Seq<char>>,
    baseline: Map<Seq<char>, Seq<char>>,
    p: Seq<char>,
)
    requires
        baseline.contains_key(p),
        !current.contains_key(p),
    ensures
        !diff_cond(current, baseline, p),
{
}

/// Law: aggregation is order-independent. Two runs that deliver the same
/// collection of (path, digest) items — in whatever arrival order — build
/// the same fingerprint map, provided no two items share a path.
pub proof fn lemma_aggregation_order_irrelevant(
    s1: Seq<(Seq<char>, Seq<char>)>,
    s2: Seq<(Seq<char>, Seq<char>)>,
)
    requires
        s1.to_multiset() == s2.to_multiset(),
        distinct_keys(s1),
        distinct_keys(s2),
    ensures
        pairs_map(s1) == pairs_map(s2),
{
    broadcast use vstd::seq_lib::group_to_multiset_ensures;

    lemma_pairs_map_contains(s1);
    lemma_pairs_map_contains(s2);
    lemma_pairs_map_distinct(s1);
    lemma_pairs_map_distinct(s2);
    assert forall|p: Seq<char>| pairs_map(s1).contains_key(p) implies pairs_map(s2).contains_key(p)
        && pairs_map(s2)[p] == pairs_map(s1)[p] by {
        let i = choose|i: int| 0 <= i < s1.len() && s1[i].0 == p;
        assert(s1.contains(s1[i]));
        assert(s1.to_multiset().count(s1[i]) > 0);
        assert(s2.to_multiset().count(s1[i]) > 0);
        assert(s2.contains(s1[i]));
        let j = choose|j: int| 0 <= j < s2.len() && s2[j] == s1[i];
        assert(s2[j].0 == p);
        assert(pairs_map(s2)[p] == s2[j].1);
        assert(pairs_map(s1)[p] == s1[i].1);
    }
    assert forall|p: Seq<char>| pairs_map(s2).contains_key(p) implies pairs_map(s1).contains_key(
        p,
    ) by {
        let i = choose|i: int| 0 <= i < s2.len() && s2[i].0 == p;
        assert(s2.contains(s2[i]));
        assert(s2.to_multiset().count(s2[i]) > 0);
        assert(s1.to_multiset().count(s2[i]) > 0);
        assert(s1.contains(s2[i]));
        let j = choose|j: int| 0 <= j < s1.len() && s1[j] == s2[i];
        assert(s1[j].0 == p);
    }
    assert(pairs_map(s1) =~= pairs_map(s2));
}

} // verus!
