//! Grouping of fingerprinted files into buckets. The entries are first
//! sorted into the canonical order of [`crate::order::entry_le`], then equal
//! fingerprints are collected into runs. Sorting first makes the grouping a
//! function of which files were delivered, never of the order a worker pool
//! delivered them in. Every bucket is kept here, singletons included; the
//! report filters them later.

use vstd::prelude::*;
use vstd::relations::{sorted_by, total_ordering};
use vstd::seq_lib::lemma_sorted_unique;
use vstd::seq_lib::group_to_multiset_ensures;
use vstd::multiset::{Multiset, group_multiset_axioms};
use crate::order::{
    FingerprintEntry,
    EntryV,
    entry_le,
    entry_le_fn,
    entry_le_exec,
    lemma_entry_le_total_ordering,
};

verus! {

/// The entry values of a list of entries.
pub open spec fn views_of_entries(s: Seq<FingerprintEntry>) -> Seq<EntryV> {
    s.map_values(|e: FingerprintEntry| e@)
}

/// The mathematical value of one duplicate bucket: a fingerprint, the
/// declared size of each member, and the member paths in canonical order.
pub ghost struct GroupV {
    pub fp: u128,
    pub size: u64,
    pub paths: Seq<Seq<char>>,
}

/// One bucket of files sharing a fingerprint, with the declared byte size
/// of each member.
#[derive(Debug, Clone)]
pub struct DuplicateGroup {
    pub fingerprint: u128,
    pub size: u64,
    pub paths: Vec<String>,
}

impl View for DuplicateGroup {
    type V = GroupV;

    open spec fn view(&self) -> GroupV {
        GroupV { fp: self.fingerprint, size: self.size, paths: self.paths.deep_view() }
    }
}

/// The group values of a list of groups.
pub open spec fn views_of_groups(s: Seq<DuplicateGroup>) -> Seq<GroupV> {
    s.map_values(|g: DuplicateGroup| g@)
}

/// Sorts the entries into the canonical order.
pub fn sort_entries(v: &mut Vec<FingerprintEntry>)
    ensures
        views_of_entries(final(v)@) == views_of_entries(old(v)@).sort_by(entry_le_fn()),
{
    proof {
        lemma_entry_le_total_ordering();
        broadcast use group_to_multiset_ensures;
        broadcast use group_multiset_axioms;

    }
    let ghost orig = views_of_entries(v@);
    let ghost le = entry_le_fn();
    let n = v.len();
    let mut i: usize = 1;
    while i < n
        invariant
            1 <= i,
            i <= n || n == 0,
            n == v@.len(),
            total_ordering(le),
            le == entry_le_fn(),
            orig == views_of_entries(old(v)@),
            views_of_entries(v@).to_multiset() == orig.to_multiset(),
            i <= n ==> sorted_by(views_of_entries(v@).subrange(0, i as int), le),
        decreases n - i,
    {
        let ghost ov = views_of_entries(v@);
        let ghost x = ov[i as int];
        let mut p: usize = 0;
        while p < i && entry_le_exec(&v[p], &v[i])
            invariant
                0 <= p <= i < v@.len(),
                ov == views_of_entries(v@),
                x == ov[i as int],
                forall|q: int| 0 <= q < p ==> le(ov[q], x),
                le == entry_le_fn(),
            decreases i - p,
        {
            p = p + 1;
        }
        proof {
            if p < i {
                assert(!le(ov[p as int], x));
                assert(le(x, ov[p as int]));
            }
        }
        let moved = v.remove(i);
        v.insert(p, moved);
        proof {
            let nv = views_of_entries(v@);
            assert(nv =~= ov.remove(i as int).insert(p as int, x)) by {
                assert forall|k: int| 0 <= k < nv.len() implies nv[k] == ov.remove(
                    i as int,
                ).insert(p as int, x)[k] by {}
            }
            broadcast use group_to_multiset_ensures;
            broadcast use group_multiset_axioms;

            assert(ov.contains(x));
            assert(ov.to_multiset().count(x) >= 1);
            assert(nv.to_multiset() =~= ov.to_multiset());
            assert(sorted_by(nv.subrange(0, i + 1), le)) by {
                let pre = nv.subrange(0, i + 1);
                assert forall|k1: int, k2: int| 0 <= k1 < k2 < pre.len() implies #[trigger] le(
                    pre[k1],
                    pre[k2],
                ) by {
                    let sortedpre = ov.subrange(0, i as int);
                    assert(forall|q1: int, q2: int|
                        0 <= q1 < q2 < i ==> #[trigger] le(sortedpre[q1], sortedpre[q2]));
                    assert(forall|q: int| 0 <= q < i ==> sortedpre[q] == ov[q]);
                    if k1 < p && k2 == p {
                        assert(le(ov[k1], x));
                    } else if k1 < p && k2 > p {
                        assert(le(ov[k1], ov[k2 - 1]));
                    } else if k1 == p && k2 > p {
                        if p < i {
                            assert(le(x, ov[p as int]));
                            if k2 - 1 > p {
                                assert(le(ov[p as int], ov[k2 - 1]));
                            }
                        }
                    } else if k1 > p {
                        assert(le(ov[k1 - 1], ov[k2 - 1]));
                    } else {
                        assert(k2 < p);
                        assert(le(ov[k1], ov[k2]));
                    }
                }
            }
        }
        i = i + 1;
    }
    proof {
        let fin = views_of_entries(v@);
        if n == 0 {
            assert(fin =~= orig);
            assert(sorted_by(fin, le));
        } else {
            assert(fin.subrange(0, n as int) =~= fin);
        }
        orig.lemma_sort_by_ensures(le);
        lemma_sorted_unique(fin, orig.sort_by(le), le);
    }
}

/// The number of leading entries of `s` whose fingerprint is `fp`.
pub open spec fn run_len(s: Seq<EntryV>, fp: u128) -> int
    decreases s.len(),
{
    if s.len() == 0 {
        0
    } else if s[0].fp != fp {
        0
    } else {
        1 + run_len(s.drop_first(), fp)
    }
}

pub proof fn lemma_run_len_bounds(s: Seq<EntryV>, fp: u128)
    ensures
        0 <= run_len(s, fp) <= s.len(),
        forall|j: int| 0 <= j < run_len(s, fp) ==> s[j].fp == fp,
        run_len(s, fp) < s.len() ==> s[run_len(s, fp)].fp != fp,
    decreases s.len(),
{
    if s.len() > 0 && s[0].fp == fp {
        lemma_run_len_bounds(s.drop_first(), fp);
        assert forall|j: int| 0 <= j < run_len(s, fp) implies s[j].fp == fp by {
            if j > 0 {
                assert(s.drop_first()[j - 1] == s[j]);
            }
        }
        if run_len(s, fp) < s.len() {
            assert(s.drop_first()[run_len(s, fp) - 1] == s[run_len(s, fp)]);
        }
    }
}

pub proof fn lemma_run_len_is(s: Seq<EntryV>, fp: u128, k: int)
    requires
        0 <= k <= s.len(),
        forall|j: int| 0 <= j < k ==> s[j].fp == fp,
        k < s.len() ==> s[k].fp != fp,
    ensures
        run_len(s, fp) == k,
    decreases s.len(),
{
    if s.len() > 0 && k > 0 {
        assert(s[0].fp == fp);
        assert forall|j: int| 0 <= j < k - 1 implies s.drop_first()[j].fp == fp by {
            assert(s.drop_first()[j] == s[j + 1]);
        }
        if k - 1 < s.drop_first().len() {
            assert(s.drop_first()[k - 1] == s[k]);
        }
        lemma_run_len_is(s.drop_first(), fp, k - 1);
    }
}

/// The groups of a sorted entry sequence: each maximal run of one
/// fingerprint becomes one bucket, keeping the members' order and taking the
/// declared size of the run's first member.
pub open spec fn spec_group_scan(s: Seq<EntryV>) -> Seq<GroupV>
    decreases s.len(),
{
    if s.len() == 0 {
        Seq::<GroupV>::empty()
    } else {
        let n0 = run_len(s, s[0].fp);
        let n = if 1 <= n0 <= s.len() {
            n0
        } else {
            1
        };
        seq![
            GroupV {
                fp: s[0].fp,
                size: s[0].size,
                paths: s.subrange(0, n).map_values(|e: EntryV| e.path),
            },
        ] + spec_group_scan(s.subrange(n, s.len() as int))
    }
}

/// The member count over a whole list of buckets, singletons included.
pub open spec fn spec_total_members(gs: Seq<GroupV>) -> int
    decreases gs.len(),
{
    if gs.len() == 0 {
        0
    } else {
        gs[0].paths.len() + spec_total_members(gs.drop_first())
    }
}

/// No file is lost by scanning: the buckets of a sequence of entries hold
/// exactly as many members as there were entries.
pub proof fn lemma_group_scan_no_file_lost(s: Seq<EntryV>)
    ensures
        spec_total_members(spec_group_scan(s)) == s.len(),
    decreases s.len(),
{
    if s.len() > 0 {
        let n0 = run_len(s, s[0].fp);
        let n = if 1 <= n0 <= s.len() {
            n0
        } else {
            1
        };
        let head = GroupV {
            fp: s[0].fp,
            size: s[0].size,
            paths: s.subrange(0, n).map_values(|e: EntryV| e.path),
        };
        let rest = spec_group_scan(s.subrange(n, s.len() as int));
        lemma_group_scan_no_file_lost(s.subrange(n, s.len() as int));
        assert((seq![head] + rest)[0] == head);
        assert((seq![head] + rest).drop_first() =~= rest);
        assert(head.paths.len() == n);
    }
}

/// No file is lost by grouping: however the delivery was ordered, the
/// buckets of [`sort_and_group_duplicates`] hold exactly one member per
/// successfully fingerprinted file.
pub proof fn lemma_grouping_no_file_lost(es: Seq<EntryV>)
    ensures
        spec_total_members(spec_sorted_groups(es)) == es.len(),
{
    lemma_entry_le_total_ordering();
    es.lemma_sort_by_ensures(entry_le_fn());
    vstd::seq_lib::to_multiset_len::<EntryV>(es);
    vstd::seq_lib::to_multiset_len::<EntryV>(es.sort_by(entry_le_fn()));
    lemma_group_scan_no_file_lost(es.sort_by(entry_le_fn()));
}

pub proof fn lemma_group_scan_len(s: Seq<EntryV>)
    ensures
        spec_group_scan(s).len() <= s.len(),
    decreases s.len(),
{
    if s.len() > 0 {
        let n0 = run_len(s, s[0].fp);
        let n = if 1 <= n0 <= s.len() {
            n0
        } else {
            1
        };
        lemma_group_scan_len(s.subrange(n, s.len() as int));
    }
}

/// The buckets of a delivery of fingerprinted files: the entries in
/// canonical order, scanned into runs of one fingerprint each.
pub open spec fn spec_sorted_groups(es: Seq<EntryV>) -> Seq<GroupV> {
    spec_group_scan(es.sort_by(entry_le_fn()))
}

/// Sorts the fingerprinted files and collects every run of one fingerprint
/// into a bucket. No file is lost: the buckets' members, read in order, are
/// exactly the sorted entries.
pub fn sort_and_group_duplicates(entries: Vec<FingerprintEntry>) -> (r: Vec<DuplicateGroup>)
    ensures
        views_of_groups(r@) == spec_sorted_groups(views_of_entries(entries@)),
{
    let mut work = entries;
    sort_entries(&mut work);
    let ghost sorted = views_of_entries(work@);
    let mut groups: Vec<DuplicateGroup> = Vec::new();
    let mut start: usize = 0;
    let n = work.len();
    proof {
        assert(sorted.subrange(0, n as int) =~= sorted);
    }
    while start < n
        invariant
            0 <= start <= n,
            n == work@.len(),
            sorted == views_of_entries(work@),
            views_of_groups(groups@) + spec_group_scan(
                sorted.subrange(start as int, n as int),
            ) == spec_group_scan(sorted),
        decreases n - start,
    {
        let fp = work[start].fingerprint;
        let size = work[start].size;
        let mut end = start + 1;
        while end < n && work[end].fingerprint == fp
            invariant
                start < end <= n,
                n == work@.len(),
                sorted == views_of_entries(work@),
                fp == sorted[start as int].fp,
                forall|j: int| start <= j < end ==> sorted[j].fp == fp,
            decreases n - end,
        {
            end = end + 1;
        }
        let ghost tail = sorted.subrange(start as int, n as int);
        proof {
            assert forall|j: int| 0 <= j < end - start implies tail[j].fp == fp by {
                assert(tail[j] == sorted[start + j]);
            }
            if end < n {
                assert(tail[end - start] == sorted[end as int]);
            }
            lemma_run_len_is(tail, fp, end - start);
        }
        let mut paths: Vec<String> = Vec::new();
        let mut k = start;
        while k < end
            invariant
                start <= k <= end <= n,
                n == work@.len(),
                sorted == views_of_entries(work@),
                paths.deep_view() =~= sorted.subrange(start as int, k as int).map_values(
                    |e: EntryV| e.path,
                ),
            decreases end - k,
        {
            let ghost pre = paths.deep_view();
            let ghost pre_vec = paths@;
            paths.push(work[k].path.clone());
            proof {
                let prev = sorted.subrange(start as int, k as int).map_values(|e: EntryV| e.path);
                let cur = sorted.subrange(start as int, k + 1).map_values(|e: EntryV| e.path);
                assert(pre.len() == k - start);
                assert(pre.len() == pre_vec.len());
                assert(paths@ == pre_vec.push(work@[k as int].path));
                assert forall|j: int| 0 <= j < paths.deep_view().len() implies paths.deep_view()[j]
                    == cur[j] by {
                    assert(paths.deep_view()[j] == paths@[j]@);
                    if j < k - start {
                        assert(paths@[j] == pre_vec[j]);
                        assert(pre[j] == pre_vec[j]@);
                        assert(prev[j] == cur[j]);
                    } else {
                        assert(paths@[j] == work@[k as int].path);
                        assert(cur[j] == sorted[k as int].path);
                        assert(sorted[k as int] == work@[k as int]@);
                    }
                }
                assert(paths.deep_view() =~= cur);
            }
            k = k + 1;
        }
        let group = DuplicateGroup { fingerprint: fp, size, paths };
        groups.push(group);
        proof {
            let head = GroupV {
                fp,
                size: tail[0].size,
                paths: tail.subrange(0, end - start).map_values(|e: EntryV| e.path),
            };
            assert(tail[0] == sorted[start as int]);
            assert(spec_group_scan(tail) == seq![head] + spec_group_scan(
                tail.subrange(end - start, tail.len() as int),
            ));
            assert(tail.subrange(end - start, tail.len() as int) =~= sorted.subrange(
                end as int,
                n as int,
            ));
            assert(tail.subrange(0, end - start) =~= sorted.subrange(start as int, end as int));
            assert(groups@.last()@ == head) by {
                assert(groups@.last().paths.deep_view() =~= head.paths);
            }
            assert(views_of_groups(groups@) =~= views_of_groups(
                groups@.subrange(0, groups@.len() - 1),
            ).push(head)) by {
                assert forall|j: int| 0 <= j < groups@.len() implies views_of_groups(groups@)[j]
                    == views_of_groups(groups@.subrange(0, groups@.len() - 1)).push(head)[j] by {
                    if j < groups@.len() - 1 {
                        assert(groups@.subrange(0, groups@.len() - 1)[j] == groups@[j]);
                    }
                }
            }
            assert(views_of_groups(groups@) + spec_group_scan(
                sorted.subrange(end as int, n as int),
            ) =~= spec_group_scan(sorted));
        }
        start = end;
    }
    proof {
        assert(sorted.subrange(n as int, n as int) =~= Seq::<EntryV>::empty());
        assert(views_of_groups(groups@) + Seq::<GroupV>::empty() =~= views_of_groups(groups@));
    }
    groups
}

proof fn lemma_scan_singletons(s: Seq<EntryV>)
    requires
        forall|i: int, j: int| 0 <= i < j < s.len() ==> s[i].fp != s[j].fp,
    ensures
        forall|k: int|
            0 <= k < spec_group_scan(s).len() ==> #[trigger] spec_group_scan(s)[k].paths.len()
                == 1,
    decreases s.len(),
{
    if s.len() > 0 {
        lemma_run_len_bounds(s, s[0].fp);
        assert(run_len(s, s[0].fp) == 1) by {
            if run_len(s, s[0].fp) >= 2 {
                assert(s[1].fp == s[0].fp);
            }
        }
        let tail = s.subrange(1, s.len() as int);
        assert forall|i: int, j: int| 0 <= i < j < tail.len() implies tail[i].fp != tail[j].fp by {
            assert(tail[i] == s[i + 1]);
            assert(tail[j] == s[j + 1]);
        }
        lemma_scan_singletons(tail);
        assert forall|k: int|
            0 <= k < spec_group_scan(s).len() implies #[trigger] spec_group_scan(
            s,
        )[k].paths.len() == 1 by {
            if k == 0 {
                assert(spec_group_scan(s)[0].paths.len() == s.subrange(0, 1).map_values(
                    |e: EntryV| e.path,
                ).len());
            } else {
                assert(spec_group_scan(s)[k] == spec_group_scan(tail)[k - 1]);
            }
        }
    }
}

/// When no two delivered files share a fingerprint, every bucket holds
/// exactly one member.
pub proof fn lemma_distinct_fingerprints_singleton_groups(es: Seq<EntryV>)
    requires
        forall|i: int, j: int| 0 <= i < j < es.len() ==> es[i].fp != es[j].fp,
    ensures
        forall|k: int|
            0 <= k < spec_sorted_groups(es).len() ==> #[trigger] spec_sorted_groups(
                es,
            )[k].paths.len() == 1,
{
    lemma_entry_le_total_ordering();
    es.lemma_sort_by_ensures(entry_le_fn());
    let s = es.sort_by(entry_le_fn());
    broadcast use group_to_multiset_ensures;
    broadcast use group_multiset_axioms;

    assert(es.no_duplicates()) by {
        assert forall|i: int, j: int|
            0 <= i < es.len() && 0 <= j < es.len() && i != j implies es[i] != es[j] by {
            if i < j {
                assert(es[i].fp != es[j].fp);
            } else {
                assert(es[j].fp != es[i].fp);
            }
        }
    }
    es.lemma_multiset_has_no_duplicates();
    assert(forall|x: EntryV| s.to_multiset().contains(x) ==> s.to_multiset().count(x) == 1);
    s.lemma_multiset_has_no_duplicates_conv();
    assert forall|i: int, j: int| 0 <= i < j < s.len() implies s[i].fp != s[j].fp by {
        if s[i].fp == s[j].fp {
            assert(s[i] != s[j]);
            assert(s.contains(s[i]));
            assert(s.contains(s[j]));
            assert(es.to_multiset().count(s[i]) > 0);
            assert(es.to_multiset().count(s[j]) > 0);
            assert(es.contains(s[i]));
            assert(es.contains(s[j]));
            let a = choose|a: int| 0 <= a < es.len() && es[a] == s[i];
            let b = choose|b: int| 0 <= b < es.len() && es[b] == s[j];
            assert(a != b);
            if a < b {
                assert(es[a].fp != es[b].fp);
            } else {
                assert(es[b].fp != es[a].fp);
            }
        }
    }
    lemma_scan_singletons(s);
}

proof fn lemma_count_of_two<A>(a: A, b: A, v: A)
    ensures
        seq![a, b].to_multiset().count(v) == (if a == v {
            1int
        } else {
            0int
        }) + (if b == v {
            1int
        } else {
            0int
        }),
{
    broadcast use group_to_multiset_ensures;
    broadcast use group_multiset_axioms;

    let e = Seq::<A>::empty();
    assert(seq![a, b] =~= e.push(a).push(b));
    assert(e.to_multiset() =~= Multiset::<A>::empty()) by {
        vstd::seq_lib::to_multiset_len::<A>(e);
        vstd::multiset::lemma_multiset_empty_len::<A>(e.to_multiset());
    }
    assert(e.push(a).to_multiset() =~= Multiset::<A>::empty().insert(a));
    assert(e.push(a).push(b).to_multiset() =~= Multiset::<A>::empty().insert(a).insert(b));
    vstd::multiset::lemma_insert_increases_count_by_1(Multiset::<A>::empty(), a);
    vstd::multiset::lemma_insert_increases_count_by_1(Multiset::<A>::empty().insert(a), b);
    vstd::multiset::lemma_insert_other_elements_unchanged(Multiset::<A>::empty(), a, v);
    vstd::multiset::lemma_insert_other_elements_unchanged(Multiset::<A>::empty().insert(a), b, v);
}

proof fn lemma_count_of_three<A>(a: A, b: A, c: A, v: A)
    ensures
        seq![a, b, c].to_multiset().count(v) == (if a == v {
            1int
        } else {
            0int
        }) + (if b == v {
            1int
        } else {
            0int
        }) + (if c == v {
            1int
        } else {
            0int
        }),
{
    broadcast use group_to_multiset_ensures;
    broadcast use group_multiset_axioms;

    lemma_count_of_two(a, b, v);
    assert(seq![a, b, c] =~= seq![a, b].push(c));
    assert(seq![a, b].push(c).to_multiset() =~= seq![a, b].to_multiset().insert(c));
    vstd::multiset::lemma_insert_increases_count_by_1(seq![a, b].to_multiset(), c);
    vstd::multiset::lemma_insert_other_elements_unchanged(seq![a, b].to_multiset(), c, v);
}

/// A delivery of exactly three files, two of them sharing one fingerprint
/// and the third apart, yields exactly two buckets: the pair, holding those
/// two files' paths, and the third file alone — whatever order the three
/// were delivered in. The buckets stand in fingerprint order.
pub proof fn lemma_three_file_grouping(es: Seq<EntryV>, a: EntryV, b: EntryV, c: EntryV)
    requires
        es.to_multiset() == seq![a, b, c].to_multiset(),
        a.fp == b.fp,
        a.fp != c.fp,
    ensures
        spec_sorted_groups(es).len() == 2,
        ({
            let gs = spec_sorted_groups(es);
            let pair = if a.fp < c.fp {
                gs[0]
            } else {
                gs[1]
            };
            let single = if a.fp < c.fp {
                gs[1]
            } else {
                gs[0]
            };
            &&& pair.fp == a.fp
            &&& pair.paths.to_multiset() == seq![a.path, b.path].to_multiset()
            &&& pair.paths.len() == 2
            &&& (a.size == b.size ==> pair.size == a.size)
            &&& single.fp == c.fp
            &&& single.paths == seq![c.path]
            &&& single.size == c.size
        }),
{
    broadcast use group_to_multiset_ensures;
    broadcast use group_multiset_axioms;

    lemma_entry_le_total_ordering();
    es.lemma_sort_by_ensures(entry_le_fn());
    let le = entry_le_fn();
    let s2 = es.sort_by(le);
    let abc = seq![a, b, c];
    assert(s2.to_multiset() == abc.to_multiset());
    vstd::seq_lib::to_multiset_len::<EntryV>(abc);
    vstd::seq_lib::to_multiset_len::<EntryV>(s2);
    assert(s2.len() == 3);
    let x = s2[0];
    let y = s2[1];
    let z = s2[2];
    assert(s2 =~= seq![x, y, z]);
    assert(c != a && c != b);
    let ind = |p: EntryV, v: EntryV|
        if p == v {
            1int
        } else {
            0int
        };
    // count the lone entry and the pair across both arrangements
    assert(ind(x, c) + ind(y, c) + ind(z, c) == 1) by {
        lemma_count_of_three(x, y, z, c);
        lemma_count_of_three(a, b, c, c);
    }
    assert(ind(x, a) + ind(y, a) + ind(z, a) == 1 + ind(b, a)) by {
        lemma_count_of_three(x, y, z, a);
        lemma_count_of_three(a, b, c, a);
    }
    assert(ind(x, b) + ind(y, b) + ind(z, b) == ind(a, b) + 1) by {
        lemma_count_of_three(x, y, z, b);
        lemma_count_of_three(a, b, c, b);
    }
    // every sorted entry is one of the three, and exactly one of them is c
    assert((x == a || x == b || x == c) && (y == a || y == b || y == c) && (z == a || z == b || z
        == c)) by {
        lemma_count_of_three(x, y, z, x);
        lemma_count_of_three(x, y, z, y);
        lemma_count_of_three(x, y, z, z);
        lemma_count_of_three(a, b, c, x);
        lemma_count_of_three(a, b, c, y);
        lemma_count_of_three(a, b, c, z);
    }
    // the middle entry cannot be the lone fingerprint
    assert(y != c) by {
        if y == c {
            assert(x.fp == a.fp && z.fp == a.fp);
            assert(le(x, y) && le(y, z));
            assert(a.fp < c.fp && c.fp < a.fp);
        }
    }
    assert(y.fp == a.fp);
    // exactly one end is c, and the remaining two entries are the pair
    if z == c {
        assert(x != c && x.fp == a.fp);
        assert((x == a && y == b) || (x == b && y == a));
        assert(le(y, z));
        assert(a.fp < c.fp);
        lemma_three_scan_shape(s2, a, b, c, x, y, z, true);
    } else {
        assert(x == c) by {
            if x != c {
                assert(x.fp == a.fp && y.fp == a.fp && z.fp == a.fp);
            }
        }
        assert((y == a && z == b) || (y == b && z == a));
        assert(le(x, y));
        assert(c.fp < a.fp);
        lemma_three_scan_shape(s2, a, b, c, y, z, x, false);
    }
}

/// The scan of a sorted three-entry sequence holding the pair `p1, p2`
/// (sharing one fingerprint) and the lone entry `lone`: the pair first when
/// `pair_first`, else the lone entry first.
proof fn lemma_three_scan_shape(
    s2: Seq<EntryV>,
    a: EntryV,
    b: EntryV,
    c: EntryV,
    p1: EntryV,
    p2: EntryV,
    lone: EntryV,
    pair_first: bool,
)
    requires
        s2.len() == 3,
        lone == c,
        (p1 == a && p2 == b) || (p1 == b && p2 == a),
        a.fp == b.fp,
        a.fp != c.fp,
        pair_first ==> s2 =~= seq![p1, p2, lone],
        !pair_first ==> s2 =~= seq![lone, p1, p2],
    ensures
        spec_group_scan(s2).len() == 2,
        ({
            let gs = spec_group_scan(s2);
            let pair = if pair_first {
                gs[0]
            } else {
                gs[1]
            };
            let single = if pair_first {
                gs[1]
            } else {
                gs[0]
            };
            &&& pair.fp == a.fp
            &&& pair.paths.to_multiset() == seq![a.path, b.path].to_multiset()
            &&& pair.paths.len() == 2
            &&& (a.size == b.size ==> pair.size == a.size)
            &&& single.fp == c.fp
            &&& single.paths == seq![c.path]
            &&& single.size == c.size
        }),
{
    broadcast use group_multiset_axioms;

    if pair_first {
        lemma_run_len_is(s2, s2[0].fp, 2);
        let tail = s2.subrange(2, 3);
        assert(tail.len() == 1);
        assert(tail[0] == lone);
        lemma_run_len_is(tail, tail[0].fp, 1);
        let g0 = GroupV {
            fp: s2[0].fp,
            size: s2[0].size,
            paths: s2.subrange(0, 2).map_values(|e: EntryV| e.path),
        };
        let g1 = GroupV {
            fp: tail[0].fp,
            size: tail[0].size,
            paths: tail.subrange(0, 1).map_values(|e: EntryV| e.path),
        };
        assert(tail.subrange(1, 1).len() == 0);
        assert(spec_group_scan(tail) == seq![g1] + spec_group_scan(tail.subrange(1, 1)));
        assert(spec_group_scan(s2) =~= seq![g0, g1]);
        assert(g0.paths =~= seq![p1.path, p2.path]);
        assert(g1.paths =~= seq![c.path]);
        lemma_pair_paths_multiset(p1, p2, a, b);
    } else {
        lemma_run_len_is(s2, s2[0].fp, 1);
        let tail = s2.subrange(1, 3);
        assert(tail.len() == 2);
        assert(tail[0] == p1 && tail[1] == p2);
        lemma_run_len_is(tail, tail[0].fp, 2);
        let g0 = GroupV {
            fp: s2[0].fp,
            size: s2[0].size,
            paths: s2.subrange(0, 1).map_values(|e: EntryV| e.path),
        };
        let g1 = GroupV {
            fp: tail[0].fp,
            size: tail[0].size,
            paths: tail.subrange(0, 2).map_values(|e: EntryV| e.path),
        };
        assert(tail.subrange(2, 2).len() == 0);
        assert(spec_group_scan(tail) == seq![g1] + spec_group_scan(tail.subrange(2, 2)));
        assert(spec_group_scan(s2) =~= seq![g0, g1]);
        assert(g1.paths =~= seq![p1.path, p2.path]);
        assert(g0.paths =~= seq![c.path]);
        lemma_pair_paths_multiset(p1, p2, a, b);
    }
}

/// The pair's paths form the multiset of the two shared-fingerprint files'
/// paths, in either arrangement.
proof fn lemma_pair_paths_multiset(p1: EntryV, p2: EntryV, a: EntryV, b: EntryV)
    requires
        (p1 == a && p2 == b) || (p1 == b && p2 == a),
    ensures
        seq![p1.path, p2.path].to_multiset() == seq![a.path, b.path].to_multiset(),
{
    broadcast use group_multiset_axioms;

    assert forall|v: Seq<char>|
        seq![p1.path, p2.path].to_multiset().count(v) == seq![
            a.path,
            b.path,
        ].to_multiset().count(v) by {
        lemma_count_of_two(p1.path, p2.path, v);
        lemma_count_of_two(a.path, b.path, v);
    }
    assert(seq![p1.path, p2.path].to_multiset() =~= seq![a.path, b.path].to_multiset());
}

/// Grouping does not depend on delivery order: two deliveries holding the
/// same multiset of fingerprinted files give the same buckets, whatever
/// interleaving or worker count produced them.
pub proof fn lemma_grouping_order_invariant(e1: Seq<EntryV>, e2: Seq<EntryV>)
    requires
        e1.to_multiset() == e2.to_multiset(),
    ensures
        spec_sorted_groups(e1) == spec_sorted_groups(e2),
{
    lemma_entry_le_total_ordering();
    e1.lemma_sort_by_ensures(entry_le_fn());
    e2.lemma_sort_by_ensures(entry_le_fn());
    lemma_sorted_unique(e1.sort_by(entry_le_fn()), e2.sort_by(entry_le_fn()), entry_le_fn());
}

} // verus!
