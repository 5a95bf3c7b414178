//! Reporting: filters the buckets down to real duplicate groups (two or
//! more members), orders them deterministically by the chosen sort mode,
//! numbers them, and sums the two totals of a run: the duplicate record
//! count and the duplicate bytes on disk.

use vstd::prelude::*;
use vstd::relations::{sorted_by, total_ordering};
use vstd::seq_lib::lemma_sorted_unique;
use vstd::arithmetic::mul::lemma_mul_upper_bound;
use crate::config::{SortBy, OrderBy, SortOrder};
use crate::group::{DuplicateGroup, GroupV, views_of_groups};
use crate::order::{
    seq_char_le,
    lemma_seq_char_le_connected,
    lemma_seq_char_le_antisym,
    lemma_seq_char_le_transitive,
    str_le,
};
use crate::scan::{spec_extension_of, extension_of};

verus! {

/// The weight of a log line: ordinary progress or an error.
#[derive(Clone, Copy, Debug, PartialEq, Eq, Structural)]
pub enum LogLevel {
    INFO,
    ERROR,
}

/// The mathematical value of one report record.
pub ghost struct RecordV {
    pub no: u64,
    pub count: u64,
    pub bytes_each: u64,
    pub list: Seq<Seq<char>>,
}

/// One serializable report record: the group's ordinal, its member count,
/// the declared bytes of each member, and the members' paths in order. The
/// delete phase relies on exactly this projection, retaining the last member
/// of the list.
#[derive(Debug, Clone, PartialEq, Eq)]
pub struct PrinterJSONObject {
    pub duplicate_group_no: u64,
    pub duplicate_group_count: u64,
    pub duplicate_group_bytes_each: u64,
    pub duplicate_list: Vec<String>,
}

impl View for PrinterJSONObject {
    type V = RecordV;

    open spec fn view(&self) -> RecordV {
        RecordV {
            no: self.duplicate_group_no,
            count: self.duplicate_group_count,
            bytes_each: self.duplicate_group_bytes_each,
            list: self.duplicate_list.deep_view(),
        }
    }
}

/// The record values of a list of records.
pub open spec fn views_of_records(s: Seq<PrinterJSONObject>) -> Seq<RecordV> {
    s.map_values(|r: PrinterJSONObject| r@)
}

/// The extension key a group sorts under: the extension of its first
/// member, or the empty sequence where there is none, which sorts first.
pub open spec fn spec_group_ext(g: GroupV) -> Seq<char> {
    if g.paths.len() == 0 {
        Seq::<char>::empty()
    } else {
        match spec_extension_of(g.paths[0]) {
            Option::Some(e) => e,
            Option::None => Seq::<char>::empty(),
        }
    }
}

/// The extension key, computed on a group.
fn group_ext_exec(g: &DuplicateGroup) -> (r: String)
    ensures
        r@ == spec_group_ext(g@),
{
    if g.paths.len() == 0 {
        String::new()
    } else {
        proof {
            assert(g.paths.deep_view()[0] == g.paths@[0]@);
        }
        match extension_of(g.paths[0].as_str()) {
            Option::Some(e) => e,
            Option::None => String::new(),
        }
    }
}

/// Lexicographic order on path lists, used as the final tie break so that
/// the report order is total.
pub open spec fn seq_paths_le(a: Seq<Seq<char>>, b: Seq<Seq<char>>) -> bool
    decreases a.len(),
{
    if a.len() == 0 {
        true
    } else if b.len() == 0 {
        false
    } else if a[0] != b[0] {
        seq_char_le(a[0], b[0])
    } else {
        seq_paths_le(a.drop_first(), b.drop_first())
    }
}

proof fn lemma_seq_paths_le_connected(a: Seq<Seq<char>>, b: Seq<Seq<char>>)
    ensures
        seq_paths_le(a, b) || seq_paths_le(b, a),
    decreases a.len(),
{
    if a.len() > 0 && b.len() > 0 {
        if a[0] != b[0] {
            lemma_seq_char_le_connected(a[0], b[0]);
        } else {
            lemma_seq_paths_le_connected(a.drop_first(), b.drop_first());
        }
    }
}

proof fn lemma_seq_paths_le_antisym(a: Seq<Seq<char>>, b: Seq<Seq<char>>)
    requires
        seq_paths_le(a, b),
        seq_paths_le(b, a),
    ensures
        a == b,
    decreases a.len(),
{
    if a.len() == 0 {
        assert(a =~= b);
    } else {
        if a[0] != b[0] {
            lemma_seq_char_le_antisym(a[0], b[0]);
        }
        lemma_seq_paths_le_antisym(a.drop_first(), b.drop_first());
        assert forall|i: int| 0 <= i < a.len() implies a[i] == b[i] by {
            if i >= 1 {
                assert(a[i] == a.drop_first()[i - 1]);
                assert(b[i] == b.drop_first()[i - 1]);
            }
        }
        assert(a =~= b);
    }
}

proof fn lemma_seq_paths_le_transitive(a: Seq<Seq<char>>, b: Seq<Seq<char>>, c: Seq<Seq<char>>)
    requires
        seq_paths_le(a, b),
        seq_paths_le(b, c),
    ensures
        seq_paths_le(a, c),
    decreases a.len(),
{
    if a.len() > 0 && b.len() > 0 && c.len() > 0 {
        if a[0] == b[0] && b[0] == c[0] {
            lemma_seq_paths_le_transitive(a.drop_first(), b.drop_first(), c.drop_first());
        } else if a[0] != b[0] && b[0] != c[0] && a[0] == c[0] {
            lemma_seq_char_le_antisym(a[0], b[0]);
        } else if a[0] != b[0] && b[0] != c[0] && a[0] != c[0] {
            lemma_seq_char_le_transitive(a[0], b[0], c[0]);
        }
    }
}

/// The path lists' order, decided on values.
fn paths_le_exec(a: &Vec<String>, b: &Vec<String>) -> (r: bool)
    ensures
        r == seq_paths_le(a.deep_view(), b.deep_view()),
{
    let ghost av = a.deep_view();
    let ghost bv = b.deep_view();
    let mut i: usize = 0;
    proof {
        assert(av.skip(0) =~= av);
        assert(bv.skip(0) =~= bv);
    }
    loop
        invariant
            i <= a@.len(),
            i <= b@.len(),
            av == a.deep_view(),
            bv == b.deep_view(),
            av.len() == a@.len(),
            bv.len() == b@.len(),
            seq_paths_le(av, bv) == seq_paths_le(av.skip(i as int), bv.skip(i as int)),
        decreases a@.len() - i,
    {
        if i == a.len() {
            return true;
        }
        if i == b.len() {
            return false;
        }
        proof {
            assert(av.skip(i as int)[0] == av[i as int]);
            assert(bv.skip(i as int)[0] == bv[i as int]);
            assert(av[i as int] == a@[i as int]@);
            assert(bv[i as int] == b@[i as int]@);
        }
        if !vecs_eq_at(a, b, i) {
            return str_le(a[i].as_str(), b[i].as_str());
        }
        proof {
            assert(av.skip(i as int).drop_first() =~= av.skip(i + 1));
            assert(bv.skip(i as int).drop_first() =~= bv.skip(i + 1));
        }
        i = i + 1;
    }
}

/// Whether the `i`-th members of the two lists are the same string.
fn vecs_eq_at(a: &Vec<String>, b: &Vec<String>, i: usize) -> (r: bool)
    requires
        i < a@.len(),
        i < b@.len(),
    ensures
        r == (a.deep_view()[i as int] == b.deep_view()[i as int]),
{
    proof {
        assert(a.deep_view()[i as int] == a@[i as int]@);
        assert(b.deep_view()[i as int] == b@[i as int]@);
    }
    a[i] == b[i]
}

/// Order on groups by declared size, with the fingerprint and then the path
/// list as tie breaks.
pub open spec fn group_size_le(a: GroupV, b: GroupV) -> bool {
    if a.size != b.size {
        a.size < b.size
    } else if a.fp != b.fp {
        a.fp < b.fp
    } else {
        seq_paths_le(a.paths, b.paths)
    }
}

/// The report order of one sort mode: by the extension key where the mode
/// involves the file type, then by declared size, fingerprint and path
/// list. Every tie is broken, so the order is total and the report
/// deterministic.
///
/// Sorting by both file size and file type means applying the size sort
/// first and then a stable sort by the file type, so the combined order is
/// extension-major with the declared size as the tie break inside one
/// extension — "size first" names the order of the two sort passes, not of
/// the keys.
pub open spec fn group_le(sb: SortBy, a: GroupV, b: GroupV) -> bool {
    match sb {
        SortBy::FileSize => group_size_le(a, b),
        SortBy::FileType | SortBy::Both => {
            if spec_group_ext(a) != spec_group_ext(b) {
                seq_char_le(spec_group_ext(a), spec_group_ext(b))
            } else {
                group_size_le(a, b)
            }
        },
    }
}

/// The report order as a relation value.
pub open spec fn group_le_fn(sb: SortBy) -> spec_fn(GroupV, GroupV) -> bool {
    |a: GroupV, b: GroupV| group_le(sb, a, b)
}

pub proof fn lemma_group_le_total_ordering(sb: SortBy)
    ensures
        total_ordering(group_le_fn(sb)),
{
    let r = group_le_fn(sb);
    assert forall|a: GroupV| #[trigger] r(a, a) by {
        lemma_seq_paths_le_connected(a.paths, a.paths);
    }
    assert forall|a: GroupV, b: GroupV| #[trigger] r(a, b) || #[trigger] r(b, a) by {
        lemma_seq_char_le_connected(spec_group_ext(a), spec_group_ext(b));
        lemma_seq_paths_le_connected(a.paths, b.paths);
    }
    assert forall|a: GroupV, b: GroupV| #[trigger] r(a, b) && #[trigger] r(b, a) implies a == b by {
        match sb {
            SortBy::FileSize => {
                if a.size == b.size && a.fp == b.fp {
                    lemma_seq_paths_le_antisym(a.paths, b.paths);
                }
            },
            SortBy::FileType | SortBy::Both => {
                if spec_group_ext(a) != spec_group_ext(b) {
                    lemma_seq_char_le_antisym(spec_group_ext(a), spec_group_ext(b));
                } else if a.size == b.size && a.fp == b.fp {
                    lemma_seq_paths_le_antisym(a.paths, b.paths);
                }
            },
        }
    }
    assert forall|a: GroupV, b: GroupV, c: GroupV| #[trigger] r(a, b) && #[trigger] r(
        b,
        c,
    ) implies r(a, c) by {
        lemma_group_le_trans(sb, a, b, c);
    }
}

proof fn lemma_group_size_le_trans(a: GroupV, b: GroupV, c: GroupV)
    requires
        group_size_le(a, b),
        group_size_le(b, c),
    ensures
        group_size_le(a, c),
{
    if a.size == b.size && b.size == c.size && a.fp == b.fp && b.fp == c.fp {
        lemma_seq_paths_le_transitive(a.paths, b.paths, c.paths);
    }
}

proof fn lemma_group_le_trans(sb: SortBy, a: GroupV, b: GroupV, c: GroupV)
    requires
        group_le(sb, a, b),
        group_le(sb, b, c),
    ensures
        group_le(sb, a, c),
{
    match sb {
        SortBy::FileSize => lemma_group_size_le_trans(a, b, c),
        SortBy::FileType | SortBy::Both => {
            let ea = spec_group_ext(a);
            let eb = spec_group_ext(b);
            let ec = spec_group_ext(c);
            if ea == eb && eb == ec {
                lemma_group_size_le_trans(a, b, c);
            } else if ea != eb && eb != ec && ea == ec {
                lemma_seq_char_le_antisym(ea, eb);
            } else if ea != eb && eb != ec && ea != ec {
                lemma_seq_char_le_transitive(ea, eb, ec);
            }
        },
    }
}

/// The report order, decided on groups.
fn group_le_exec(sb: SortBy, a: &DuplicateGroup, b: &DuplicateGroup) -> (r: bool)
    ensures
        r == group_le(sb, a@, b@),
{
    match sb {
        SortBy::FileSize => group_size_le_exec(a, b),
        SortBy::FileType | SortBy::Both => {
            let ea = group_ext_exec(a);
            let eb = group_ext_exec(b);
            if ea == eb {
                group_size_le_exec(a, b)
            } else {
                str_le(ea.as_str(), eb.as_str())
            }
        },
    }
}

fn group_size_le_exec(a: &DuplicateGroup, b: &DuplicateGroup) -> (r: bool)
    ensures
        r == group_size_le(a@, b@),
{
    if a.size != b.size {
        a.size < b.size
    } else if a.fingerprint != b.fingerprint {
        a.fingerprint < b.fingerprint
    } else {
        paths_le_exec(&a.paths, &b.paths)
    }
}

/// Sorts the groups into the report order of the given mode.
fn sort_groups(v: &mut Vec<DuplicateGroup>, sb: SortBy)
    ensures
        views_of_groups(final(v)@) == views_of_groups(old(v)@).sort_by(group_le_fn(sb)),
{
    proof {
        lemma_group_le_total_ordering(sb);
        broadcast use vstd::seq_lib::group_to_multiset_ensures;
        broadcast use vstd::multiset::group_multiset_axioms;

    }
    let ghost orig = views_of_groups(v@);
    let ghost le = group_le_fn(sb);
    let n = v.len();
    let mut i: usize = 1;
    while i < n
        invariant
            1 <= i,
            i <= n || n == 0,
            n == v@.len(),
            total_ordering(le),
            le == group_le_fn(sb),
            orig == views_of_groups(old(v)@),
            views_of_groups(v@).to_multiset() == orig.to_multiset(),
            i <= n ==> sorted_by(views_of_groups(v@).subrange(0, i as int), le),
        decreases n - i,
    {
        let ghost ov = views_of_groups(v@);
        let ghost x = ov[i as int];
        let mut p: usize = 0;
        while p < i && group_le_exec(sb, &v[p], &v[i])
            invariant
                0 <= p <= i < v@.len(),
                ov == views_of_groups(v@),
                x == ov[i as int],
                forall|q: int| 0 <= q < p ==> le(ov[q], x),
                le == group_le_fn(sb),
            decreases i - p,
        {
            p = p + 1;
        }
        proof {
            if p < i {
                assert(!le(ov[p as int], x));
                lemma_group_le_total_ordering(sb);
                assert(le(x, ov[p as int]));
            }
        }
        let moved = v.remove(i);
        v.insert(p, moved);
        proof {
            let nv = views_of_groups(v@);
            assert(nv =~= ov.remove(i as int).insert(p as int, x)) by {
                assert forall|k: int| 0 <= k < nv.len() implies nv[k] == ov.remove(
                    i as int,
                ).insert(p as int, x)[k] by {}
            }
            broadcast use vstd::seq_lib::group_to_multiset_ensures;
            broadcast use vstd::multiset::group_multiset_axioms;

            assert(ov.contains(x));
            assert(ov.to_multiset().count(x) >= 1);
            assert(nv.to_multiset() =~= ov.to_multiset());
            assert(sorted_by(nv.subrange(0, i + 1), le)) by {
                let pre = nv.subrange(0, i + 1);
                assert forall|k1: int, k2: int| 0 <= k1 < k2 < pre.len() implies #[trigger] le(
                    pre[k1],
                    pre[k2],
                ) by {
                    let sortedpre = ov.subrange(0, i as int);
                    assert(forall|q1: int, q2: int|
                        0 <= q1 < q2 < i ==> #[trigger] le(sortedpre[q1], sortedpre[q2]));
                    assert(forall|q: int| 0 <= q < i ==> sortedpre[q] == ov[q]);
                    if k1 < p && k2 == p {
                        assert(le(ov[k1], x));
                    } else if k1 < p && k2 > p {
                        assert(le(ov[k1], ov[k2 - 1]));
                    } else if k1 == p && k2 > p {
                        if p < i {
                            assert(le(x, ov[p as int]));
                            if k2 - 1 > p {
                                assert(le(ov[p as int], ov[k2 - 1]));
                            }
                        }
                    } else if k1 > p {
                        assert(le(ov[k1 - 1], ov[k2 - 1]));
                    } else {
                        assert(k2 < p);
                        assert(le(ov[k1], ov[k2]));
                    }
                }
            }
        }
        i = i + 1;
    }
    proof {
        let fin = views_of_groups(v@);
        if n == 0 {
            assert(fin =~= orig);
            assert(sorted_by(fin, le));
        } else {
            assert(fin.subrange(0, n as int) =~= fin);
        }
        orig.lemma_sort_by_ensures(le);
        lemma_sorted_unique(fin, orig.sort_by(le), le);
    }
}

/// Whether a bucket is a duplicate group: it holds at least two members.
pub open spec fn dup_pred() -> spec_fn(GroupV) -> bool {
    |g: GroupV| g.paths.len() >= 2
}

/// Keeps the buckets with at least two members, in order.
fn kept_groups(groups: Vec<DuplicateGroup>) -> (r: Vec<DuplicateGroup>)
    ensures
        views_of_groups(r@) == views_of_groups(groups@).filter(dup_pred()),
{
    proof {
        broadcast use Seq::lemma_filter_push;

    }
    let ghost all = views_of_groups(groups@);
    let mut work = groups;
    let mut kept: Vec<DuplicateGroup> = Vec::new();
    let ghost total = all.len();
    proof {
        assert(all.subrange(0, 0) =~= Seq::<GroupV>::empty());
        assert(Seq::<GroupV>::empty().filter(dup_pred()) =~= Seq::<GroupV>::empty()) by {
            reveal(Seq::filter);
        }
        assert(all.skip(0) =~= all);
    }
    while work.len() > 0
        invariant
            work@.len() <= total,
            total == all.len(),
            views_of_groups(work@) =~= all.skip(total - work@.len()),
            views_of_groups(kept@) =~= all.subrange(0, total - work@.len()).filter(dup_pred()),
        decreases work@.len(),
    {
        let ghost i = total - work@.len();
        let ghost pre_vec = work@;
        let ghost pre_kept = views_of_groups(kept@);
        let ghost pre_kept_vec = kept@;
        let g = work.remove(0);
        let ghost gv = g@;
        proof {
            assert(work@ == pre_vec.remove(0));
            assert(gv == views_of_groups(pre_vec)[0]);
            assert(gv == all[i]);
            assert(views_of_groups(work@) =~= all.skip(i + 1)) by {
                assert forall|j: int| 0 <= j < work@.len() implies views_of_groups(work@)[j]
                    == all.skip(i + 1)[j] by {
                    assert(work@[j] == pre_vec[j + 1]);
                    assert(views_of_groups(pre_vec)[j + 1] == all.skip(i)[j + 1]);
                }
            }
            assert(all.subrange(0, i + 1) =~= all.subrange(0, i).push(gv));
        }
        let keep = g.paths.len() >= 2;
        if keep {
            kept.push(g);
            proof {
                assert(kept@ == pre_kept_vec.push(g));
                assert(views_of_groups(kept@) =~= pre_kept.push(gv)) by {
                    assert forall|j: int| 0 <= j < kept@.len() implies views_of_groups(kept@)[j]
                        == pre_kept.push(gv)[j] by {
                        if j < pre_kept_vec.len() {
                            assert(kept@[j] == pre_kept_vec[j]);
                        }
                    }
                }
                assert(dup_pred()(gv)) by {
                    assert(gv.paths.len() == g.paths@.len());
                }
                all.subrange(0, i).lemma_filter_push(gv, dup_pred());
                assert(all.subrange(0, i + 1).filter(dup_pred()) == all.subrange(0, i).push(
                    gv,
                ).filter(dup_pred()));
            }
        } else {
            proof {
                assert(!dup_pred()(gv)) by {
                    assert(gv.paths.len() == g.paths@.len());
                }
                all.subrange(0, i).lemma_filter_push(gv, dup_pred());
                assert(all.subrange(0, i + 1).filter(dup_pred()) == all.subrange(0, i).push(
                    gv,
                ).filter(dup_pred()));
            }
        }
    }
    proof {
        assert(all.subrange(0, total as int) =~= all);
    }
    kept
}

/// Reverses the group order, for the descending report.
fn reverse_groups(groups: Vec<DuplicateGroup>) -> (r: Vec<DuplicateGroup>)
    ensures
        views_of_groups(r@) == views_of_groups(groups@).reverse(),
{
    let ghost all = views_of_groups(groups@);
    let mut work = groups;
    let mut out: Vec<DuplicateGroup> = Vec::new();
    while work.len() > 0
        invariant
            views_of_groups(work@) =~= all.subrange(0, work@.len() as int),
            views_of_groups(out@).len() == all.len() - work@.len(),
            forall|j: int|
                0 <= j < views_of_groups(out@).len() ==> views_of_groups(out@)[j] == all[all.len()
                    - 1 - j],
        decreases work@.len(),
    {
        let ghost pre_work = views_of_groups(work@);
        let ghost pre_out = views_of_groups(out@);
        let g = work.pop().unwrap();
        proof {
            assert(g@ == pre_work[pre_work.len() - 1]);
            assert(g@ == all[work@.len() as int]);
        }
        out.push(g);
        proof {
            assert(views_of_groups(work@) =~= all.subrange(0, work@.len() as int)) by {
                assert forall|j: int| 0 <= j < work@.len() implies views_of_groups(work@)[j]
                    == all.subrange(0, work@.len() as int)[j] by {
                    assert(views_of_groups(work@)[j] == pre_work[j]);
                }
            }
            assert forall|j: int|
                0 <= j < views_of_groups(out@).len() implies views_of_groups(out@)[j] == all[all.len()
                - 1 - j] by {
                if j < pre_out.len() {
                    assert(views_of_groups(out@)[j] == pre_out[j]);
                }
            }
        }
    }
    proof {
        let ov = views_of_groups(out@);
        assert(ov =~= all.reverse());
    }
    out
}

/// The saturation of a total at the largest `u64`.
pub open spec fn sat64(x: int) -> int {
    if x > u64::MAX {
        u64::MAX as int
    } else {
        x
    }
}

/// The duplicate record count of a run: the sum of the member counts over
/// the buckets that hold at least two members.
pub open spec fn spec_duplicate_count(gs: Seq<GroupV>) -> int
    decreases gs.len(),
{
    if gs.len() == 0 {
        0
    } else {
        spec_duplicate_count(gs.drop_last()) + (if gs.last().paths.len() >= 2 {
            gs.last().paths.len() as int
        } else {
            0
        })
    }
}

/// The duplicate bytes of a run: the sum of declared size times member
/// count over the buckets that hold at least two members.
pub open spec fn spec_duplicate_bytes(gs: Seq<GroupV>) -> int
    decreases gs.len(),
{
    if gs.len() == 0 {
        0
    } else {
        spec_duplicate_bytes(gs.drop_last()) + (if gs.last().paths.len() >= 2 {
            gs.last().size * gs.last().paths.len()
        } else {
            0
        })
    }
}

pub proof fn lemma_duplicate_totals_nonneg(gs: Seq<GroupV>)
    ensures
        spec_duplicate_count(gs) >= 0,
        spec_duplicate_bytes(gs) >= 0,
    decreases gs.len(),
{
    if gs.len() > 0 {
        lemma_duplicate_totals_nonneg(gs.drop_last());
        vstd::arithmetic::mul::lemma_mul_nonnegative(
            gs.last().size as int,
            gs.last().paths.len() as int,
        );
    }
}

/// Sums the two totals over the buckets: the duplicate record count and the
/// duplicate bytes, each capped at the largest `u64`.
pub fn duplicate_totals(groups: &Vec<DuplicateGroup>) -> (r: (u64, u64))
    ensures
        r.0 as int == sat64(spec_duplicate_count(views_of_groups(groups@))),
        r.1 as int == sat64(spec_duplicate_bytes(views_of_groups(groups@))),
{
    let ghost all = views_of_groups(groups@);
    let mut count: u64 = 0;
    let mut bytes: u64 = 0;
    let n = groups.len();
    proof {
        assert(all.subrange(0, 0) =~= Seq::<GroupV>::empty());
    }
    let mut i: usize = 0;
    while i < n
        invariant
            0 <= i <= n,
            n == groups@.len(),
            all == views_of_groups(groups@),
            count as int == sat64(spec_duplicate_count(all.subrange(0, i as int))),
            bytes as int == sat64(spec_duplicate_bytes(all.subrange(0, i as int))),
        decreases n - i,
    {
        let ghost pre = all.subrange(0, i as int);
        let ghost cur = all.subrange(0, i + 1);
        proof {
            assert(cur.drop_last() =~= pre);
            assert(cur.last() == all[i as int]);
            lemma_duplicate_totals_nonneg(pre);
        }
        let members = groups[i].paths.len();
        if members >= 2 {
            let members64: u64 = members as u64;
            if count <= u64::MAX - members64 {
                count = count + members64;
            } else {
                count = u64::MAX;
            }
            let size = groups[i].size;
            proof {
                assert(all[i as int].size == size);
                assert(all[i as int].paths.len() == members) by {
                    assert(all[i as int].paths == groups@[i as int].paths.deep_view());
                }
                lemma_mul_upper_bound(
                    size as int,
                    u64::MAX as int,
                    members as int,
                    u64::MAX as int,
                );
                vstd::arithmetic::mul::lemma_mul_nonnegative(size as int, members as int);
            }
            let product: u128 = (size as u128) * (members as u128);
            if product <= (u64::MAX - bytes) as u128 {
                bytes = bytes + (product as u64);
            } else {
                bytes = u64::MAX;
            }
        }
        i = i + 1;
    }
    proof {
        assert(all.subrange(0, n as int) =~= all);
    }
    (count, bytes)
}

/// The numbered records of an ordered list of groups: ordinals from one,
/// each group's member count, declared size and member paths.
pub open spec fn spec_records_of(gs: Seq<GroupV>) -> Seq<RecordV> {
    Seq::new(
        gs.len(),
        |i: int|
            RecordV {
                no: (i + 1) as u64,
                count: gs[i].paths.len() as u64,
                bytes_each: gs[i].size,
                list: gs[i].paths,
            },
    )
}

/// Numbers the ordered groups into report records.
fn build_records(groups: Vec<DuplicateGroup>) -> (r: Vec<PrinterJSONObject>)
    requires
        groups@.len() < u64::MAX,
    ensures
        views_of_records(r@) == spec_records_of(views_of_groups(groups@)),
{
    let ghost all = views_of_groups(groups@);
    let ghost total = all.len();
    let mut work = groups;
    let mut out: Vec<PrinterJSONObject> = Vec::new();
    proof {
        assert(views_of_groups(work@) =~= all.skip(0));
    }
    while work.len() > 0
        invariant
            out@.len() + work@.len() == total,
            total == all.len(),
            total < u64::MAX,
            views_of_groups(work@) =~= all.skip(out@.len() as int),
            views_of_records(out@) =~= spec_records_of(all).subrange(0, out@.len() as int),
        decreases work@.len(),
    {
        let ghost i = out@.len() as int;
        let ghost pre_vec = work@;
        let ghost pre_out = views_of_records(out@);
        let ghost pre_out_vec = out@;
        let g = work.remove(0);
        let ghost gv = g@;
        proof {
            assert(work@ == pre_vec.remove(0));
            assert(gv == views_of_groups(pre_vec)[0]);
            assert(gv == all[i]);
            assert(views_of_groups(work@) =~= all.skip(i + 1)) by {
                assert forall|j: int| 0 <= j < work@.len() implies views_of_groups(work@)[j]
                    == all.skip(i + 1)[j] by {
                    assert(work@[j] == pre_vec[j + 1]);
                    assert(views_of_groups(pre_vec)[j + 1] == all.skip(i)[j + 1]);
                }
            }
        }
        let idx = out.len();
        let count = g.paths.len();
        let record = PrinterJSONObject {
            duplicate_group_no: (idx as u64) + 1,
            duplicate_group_count: count as u64,
            duplicate_group_bytes_each: g.size,
            duplicate_list: g.paths,
        };
        out.push(record);
        proof {
            assert(out@ == pre_out_vec.push(record));
            assert(views_of_records(out@) =~= spec_records_of(all).subrange(0, i + 1)) by {
                assert forall|j: int| 0 <= j < out@.len() implies views_of_records(out@)[j]
                    == spec_records_of(all).subrange(0, i + 1)[j] by {
                    if j < i {
                        assert(out@[j] == pre_out_vec[j]);
                        assert(pre_out[j] == spec_records_of(all).subrange(0, i)[j]);
                    } else {
                        assert(views_of_records(out@)[j] == record@);
                        assert(record@.list == gv.paths);
                        assert(record@.count == gv.paths.len() as u64) by {
                            assert(gv.paths.len() == g.paths@.len());
                        }
                    }
                }
            }
        }
    }
    proof {
        assert(spec_records_of(all).subrange(0, total as int) =~= spec_records_of(all));
    }
    out
}

/// The groups of a report, in their printed order: the kept buckets, sorted
/// by the mode's order, reversed where a descending order applies (the
/// file-type sort has no order concept).
pub open spec fn spec_ordered_groups(gs: Seq<GroupV>, sort: SortOrder) -> Seq<GroupV> {
    let kept = gs.filter(dup_pred());
    let ordered = kept.sort_by(group_le_fn(sort.0));
    let desc = match sort.0 {
        SortBy::FileType => false,
        SortBy::FileSize | SortBy::Both => sort.1 == Option::Some(OrderBy::Desc),
    };
    if desc {
        ordered.reverse()
    } else {
        ordered
    }
}

/// The records a report holds for given buckets and sort configuration.
pub open spec fn spec_report_records(gs: Seq<GroupV>, sort: SortOrder) -> Seq<RecordV> {
    spec_records_of(spec_ordered_groups(gs, sort))
}

/// A finished report: the ordered records, and the two totals of the run.
#[derive(Debug)]
pub struct HuntReport {
    pub records: Vec<PrinterJSONObject>,
    pub duplicates_count: u64,
    pub duplicates_total_size: u64,
}

/// Builds the report of a run: filters the buckets down to duplicate
/// groups, orders and numbers them, and sums the totals over all kept
/// buckets. The record count is the sum of member counts over buckets with
/// at least two members; the byte total weighs each bucket's declared size
/// by its member count; both are capped at the largest `u64`.
pub fn build_report(groups: Vec<DuplicateGroup>, sort: &SortOrder) -> (r: HuntReport)
    requires
        groups@.len() < u64::MAX,
    ensures
        views_of_records(r.records@) == spec_report_records(views_of_groups(groups@), *sort),
        r.duplicates_count as int == sat64(spec_duplicate_count(views_of_groups(groups@))),
        r.duplicates_total_size as int == sat64(spec_duplicate_bytes(views_of_groups(groups@))),
{
    proof {
        broadcast use Seq::lemma_filter_len;

    }
    let ghost all = views_of_groups(groups@);
    let (count, bytes) = duplicate_totals(&groups);
    let kept = kept_groups(groups);
    let mut ordered = kept;
    sort_groups(&mut ordered, sort.0);
    proof {
        lemma_group_le_total_ordering(sort.0);
        all.filter(dup_pred()).lemma_sort_by_ensures(group_le_fn(sort.0));
    }
    let desc: bool = match sort.0 {
        SortBy::FileType => false,
        SortBy::FileSize | SortBy::Both => match &sort.1 {
            Option::Some(o) => match o {
                OrderBy::Desc => true,
                OrderBy::Asc => false,
            },
            Option::None => false,
        },
    };
    let finished = if desc {
        reverse_groups(ordered)
    } else {
        ordered
    };
    proof {
        broadcast use vstd::seq_lib::group_to_multiset_ensures;

        let keptv = all.filter(dup_pred());
        all.lemma_filter_len(dup_pred());
        let sortedv = keptv.sort_by(group_le_fn(sort.0));
        assert(sortedv.len() == keptv.len()) by {
            vstd::seq_lib::to_multiset_len::<GroupV>(sortedv);
            vstd::seq_lib::to_multiset_len::<GroupV>(keptv);
            assert(sortedv.to_multiset() =~= keptv.to_multiset());
        }
        assert(views_of_groups(finished@).len() < u64::MAX);
        assert(finished@.len() == views_of_groups(finished@).len());
    }
    let records = build_records(finished);
    HuntReport { records, duplicates_count: count, duplicates_total_size: bytes }
}

/// All buckets singletons means a zero duplicate record count.
pub proof fn lemma_singleton_groups_zero_count(gs: Seq<GroupV>)
    requires
        forall|k: int| 0 <= k < gs.len() ==> #[trigger] gs[k].paths.len() == 1,
    ensures
        spec_duplicate_count(gs) == 0,
    decreases gs.len(),
{
    if gs.len() > 0 {
        lemma_singleton_groups_zero_count(gs.drop_last());
    }
}

/// The three-file scenario: a delivery of exactly three files, two of them
/// sharing a fingerprint and one declared size, the third apart, reports a
/// duplicate record count of two and twice the shared size in duplicate
/// bytes — whatever order the three were delivered in. With
/// [`crate::group::lemma_three_file_grouping`], the two sharing files form
/// the one bucket with two members and the third stands alone.
pub proof fn lemma_three_file_scenario(
    es: Seq<crate::order::EntryV>,
    a: crate::order::EntryV,
    b: crate::order::EntryV,
    c: crate::order::EntryV,
)
    requires
        es.to_multiset() == seq![a, b, c].to_multiset(),
        a.fp == b.fp,
        a.fp != c.fp,
        a.size == b.size,
    ensures
        spec_duplicate_count(crate::group::spec_sorted_groups(es)) == 2,
        spec_duplicate_bytes(crate::group::spec_sorted_groups(es)) == 2 * a.size,
{
    crate::group::lemma_three_file_grouping(es, a, b, c);
    let gs = crate::group::spec_sorted_groups(es);
    let pair = if a.fp < c.fp {
        gs[0]
    } else {
        gs[1]
    };
    let single = if a.fp < c.fp {
        gs[1]
    } else {
        gs[0]
    };
    assert(gs.drop_last() =~= seq![gs[0]]);
    assert(seq![gs[0]].drop_last() =~= Seq::<GroupV>::empty());
    assert(gs.last() == gs[1]);
    assert(seq![gs[0]].last() == gs[0]);
    assert(single.paths.len() == 1);
    assert(spec_duplicate_count(Seq::<GroupV>::empty()) == 0);
    assert(spec_duplicate_bytes(Seq::<GroupV>::empty()) == 0);
    let term0_count: int = if gs[0].paths.len() >= 2 {
        gs[0].paths.len() as int
    } else {
        0int
    };
    let term1_count: int = if gs[1].paths.len() >= 2 {
        gs[1].paths.len() as int
    } else {
        0int
    };
    let term0_bytes: int = if gs[0].paths.len() >= 2 {
        gs[0].size * gs[0].paths.len()
    } else {
        0int
    };
    let term1_bytes: int = if gs[1].paths.len() >= 2 {
        gs[1].size * gs[1].paths.len()
    } else {
        0int
    };
    assert(spec_duplicate_count(seq![gs[0]]) == 0 + term0_count);
    assert(spec_duplicate_count(gs) == spec_duplicate_count(seq![gs[0]]) + term1_count);
    assert(spec_duplicate_bytes(seq![gs[0]]) == 0 + term0_bytes);
    assert(spec_duplicate_bytes(gs) == spec_duplicate_bytes(seq![gs[0]]) + term1_bytes);
    if a.fp < c.fp {
        assert(term0_count == 2 && term1_count == 0);
        assert(term1_bytes == 0);
        assert(term0_bytes == pair.size * 2);
    } else {
        assert(term1_count == 2 && term0_count == 0);
        assert(term0_bytes == 0);
        assert(term1_bytes == pair.size * 2);
    }
    assert(pair.size * 2 == 2 * a.size);
}

/// A delivery in which no two files share a fingerprint has a zero
/// duplicate record count: every bucket is a singleton and none is
/// reported.
pub proof fn lemma_unique_fingerprints_zero_count(es: Seq<crate::order::EntryV>)
    requires
        forall|i: int, j: int| 0 <= i < j < es.len() ==> es[i].fp != es[j].fp,
    ensures
        spec_duplicate_count(crate::group::spec_sorted_groups(es)) == 0,
{
    crate::group::lemma_distinct_fingerprints_singleton_groups(es);
    lemma_singleton_groups_zero_count(crate::group::spec_sorted_groups(es));
}

} // verus!
