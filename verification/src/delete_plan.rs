//! Planning of the delete phase. A saved report is turned into one plan per
//! record: which members to remove and which single member to retain. The
//! retained member is always the last of the record's list. A record whose
//! declared per-member size is zero is treated specially: removing all but
//! one is not meaningful for empty files, so every member of such a record
//! is planned for removal, the last included. The caller performs the
//! removals (or none, on a dry run) and reports failures; nothing here
//! touches the filesystem.

use vstd::prelude::*;
use crate::report::{PrinterJSONObject, RecordV, views_of_records, sat64};

verus! {

/// The mathematical value of one record's plan.
pub ghost struct GroupPlanV {
    pub group_no: u64,
    pub bytes_each: u64,
    pub delete: Seq<Seq<char>>,
    pub retain: Option<Seq<char>>,
}

/// What the delete phase will do with one record: the members to remove, in
/// the record's order, and the member it retains, if any.
#[derive(Debug, Clone, PartialEq, Eq)]
pub struct GroupPlan {
    pub group_no: u64,
    pub bytes_each: u64,
    pub delete: Vec<String>,
    pub retain: Option<String>,
}

impl View for GroupPlan {
    type V = GroupPlanV;

    open spec fn view(&self) -> GroupPlanV {
        GroupPlanV {
            group_no: self.group_no,
            bytes_each: self.bytes_each,
            delete: self.delete.deep_view(),
            retain: match self.retain {
                Option::Some(ref s) => Option::Some(s@),
                Option::None => Option::None,
            },
        }
    }
}

/// The plan values of a list of plans.
pub open spec fn views_of_plans(s: Seq<GroupPlan>) -> Seq<GroupPlanV> {
    s.map_values(|p: GroupPlan| p@)
}

/// The plan of one record: an empty record plans nothing; a zero-size
/// record plans every member for removal and retains none; any other record
/// plans all but the last member for removal and retains the last.
pub open spec fn spec_plan_of_record(r: RecordV) -> GroupPlanV {
    if r.list.len() == 0 {
        GroupPlanV {
            group_no: r.no,
            bytes_each: r.bytes_each,
            delete: Seq::<Seq<char>>::empty(),
            retain: Option::None,
        }
    } else if r.bytes_each == 0 {
        GroupPlanV {
            group_no: r.no,
            bytes_each: r.bytes_each,
            delete: r.list,
            retain: Option::None,
        }
    } else {
        GroupPlanV {
            group_no: r.no,
            bytes_each: r.bytes_each,
            delete: r.list.drop_last(),
            retain: Option::Some(r.list.last()),
        }
    }
}

/// The plans of a whole report.
pub open spec fn spec_delete_plan(rs: Seq<RecordV>) -> Seq<GroupPlanV> {
    rs.map_values(|r: RecordV| spec_plan_of_record(r))
}

/// Turns a parsed report into the delete phase's plans, one per record, in
/// the report's order.
pub fn delete_plan(records: Vec<PrinterJSONObject>) -> (r: Vec<GroupPlan>)
    ensures
        views_of_plans(r@) == spec_delete_plan(views_of_records(records@)),
{
    let ghost all = views_of_records(records@);
    let ghost total = all.len();
    let mut work = records;
    let mut out: Vec<GroupPlan> = Vec::new();
    proof {
        assert(views_of_records(work@) =~= all.skip(0));
    }
    while work.len() > 0
        invariant
            out@.len() + work@.len() == total,
            total == all.len(),
            views_of_records(work@) =~= all.skip(out@.len() as int),
            views_of_plans(out@) =~= spec_delete_plan(all).subrange(0, out@.len() as int),
        decreases work@.len(),
    {
        let ghost i = out@.len() as int;
        let ghost pre_vec = work@;
        let ghost pre_out_vec = out@;
        let ghost pre_out = views_of_plans(out@);
        let rec = work.remove(0);
        let ghost rv = rec@;
        proof {
            assert(work@ == pre_vec.remove(0));
            assert(rv == views_of_records(pre_vec)[0]);
            assert(rv == all[i]);
            assert(views_of_records(work@) =~= all.skip(i + 1)) by {
                assert forall|j: int| 0 <= j < work@.len() implies views_of_records(work@)[j]
                    == all.skip(i + 1)[j] by {
                    assert(work@[j] == pre_vec[j + 1]);
                    assert(views_of_records(pre_vec)[j + 1] == all.skip(i)[j + 1]);
                }
            }
        }
        let mut list = rec.duplicate_list;
        let ghost list0 = list@;
        let plan: GroupPlan = match list.pop() {
            Option::None => GroupPlan {
                group_no: rec.duplicate_group_no,
                bytes_each: rec.duplicate_group_bytes_each,
                delete: Vec::new(),
                retain: None,
            },
            Option::Some(last) => {
                if rec.duplicate_group_bytes_each == 0 {
                    list.push(last);
                    proof {
                        assert(list@ =~= list0);
                    }
                    GroupPlan {
                        group_no: rec.duplicate_group_no,
                        bytes_each: rec.duplicate_group_bytes_each,
                        delete: list,
                        retain: None,
                    }
                } else {
                    GroupPlan {
                        group_no: rec.duplicate_group_no,
                        bytes_each: rec.duplicate_group_bytes_each,
                        delete: list,
                        retain: Some(last),
                    }
                }
            },
        };
        proof {
            assert(plan@ == spec_plan_of_record(rv)) by {
                if rv.list.len() == 0 {
                    assert(plan.delete.deep_view() =~= Seq::<Seq<char>>::empty());
                } else if rv.bytes_each == 0 {
                    assert(plan.delete.deep_view() =~= rv.list) by {
                        assert forall|j: int| 0 <= j < rv.list.len() implies plan.delete.deep_view()[j]
                            == rv.list[j] by {
                            assert(plan.delete@[j]@ == list0[j]@);
                        }
                    }
                } else {
                    assert(plan.delete.deep_view() =~= rv.list.drop_last()) by {
                        assert forall|j: int|
                            0 <= j < rv.list.len() - 1 implies plan.delete.deep_view()[j]
                            == rv.list.drop_last()[j] by {
                            assert(plan.delete@[j] == list0.drop_last()[j]);
                        }
                    }
                    assert(plan@.retain == Option::Some(rv.list.last()));
                }
            }
        }
        out.push(plan);
        proof {
            assert(out@ == pre_out_vec.push(plan));
            assert(views_of_plans(out@) =~= spec_delete_plan(all).subrange(0, i + 1)) by {
                assert forall|j: int| 0 <= j < out@.len() implies views_of_plans(out@)[j]
                    == spec_delete_plan(all).subrange(0, i + 1)[j] by {
                    if j < i {
                        assert(out@[j] == pre_out_vec[j]);
                        assert(pre_out[j] == spec_delete_plan(all).subrange(0, i)[j]);
                    }
                }
            }
        }
    }
    proof {
        assert(spec_delete_plan(all).subrange(0, total as int) =~= spec_delete_plan(all));
    }
    out
}

/// The byte total the delete summary prints: the sum of each record's
/// declared per-member size, one per record.
pub open spec fn spec_delete_total_bytes(rs: Seq<RecordV>) -> int
    decreases rs.len(),
{
    if rs.len() == 0 {
        0
    } else {
        spec_delete_total_bytes(rs.drop_last()) + rs.last().bytes_each
    }
}

pub proof fn lemma_delete_total_bytes_nonneg(rs: Seq<RecordV>)
    ensures
        spec_delete_total_bytes(rs) >= 0,
    decreases rs.len(),
{
    if rs.len() > 0 {
        lemma_delete_total_bytes_nonneg(rs.drop_last());
    }
}

/// Sums the delete summary of a report: how many groups it holds and the
/// byte total over the records, the latter capped at the largest `u64`.
pub fn delete_totals(records: &Vec<PrinterJSONObject>) -> (r: (u64, u64))
    ensures
        r.0 as int == records@.len(),
        r.1 as int == sat64(spec_delete_total_bytes(views_of_records(records@))),
{
    let ghost all = views_of_records(records@);
    let mut bytes: u64 = 0;
    let n = records.len();
    proof {
        assert(all.subrange(0, 0) =~= Seq::<RecordV>::empty());
    }
    let mut i: usize = 0;
    while i < n
        invariant
            0 <= i <= n,
            n == records@.len(),
            all == views_of_records(records@),
            bytes as int == sat64(spec_delete_total_bytes(all.subrange(0, i as int))),
        decreases n - i,
    {
        let ghost pre = all.subrange(0, i as int);
        let ghost cur = all.subrange(0, i + 1);
        proof {
            assert(cur.drop_last() =~= pre);
            assert(cur.last() == all[i as int]);
            lemma_delete_total_bytes_nonneg(pre);
        }
        let each = records[i].duplicate_group_bytes_each;
        if bytes <= u64::MAX - each {
            bytes = bytes + each;
        } else {
            bytes = u64::MAX;
        }
        i = i + 1;
    }
    proof {
        assert(all.subrange(0, n as int) =~= all);
    }
    (n as u64, bytes)
}

} // verus!
