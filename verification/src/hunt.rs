//! The hunt pipeline: fingerprint every delivered file with its strategy,
//! group equal fingerprints into buckets, and build the ordered report with
//! its totals. The caller walks the directories and reads the files; this
//! function turns what was read into the run's result.

use vstd::prelude::*;
use crate::fingerprint::{FileInput, fingerprint_input};
use crate::order::{FingerprintEntry, EntryV, entry_le_fn, lemma_entry_le_total_ordering};
use crate::group::{
    sort_and_group_duplicates,
    views_of_entries,
    views_of_groups,
    spec_sorted_groups,
    lemma_group_scan_len,
};
use crate::config::SortOrder;
use crate::report::{
    HuntReport,
    build_report,
    views_of_records,
    spec_report_records,
    spec_duplicate_count,
    spec_duplicate_bytes,
    sat64,
};

verus! {

/// The entry a file input contributes to grouping: its fingerprint, its
/// path and its declared bucket size.
pub open spec fn spec_entry_of_input(inp: FileInput) -> EntryV {
    EntryV { fp: inp.spec_fingerprint() as u128, path: inp.spec_path(), size: inp.spec_size() }
}

/// The entries of a whole delivery.
pub open spec fn spec_entries_of_inputs(inputs: Seq<FileInput>) -> Seq<EntryV> {
    inputs.map_values(|inp: FileInput| spec_entry_of_input(inp))
}

/// The buckets a delivery produces.
pub open spec fn spec_hunt_groups(inputs: Seq<FileInput>) -> Seq<crate::group::GroupV> {
    spec_sorted_groups(spec_entries_of_inputs(inputs))
}

/// Running the hunt twice over an unchanged tree gives the same grouping:
/// the buckets depend only on which fingerprinted files were delivered,
/// never on the worker count or the interleaving that delivered them.
pub proof fn lemma_hunt_order_invariant(i1: Seq<FileInput>, i2: Seq<FileInput>)
    requires
        spec_entries_of_inputs(i1).to_multiset() == spec_entries_of_inputs(i2).to_multiset(),
    ensures
        spec_hunt_groups(i1) == spec_hunt_groups(i2),
{
    crate::group::lemma_grouping_order_invariant(
        spec_entries_of_inputs(i1),
        spec_entries_of_inputs(i2),
    );
}

/// A delivery in which no two files were given the same fingerprint
/// reports a zero duplicate record count.
pub proof fn lemma_hunt_unique_fingerprints_zero(inputs: Seq<FileInput>)
    requires
        forall|i: int, j: int|
            0 <= i < j < inputs.len() ==> spec_entry_of_input(inputs[i]).fp != spec_entry_of_input(
                inputs[j],
            ).fp,
    ensures
        spec_duplicate_count(spec_hunt_groups(inputs)) == 0,
{
    let es = spec_entries_of_inputs(inputs);
    assert forall|i: int, j: int| 0 <= i < j < es.len() implies es[i].fp != es[j].fp by {
        assert(es[i] == spec_entry_of_input(inputs[i]));
        assert(es[j] == spec_entry_of_input(inputs[j]));
    }
    crate::report::lemma_unique_fingerprints_zero_count(es);
}

/// No file is lost on the way to the buckets: over all buckets of a hunt,
/// singletons included, there stands exactly one member per delivered file.
pub proof fn lemma_hunt_no_file_lost(inputs: Seq<FileInput>)
    ensures
        crate::group::spec_total_members(spec_hunt_groups(inputs)) == inputs.len(),
{
    crate::group::lemma_grouping_no_file_lost(spec_entries_of_inputs(inputs));
}

/// The path of a file input.
fn input_path(inp: &FileInput) -> (r: String)
    ensures
        r@ == inp.spec_path(),
{
    match inp {
        FileInput::Fast { path, .. } => path.clone(),
        FileInput::Checksum { path, .. } => path.clone(),
    }
}

/// The declared bucket size of a file input.
fn input_size(inp: &FileInput) -> (r: u64)
    ensures
        r == inp.spec_size(),
{
    match inp {
        FileInput::Fast { meta, .. } => meta.file_size,
        FileInput::Checksum { size, .. } => *size,
    }
}

/// Runs the hunt over the delivered files: fingerprints each with the
/// strategy its input carries, groups equal fingerprints, and reports the
/// duplicate groups in the order the sort configuration asks for, together
/// with the duplicate record count and the duplicate byte total.
pub fn hunt(inputs: Vec<FileInput>, sort: &SortOrder) -> (r: HuntReport)
    requires
        forall|i: int| 0 <= i < inputs@.len() ==> inputs@[i].wf(),
        inputs@.len() < u64::MAX,
    ensures
        views_of_records(r.records@) == spec_report_records(spec_hunt_groups(inputs@), *sort),
        r.duplicates_count as int == sat64(spec_duplicate_count(spec_hunt_groups(inputs@))),
        r.duplicates_total_size as int == sat64(spec_duplicate_bytes(spec_hunt_groups(inputs@))),
{
    let ghost es = spec_entries_of_inputs(inputs@);
    let mut entries: Vec<FingerprintEntry> = Vec::new();
    let n = inputs.len();
    let mut i: usize = 0;
    while i < n
        invariant
            0 <= i <= n,
            n == inputs@.len(),
            forall|j: int| 0 <= j < inputs@.len() ==> inputs@[j].wf(),
            es == spec_entries_of_inputs(inputs@),
            views_of_entries(entries@) =~= es.subrange(0, i as int),
        decreases n - i,
    {
        let ghost pre = entries@;
        let fingerprint = fingerprint_input(&inputs[i]);
        let path = input_path(&inputs[i]);
        let size = input_size(&inputs[i]);
        let entry = FingerprintEntry { fingerprint, path, size };
        proof {
            assert(entry@ == es[i as int]) by {
                assert(es[i as int] == spec_entry_of_input(inputs@[i as int]));
            }
        }
        entries.push(entry);
        proof {
            assert(entries@ == pre.push(entry));
            assert(views_of_entries(pre).len() == i as int);
            assert(pre.len() == i as int);
            assert(views_of_entries(entries@) =~= es.subrange(0, i + 1)) by {
                assert forall|j: int| 0 <= j < entries@.len() implies views_of_entries(entries@)[j]
                    == es.subrange(0, i + 1)[j] by {
                    if j < i as int {
                        assert(entries@[j] == pre[j]);
                        assert(views_of_entries(pre)[j] == es.subrange(0, i as int)[j]);
                    }
                }
            }
        }
        i = i + 1;
    }
    proof {
        assert(es.subrange(0, n as int) =~= es);
    }
    let groups = sort_and_group_duplicates(entries);
    proof {
        lemma_entry_le_total_ordering();
        es.lemma_sort_by_ensures(entry_le_fn());
        vstd::seq_lib::to_multiset_len::<EntryV>(es);
        vstd::seq_lib::to_multiset_len::<EntryV>(es.sort_by(entry_le_fn()));
        lemma_group_scan_len(es.sort_by(entry_le_fn()));
        assert(views_of_groups(groups@).len() < u64::MAX);
        assert(groups@.len() == views_of_groups(groups@).len());
    }
    build_report(groups, sort)
}

} // verus!
