//! The total orders the engine sorts by: a lexicographic order on character
//! sequences, and the order on fingerprint entries that makes grouping
//! deterministic whatever order the workers delivered their results in.

use vstd::prelude::*;
use vstd::relations::total_ordering;

verus! {

/// Lexicographic order on character sequences, comparing scalar values.
pub open spec fn seq_char_le(a: Seq<char>, b: Seq<char>) -> bool
    decreases a.len(),
{
    if a.len() == 0 {
        true
    } else if b.len() == 0 {
        false
    } else {
        let x = a[0] as u32;
        let y = b[0] as u32;
        if x != y {
            x < y
        } else {
            seq_char_le(a.drop_first(), b.drop_first())
        }
    }
}

pub proof fn lemma_seq_char_le_connected(a: Seq<char>, b: Seq<char>)
    ensures
        seq_char_le(a, b) || seq_char_le(b, a),
    decreases a.len(),
{
    if a.len() > 0 && b.len() > 0 && a[0] as u32 == b[0] as u32 {
        lemma_seq_char_le_connected(a.drop_first(), b.drop_first());
    }
}

pub proof fn lemma_seq_char_le_antisym(a: Seq<char>, b: Seq<char>)
    requires
        seq_char_le(a, b),
        seq_char_le(b, a),
    ensures
        a == b,
    decreases a.len(),
{
    if a.len() == 0 {
        assert(a =~= b);
    } else {
        lemma_seq_char_le_antisym(a.drop_first(), b.drop_first());
        assert(a[0] == b[0]) by {
            vstd::utf8::char_u32_cast(a[0], a[0] as u32);
            vstd::utf8::char_u32_cast(b[0], b[0] as u32);
        }
        assert forall|i: int| 0 <= i < a.len() implies a[i] == b[i] by {
            if i >= 1 {
                assert(a[i] == a.drop_first()[i - 1]);
                assert(b[i] == b.drop_first()[i - 1]);
            }
        }
        assert(a =~= b);
    }
}

pub proof fn lemma_seq_char_le_transitive(a: Seq<char>, b: Seq<char>, c: Seq<char>)
    requires
        seq_char_le(a, b),
        seq_char_le(b, c),
    ensures
        seq_char_le(a, c),
    decreases a.len(),
{
    if a.len() > 0 && b.len() > 0 && c.len() > 0 {
        if a[0] as u32 == b[0] as u32 && b[0] as u32 == c[0] as u32 {
            lemma_seq_char_le_transitive(a.drop_first(), b.drop_first(), c.drop_first());
        }
    }
}

/// The lexicographic order, decided on string slices.
pub fn str_le(a: &str, b: &str) -> (r: bool)
    ensures
        r == seq_char_le(a@, b@),
{
    let a_len = a.unicode_len();
    let b_len = b.unicode_len();
    let mut i: usize = 0;
    proof {
        assert(a@.skip(0) =~= a@);
        assert(b@.skip(0) =~= b@);
    }
    loop
        invariant
            i <= a_len,
            i <= b_len,
            a_len == a@.len(),
            b_len == b@.len(),
            seq_char_le(a@, b@) == seq_char_le(a@.skip(i as int), b@.skip(i as int)),
        decreases a_len - i,
    {
        if i == a_len {
            return true;
        }
        if i == b_len {
            return false;
        }
        let x = a.get_char(i) as u32;
        let y = b.get_char(i) as u32;
        if x < y {
            return true;
        }
        if y < x {
            return false;
        }
        proof {
            assert(a@.skip(i as int).drop_first() =~= a@.skip(i + 1));
            assert(b@.skip(i as int).drop_first() =~= b@.skip(i + 1));
        }
        i = i + 1;
    }
}

/// The mathematical value of one fingerprinted file: its fingerprint, its
/// path and its declared size.
pub ghost struct EntryV {
    pub fp: u128,
    pub path: Seq<char>,
    pub size: u64,
}

/// One fingerprinted file, as the grouping step takes it.
#[derive(Debug, Clone)]
pub struct FingerprintEntry {
    pub fingerprint: u128,
    pub path: String,
    pub size: u64,
}

impl View for FingerprintEntry {
    type V = EntryV;

    open spec fn view(&self) -> EntryV {
        EntryV { fp: self.fingerprint, path: self.path@, size: self.size }
    }
}

/// The total order on entries: by fingerprint, then by path, then by size.
/// Sorting by it gives one canonical sequence for every multiset of entries.
pub open spec fn entry_le(a: EntryV, b: EntryV) -> bool {
    if a.fp != b.fp {
        a.fp < b.fp
    } else if a.path != b.path {
        seq_char_le(a.path, b.path)
    } else {
        a.size <= b.size
    }
}

/// The entry order as a relation value, as the sorting specifications take
/// it.
pub open spec fn entry_le_fn() -> spec_fn(EntryV, EntryV) -> bool {
    |a: EntryV, b: EntryV| entry_le(a, b)
}

pub proof fn lemma_entry_le_total_ordering()
    ensures
        total_ordering(entry_le_fn()),
{
    let r = entry_le_fn();
    assert forall|a: EntryV, b: EntryV| #[trigger] r(a, b) || #[trigger] r(b, a) by {
        if a.fp == b.fp && a.path != b.path {
            lemma_seq_char_le_connected(a.path, b.path);
        }
    }
    assert forall|a: EntryV, b: EntryV| #[trigger] r(a, b) && #[trigger] r(b, a) implies a == b by {
        if a.fp == b.fp {
            if a.path != b.path {
                lemma_seq_char_le_antisym(a.path, b.path);
            }
        }
    }
    assert forall|a: EntryV, b: EntryV, c: EntryV| #[trigger] r(a, b) && #[trigger] r(
        b,
        c,
    ) implies r(a, c) by {
        if a.fp == b.fp && b.fp == c.fp {
            if a.path != b.path && b.path != c.path && a.path != c.path {
                lemma_seq_char_le_transitive(a.path, b.path, c.path);
            }
            if a.path != b.path && b.path != c.path && a.path == c.path {
                lemma_seq_char_le_antisym(a.path, b.path);
            }
        }
    }
}

/// The entry order, decided on entry values.
pub fn entry_le_exec(a: &FingerprintEntry, b: &FingerprintEntry) -> (r: bool)
    ensures
        r == entry_le(a@, b@),
{
    if a.fingerprint < b.fingerprint {
        true
    } else if b.fingerprint < a.fingerprint {
        false
    } else if a.path == b.path {
        a.size <= b.size
    } else {
        str_le(a.path.as_str(), b.path.as_str())
    }
}

} // verus!
