//! Candidate selection during the directory walk. The walk itself lives with
//! the caller, which hands every entry it meets to [`process_entry`] as plain
//! values; this module decides which entries become candidate files and keeps
//! the running lists and the cumulative byte total.

use vstd::prelude::*;

verus! {

/// Filters of one walk: an optional comma-separated extension set, an
/// optional depth bound (used by the walker itself), and at most one size
/// bound.
#[derive(Clone, Debug)]
pub struct WalkConfig {
    pub ext: Option<String>,
    pub max_depth: Option<usize>,
    pub max_file_size: Option<u64>,
    pub min_file_size: Option<u64>,
}

/// A size bound on candidate files, counted in bytes.
#[derive(Clone, Copy, Debug)]
pub enum FileLimitingFactor {
    GreaterThan(usize),
    LessThan(usize),
}

/// The shared state a walk fills: the directories seen, the candidate files
/// kept, and the byte total of the kept files.
#[derive(Clone, Debug)]
pub struct ScanState {
    pub dirs: Vec<String>,
    pub files: Vec<String>,
    pub total_bytes: u64,
}

impl ScanState {
    /// A fresh state with empty lists and a zero byte total.
    pub fn new() -> (r: ScanState)
        ensures
            r.dirs@ == Seq::<String>::empty(),
            r.files@ == Seq::<String>::empty(),
            r.total_bytes == 0,
    {
        ScanState { dirs: Vec::new(), files: Vec::new(), total_bytes: 0 }
    }
}

/// Addition on the byte total, capped at the largest `u64`.
pub open spec fn spec_sat_add64(a: u64, b: u64) -> u64 {
    if a + b > u64::MAX {
        u64::MAX
    } else {
        (a + b) as u64
    }
}

/// The index of the last occurrence of `c` in `s`, or `-1` when `c` does not
/// occur.
pub open spec fn spec_rfind(s: Seq<char>, c: char) -> int
    decreases s.len(),
{
    if s.len() == 0 {
        -1
    } else if s.last() == c {
        s.len() - 1
    } else {
        spec_rfind(s.drop_last(), c)
    }
}

pub proof fn lemma_rfind_props(s: Seq<char>, c: char)
    ensures
        spec_rfind(s, c) >= -1,
        spec_rfind(s, c) >= 0 ==> spec_rfind(s, c) < s.len() && s[spec_rfind(s, c)] == c,
        forall|j: int| spec_rfind(s, c) < j < s.len() ==> s[j] != c,
    decreases s.len(),
{
    if s.len() > 0 && s.last() != c {
        lemma_rfind_props(s.drop_last(), c);
        assert forall|j: int| spec_rfind(s, c) < j < s.len() implies s[j] != c by {
            if j < s.len() - 1 {
                assert(s.drop_last()[j] == s[j]);
            }
        }
    }
}

/// The index of the last occurrence of `c` in `s`.
fn rfind_char(s: &str, c: char) -> (r: Option<usize>)
    ensures
        r is Some ==> r->0 as int == spec_rfind(s@, c),
        r is None ==> spec_rfind(s@, c) == -1,
{
    let n = s.unicode_len();
    let mut i = n;
    while i > 0
        invariant
            i <= n,
            n == s@.len(),
            forall|j: int| i <= j < n ==> s@[j] != c,
        decreases i,
    {
        i = i - 1;
        if s.get_char(i) == c {
            proof {
                lemma_rfind_props(s@, c);
                assert(spec_rfind(s@, c) == i as int) by {
                    if spec_rfind(s@, c) > i as int {
                        assert(s@[spec_rfind(s@, c)] != c);
                    }
                };
            }
            return Some(i);
        }
    }
    proof {
        lemma_rfind_props(s@, c);
        if spec_rfind(s@, c) >= 0 {
            assert(s@[spec_rfind(s@, c)] != c);
        }
    }
    None
}

/// The file name of a path: what follows the last path separator, or the
/// whole path where none occurs.
pub open spec fn spec_file_name(path: Seq<char>) -> Seq<char> {
    path.subrange(spec_rfind(path, '/') + 1, path.len() as int)
}

/// The extension of a path: what follows the last dot of the file name. A
/// file name without a dot, and a hidden file whose only dot is its first
/// character, have no extension.
pub open spec fn spec_extension_of(path: Seq<char>) -> Option<Seq<char>> {
    let name = spec_file_name(path);
    let d = spec_rfind(name, '.');
    if d <= 0 {
        Option::None
    } else {
        Option::Some(name.subrange(d + 1, name.len() as int))
    }
}

/// The extension of a path, or `None` where it has none.
pub fn extension_of(path: &str) -> (r: Option<String>)
    ensures
        match r {
            Option::Some(e) => spec_extension_of(path@) == Option::Some(e@),
            Option::None => spec_extension_of(path@) is None,
        },
{
    let n = path.unicode_len();
    let slash = rfind_char(path, '/');
    proof {
        lemma_rfind_props(path@, '/');
    }
    let start: usize = match slash {
        Option::Some(i) => i + 1,
        Option::None => 0,
    };
    let name = path.substring_char(start, n);
    proof {
        assert(name@ =~= spec_file_name(path@));
    }
    let name_len = name.unicode_len();
    match rfind_char(name, '.') {
        Option::Some(d) => {
            proof {
                lemma_rfind_props(name@, '.');
            }
            if d == 0 {
                None
            } else {
                let e = name.substring_char(d + 1, name_len);
                proof {
                    assert(e@ =~= spec_extension_of(path@)->Some_0);
                }
                Some(e.to_owned())
            }
        },
        Option::None => None,
    }
}

/// Whether `ext` is one of the members of the comma-separated set `filter`,
/// compared case-sensitively.
pub open spec fn spec_filter_matches(filter: Seq<char>, ext: Seq<char>) -> bool
    decreases filter.len(),
{
    let i = spec_find(filter, ',');
    if 0 <= i < filter.len() {
        filter.subrange(0, i) == ext || spec_filter_matches(
            filter.subrange(i + 1, filter.len() as int),
            ext,
        )
    } else {
        filter == ext
    }
}

/// The index of the first occurrence of `c` in `s`, or `-1` when `c` does
/// not occur.
pub open spec fn spec_find(s: Seq<char>, c: char) -> int
    decreases s.len(),
{
    if s.len() == 0 {
        -1
    } else if s[0] == c {
        0
    } else {
        let r = spec_find(s.drop_first(), c);
        if r < 0 {
            -1
        } else {
            r + 1
        }
    }
}

pub proof fn lemma_find_props(s: Seq<char>, c: char)
    ensures
        spec_find(s, c) >= -1,
        spec_find(s, c) >= 0 ==> spec_find(s, c) < s.len() && s[spec_find(s, c)] == c,
        forall|j: int| 0 <= j < spec_find(s, c) ==> s[j] != c,
        spec_find(s, c) == -1 ==> forall|j: int| 0 <= j < s.len() ==> s[j] != c,
    decreases s.len(),
{
    if s.len() > 0 && s[0] != c {
        lemma_find_props(s.drop_first(), c);
        assert forall|j: int| 0 <= j < spec_find(s, c) implies s[j] != c by {
            if j > 0 {
                assert(s.drop_first()[j - 1] == s[j]);
            }
        }
        if spec_find(s, c) == -1 {
            assert forall|j: int| 0 <= j < s.len() implies s[j] != c by {
                if j > 0 {
                    assert(s.drop_first()[j - 1] == s[j]);
                }
            }
        }
    }
}

/// The first occurrence of `c` at or after `from` in `s`.
fn find_char_from(s: &str, from: usize, c: char) -> (r: Option<usize>)
    requires
        from <= s@.len(),
    ensures
        match r {
            Option::Some(i) => from <= i < s@.len() && spec_find(
                s@.subrange(from as int, s@.len() as int),
                c,
            ) == i - from,
            Option::None => spec_find(s@.subrange(from as int, s@.len() as int), c) == -1,
        },
{
    let n = s.unicode_len();
    let mut i = from;
    while i < n
        invariant
            from <= i <= n,
            n == s@.len(),
            forall|j: int| from <= j < i ==> s@[j] != c,
        decreases n - i,
    {
        if s.get_char(i) == c {
            proof {
                let sub = s@.subrange(from as int, s@.len() as int);
                lemma_find_props(sub, c);
                assert(sub[i - from] == s@[i as int]);
                assert(spec_find(sub, c) >= 0) by {
                    if spec_find(sub, c) == -1 {
                        assert(sub[i - from] != c);
                    }
                };
                assert(spec_find(sub, c) == i - from) by {
                    if spec_find(sub, c) < i - from {
                        assert(s@[spec_find(sub, c) + from] == sub[spec_find(sub, c)]);
                    }
                    if spec_find(sub, c) > i - from {
                        assert(sub[i - from] != c);
                    }
                };
            }
            return Some(i);
        }
        i = i + 1;
    }
    proof {
        let sub = s@.subrange(from as int, s@.len() as int);
        lemma_find_props(sub, c);
        if spec_find(sub, c) >= 0 {
            assert(s@[spec_find(sub, c) + from] == sub[spec_find(sub, c)]);
        }
    }
    None
}

/// Whether `ext` equals the segment of `s` between `start` and `end`.
fn segment_equals(s: &str, start: usize, end: usize, ext: &str) -> (r: bool)
    requires
        start <= end <= s@.len(),
    ensures
        r == (s@.subrange(start as int, end as int) == ext@),
{
    let seg_len = end - start;
    let ext_len = ext.unicode_len();
    if seg_len != ext_len {
        proof {
            assert(s@.subrange(start as int, end as int).len() == seg_len);
        }
        return false;
    }
    let mut i: usize = 0;
    while i < seg_len
        invariant
            0 <= i <= seg_len,
            start <= end <= s@.len(),
            seg_len == end - start,
            seg_len == ext@.len(),
            forall|j: int| 0 <= j < i ==> s@[start + j] == ext@[j],
        decreases seg_len - i,
    {
        if s.get_char(start + i) != ext.get_char(i) {
            proof {
                assert(s@.subrange(start as int, end as int)[i as int] == s@[start + i]);
            }
            return false;
        }
        i = i + 1;
    }
    proof {
        assert(s@.subrange(start as int, end as int) =~= ext@);
    }
    true
}

/// Whether `ext` is a member of the comma-separated set `filter`.
pub fn extension_matches(filter: &str, ext: &str) -> (r: bool)
    ensures
        r == spec_filter_matches(filter@, ext@),
{
    let n = filter.unicode_len();
    let mut start: usize = 0;
    proof {
        assert(filter@.subrange(0, n as int) =~= filter@);
    }
    loop
        invariant
            start <= n,
            n == filter@.len(),
            spec_filter_matches(filter@, ext@) == spec_filter_matches(
                filter@.subrange(start as int, n as int),
                ext@,
            ),
        decreases n - start,
    {
        let ghost tail = filter@.subrange(start as int, n as int);
        match find_char_from(filter, start, ',') {
            Option::Some(i) => {
                proof {
                    assert(spec_find(tail, ',') == i - start);
                    lemma_find_props(tail, ',');
                    assert(tail.subrange(0, i - start) =~= filter@.subrange(
                        start as int,
                        i as int,
                    ));
                    assert(tail.subrange(i - start + 1, tail.len() as int) =~= filter@.subrange(
                        i + 1,
                        n as int,
                    ));
                }
                if segment_equals(filter, start, i, ext) {
                    return true;
                }
                start = i + 1;
            },
            Option::None => {
                proof {
                    assert(spec_find(tail, ',') == -1);
                    assert(tail.subrange(0, tail.len() as int) =~= tail);
                }
                return segment_equals(filter, start, n, ext);
            },
        }
    }
}

/// Whether a path passes the extension filter: with no filter every file
/// passes; with one, only a file whose extension is a member of the set.
pub open spec fn spec_ext_passes(path: Seq<char>, filter: Option<Seq<char>>) -> bool {
    match filter {
        Option::None => true,
        Option::Some(f) => match spec_extension_of(path) {
            Option::Some(e) => spec_filter_matches(f, e),
            Option::None => false,
        },
    }
}

/// The extension filter of a walk configuration, as a sequence.
pub open spec fn spec_wc_filter(wc: WalkConfig) -> Option<Seq<char>> {
    match wc.ext {
        Option::Some(f) => Option::Some(f@),
        Option::None => Option::None,
    }
}

/// Takes one file entry into the candidate list when it passes the extension
/// filter, and adds its size to the byte total; an entry that fails the
/// filter leaves the state unchanged.
pub fn file_list_generator(entry: &str, size: u64, wc: &WalkConfig, state: &mut ScanState)
    ensures
        final(state).dirs@ == old(state).dirs@,
        spec_ext_passes(entry@, spec_wc_filter(*wc)) ==> {
            &&& final(state).files@.len() == old(state).files@.len() + 1
            &&& final(state).files@.last()@ == entry@
            &&& final(state).files@.subrange(0, old(state).files@.len() as int) == old(
                state,
            ).files@
            &&& final(state).total_bytes == spec_sat_add64(old(state).total_bytes, size)
        },
        !spec_ext_passes(entry@, spec_wc_filter(*wc)) ==> {
            &&& final(state).files@ == old(state).files@
            &&& final(state).total_bytes == old(state).total_bytes
        },
{
    let passes: bool = match &wc.ext {
        Option::Some(filter) => {
            match extension_of(entry) {
                Option::Some(e) => extension_matches(filter.as_str(), e.as_str()),
                Option::None => false,
            }
        },
        Option::None => true,
    };
    if passes {
        state.files.push(entry.to_owned());
        if state.total_bytes <= u64::MAX - size {
            state.total_bytes = state.total_bytes + size;
        } else {
            state.total_bytes = u64::MAX;
        }
        proof {
            assert(state.files@.subrange(0, old(state).files@.len() as int) =~= old(
                state,
            ).files@);
        }
    }
}

/// Whether a file of `size` bytes passes the size bound of the walk: with a
/// minimum bound only strictly larger files pass, with a maximum bound only
/// strictly smaller ones, and with no bound every file passes.
pub open spec fn spec_size_passes(size: u64, wc: WalkConfig) -> bool {
    match wc.min_file_size {
        Option::Some(x) => size > x,
        Option::None => match wc.max_file_size {
            Option::Some(x) => size < x,
            Option::None => true,
        },
    }
}

/// Takes one walk entry into the state: a directory joins the directory
/// list; a file whose size (read as zero where the metadata could not be
/// read) passes the size bound is offered to [`file_list_generator`]; any
/// other entry leaves the state unchanged.
pub fn process_entry(
    entry: &str,
    is_dir: bool,
    size_read: Option<u64>,
    wc: &WalkConfig,
    state: &mut ScanState,
)
    ensures
        is_dir ==> {
            &&& final(state).dirs@.len() == old(state).dirs@.len() + 1
            &&& final(state).dirs@.last()@ == entry@
            &&& final(state).dirs@.subrange(0, old(state).dirs@.len() as int) == old(state).dirs@
            &&& final(state).files@ == old(state).files@
            &&& final(state).total_bytes == old(state).total_bytes
        },
        !is_dir ==> final(state).dirs@ == old(state).dirs@,
        !is_dir && spec_size_passes(spec_size_or_zero(size_read), *wc) && spec_ext_passes(
            entry@,
            spec_wc_filter(*wc),
        ) ==> {
            &&& final(state).files@.len() == old(state).files@.len() + 1
            &&& final(state).files@.last()@ == entry@
            &&& final(state).files@.subrange(0, old(state).files@.len() as int) == old(
                state,
            ).files@
            &&& final(state).total_bytes == spec_sat_add64(
                old(state).total_bytes,
                spec_size_or_zero(size_read),
            )
        },
        !is_dir && !(spec_size_passes(spec_size_or_zero(size_read), *wc) && spec_ext_passes(
            entry@,
            spec_wc_filter(*wc),
        )) ==> {
            &&& final(state).files@ == old(state).files@
            &&& final(state).total_bytes == old(state).total_bytes
        },
{
    if is_dir {
        state.dirs.push(entry.to_owned());
        proof {
            assert(state.dirs@.subrange(0, old(state).dirs@.len() as int) =~= old(state).dirs@);
        }
    } else {
        let actual_file_size: u64 = match size_read {
            Option::Some(s) => s,
            Option::None => 0,
        };
        let passes_size: bool = match wc.min_file_size {
            Option::Some(x) => actual_file_size > x,
            Option::None => match wc.max_file_size {
                Option::Some(x) => actual_file_size < x,
                Option::None => true,
            },
        };
        if passes_size {
            file_list_generator(entry, actual_file_size, wc, state);
        }
    }
}

/// The size a walk entry contributes: what the metadata read gave, or zero
/// where it failed.
pub open spec fn spec_size_or_zero(size_read: Option<u64>) -> u64 {
    match size_read {
        Option::Some(s) => s,
        Option::None => 0,
    }
}

} // verus!
