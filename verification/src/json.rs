//! The JSON report style: rendering a list of report records to text, and
//! parsing that text back. This is the format the hunt phase writes with the
//! JSON output style and the only input the delete phase accepts; parsing
//! and rendering are exact inverses, so a saved report survives the trip to
//! disk and back unchanged.
//!
//! A record renders as an object of four fields, in a fixed order, inside
//! one array:
//! `[{"duplicate_group_no":1,"duplicate_group_count":2,
//! "duplicate_group_bytes_each":100,"duplicate_list":["a","b"]}]`.
//! In member paths the quote and the backslash are escaped with a
//! backslash; every other character stands for itself.

use vstd::prelude::*;
use crate::report::{PrinterJSONObject, RecordV, views_of_records};

verus! {

/// Relies on String::push: appends one character.
#[verifier::external_body]
fn string_push(s: &mut String, c: char)
    ensures
        final(s)@ == old(s)@.push(c),
{
    s.push(c)
}

/// The digit character of one decimal digit.
pub open spec fn spec_digit(d: int) -> char {
    if d == 0 {
        '0'
    } else if d == 1 {
        '1'
    } else if d == 2 {
        '2'
    } else if d == 3 {
        '3'
    } else if d == 4 {
        '4'
    } else if d == 5 {
        '5'
    } else if d == 6 {
        '6'
    } else if d == 7 {
        '7'
    } else if d == 8 {
        '8'
    } else {
        '9'
    }
}

/// The decimal digits of a number, most significant first.
pub open spec fn spec_digits(n: int) -> Seq<char>
    decreases n,
{
    if n < 10 {
        seq![spec_digit(n)]
    } else {
        spec_digits(n / 10).push(spec_digit(n % 10))
    }
}

/// The digit character, computed.
fn digit_char(d: u64) -> (c: char)
    requires
        d < 10,
    ensures
        c == spec_digit(d as int),
{
    if d == 0 {
        '0'
    } else if d == 1 {
        '1'
    } else if d == 2 {
        '2'
    } else if d == 3 {
        '3'
    } else if d == 4 {
        '4'
    } else if d == 5 {
        '5'
    } else if d == 6 {
        '6'
    } else if d == 7 {
        '7'
    } else if d == 8 {
        '8'
    } else {
        '9'
    }
}

/// Appends the decimal digits of a number.
fn render_u64_into(out: &mut String, n: u64)
    ensures
        final(out)@ == old(out)@ + spec_digits(n as int),
    decreases n,
{
    if n < 10 {
        string_push(out, digit_char(n));
        proof {
            assert(old(out)@.push(spec_digit(n as int)) =~= old(out)@ + spec_digits(n as int));
        }
    } else {
        render_u64_into(out, n / 10);
        string_push(out, digit_char(n % 10));
        proof {
            assert((old(out)@ + spec_digits(n as int / 10)).push(spec_digit(n as int % 10)) =~= old(
                out,
            )@ + spec_digits(n as int));
        }
    }
}

/// A path character, as it stands in the rendered text: the quote and the
/// backslash behind a backslash, every other character as itself.
pub open spec fn spec_escape_char(c: char) -> Seq<char> {
    if c == '"' || c == '\\' {
        seq!['\\', c]
    } else {
        seq![c]
    }
}

/// A path's characters, escaped.
pub open spec fn spec_escape(s: Seq<char>) -> Seq<char>
    decreases s.len(),
{
    if s.len() == 0 {
        Seq::<char>::empty()
    } else {
        spec_escape_char(s[0]) + spec_escape(s.drop_first())
    }
}

pub proof fn lemma_escape_append(a: Seq<char>, b: Seq<char>)
    ensures
        spec_escape(a + b) == spec_escape(a) + spec_escape(b),
    decreases a.len(),
{
    if a.len() == 0 {
        assert(a + b =~= b);
        assert(spec_escape(a) + spec_escape(b) =~= spec_escape(b));
    } else {
        assert((a + b).drop_first() =~= a.drop_first() + b);
        lemma_escape_append(a.drop_first(), b);
        assert(spec_escape_char((a + b)[0]) + (spec_escape(a.drop_first()) + spec_escape(b)) =~= (
        spec_escape_char(a[0]) + spec_escape(a.drop_first())) + spec_escape(b));
    }
}

/// A rendered string: the escaped characters between two quotes.
pub open spec fn spec_render_string(s: Seq<char>) -> Seq<char> {
    seq!['"'] + spec_escape(s) + seq!['"']
}

/// Appends a rendered string.
fn render_string_into(out: &mut String, s: &str)
    ensures
        final(out)@ == old(out)@ + spec_render_string(s@),
{
    let n = s.unicode_len();
    string_push(out, '"');
    let mut i: usize = 0;
    proof {
        assert(s@.subrange(0, 0) =~= Seq::<char>::empty());
        assert(out@ =~= old(out)@ + seq!['"'] + spec_escape(s@.subrange(0, 0)));
    }
    while i < n
        invariant
            0 <= i <= n,
            n == s@.len(),
            out@ == old(out)@ + seq!['"'] + spec_escape(s@.subrange(0, i as int)),
        decreases n - i,
    {
        let ghost pre = out@;
        let c = s.get_char(i);
        if c == '"' || c == '\\' {
            string_push(out, '\\');
        }
        string_push(out, c);
        proof {
            let take_i = s@.subrange(0, i as int);
            let take_i1 = s@.subrange(0, i + 1);
            assert(take_i1 =~= take_i + seq![c]);
            lemma_escape_append(take_i, seq![c]);
            assert(spec_escape(seq![c]) =~= spec_escape_char(c)) by {
                assert(seq![c].len() == 1);
                assert(seq![c][0] == c);
                assert(seq![c].drop_first() =~= Seq::<char>::empty());
                assert(spec_escape(Seq::<char>::empty()) == Seq::<char>::empty());
                assert(spec_escape(seq![c]) == spec_escape_char(c) + spec_escape(
                    seq![c].drop_first(),
                ));
                assert(spec_escape_char(c) + Seq::<char>::empty() =~= spec_escape_char(c));
            }
            assert(out@ =~= old(out)@ + seq!['"'] + spec_escape(take_i1));
        }
        i = i + 1;
    }
    string_push(out, '"');
    proof {
        assert(s@.subrange(0, n as int) =~= s@);
        assert(out@ =~= old(out)@ + spec_render_string(s@));
    }
}

/// The tail of a rendered path list: each further member behind a comma.
pub open spec fn spec_render_list_tail(l: Seq<Seq<char>>) -> Seq<char>
    decreases l.len(),
{
    if l.len() == 0 {
        Seq::<char>::empty()
    } else {
        seq![','] + spec_render_string(l[0]) + spec_render_list_tail(l.drop_first())
    }
}

/// A rendered path list: the members between brackets, separated by commas.
pub open spec fn spec_render_list(l: Seq<Seq<char>>) -> Seq<char> {
    if l.len() == 0 {
        seq!['[', ']']
    } else {
        seq!['['] + spec_render_string(l[0]) + spec_render_list_tail(l.drop_first()) + seq![']']
    }
}

/// Appends a rendered path list.
fn render_list_into(out: &mut String, l: &Vec<String>)
    ensures
        final(out)@ == old(out)@ + spec_render_list(l.deep_view()),
{
    let ghost lv = l.deep_view();
    string_push(out, '[');
    if l.len() == 0 {
        string_push(out, ']');
        proof {
            assert(out@ =~= old(out)@ + spec_render_list(lv));
        }
        return ;
    }
    proof {
        assert(lv[0] == l@[0]@);
    }
    render_string_into(out, l[0].as_str());
    let n = l.len();
    let mut i: usize = 1;
    proof {
        assert(spec_render_list_tail(lv.subrange(1, 1)) =~= Seq::<char>::empty()) by {
            assert(lv.subrange(1, 1).len() == 0);
        }
        assert(out@ =~= old(out)@ + seq!['['] + spec_render_string(lv[0])
            + spec_render_list_tail(lv.subrange(1, 1)));
    }
    while i < n
        invariant
            1 <= i <= n,
            n == l@.len(),
            lv == l.deep_view(),
            lv.len() == n,
            out@ == old(out)@ + seq!['['] + spec_render_string(lv[0]) + spec_render_list_tail(
                lv.subrange(1, i as int),
            ),
        decreases n - i,
    {
        let ghost pre = out@;
        string_push(out, ',');
        proof {
            assert(lv[i as int] == l@[i as int]@);
        }
        render_string_into(out, l[i].as_str());
        proof {
            let sub_i = lv.subrange(1, i as int);
            let sub_i1 = lv.subrange(1, i + 1);
            lemma_render_list_tail_snoc(lv, 1, i as int);
            assert(out@ =~= old(out)@ + seq!['['] + spec_render_string(lv[0])
                + spec_render_list_tail(sub_i1));
        }
        i = i + 1;
    }
    string_push(out, ']');
    proof {
        assert(lv.subrange(1, n as int) =~= lv.skip(1));
        assert(out@ =~= old(out)@ + spec_render_list(lv)) by {
            assert(spec_render_list(lv) == seq!['['] + spec_render_string(lv[0])
                + spec_render_list_tail(lv.drop_first()) + seq![']']);
            assert(lv.drop_first() =~= lv.subrange(1, n as int));
        }
    }
}

/// Extending the rendered tail by one member appends a comma and that
/// member.
proof fn lemma_render_list_tail_snoc(l: Seq<Seq<char>>, from: int, to: int)
    requires
        1 <= from <= to < l.len(),
    ensures
        spec_render_list_tail(l.subrange(from, to + 1)) == spec_render_list_tail(
            l.subrange(from, to),
        ) + seq![','] + spec_render_string(l[to]),
    decreases to - from,
{
    let cur = l.subrange(from, to + 1);
    let prev = l.subrange(from, to);
    if from == to {
        assert(prev.len() == 0);
        assert(spec_render_list_tail(cur) == seq![','] + spec_render_string(cur[0])
            + spec_render_list_tail(cur.drop_first()));
        assert(cur[0] == l[to]);
        assert(cur.drop_first() =~= l.subrange(from + 1, to + 1));
        assert(cur.drop_first().len() == 0);
        assert(spec_render_list_tail(cur) =~= spec_render_list_tail(prev) + seq![',']
            + spec_render_string(l[to]));
    } else {
        lemma_render_list_tail_snoc(l, from + 1, to);
        assert(cur[0] == l[from]);
        assert(prev[0] == l[from]);
        assert(cur.drop_first() =~= l.subrange(from + 1, to + 1));
        assert(prev.drop_first() =~= l.subrange(from + 1, to));
        assert(spec_render_list_tail(cur) =~= spec_render_list_tail(prev) + seq![',']
            + spec_render_string(l[to]));
    }
}

/// The four field labels of a record, as they stand in the text.
pub open spec fn lit_no() -> Seq<char> {
    "{\"duplicate_group_no\":"@
}

pub open spec fn lit_count() -> Seq<char> {
    ",\"duplicate_group_count\":"@
}

pub open spec fn lit_bytes() -> Seq<char> {
    ",\"duplicate_group_bytes_each\":"@
}

pub open spec fn lit_list() -> Seq<char> {
    ",\"duplicate_list\":"@
}

/// A rendered record: the four fields in order, inside braces.
pub open spec fn spec_render_record(r: RecordV) -> Seq<char> {
    lit_no() + spec_digits(r.no as int) + lit_count() + spec_digits(r.count as int) + lit_bytes()
        + spec_digits(r.bytes_each as int) + lit_list() + spec_render_list(r.list) + seq!['}']
}

/// Appends a rendered record.
fn render_record_into(out: &mut String, r: &PrinterJSONObject)
    ensures
        final(out)@ == old(out)@ + spec_render_record(r@),
{
    out.append("{\"duplicate_group_no\":");
    render_u64_into(out, r.duplicate_group_no);
    out.append(",\"duplicate_group_count\":");
    render_u64_into(out, r.duplicate_group_count);
    out.append(",\"duplicate_group_bytes_each\":");
    render_u64_into(out, r.duplicate_group_bytes_each);
    out.append(",\"duplicate_list\":");
    render_list_into(out, &r.duplicate_list);
    string_push(out, '}');
    proof {
        assert(out@ =~= old(out)@ + spec_render_record(r@));
    }
}

/// The tail of a rendered report: each further record behind a comma.
pub open spec fn spec_render_report_tail(rs: Seq<RecordV>) -> Seq<char>
    decreases rs.len(),
{
    if rs.len() == 0 {
        Seq::<char>::empty()
    } else {
        seq![','] + spec_render_record(rs[0]) + spec_render_report_tail(rs.drop_first())
    }
}

/// A rendered report: the records between brackets, separated by commas.
pub open spec fn spec_render_report(rs: Seq<RecordV>) -> Seq<char> {
    if rs.len() == 0 {
        seq!['[', ']']
    } else {
        seq!['['] + spec_render_record(rs[0]) + spec_render_report_tail(rs.drop_first())
            + seq![']']
    }
}

/// Extending the rendered report tail by one record appends a comma and
/// that record.
proof fn lemma_render_report_tail_snoc(rs: Seq<RecordV>, from: int, to: int)
    requires
        1 <= from <= to < rs.len(),
    ensures
        spec_render_report_tail(rs.subrange(from, to + 1)) == spec_render_report_tail(
            rs.subrange(from, to),
        ) + seq![','] + spec_render_record(rs[to]),
    decreases to - from,
{
    reveal_with_fuel(spec_render_report_tail, 3);
    let cur = rs.subrange(from, to + 1);
    let prev = rs.subrange(from, to);
    if from == to {
        assert(prev.len() == 0);
        assert(cur[0] == rs[to]);
        assert(cur.drop_first() =~= rs.subrange(from + 1, to + 1));
        assert(cur.drop_first().len() == 0);
        assert(spec_render_report_tail(cur) =~= spec_render_report_tail(prev) + seq![',']
            + spec_render_record(rs[to]));
    } else {
        lemma_render_report_tail_snoc(rs, from + 1, to);
        assert(cur[0] == rs[from]);
        assert(prev[0] == rs[from]);
        assert(cur.drop_first() =~= rs.subrange(from + 1, to + 1));
        assert(prev.drop_first() =~= rs.subrange(from + 1, to));
        assert(spec_render_report_tail(cur) == seq![','] + spec_render_record(cur[0])
            + spec_render_report_tail(cur.drop_first()));
        assert(spec_render_report_tail(prev) == seq![','] + spec_render_record(prev[0])
            + spec_render_report_tail(prev.drop_first()));
        let a = seq![','] + spec_render_record(rs[from]);
        let b = spec_render_report_tail(rs.subrange(from + 1, to));
        let c = seq![','];
        let d = spec_render_record(rs[to]);
        vstd::seq_lib::lemma_concat_associative(a, b + c, d);
        vstd::seq_lib::lemma_concat_associative(a, b, c);
        assert(spec_render_report_tail(cur) == a + (b + c + d));
        assert(spec_render_report_tail(prev) + seq![','] + spec_render_record(rs[to]) == ((a + b)
            + c) + d);
        assert(spec_render_report_tail(cur) == spec_render_report_tail(prev) + seq![',']
            + spec_render_record(rs[to]));
    }
}

/// Renders a whole report in the JSON style.
pub fn render_report(records: &Vec<PrinterJSONObject>) -> (r: String)
    ensures
        r@ == spec_render_report(views_of_records(records@)),
{
    let ghost rv = views_of_records(records@);
    let mut out = String::new();
    string_push(&mut out, '[');
    if records.len() == 0 {
        string_push(&mut out, ']');
        proof {
            assert(out@ =~= spec_render_report(rv));
        }
        return out;
    }
    proof {
        assert(rv[0] == records@[0]@);
    }
    render_record_into(&mut out, &records[0]);
    let n = records.len();
    let mut i: usize = 1;
    proof {
        assert(spec_render_report_tail(rv.subrange(1, 1)) =~= Seq::<char>::empty()) by {
            assert(rv.subrange(1, 1).len() == 0);
        }
        assert(out@ =~= seq!['['] + spec_render_record(rv[0]) + spec_render_report_tail(
            rv.subrange(1, 1),
        ));
    }
    while i < n
        invariant
            1 <= i <= n,
            n == records@.len(),
            rv == views_of_records(records@),
            rv.len() == n,
            out@ == seq!['['] + spec_render_record(rv[0]) + spec_render_report_tail(
                rv.subrange(1, i as int),
            ),
        decreases n - i,
    {
        string_push(&mut out, ',');
        proof {
            assert(rv[i as int] == records@[i as int]@);
        }
        render_record_into(&mut out, &records[i]);
        proof {
            lemma_render_report_tail_snoc(rv, 1, i as int);
            assert(out@ =~= seq!['['] + spec_render_record(rv[0]) + spec_render_report_tail(
                rv.subrange(1, i + 1),
            ));
        }
        i = i + 1;
    }
    string_push(&mut out, ']');
    proof {
        assert(rv.drop_first() =~= rv.subrange(1, n as int));
        assert(out@ =~= spec_render_report(rv));
    }
    out
}

/// Whether a character is a decimal digit.
pub open spec fn is_digit_char(c: char) -> bool {
    48 <= c as u32 <= 57
}

/// The value of a digit character.
pub open spec fn digit_val(c: char) -> int {
    (c as u32) - 48
}

/// The position right after the run of digits that starts at `pos`.
pub open spec fn digits_end(s: Seq<char>, pos: int) -> int
    decreases s.len() - pos,
{
    if 0 <= pos < s.len() && is_digit_char(s[pos]) {
        digits_end(s, pos + 1)
    } else {
        pos
    }
}

/// The number the digits between `pos` and `end` spell.
pub open spec fn digits_value(s: Seq<char>, pos: int, end: int) -> int
    decreases end - pos,
{
    if pos >= end {
        0
    } else {
        digits_value(s, pos, end - 1) * 10 + digit_val(s[end - 1])
    }
}

/// The number parse: reads the digit run at `pos`; it fails where no digit
/// stands or the value does not fit a `u64`.
pub open spec fn sp_parse_u64(s: Seq<char>, pos: int) -> Option<(u64, int)> {
    let e = digits_end(s, pos);
    if e == pos {
        Option::None
    } else if digits_value(s, pos, e) > u64::MAX {
        Option::None
    } else {
        Option::Some((digits_value(s, pos, e) as u64, e))
    }
}

/// The string-body parse, after the opening quote: characters up to the
/// closing quote, undoing the two escapes.
pub open spec fn sp_str_body(s: Seq<char>, pos: int) -> Option<(Seq<char>, int)>
    decreases s.len() - pos,
{
    if pos < 0 || pos >= s.len() {
        Option::None
    } else if s[pos] == '"' {
        Option::Some((Seq::<char>::empty(), pos + 1))
    } else if s[pos] == '\\' {
        if pos + 1 < s.len() && (s[pos + 1] == '"' || s[pos + 1] == '\\') {
            match sp_str_body(s, pos + 2) {
                Option::Some(r) => Option::Some((seq![s[pos + 1]] + r.0, r.1)),
                Option::None => Option::None,
            }
        } else {
            Option::None
        }
    } else {
        match sp_str_body(s, pos + 1) {
            Option::Some(r) => Option::Some((seq![s[pos]] + r.0, r.1)),
            Option::None => Option::None,
        }
    }
}

/// The string parse: an opening quote, then the body.
pub open spec fn sp_parse_string(s: Seq<char>, pos: int) -> Option<(Seq<char>, int)> {
    if 0 <= pos < s.len() && s[pos] == '"' {
        sp_str_body(s, pos + 1)
    } else {
        Option::None
    }
}

pub proof fn lemma_str_body_progress(s: Seq<char>, pos: int)
    ensures
        sp_str_body(s, pos) is Some ==> pos < sp_str_body(s, pos)->Some_0.1 <= s.len(),
    decreases s.len() - pos,
{
    if 0 <= pos < s.len() {
        if s[pos] == '"' {
        } else if s[pos] == '\\' {
            if pos + 1 < s.len() {
                lemma_str_body_progress(s, pos + 2);
            }
        } else {
            lemma_str_body_progress(s, pos + 1);
        }
    }
}

/// The member parse of a non-empty list: one string, then either the
/// closing bracket or a comma and the further members.
pub open spec fn sp_list_items(s: Seq<char>, pos: int) -> Option<(Seq<Seq<char>>, int)>
    decreases s.len() - pos,
{
    match sp_parse_string(s, pos) {
        Option::None => Option::None,
        Option::Some(r) => {
            let e = if r.1 > pos {
                r.1
            } else {
                pos + 1
            };
            if 0 <= e < s.len() && s[e] == ']' {
                Option::Some((seq![r.0], e + 1))
            } else if 0 <= e < s.len() && s[e] == ',' {
                match sp_list_items(s, e + 1) {
                    Option::Some(r2) => Option::Some((seq![r.0] + r2.0, r2.1)),
                    Option::None => Option::None,
                }
            } else {
                Option::None
            }
        },
    }
}

/// The list parse: brackets around comma-separated strings.
pub open spec fn sp_parse_list(s: Seq<char>, pos: int) -> Option<(Seq<Seq<char>>, int)> {
    if 0 <= pos < s.len() && s[pos] == '[' {
        if pos + 1 < s.len() && s[pos + 1] == ']' {
            Option::Some((Seq::<Seq<char>>::empty(), pos + 2))
        } else {
            sp_list_items(s, pos + 1)
        }
    } else {
        Option::None
    }
}

pub proof fn lemma_list_items_progress(s: Seq<char>, pos: int)
    ensures
        sp_list_items(s, pos) is Some ==> pos < sp_list_items(s, pos)->Some_0.1 <= s.len(),
    decreases s.len() - pos,
{
    match sp_parse_string(s, pos) {
        Option::None => {},
        Option::Some(r) => {
            let e = if r.1 > pos {
                r.1
            } else {
                pos + 1
            };
            if 0 <= e < s.len() && s[e] == ',' {
                lemma_list_items_progress(s, e + 1);
            }
        },
    }
}

/// The fixed-text parse: succeeds exactly where the literal stands at
/// `pos`.
pub open spec fn sp_expect(s: Seq<char>, pos: int, lit: Seq<char>) -> Option<int> {
    if 0 <= pos && pos + lit.len() <= s.len() && s.subrange(pos, pos + lit.len()) == lit {
        Option::Some(pos + lit.len() as int)
    } else {
        Option::None
    }
}

/// The record parse: the four labelled fields in their fixed order, inside
/// braces.
pub open spec fn sp_parse_record(s: Seq<char>, pos: int) -> Option<(RecordV, int)> {
    match sp_expect(s, pos, lit_no()) {
        Option::None => Option::None,
        Option::Some(e1) => match sp_parse_u64(s, e1) {
            Option::None => Option::None,
            Option::Some(rno) => match sp_expect(s, rno.1, lit_count()) {
                Option::None => Option::None,
                Option::Some(e3) => match sp_parse_u64(s, e3) {
                    Option::None => Option::None,
                    Option::Some(rcount) => match sp_expect(s, rcount.1, lit_bytes()) {
                        Option::None => Option::None,
                        Option::Some(e5) => match sp_parse_u64(s, e5) {
                            Option::None => Option::None,
                            Option::Some(rbytes) => match sp_expect(s, rbytes.1, lit_list()) {
                                Option::None => Option::None,
                                Option::Some(e7) => match sp_parse_list(s, e7) {
                                    Option::None => Option::None,
                                    Option::Some(rlist) => {
                                        if 0 <= rlist.1 < s.len() && s[rlist.1] == '}' {
                                            Option::Some(
                                                (
                                                    RecordV {
                                                        no: rno.0,
                                                        count: rcount.0,
                                                        bytes_each: rbytes.0,
                                                        list: rlist.0,
                                                    },
                                                    rlist.1 + 1,
                                                ),
                                            )
                                        } else {
                                            Option::None
                                        }
                                    },
                                },
                            },
                        },
                    },
                },
            },
        },
    }
}

/// The member parse of a non-empty report: one record, then either the
/// closing bracket or a comma and the further records.
pub open spec fn sp_records_items(s: Seq<char>, pos: int) -> Option<(Seq<RecordV>, int)>
    decreases s.len() - pos,
{
    match sp_parse_record(s, pos) {
        Option::None => Option::None,
        Option::Some(r) => {
            let e = if r.1 > pos {
                r.1
            } else {
                pos + 1
            };
            if 0 <= e < s.len() && s[e] == ']' {
                Option::Some((seq![r.0], e + 1))
            } else if 0 <= e < s.len() && s[e] == ',' {
                match sp_records_items(s, e + 1) {
                    Option::Some(r2) => Option::Some((seq![r.0] + r2.0, r2.1)),
                    Option::None => Option::None,
                }
            } else {
                Option::None
            }
        },
    }
}

pub proof fn lemma_digits_end_bounds(s: Seq<char>, pos: int)
    requires
        0 <= pos <= s.len(),
    ensures
        pos <= digits_end(s, pos) <= s.len(),
        forall|j: int| pos <= j < digits_end(s, pos) ==> is_digit_char(s[j]),
        digits_end(s, pos) < s.len() ==> !is_digit_char(s[digits_end(s, pos)]),
    decreases s.len() - pos,
{
    if pos < s.len() && is_digit_char(s[pos]) {
        lemma_digits_end_bounds(s, pos + 1);
    }
}

pub proof fn lemma_record_progress(s: Seq<char>, pos: int)
    ensures
        sp_parse_record(s, pos) is Some ==> pos < sp_parse_record(s, pos)->Some_0.1 <= s.len(),
{
    if sp_parse_record(s, pos) is Some {
        let e1 = sp_expect(s, pos, lit_no())->Some_0;
        let rno = sp_parse_u64(s, e1)->Some_0;
        lemma_digits_end_bounds(s, e1);
        let e3 = sp_expect(s, rno.1, lit_count())->Some_0;
        let rcount = sp_parse_u64(s, e3)->Some_0;
        lemma_digits_end_bounds(s, e3);
        let e5 = sp_expect(s, rcount.1, lit_bytes())->Some_0;
        let rbytes = sp_parse_u64(s, e5)->Some_0;
        lemma_digits_end_bounds(s, e5);
        let e7 = sp_expect(s, rbytes.1, lit_list())->Some_0;
        if sp_parse_list(s, e7) is Some {
            let rlist = sp_parse_list(s, e7)->Some_0;
            if !(e7 + 1 < s.len() && s[e7 + 1] == ']') {
                lemma_list_items_progress(s, e7 + 1);
            }
        }
    }
}

/// Labelled knowledge of the four literals: their first characters, and
/// that none of their characters continues a digit run where one ends.
proof fn lemma_lit_facts()
    ensures
        lit_no().len() > 0,
        lit_no()[0] == '{',
        lit_count().len() > 0,
        lit_count()[0] == ',',
        lit_bytes().len() > 0,
        lit_bytes()[0] == ',',
        lit_list().len() > 0,
        lit_list()[0] == ',',
        !is_digit_char(','),
        !is_digit_char('{'),
{
    reveal_strlit("{\"duplicate_group_no\":");
    reveal_strlit(",\"duplicate_group_count\":");
    reveal_strlit(",\"duplicate_group_bytes_each\":");
    reveal_strlit(",\"duplicate_list\":");
}

/// The whole-report parse: an array of records filling the entire text.
/// Anything else, malformed text and trailing characters included, fails.
pub open spec fn spec_parse_report(s: Seq<char>) -> Option<Seq<RecordV>> {
    if s.len() >= 1 && s[0] == '[' {
        if s.len() >= 2 && s[1] == ']' {
            if s.len() == 2 {
                Option::Some(Seq::<RecordV>::empty())
            } else {
                Option::None
            }
        } else {
            match sp_records_items(s, 1) {
                Option::Some(r) => if r.1 == s.len() {
                    Option::Some(r.0)
                } else {
                    Option::None
                },
                Option::None => Option::None,
            }
        }
    } else {
        Option::None
    }
}

/// Reads the number at `pos`.
fn parse_u64_at(s: &str, pos: usize) -> (r: Option<(u64, usize)>)
    requires
        pos <= s@.len(),
    ensures
        match r {
            Option::Some(v) => sp_parse_u64(s@, pos as int) == Option::Some(
                (v.0, v.1 as int),
            ) && pos < v.1 <= s@.len(),
            Option::None => sp_parse_u64(s@, pos as int) is None,
        },
{
    proof {
        lemma_digits_end_bounds(s@, pos as int);
    }
    let n = s.unicode_len();
    let mut end = pos;
    loop
        invariant
            pos <= end <= n,
            n == s@.len(),
            forall|j: int| pos <= j < end ==> is_digit_char(s@[j]),
        ensures
            pos <= end <= n,
            forall|j: int| pos <= j < end ==> is_digit_char(s@[j]),
            end == n || !is_digit_char(s@[end as int]),
        decreases n - end,
    {
        if end == n {
            break ;
        }
        let c = s.get_char(end) as u32;
        if c < 48 || c > 57 {
            break ;
        }
        end = end + 1;
    }
    proof {
        lemma_digits_end_is(s@, pos as int, end as int);
    }
    if end == pos {
        return None;
    }
    let mut acc: u64 = 0;
    let mut over: bool = false;
    let mut i = pos;
    while i < end
        invariant
            pos <= i <= end <= n,
            n == s@.len(),
            forall|j: int| pos <= j < end ==> is_digit_char(s@[j]),
            !over ==> acc as int == digits_value(s@, pos as int, i as int),
            over ==> digits_value(s@, pos as int, i as int) > u64::MAX,
        decreases end - i,
    {
        let c = s.get_char(i) as u32;
        proof {
            assert(is_digit_char(s@[i as int]));
            vstd::utf8::char_is_scalar(s@[i as int]);
        }
        let d: u64 = (c - 48) as u64;
        proof {
            assert(d as int == digit_val(s@[i as int]));
            assert(digits_value(s@, pos as int, i + 1) == digits_value(s@, pos as int, i as int)
                * 10 + d);
        }
        if over {
            proof {
                assert(digits_value(s@, pos as int, i as int) * 10 >= digits_value(
                    s@,
                    pos as int,
                    i as int,
                )) by {
                    lemma_digits_value_nonneg(s@, pos as int, i as int);
                    vstd::arithmetic::mul::lemma_mul_inequality(
                        1,
                        10,
                        digits_value(s@, pos as int, i as int),
                    );
                }
            }
        } else {
            let wide: u128 = (acc as u128) * 10 + (d as u128);
            if wide > u64::MAX as u128 {
                over = true;
            } else {
                acc = wide as u64;
            }
        }
        i = i + 1;
    }
    if over {
        return None;
    }
    Some((acc, end))
}

proof fn lemma_digits_value_nonneg(s: Seq<char>, pos: int, end: int)
    requires
        forall|j: int| pos <= j < end ==> is_digit_char(s[j]),
        0 <= pos,
        end <= s.len(),
    ensures
        digits_value(s, pos, end) >= 0,
    decreases end - pos,
{
    if pos < end {
        lemma_digits_value_nonneg(s, pos, end - 1);
        vstd::arithmetic::mul::lemma_mul_nonnegative(digits_value(s, pos, end - 1), 10);
        assert(digits_value(s, pos, end - 1) * 10 == 10 * digits_value(s, pos, end - 1)) by {
            vstd::arithmetic::mul::lemma_mul_is_commutative(digits_value(s, pos, end - 1), 10);
        }
    }
}

proof fn lemma_digits_end_is(s: Seq<char>, pos: int, k: int)
    requires
        0 <= pos <= k <= s.len(),
        forall|j: int| pos <= j < k ==> is_digit_char(s[j]),
        k < s.len() ==> !is_digit_char(s[k]),
    ensures
        digits_end(s, pos) == k,
    decreases k - pos,
{
    if pos < k {
        lemma_digits_end_is(s, pos + 1, k);
    }
}

/// Reads the string at `pos`, undoing the escapes.
fn parse_string_at(s: &str, pos: usize) -> (r: Option<(String, usize)>)
    requires
        pos <= s@.len(),
    ensures
        match r {
            Option::Some(v) => sp_parse_string(s@, pos as int) == Option::Some(
                (v.0@, v.1 as int),
            ) && pos < v.1 <= s@.len(),
            Option::None => sp_parse_string(s@, pos as int) is None,
        },
{
    let n = s.unicode_len();
    if pos >= n || s.get_char(pos) != '"' {
        return None;
    }
    let mut out = String::new();
    let mut i = pos + 1;
    proof {
        lemma_str_body_progress(s@, pos + 1);
        assert(sp_str_body(s@, pos + 1) == (match sp_str_body(s@, pos + 1) {
            Option::Some(t) => Option::Some((out@ + t.0, t.1)),
            Option::None => Option::<(Seq<char>, int)>::None,
        })) by {
            if sp_str_body(s@, pos + 1) is Some {
                let t = sp_str_body(s@, pos + 1)->Some_0;
                assert(out@ + t.0 =~= t.0);
            }
        }
    }
    loop
        invariant
            pos + 1 <= i <= n,
            n == s@.len(),
            pos < n,
            s@[pos as int] == '"',
            sp_str_body(s@, pos + 1) == (match sp_str_body(s@, i as int) {
                Option::Some(t) => Option::Some((out@ + t.0, t.1)),
                Option::None => Option::<(Seq<char>, int)>::None,
            }),
        decreases n - i,
    {
        if i == n {
            return None;
        }
        let c = s.get_char(i);
        if c == '"' {
            proof {
                assert(sp_str_body(s@, i as int) == Option::Some(
                    (Seq::<char>::empty(), i + 1),
                ));
                assert(out@ + Seq::<char>::empty() =~= out@);
                assert(sp_str_body(s@, pos + 1) == Option::Some((out@, i + 1)));
                assert(sp_parse_string(s@, pos as int) == Option::Some((out@, i + 1)));
            }
            return Some((out, i + 1));
        }
        let ghost pre = out@;
        if c == '\\' {
            if i + 1 < n {
                let c2 = s.get_char(i + 1);
                if c2 == '"' || c2 == '\\' {
                    string_push(&mut out, c2);
                    proof {
                        assert(sp_str_body(s@, pos + 1) == (match sp_str_body(s@, i + 2) {
                            Option::Some(t) => Option::Some((out@ + t.0, t.1)),
                            Option::None => Option::<(Seq<char>, int)>::None,
                        })) by {
                            if sp_str_body(s@, i + 2) is Some {
                                let t = sp_str_body(s@, i + 2)->Some_0;
                                assert(pre + (seq![c2] + t.0) =~= (pre.push(c2)) + t.0);
                            }
                        }
                    }
                    i = i + 2;
                } else {
                    return None;
                }
            } else {
                return None;
            }
        } else {
            string_push(&mut out, c);
            proof {
                assert(sp_str_body(s@, pos + 1) == (match sp_str_body(s@, i + 1) {
                    Option::Some(t) => Option::Some((out@ + t.0, t.1)),
                    Option::None => Option::<(Seq<char>, int)>::None,
                })) by {
                    if sp_str_body(s@, i + 1) is Some {
                        let t = sp_str_body(s@, i + 1)->Some_0;
                        assert(pre + (seq![c] + t.0) =~= (pre.push(c)) + t.0);
                    }
                }
            }
            i = i + 1;
        }
    }
}

/// Checks the fixed text at `pos`.
fn expect_lit(s: &str, pos: usize, lit: &str) -> (r: Option<usize>)
    requires
        pos <= s@.len(),
    ensures
        match r {
            Option::Some(e) => sp_expect(s@, pos as int, lit@) == Option::Some(e as int) && pos
                <= e <= s@.len() && e as int == pos + lit@.len(),
            Option::None => sp_expect(s@, pos as int, lit@) is None,
        },
{
    let n = s.unicode_len();
    let m = lit.unicode_len();
    if m > n - pos {
        return None;
    }
    let mut j: usize = 0;
    while j < m
        invariant
            0 <= j <= m,
            pos + m <= n,
            n == s@.len(),
            m == lit@.len(),
            forall|k: int| 0 <= k < j ==> s@[pos + k] == lit@[k],
        decreases m - j,
    {
        if s.get_char(pos + j) != lit.get_char(j) {
            proof {
                assert(s@.subrange(pos as int, pos + lit@.len()) != lit@) by {
                    assert(s@.subrange(pos as int, pos + lit@.len())[j as int] == s@[pos + j]);
                }
            }
            return None;
        }
        j = j + 1;
    }
    proof {
        assert(s@.subrange(pos as int, pos + lit@.len()) =~= lit@);
    }
    Some(pos + m)
}

/// Reads the path list at `pos`.
fn parse_list_at(s: &str, pos: usize) -> (r: Option<(Vec<String>, usize)>)
    requires
        pos <= s@.len(),
    ensures
        match r {
            Option::Some(v) => sp_parse_list(s@, pos as int) == Option::Some(
                (v.0.deep_view(), v.1 as int),
            ) && pos < v.1 <= s@.len(),
            Option::None => sp_parse_list(s@, pos as int) is None,
        },
{
    let n = s.unicode_len();
    if pos >= n || s.get_char(pos) != '[' {
        return None;
    }
    if pos + 1 < n && s.get_char(pos + 1) == ']' {
        let empty_out: Vec<String> = Vec::new();
        proof {
            assert(empty_out.deep_view() =~= Seq::<Seq<char>>::empty());
        }
        return Some((empty_out, pos + 2));
    }
    let mut out: Vec<String> = Vec::new();
    let mut i = pos + 1;
    proof {
        assert(sp_list_items(s@, pos + 1) == (match sp_list_items(s@, pos + 1) {
            Option::Some(t) => Option::Some((out.deep_view() + t.0, t.1)),
            Option::None => Option::<(Seq<Seq<char>>, int)>::None,
        })) by {
            if sp_list_items(s@, pos + 1) is Some {
                let t = sp_list_items(s@, pos + 1)->Some_0;
                assert(out.deep_view() + t.0 =~= t.0);
            }
        }
    }
    loop
        invariant
            pos + 1 <= i <= n,
            n == s@.len(),
            pos < n,
            s@[pos as int] == '[',
            !(pos + 1 < n && s@[pos + 1] == ']'),
            sp_list_items(s@, pos + 1) == (match sp_list_items(s@, i as int) {
                Option::Some(t) => Option::Some((out.deep_view() + t.0, t.1)),
                Option::None => Option::<(Seq<Seq<char>>, int)>::None,
            }),
        decreases n - i,
    {
        let item = match parse_string_at(s, i) {
            Option::Some(p) => p,
            Option::None => {
                proof {
                    assert(sp_parse_string(s@, i as int) is None);
                    assert(sp_list_items(s@, i as int) is None);
                    assert(sp_list_items(s@, pos + 1) is None);
                    assert(sp_parse_list(s@, pos as int) is None);
                }
                return None;
            },
        };
        let v = item.0;
        let e = item.1;
        let ghost pre_out = out.deep_view();
        let ghost pre_vec = out@;
        if e < n && s.get_char(e) == ']' {
            out.push(v);
            proof {
                lemma_list_items_progress(s@, pos + 1);
                assert(sp_list_items(s@, i as int) == Option::Some(
                    (seq![v@], e + 1),
                ));
                assert(out.deep_view() =~= pre_out.push(v@)) by {
                    assert(out@ == pre_vec.push(v));
                    assert forall|k: int| 0 <= k < out@.len() implies out.deep_view()[k]
                        == pre_out.push(v@)[k] by {
                        if k < pre_vec.len() {
                            assert(out@[k] == pre_vec[k]);
                        }
                    }
                }
                assert(pre_out + seq![v@] =~= pre_out.push(v@));
            }
            return Some((out, e + 1));
        }
        if e < n && s.get_char(e) == ',' {
            out.push(v);
            proof {
                assert(out.deep_view() =~= pre_out.push(v@)) by {
                    assert(out@ == pre_vec.push(v));
                    assert forall|k: int| 0 <= k < out@.len() implies out.deep_view()[k]
                        == pre_out.push(v@)[k] by {
                        if k < pre_vec.len() {
                            assert(out@[k] == pre_vec[k]);
                        }
                    }
                }
                assert(sp_list_items(s@, pos + 1) == (match sp_list_items(s@, e + 1) {
                    Option::Some(t) => Option::Some((out.deep_view() + t.0, t.1)),
                    Option::None => Option::<(Seq<Seq<char>>, int)>::None,
                })) by {
                    if sp_list_items(s@, e + 1) is Some {
                        let t = sp_list_items(s@, e + 1)->Some_0;
                        assert(sp_list_items(s@, i as int) == Option::Some(
                            (seq![v@] + t.0, t.1),
                        ));
                        assert(pre_out + (seq![v@] + t.0) =~= pre_out.push(v@) + t.0);
                    } else {
                        assert(sp_list_items(s@, i as int) is None);
                    }
                }
            }
            i = e + 1;
        } else {
            proof {
                assert(sp_list_items(s@, i as int) is None);
            }
            return None;
        }
    }
}

/// Reads the record at `pos`.
fn parse_record_at(s: &str, pos: usize) -> (r: Option<(PrinterJSONObject, usize)>)
    requires
        pos <= s@.len(),
    ensures
        match r {
            Option::Some(v) => sp_parse_record(s@, pos as int) == Option::Some(
                (v.0@, v.1 as int),
            ) && pos < v.1 <= s@.len(),
            Option::None => sp_parse_record(s@, pos as int) is None,
        },
{
    let e1 = match expect_lit(s, pos, "{\"duplicate_group_no\":") {
        Option::Some(e) => e,
        Option::None => {
            return None;
        },
    };
    let (no, e2) = match parse_u64_at(s, e1) {
        Option::Some(p) => p,
        Option::None => {
            return None;
        },
    };
    let e3 = match expect_lit(s, e2, ",\"duplicate_group_count\":") {
        Option::Some(e) => e,
        Option::None => {
            return None;
        },
    };
    let (count, e4) = match parse_u64_at(s, e3) {
        Option::Some(p) => p,
        Option::None => {
            return None;
        },
    };
    let e5 = match expect_lit(s, e4, ",\"duplicate_group_bytes_each\":") {
        Option::Some(e) => e,
        Option::None => {
            return None;
        },
    };
    let (bytes, e6) = match parse_u64_at(s, e5) {
        Option::Some(p) => p,
        Option::None => {
            return None;
        },
    };
    let e7 = match expect_lit(s, e6, ",\"duplicate_list\":") {
        Option::Some(e) => e,
        Option::None => {
            return None;
        },
    };
    let (list, e8) = match parse_list_at(s, e7) {
        Option::Some(p) => p,
        Option::None => {
            return None;
        },
    };
    let n = s.unicode_len();
    if e8 < n && s.get_char(e8) == '}' {
        let record = PrinterJSONObject {
            duplicate_group_no: no,
            duplicate_group_count: count,
            duplicate_group_bytes_each: bytes,
            duplicate_list: list,
        };
        Some((record, e8 + 1))
    } else {
        None
    }
}

/// Reads a whole report, in the JSON style this module renders. Anything
/// else, malformed text and trailing characters included, gives `None`.
pub fn parse_report(s: &str) -> (r: Option<Vec<PrinterJSONObject>>)
    ensures
        match r {
            Option::Some(v) => spec_parse_report(s@) == Option::Some(views_of_records(v@)),
            Option::None => spec_parse_report(s@) is None,
        },
{
    let n = s.unicode_len();
    if n < 1 || s.get_char(0) != '[' {
        return None;
    }
    if n >= 2 && s.get_char(1) == ']' {
        if n == 2 {
            let empty_out: Vec<PrinterJSONObject> = Vec::new();
            proof {
                assert(views_of_records(empty_out@) =~= Seq::<RecordV>::empty());
            }
            return Some(empty_out);
        } else {
            return None;
        }
    }
    let mut out: Vec<PrinterJSONObject> = Vec::new();
    let mut i: usize = 1;
    proof {
        assert(sp_records_items(s@, 1) == (match sp_records_items(s@, 1) {
            Option::Some(t) => Option::Some((views_of_records(out@) + t.0, t.1)),
            Option::None => Option::<(Seq<RecordV>, int)>::None,
        })) by {
            if sp_records_items(s@, 1) is Some {
                let t = sp_records_items(s@, 1)->Some_0;
                assert(views_of_records(out@) + t.0 =~= t.0);
            }
        }
    }
    loop
        invariant
            1 <= i <= n,
            n == s@.len(),
            1 <= n,
            s@[0] == '[',
            !(2 <= n && s@[1] == ']'),
            sp_records_items(s@, 1) == (match sp_records_items(s@, i as int) {
                Option::Some(t) => Option::Some((views_of_records(out@) + t.0, t.1)),
                Option::None => Option::<(Seq<RecordV>, int)>::None,
            }),
        decreases n - i,
    {
        let item = match parse_record_at(s, i) {
            Option::Some(p) => p,
            Option::None => {
                proof {
                    assert(sp_records_items(s@, i as int) is None);
                    assert(sp_records_items(s@, 1) is None);
                    assert(spec_parse_report(s@) is None);
                }
                return None;
            },
        };
        let rec = item.0;
        let e = item.1;
        let ghost pre_out = views_of_records(out@);
        let ghost pre_vec = out@;
        if e < n && s.get_char(e) == ']' {
            out.push(rec);
            proof {
                assert(sp_records_items(s@, i as int) == Option::Some((seq![rec@], e + 1)));
                assert(views_of_records(out@) =~= pre_out.push(rec@)) by {
                    assert(out@ == pre_vec.push(rec));
                    assert forall|k: int| 0 <= k < out@.len() implies views_of_records(out@)[k]
                        == pre_out.push(rec@)[k] by {
                        if k < pre_vec.len() {
                            assert(out@[k] == pre_vec[k]);
                        }
                    }
                }
                assert(pre_out + seq![rec@] =~= pre_out.push(rec@));
            }
            if e + 1 == n {
                proof {
                    assert(spec_parse_report(s@) == Option::Some(views_of_records(out@)));
                }
                return Some(out);
            } else {
                proof {
                    assert(spec_parse_report(s@) is None);
                }
                return None;
            }
        }
        if e < n && s.get_char(e) == ',' {
            out.push(rec);
            proof {
                assert(views_of_records(out@) =~= pre_out.push(rec@)) by {
                    assert(out@ == pre_vec.push(rec));
                    assert forall|k: int| 0 <= k < out@.len() implies views_of_records(out@)[k]
                        == pre_out.push(rec@)[k] by {
                        if k < pre_vec.len() {
                            assert(out@[k] == pre_vec[k]);
                        }
                    }
                }
                assert(sp_records_items(s@, 1) == (match sp_records_items(s@, e + 1) {
                    Option::Some(t) => Option::Some((views_of_records(out@) + t.0, t.1)),
                    Option::None => Option::<(Seq<RecordV>, int)>::None,
                })) by {
                    if sp_records_items(s@, e + 1) is Some {
                        let t = sp_records_items(s@, e + 1)->Some_0;
                        assert(sp_records_items(s@, i as int) == Option::Some(
                            (seq![rec@] + t.0, t.1),
                        ));
                        assert(pre_out + (seq![rec@] + t.0) =~= pre_out.push(rec@) + t.0);
                    } else {
                        assert(sp_records_items(s@, i as int) is None);
                    }
                }
            }
            i = e + 1;
        } else {
            proof {
                assert(sp_records_items(s@, i as int) is None);
                assert(spec_parse_report(s@) is None);
            }
            return None;
        }
    }
}

/// Splits knowledge of a concatenation at `pos` into knowledge of its two
/// parts.
proof fn lemma_carve(s: Seq<char>, pos: int, a: Seq<char>, b: Seq<char>)
    requires
        0 <= pos,
        pos + a.len() + b.len() <= s.len(),
        s.subrange(pos, pos + a.len() + b.len()) == a + b,
    ensures
        s.subrange(pos, pos + a.len()) == a,
        s.subrange(pos + a.len(), pos + a.len() + b.len()) == b,
{
    assert(s.subrange(pos, pos + a.len()) =~= a) by {
        assert forall|k: int| 0 <= k < a.len() implies s.subrange(pos, pos + a.len())[k]
            == a[k] by {
            assert(s.subrange(pos, pos + a.len() + b.len())[k] == (a + b)[k]);
        }
    }
    assert(s.subrange(pos + a.len(), pos + a.len() + b.len()) =~= b) by {
        assert forall|k: int| 0 <= k < b.len() implies s.subrange(
            pos + a.len(),
            pos + a.len() + b.len(),
        )[k] == b[k] by {
            assert(s.subrange(pos + a.len(), pos + a.len() + b.len())[k] == s[pos + a.len() + k]);
            assert(s.subrange(pos, pos + a.len() + b.len())[a.len() + k] == s[pos + a.len() + k]);
            assert((a + b)[a.len() + k] == b[k]);
        }
    }
}

proof fn lemma_digit_facts(d: int)
    requires
        0 <= d <= 9,
    ensures
        is_digit_char(spec_digit(d)),
        digit_val(spec_digit(d)) == d,
{
}

proof fn lemma_digits_facts(n: int)
    requires
        n >= 0,
    ensures
        spec_digits(n).len() >= 1,
        forall|k: int| 0 <= k < spec_digits(n).len() ==> is_digit_char(#[trigger] spec_digits(n)[k]),
    decreases n,
{
    if n < 10 {
        lemma_digit_facts(n);
    } else {
        lemma_digits_facts(n / 10);
        lemma_digit_facts(n % 10);
        assert forall|k: int| 0 <= k < spec_digits(n).len() implies is_digit_char(
            #[trigger] spec_digits(n)[k],
        ) by {
            if k < spec_digits(n / 10).len() {
                assert(spec_digits(n)[k] == spec_digits(n / 10)[k]);
            } else {
                assert(spec_digits(n)[k] == spec_digit(n % 10));
            }
        }
    }
}

proof fn lemma_digits_value_of(s: Seq<char>, pos: int, n: int)
    requires
        n >= 0,
        0 <= pos,
        pos + spec_digits(n).len() <= s.len(),
        s.subrange(pos, pos + spec_digits(n).len()) == spec_digits(n),
    ensures
        digits_value(s, pos, pos + spec_digits(n).len()) == n,
    decreases n,
{
    let l = spec_digits(n).len() as int;
    if n < 10 {
        assert(l == 1);
        assert(s[pos] == spec_digits(n)[0]) by {
            assert(s.subrange(pos, pos + 1)[0] == s[pos]);
        }
        lemma_digit_facts(n);
        assert(digits_value(s, pos, pos + 1) == digits_value(s, pos, pos) * 10 + digit_val(
            s[pos],
        ));
        assert(digits_value(s, pos, pos) == 0);
        assert(0 * 10 + n == n);
    } else {
        let head = spec_digits(n / 10);
        let hl = head.len() as int;
        assert(l == hl + 1);
        assert(spec_digits(n) =~= head + seq![spec_digit(n % 10)]);
        lemma_carve(s, pos, head, seq![spec_digit(n % 10)]);
        lemma_digits_value_of(s, pos, n / 10);
        assert(s[pos + hl] == spec_digit(n % 10)) by {
            assert(s.subrange(pos + hl, pos + hl + 1)[0] == s[pos + hl]);
        }
        lemma_digit_facts(n % 10);
        assert(digits_value(s, pos, pos + l) == digits_value(s, pos, pos + hl) * 10 + digit_val(
            s[pos + l - 1],
        ));
        assert(n / 10 * 10 + n % 10 == n);
    }
}

proof fn lemma_parse_u64_digits(s: Seq<char>, pos: int, n: u64)
    requires
        0 <= pos,
        pos + spec_digits(n as int).len() <= s.len(),
        s.subrange(pos, pos + spec_digits(n as int).len()) == spec_digits(n as int),
        pos + spec_digits(n as int).len() < s.len() ==> !is_digit_char(
            s[pos + spec_digits(n as int).len()],
        ),
    ensures
        sp_parse_u64(s, pos) == Option::Some((n, pos + spec_digits(n as int).len())),
{
    let l = spec_digits(n as int).len() as int;
    lemma_digits_facts(n as int);
    assert forall|j: int| pos <= j < pos + l implies is_digit_char(s[j]) by {
        assert(s.subrange(pos, pos + l)[j - pos] == s[j]);
        assert(spec_digits(n as int)[j - pos] == s[j]);
    }
    lemma_digits_end_is(s, pos, pos + l);
    lemma_digits_value_of(s, pos, n as int);
}

proof fn lemma_str_body_render(s: Seq<char>, pos: int, v: Seq<char>)
    requires
        0 <= pos,
        pos + spec_escape(v).len() + 1 <= s.len(),
        s.subrange(pos, pos + spec_escape(v).len() + 1) == spec_escape(v) + seq!['"'],
    ensures
        sp_str_body(s, pos) == Option::Some((v, pos + spec_escape(v).len() + 1)),
    decreases v.len(),
{
    let el = spec_escape(v).len() as int;
    if v.len() == 0 {
        assert(s[pos] == '"') by {
            assert(s.subrange(pos, pos + 1)[0] == s[pos]);
            assert((spec_escape(v) + seq!['"'])[0] == '"');
        }
    } else {
        let head = spec_escape_char(v[0]);
        let rest = spec_escape(v.drop_first());
        assert(spec_escape(v) == head + rest);
        assert(spec_escape(v) + seq!['"'] =~= head + (rest + seq!['"']));
        lemma_carve(s, pos, head, rest + seq!['"']);
        let hl = head.len() as int;
        if v[0] == '"' || v[0] == '\\' {
            assert(hl == 2);
            assert(s[pos] == '\\' && s[pos + 1] == v[0]) by {
                assert(s.subrange(pos, pos + 2)[0] == s[pos]);
                assert(s.subrange(pos, pos + 2)[1] == s[pos + 1]);
            }
            lemma_str_body_render(s, pos + 2, v.drop_first());
            assert(sp_str_body(s, pos) == Option::Some(
                (seq![s[pos + 1]] + v.drop_first(), pos + el + 1),
            ));
            assert(seq![v[0]] + v.drop_first() =~= v);
        } else {
            assert(hl == 1);
            assert(s[pos] == v[0]) by {
                assert(s.subrange(pos, pos + 1)[0] == s[pos]);
            }
            lemma_str_body_render(s, pos + 1, v.drop_first());
            assert(sp_str_body(s, pos) == Option::Some(
                (seq![s[pos]] + v.drop_first(), pos + el + 1),
            ));
            assert(seq![v[0]] + v.drop_first() =~= v);
        }
    }
}

proof fn lemma_parse_string_render(s: Seq<char>, pos: int, v: Seq<char>)
    requires
        0 <= pos,
        pos + spec_render_string(v).len() <= s.len(),
        s.subrange(pos, pos + spec_render_string(v).len()) == spec_render_string(v),
    ensures
        sp_parse_string(s, pos) == Option::Some((v, pos + spec_render_string(v).len())),
        spec_render_string(v).len() >= 2,
{
    let rl = spec_render_string(v).len() as int;
    assert(spec_render_string(v) =~= seq!['"'] + (spec_escape(v) + seq!['"']));
    lemma_carve(s, pos, seq!['"'], spec_escape(v) + seq!['"']);
    assert(s[pos] == '"') by {
        assert(s.subrange(pos, pos + 1)[0] == s[pos]);
    }
    lemma_str_body_render(s, pos + 1, v);
}

proof fn lemma_list_items_render(s: Seq<char>, pos: int, l: Seq<Seq<char>>)
    requires
        l.len() >= 1,
        0 <= pos,
        pos + spec_render_string(l[0]).len() + spec_render_list_tail(l.drop_first()).len() + 1
            <= s.len(),
        s.subrange(
            pos,
            pos + spec_render_string(l[0]).len() + spec_render_list_tail(l.drop_first()).len()
                + 1,
        ) == spec_render_string(l[0]) + spec_render_list_tail(l.drop_first()) + seq![']'],
    ensures
        sp_list_items(s, pos) == Option::Some(
            (
                l,
                pos + spec_render_string(l[0]).len() + spec_render_list_tail(
                    l.drop_first(),
                ).len() + 1,
            ),
        ),
    decreases l.len(),
{
    let sl = spec_render_string(l[0]).len() as int;
    let tl = spec_render_list_tail(l.drop_first()).len() as int;
    assert(spec_render_string(l[0]) + spec_render_list_tail(l.drop_first()) + seq![']']
        =~= spec_render_string(l[0]) + (spec_render_list_tail(l.drop_first()) + seq![']']));
    lemma_carve(s, pos, spec_render_string(l[0]), spec_render_list_tail(l.drop_first()) + seq![']']);
    lemma_parse_string_render(s, pos, l[0]);
    let e = pos + sl;
    if l.len() == 1 {
        assert(tl == 0);
        assert(s[e] == ']') by {
            assert(s.subrange(e, e + 1)[0] == s[e]);
            assert((spec_render_list_tail(l.drop_first()) + seq![']'])[0] == ']');
        }
        assert(sp_list_items(s, pos) == Option::Some((seq![l[0]], e + 1)));
        assert(seq![l[0]] =~= l);
    } else {
        let l2 = l.drop_first();
        assert(l2.len() >= 1);
        assert(spec_render_list_tail(l2) == seq![','] + spec_render_string(l2[0])
            + spec_render_list_tail(l2.drop_first()));
        assert(spec_render_list_tail(l2) + seq![']'] =~= seq![','] + (spec_render_string(l2[0])
            + spec_render_list_tail(l2.drop_first()) + seq![']'])) by {
            assert(spec_render_list_tail(l2)[0] == ',');
        }
        lemma_carve(
            s,
            e,
            seq![','],
            spec_render_string(l2[0]) + spec_render_list_tail(l2.drop_first()) + seq![']'],
        );
        assert(s[e] == ',') by {
            assert(s.subrange(e, e + 1)[0] == s[e]);
        }
        lemma_list_items_render(s, e + 1, l2);
        assert(sp_list_items(s, e + 1) == Option::Some((l2, pos + sl + tl + 1)));
        assert(s[e] != ']');
        assert(sp_list_items(s, pos) == Option::Some((seq![l[0]] + l2, pos + sl + tl + 1)));
        assert(seq![l[0]] + l2 =~= l);
    }
}

#[verifier::rlimit(60)]
proof fn lemma_record_render(s: Seq<char>, pos: int, r: RecordV)
    requires
        0 <= pos,
        pos + spec_render_record(r).len() <= s.len(),
        s.subrange(pos, pos + spec_render_record(r).len()) == spec_render_record(r),
    ensures
        sp_parse_record(s, pos) == Option::Some((r, pos + spec_render_record(r).len())),
        spec_render_record(r).len() > 0,
{
    lemma_lit_facts();
    let p1 = lit_no();
    let d1 = spec_digits(r.no as int);
    let p2 = lit_count();
    let d2 = spec_digits(r.count as int);
    let p3 = lit_bytes();
    let d3 = spec_digits(r.bytes_each as int);
    let p4 = lit_list();
    let ll = spec_render_list(r.list);
    let close = seq!['}'];
    let w = spec_render_record(r);
    lemma_digits_facts(r.no as int);
    lemma_digits_facts(r.count as int);
    lemma_digits_facts(r.bytes_each as int);
    let r1 = d1 + p2 + d2 + p3 + d3 + p4 + ll + close;
    assert(w =~= p1 + r1);
    lemma_carve(s, pos, p1, r1);
    let e1 = pos + p1.len() as int;
    assert(sp_expect(s, pos, p1) == Option::Some(e1));
    let r2 = p2 + d2 + p3 + d3 + p4 + ll + close;
    assert(r1 =~= d1 + r2);
    lemma_carve(s, e1, d1, r2);
    let e2 = e1 + d1.len() as int;
    assert(s[e2] == ',') by {
        assert(s.subrange(e2, e2 + r2.len())[0] == s[e2]);
        assert(r2[0] == p2[0]) by {
            assert((p2 + d2)[0] == p2[0]);
        }
    }
    lemma_parse_u64_digits(s, e1, r.no);
    let r3 = d2 + p3 + d3 + p4 + ll + close;
    assert(r2 =~= p2 + r3);
    lemma_carve(s, e2, p2, r3);
    let e3 = e2 + p2.len() as int;
    assert(sp_expect(s, e2, p2) == Option::Some(e3));
    let r4 = p3 + d3 + p4 + ll + close;
    assert(r3 =~= d2 + r4);
    lemma_carve(s, e3, d2, r4);
    let e4 = e3 + d2.len() as int;
    assert(s[e4] == ',') by {
        assert(s.subrange(e4, e4 + r4.len())[0] == s[e4]);
        assert(r4[0] == p3[0]) by {
            assert((p3 + d3)[0] == p3[0]);
        }
    }
    lemma_parse_u64_digits(s, e3, r.count);
    let r5 = d3 + p4 + ll + close;
    assert(r4 =~= p3 + r5);
    lemma_carve(s, e4, p3, r5);
    let e5 = e4 + p3.len() as int;
    assert(sp_expect(s, e4, p3) == Option::Some(e5));
    let r6 = p4 + ll + close;
    assert(r5 =~= d3 + r6);
    lemma_carve(s, e5, d3, r6);
    let e6 = e5 + d3.len() as int;
    assert(s[e6] == ',') by {
        assert(s.subrange(e6, e6 + r6.len())[0] == s[e6]);
        assert(r6[0] == p4[0]) by {
            assert((p4 + ll)[0] == p4[0]);
        }
    }
    lemma_parse_u64_digits(s, e5, r.bytes_each);
    let r7 = ll + close;
    assert(r6 =~= p4 + r7);
    lemma_carve(s, e6, p4, r7);
    let e7 = e6 + p4.len() as int;
    assert(sp_expect(s, e6, p4) == Option::Some(e7));
    assert(r7 =~= ll + close);
    lemma_carve(s, e7, ll, close);
    let e8 = e7 + ll.len() as int;
    lemma_parse_list_render(s, e7, r.list);
    assert(s[e8] == '}') by {
        assert(s.subrange(e8, e8 + 1)[0] == s[e8]);
    }
    assert(sp_parse_record(s, pos) == Option::Some(
        (
            RecordV { no: r.no, count: r.count, bytes_each: r.bytes_each, list: r.list },
            e8 + 1,
        ),
    ));
    assert(RecordV { no: r.no, count: r.count, bytes_each: r.bytes_each, list: r.list } == r);
    assert(e8 + 1 == pos + w.len());
}

proof fn lemma_records_items_render(s: Seq<char>, pos: int, rs: Seq<RecordV>)
    requires
        rs.len() >= 1,
        0 <= pos,
        pos + spec_render_record(rs[0]).len() + spec_render_report_tail(rs.drop_first()).len() + 1
            <= s.len(),
        s.subrange(
            pos,
            pos + spec_render_record(rs[0]).len() + spec_render_report_tail(
                rs.drop_first(),
            ).len() + 1,
        ) == spec_render_record(rs[0]) + spec_render_report_tail(rs.drop_first()) + seq![']'],
    ensures
        sp_records_items(s, pos) == Option::Some(
            (
                rs,
                pos + spec_render_record(rs[0]).len() + spec_render_report_tail(
                    rs.drop_first(),
                ).len() + 1,
            ),
        ),
    decreases rs.len(),
{
    lemma_lit_facts();
    let rl = spec_render_record(rs[0]).len() as int;
    let tl = spec_render_report_tail(rs.drop_first()).len() as int;
    assert(spec_render_record(rs[0]) + spec_render_report_tail(rs.drop_first()) + seq![']']
        =~= spec_render_record(rs[0]) + (spec_render_report_tail(rs.drop_first()) + seq![']']));
    lemma_carve(
        s,
        pos,
        spec_render_record(rs[0]),
        spec_render_report_tail(rs.drop_first()) + seq![']'],
    );
    lemma_record_render(s, pos, rs[0]);
    let e = pos + rl;
    if rs.len() == 1 {
        assert(tl == 0);
        assert(s[e] == ']') by {
            assert(s.subrange(e, e + 1)[0] == s[e]);
            assert((spec_render_report_tail(rs.drop_first()) + seq![']'])[0] == ']');
        }
        assert(sp_records_items(s, pos) == Option::Some((seq![rs[0]], e + 1)));
        assert(seq![rs[0]] =~= rs);
    } else {
        let rs2 = rs.drop_first();
        assert(rs2.len() >= 1);
        assert(spec_render_report_tail(rs2) == seq![','] + spec_render_record(rs2[0])
            + spec_render_report_tail(rs2.drop_first()));
        assert(spec_render_report_tail(rs2) + seq![']'] =~= seq![','] + (spec_render_record(
            rs2[0],
        ) + spec_render_report_tail(rs2.drop_first()) + seq![']'])) by {
            assert(spec_render_report_tail(rs2)[0] == ',');
        }
        lemma_carve(
            s,
            e,
            seq![','],
            spec_render_record(rs2[0]) + spec_render_report_tail(rs2.drop_first()) + seq![']'],
        );
        assert(s[e] == ',') by {
            assert(s.subrange(e, e + 1)[0] == s[e]);
        }
        lemma_records_items_render(s, e + 1, rs2);
        assert(sp_records_items(s, e + 1) == Option::Some((rs2, pos + rl + tl + 1)));
        assert(s[e] != ']');
        assert(sp_records_items(s, pos) == Option::Some((seq![rs[0]] + rs2, pos + rl + tl + 1)));
        assert(seq![rs[0]] + rs2 =~= rs);
    }
}

/// Round trip of the JSON report style: parsing a rendered report gives
/// back exactly the records that were rendered, group counts, sizes and
/// path lists included, in their order.
pub proof fn lemma_report_round_trip(rs: Seq<RecordV>)
    ensures
        spec_parse_report(spec_render_report(rs)) == Option::Some(rs),
{
    lemma_lit_facts();
    let s = spec_render_report(rs);
    if rs.len() == 0 {
        assert(s.len() == 2 && s[0] == '[' && s[1] == ']');
        assert(rs =~= Seq::<RecordV>::empty());
    } else {
        let body = spec_render_record(rs[0]) + spec_render_report_tail(rs.drop_first())
            + seq![']'];
        assert(s =~= seq!['['] + body);
        assert(s.subrange(0, s.len() as int) =~= s);
        lemma_carve(s, 0, seq!['['], body);
        assert(s[0] == '[') by {
            assert(s.subrange(0, 1)[0] == s[0]);
        }
        lemma_records_items_render(s, 1, rs);
        assert(s[1] == '{') by {
            assert(s.subrange(1, 1 + body.len() as int)[0] == s[1]);
            assert(body[0] == spec_render_record(rs[0])[0]) by {
                assert((spec_render_record(rs[0]) + spec_render_report_tail(rs.drop_first()))[0]
                    == spec_render_record(rs[0])[0]);
            }
            assert(spec_render_record(rs[0])[0] == lit_no()[0]) by {
                lemma_digits_facts(rs[0].no as int);
                assert((lit_no() + spec_digits(rs[0].no as int))[0] == lit_no()[0]);
            }
        }
        assert(!(2 <= s.len() && s[1] == ']'));
        assert(sp_records_items(s, 1) == Option::Some((rs, s.len() as int)));
    }
}

proof fn lemma_parse_list_render(s: Seq<char>, pos: int, l: Seq<Seq<char>>)
    requires
        0 <= pos,
        pos + spec_render_list(l).len() <= s.len(),
        s.subrange(pos, pos + spec_render_list(l).len()) == spec_render_list(l),
    ensures
        sp_parse_list(s, pos) == Option::Some((l, pos + spec_render_list(l).len())),
        spec_render_list(l).len() >= 2,
    decreases l.len(),
{
    let rl = spec_render_list(l).len() as int;
    if l.len() == 0 {
        assert(s[pos] == '[' && s[pos + 1] == ']') by {
            assert(s.subrange(pos, pos + 2)[0] == s[pos]);
            assert(s.subrange(pos, pos + 2)[1] == s[pos + 1]);
        }
    } else {
        let body = spec_render_string(l[0]) + spec_render_list_tail(l.drop_first()) + seq![']'];
        assert(spec_render_list(l) =~= seq!['['] + body);
        lemma_carve(s, pos, seq!['['], body);
        assert(s[pos] == '[') by {
            assert(s.subrange(pos, pos + 1)[0] == s[pos]);
        }
        lemma_list_items_render(s, pos + 1, l);
        assert(s[pos + 1] == '"') by {
            assert(s.subrange(pos + 1, pos + 1 + body.len())[0] == s[pos + 1]);
            assert(spec_render_string(l[0])[0] == '"') by {
                assert((seq!['"'] + spec_escape(l[0]))[0] == '"');
            }
            assert(body[0] == spec_render_string(l[0])[0]) by {
                assert((spec_render_string(l[0]) + spec_render_list_tail(l.drop_first()))[0]
                    == spec_render_string(l[0])[0]);
            }
        }
    }
}

} // verus!
