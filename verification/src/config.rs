//! Run configuration: the hunt and delete options, the sort/order choices,
//! and their validation. A configuration error is fatal and is reported
//! before any scanning or hashing begins.

use vstd::prelude::*;

verus! {

/// How the duplicate groups of a report are sorted.
#[derive(Clone, Copy, Debug, PartialEq, Eq, Structural)]
pub enum SortBy {
    FileType,
    FileSize,
    Both,
}

/// Whether a sorted report is printed in ascending or descending order.
#[derive(Clone, Copy, Debug, PartialEq, Eq, Structural)]
pub enum OrderBy {
    Asc,
    Desc,
}

/// The style used when the report is written to a file.
#[derive(Clone, Copy, Debug, PartialEq, Eq, Structural)]
pub enum OutputStyle {
    Default,
    JSON,
}

/// The sort mode together with the optional order choice.
#[derive(Clone, Copy, Debug, PartialEq, Eq, Structural)]
pub struct SortOrder(pub SortBy, pub Option<OrderBy>);

/// Options of the hunt phase, as handed in by the command line.
#[derive(Clone, Debug)]
pub struct HunterOptions {
    pub source_dir: String,
    pub max_depth: usize,
    pub no_max_depth: bool,
    pub checksum: bool,
    pub extension: Option<String>,
    pub sort_by: SortBy,
    pub order_by: Option<OrderBy>,
    pub max: Option<String>,
    pub min: Option<String>,
    pub output_style: Option<OutputStyle>,
    pub output_file: Option<String>,
}

/// Options of the delete phase.
#[derive(Clone, Debug)]
pub struct DeleteOptions {
    pub input_file: String,
    pub dry_run: bool,
}

/// The delete subcommand carries no options of its own.
#[derive(Clone, Debug)]
pub struct Delete {}

/// The chosen subcommand.
#[derive(Clone, Debug)]
pub enum Command {
    Hunt(HunterOptions),
    Delete(DeleteOptions),
}

/// The whole command line: a subcommand plus the global options.
#[derive(Clone, Debug)]
pub struct Args {
    pub command: Command,
    pub threads: u8,
    pub verbose: bool,
}

/// A fatal configuration error, found before any work begins.
#[derive(Clone, Copy, Debug, PartialEq, Eq, Structural)]
pub enum ConfigError {
    /// An order was supplied together with the file-type sort, which has no
    /// order concept.
    OrderByNotAllowed,
    /// The file-size sort and the combined sort need an explicit order.
    OrderByRequired,
    /// At most one of the minimum and the maximum size bound may be active.
    MinWithMax,
    /// An output style needs an output file.
    OutputStyleWithoutFile,
    /// An output file needs an output style.
    OutputFileWithoutStyle,
}

/// A sort/order pair is valid when the file-type sort carries no order and
/// the size-involving sorts carry one.
pub open spec fn spec_sort_order_valid(s: SortOrder) -> bool {
    match s.0 {
        SortBy::FileType => s.1 is None,
        SortBy::FileSize => s.1 is Some,
        SortBy::Both => s.1 is Some,
    }
}

/// Checks the sort mode against the order option: sorting by file type
/// rejects an order, sorting by file size (alone or combined with the file
/// type) requires one.
pub fn validate_sort_order(s: &SortOrder) -> (r: Result<(), ConfigError>)
    ensures
        r is Ok <==> spec_sort_order_valid(*s),
        s.0 is FileType && s.1 is Some ==> r == Result::<(), ConfigError>::Err(
            ConfigError::OrderByNotAllowed,
        ),
        !(s.0 is FileType) && s.1 is None ==> r == Result::<(), ConfigError>::Err(
            ConfigError::OrderByRequired,
        ),
{
    match s.0 {
        SortBy::FileType => {
            if s.1.is_some() {
                Err(ConfigError::OrderByNotAllowed)
            } else {
                Ok(())
            }
        },
        SortBy::FileSize | SortBy::Both => {
            if s.1.is_none() {
                Err(ConfigError::OrderByRequired)
            } else {
                Ok(())
            }
        },
    }
}

/// What `parse_size::parse_size` returns for a given string, mapped to
/// `None` where it fails. The result depends on the characters alone.
pub uninterp spec fn parsed_size_of(s: Seq<char>) -> Option<u64>;

/// Whether a character is a decimal digit.
pub open spec fn spec_is_digit(c: char) -> bool {
    48 <= c as u32 <= 57
}

/// The number of decimal digit characters a string holds.
pub open spec fn spec_digit_count(s: Seq<char>) -> int
    decreases s.len(),
{
    if s.len() == 0 {
        0
    } else {
        spec_digit_count(s.drop_last()) + if spec_is_digit(s.last()) {
            1int
        } else {
            0int
        }
    }
}

/// The most digit characters a size option may hold. Nineteen digits spell
/// at most 10^19 - 1, which stays below the largest `u64`, so the parser's
/// digit accumulator can never fill up on such an input.
pub const SIZE_DIGIT_LIMIT: usize = 19;

/// A size string the parser is safe on: one with at most
/// [`SIZE_DIGIT_LIMIT`] digit characters.
pub open spec fn spec_size_string_safe(s: Seq<char>) -> bool {
    spec_digit_count(s) <= SIZE_DIGIT_LIMIT
}

/// Relies on parse_size::parse_size: reads a byte count or a unit-suffixed
/// size such as "150 KiB" as a number of bytes. Once its digit accumulator
/// holds the largest `u64`, that function rounds a following digit of five
/// or more with an unchecked increment, which overflows; inputs with at
/// most nineteen digit characters can never fill the accumulator, so they
/// are the ones admitted here.
#[verifier::external_body]
pub(crate) fn parse_size_string(s: &str) -> (r: Option<u64>)
    requires
        spec_size_string_safe(s@),
    ensures
        r == parsed_size_of(s@),
{
    parse_size::parse_size(s).ok()
}

/// Counts the decimal digit characters of a string.
fn digit_count(s: &str) -> (r: usize)
    ensures
        r as int == spec_digit_count(s@),
{
    let n = s.unicode_len();
    let mut count: usize = 0;
    let mut i: usize = 0;
    proof {
        assert(s@.subrange(0, 0) =~= Seq::<char>::empty());
    }
    while i < n
        invariant
            0 <= i <= n,
            n == s@.len(),
            count <= i,
            count as int == spec_digit_count(s@.subrange(0, i as int)),
        decreases n - i,
    {
        let c = s.get_char(i) as u32;
        proof {
            assert(s@.subrange(0, i + 1).drop_last() =~= s@.subrange(0, i as int));
            assert(s@.subrange(0, i + 1).last() == s@[i as int]);
        }
        if 48 <= c && c <= 57 {
            count = count + 1;
        }
        i = i + 1;
    }
    proof {
        assert(s@.subrange(0, n as int) =~= s@);
    }
    count
}

/// The size a guarded parse gives: what the parser gives for a safe string,
/// and nothing for one with too many digits.
pub open spec fn spec_checked_size(s: Seq<char>) -> Option<u64> {
    if spec_size_string_safe(s) {
        parsed_size_of(s)
    } else {
        Option::None
    }
}

/// Reads a byte count or a unit-suffixed size such as "150 KiB" as a number
/// of bytes. A string that does not parse, or that holds more than
/// [`SIZE_DIGIT_LIMIT`] digit characters, gives no bound; any value up to
/// nineteen digits is accepted.
pub fn parse_size_checked(s: &str) -> (r: Option<u64>)
    ensures
        r == spec_checked_size(s@),
{
    if digit_count(s) <= SIZE_DIGIT_LIMIT {
        parse_size_string(s)
    } else {
        None
    }
}

/// The resolved size bounds of a run. At most one of the two is set.
#[derive(Clone, Copy, Debug)]
pub struct SizeBounds {
    pub min_file_size: Option<u64>,
    pub max_file_size: Option<u64>,
}

/// The bounds that `resolve_size_bounds` hands back for given options:
/// each bound is the guarded parse of its option, or absent where the
/// option is absent.
pub open spec fn spec_resolved_bounds(min: Option<Seq<char>>, max: Option<Seq<char>>) -> SizeBounds {
    SizeBounds {
        min_file_size: match min {
            Option::Some(s) => spec_checked_size(s),
            Option::None => Option::None,
        },
        max_file_size: match max {
            Option::Some(s) => spec_checked_size(s),
            Option::None => Option::None,
        },
    }
}

/// Turns the textual minimum/maximum options into byte bounds. Giving both a
/// minimum and a maximum is a configuration error; a bound that does not
/// parse, or that holds more digit characters than [`SIZE_DIGIT_LIMIT`], is
/// treated as absent.
pub fn resolve_size_bounds(min: &Option<String>, max: &Option<String>) -> (r: Result<
    SizeBounds,
    ConfigError,
>)
    ensures
        min is Some && max is Some <==> r == Result::<SizeBounds, ConfigError>::Err(
            ConfigError::MinWithMax,
        ),
        r is Ok ==> r->Ok_0 == spec_resolved_bounds(
            match *min {
                Option::Some(ref s) => Option::Some(s@),
                Option::None => Option::None,
            },
            match *max {
                Option::Some(ref s) => Option::Some(s@),
                Option::None => Option::None,
            },
        ),
{
    match (min, max) {
        (Option::Some(_), Option::Some(_)) => Err(ConfigError::MinWithMax),
        (Option::Some(mn), Option::None) => Ok(
            SizeBounds { min_file_size: parse_size_checked(mn.as_str()), max_file_size: None },
        ),
        (Option::None, Option::Some(mx)) => Ok(
            SizeBounds { min_file_size: None, max_file_size: parse_size_checked(mx.as_str()) },
        ),
        (Option::None, Option::None) => Ok(
            SizeBounds { min_file_size: None, max_file_size: None },
        ),
    }
}

/// Whether the output style and the output file are paired: both given or
/// both absent.
pub open spec fn spec_output_options_paired(style: Option<OutputStyle>, file: Option<Seq<char>>) -> bool {
    (style is Some) == (file is Some)
}

/// Checks that the output style and the output file come together or not at
/// all.
pub fn validate_output_options(style: &Option<OutputStyle>, file: &Option<String>) -> (r: Result<
    (),
    ConfigError,
>)
    ensures
        r is Ok <==> (style is Some) == (file is Some),
        style is Some && file is None ==> r == Result::<(), ConfigError>::Err(
            ConfigError::OutputStyleWithoutFile,
        ),
        style is None && file is Some ==> r == Result::<(), ConfigError>::Err(
            ConfigError::OutputFileWithoutStyle,
        ),
{
    match (style, file) {
        (Option::Some(_), Option::None) => Err(ConfigError::OutputStyleWithoutFile),
        (Option::None, Option::Some(_)) => Err(ConfigError::OutputFileWithoutStyle),
        _ => Ok(()),
    }
}

/// A console answer without its line ending: one trailing newline removed,
/// then one trailing carriage return.
pub open spec fn spec_trim_newline(s: Seq<char>) -> Seq<char> {
    let a = if s.len() > 0 && s.last() == '\n' {
        s.drop_last()
    } else {
        s
    };
    if a.len() > 0 && a.last() == '\r' {
        a.drop_last()
    } else {
        a
    }
}

/// Strips the line ending a console answer carries, so that "Y" typed on
/// any platform compares equal to "Y".
pub fn trim_newline(s: &str) -> (r: String)
    ensures
        r@ == spec_trim_newline(s@),
{
    let n = s.unicode_len();
    let mut end = n;
    if end > 0 && s.get_char(end - 1) == '\n' {
        end = end - 1;
    }
    if end > 0 && s.get_char(end - 1) == '\r' {
        end = end - 1;
    }
    let trimmed = s.substring_char(0, end);
    proof {
        let a = if s@.len() > 0 && s@.last() == '\n' {
            s@.drop_last()
        } else {
            s@
        };
        assert(trimmed@ =~= spec_trim_newline(s@)) by {
            assert(spec_trim_newline(s@) =~= s@.subrange(0, end as int));
        }
    }
    trimmed.to_owned()
}

impl OrderBy {
    /// The option's name, as the summary prints it.
    pub fn label(&self) -> (r: String)
        ensures
            *self is Asc ==> r@ == "Asc"@,
            *self is Desc ==> r@ == "Desc"@,
    {
        match self {
            OrderBy::Asc => String::from_str("Asc"),
            OrderBy::Desc => String::from_str("Desc"),
        }
    }
}

impl OutputStyle {
    /// The style's name, as the summary prints it.
    pub fn label(&self) -> (r: String)
        ensures
            *self is Default ==> r@ == "Default"@,
            *self is JSON ==> r@ == "JSON"@,
    {
        match self {
            OutputStyle::Default => String::from_str("Default"),
            OutputStyle::JSON => String::from_str("JSON"),
        }
    }
}

} // verus!
