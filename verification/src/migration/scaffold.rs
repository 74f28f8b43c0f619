//! Names for new migrations.
//!
//! A migration is named `_<timecode>_<name>`, where the timecode is the
//! moment of its creation in UTC, written `YYMMDDHHMMSS`. The timecode, read
//! as a number, serves as the migration's version. Its source file is named
//! after it.

use vstd::prelude::*;
use vstd::string::StringExecFns;

verus! {

/// One of the ten decimal digits.
pub open spec fn is_digit(c: char) -> bool {
    '0' <= c && c <= '9'
}

/// A timecode: twelve decimal digits, two each for the year within its
/// century, the month, the day, the hour, the minute and the second.
pub open spec fn is_timecode(timecode: Seq<char>) -> bool {
    &&& timecode.len() == 12
    &&& forall|i: int| 0 <= i < timecode.len() ==> is_digit(#[trigger] timecode[i])
}

/// The pattern by which a moment is written as a timecode: year within the
/// century, month, day, hour, minute and second, two digits each.
pub open spec fn timecode_pattern() -> Seq<char> {
    "%y%m%d%H%M%S"@
}

/// The current moment in UTC, written by the timecode pattern.
///
/// Calls `time::now_utc` and formats what it returns with `Tm::strftime` and
/// `pattern`. The pattern holds only specifiers that `strftime` knows, and a
/// time that `now_utc` made has a valid month and day of the week, so
/// `strftime` does not refuse.
///
/// Which moment comes back depends on the clock, and nothing is claimed of
/// it. What is claimed is the shape: for this pattern `strftime` writes each
/// of the six fields as a number padded with zeros to two digits, the year
/// as its remainder by 100, so that the result is twelve digits for every
/// moment from the year 0 on. System clocks count from 1970 or 1601 and read
/// no earlier moment.
#[verifier::external_body]
fn now_utc_formatted(pattern: &str) -> (text: String)
    requires
        pattern@ == timecode_pattern(),
    ensures
        is_timecode(text@),
{
    time::now_utc().strftime(pattern).unwrap().to_string()
}

/// The current moment in UTC in the form `YYMMDDHHMMSS`.
pub fn gen_timecode() -> (timecode: String)
    ensures
        is_timecode(timecode@),
{
    now_utc_formatted("%y%m%d%H%M%S")
}

/// The full name of a migration called `name` that was created at
/// `timecode`.
pub open spec fn full_name(timecode: Seq<char>, name: Seq<char>) -> Seq<char> {
    seq!['_'] + timecode + seq!['_'] + name
}

/// The full name of a migration called `name` that was created at
/// `timecode`.
pub fn full_name_from(timecode: &str, name: &str) -> (full: String)
    ensures
        full@ == full_name(timecode@, name@),
{
    proof {
        reveal_strlit("_");
    }
    let mut full = String::from_str("_");
    full.append(timecode);
    full.append("_");
    full.append(name);
    assert("_"@ =~= seq!['_']);
    full
}

/// The name of the source file of the migration with this full name.
pub open spec fn file_name(full_name: Seq<char>) -> Seq<char> {
    full_name + seq!['.', 'r', 's']
}

/// The name of the source file of the migration with this full name: the
/// full name with the extension of a Rust source file.
pub fn file_name_of(full_name: &str) -> (file: String)
    ensures
        file@ == file_name(full_name@),
{
    proof {
        reveal_strlit(".rs");
    }
    let mut file = String::from_str(full_name);
    file.append(".rs");
    assert(".rs"@ =~= seq!['.', 'r', 's']);
    file
}

/// The full name of a migration called `name` that is created now: the
/// current timecode between two underscores, then `name`.
pub fn gen_full_name(name: &str) -> (full: String)
    ensures
        exists|timecode: Seq<char>|
            is_timecode(timecode) && full@ == #[trigger] full_name(timecode, name@),
        full@.len() == name@.len() + 14,
{
    let timecode = gen_timecode();
    let full = full_name_from(timecode.as_str(), name);
    assert(full@ == full_name(timecode@, name@));
    full
}

} // verus!
