//! Completion notices: one line for each migration that an invocation has
//! completed, with the migration's version and name.

use crate::migration::record::Migration;
use crate::migration::runner::Direction;
use vstd::prelude::*;
use vstd::string::StringExecFns;

verus! {

/// The character that stands for a single decimal digit.
pub open spec fn digit(d: nat) -> char {
    if d == 0 {
        '0'
    } else if d == 1 {
        '1'
    } else if d == 2 {
        '2'
    } else if d == 3 {
        '3'
    } else if d == 4 {
        '4'
    } else if d == 5 {
        '5'
    } else if d == 6 {
        '6'
    } else if d == 7 {
        '7'
    } else if d == 8 {
        '8'
    } else {
        '9'
    }
}

/// A number in decimal notation, without sign or leading zeros.
pub open spec fn decimal(n: nat) -> Seq<char>
    decreases n,
{
    if n < 10 {
        seq![digit(n)]
    } else {
        decimal(n / 10).push(digit(n % 10))
    }
}

/// How a notice begins in each direction.
pub open spec fn heading(direction: Direction) -> Seq<char> {
    match direction {
        Direction::Up => "Migration completed: "@,
        Direction::Down => "Migration reverted: "@,
    }
}

/// The notice for a completed migration: the heading, the version in
/// decimal, a space, and the name.
pub open spec fn notice_text(direction: Direction, version: u64, name: Seq<char>) -> Seq<char> {
    heading(direction) + decimal(version as nat) + seq![' '] + name
}

/// The digits of `low`, which holds the least significant digit first, as
/// they are read: most significant first.
pub open spec fn as_read(low: Seq<u8>) -> Seq<char> {
    Seq::new(low.len(), |i: int| digit(low[low.len() - 1 - i] as nat))
}

fn digit_text(d: u8) -> (text: &'static str)
    requires
        d < 10,
    ensures
        text@ == seq![digit(d as nat)],
{
    proof {
        reveal_strlit("0");
        reveal_strlit("1");
        reveal_strlit("2");
        reveal_strlit("3");
        reveal_strlit("4");
        reveal_strlit("5");
        reveal_strlit("6");
        reveal_strlit("7");
        reveal_strlit("8");
        reveal_strlit("9");
    }
    let text = if d == 0 {
        "0"
    } else if d == 1 {
        "1"
    } else if d == 2 {
        "2"
    } else if d == 3 {
        "3"
    } else if d == 4 {
        "4"
    } else if d == 5 {
        "5"
    } else if d == 6 {
        "6"
    } else if d == 7 {
        "7"
    } else if d == 8 {
        "8"
    } else {
        "9"
    };
    assert(text@ =~= seq![digit(d as nat)]);
    text
}

/// `n` in decimal notation.
pub fn decimal_text(n: u64) -> (text: String)
    ensures
        text@ == decimal(n as nat),
{
    let mut rest: u64 = n;
    let mut low: Vec<u8> = Vec::new();
    assert(decimal(rest as nat) + as_read(low@) =~= decimal(n as nat));
    while rest >= 10
        invariant
            decimal(n as nat) == decimal(rest as nat) + as_read(low@),
            forall|i: int| 0 <= i < low@.len() ==> low@[i] < 10,
        decreases rest,
    {
        let ghost before = low@;
        let d: u8 = (rest % 10) as u8;
        low.push(d);
        assert(as_read(low@) =~= seq![digit(d as nat)] + as_read(before));
        assert(decimal(rest as nat) == decimal((rest / 10) as nat).push(digit(d as nat)));
        assert(decimal((rest / 10) as nat) + as_read(low@) =~= decimal(rest as nat) + as_read(
            before,
        ));
        rest = rest / 10;
    }
    let mut text = String::from_str(digit_text(rest as u8));
    let mut i: usize = low.len();
    assert(as_read(low@).take(0) =~= Seq::<char>::empty());
    assert(text@ =~= decimal(rest as nat) + as_read(low@).take(0));
    while i > 0
        invariant
            i <= low.len(),
            forall|k: int| 0 <= k < low@.len() ==> low@[k] < 10,
            text@ == decimal(rest as nat) + as_read(low@).take(low.len() - i),
        decreases i,
    {
        i -= 1;
        let ghost before = text@;
        text.append(digit_text(low[i]));
        assert(as_read(low@).take(low.len() - i) =~= as_read(low@).take(low.len() - i - 1).push(
            digit(low@[i as int] as nat),
        ));
        assert(text@ =~= decimal(rest as nat) + as_read(low@).take(low.len() - i));
    }
    assert(as_read(low@).take(low.len() as int) =~= as_read(low@));
    text
}

/// The line that announces that `migration` was applied (`Up`) or reverted
/// (`Down`).
pub fn notice<A>(direction: Direction, migration: &Migration<A>) -> (line: String)
    ensures
        line@ == notice_text(direction, migration@.version, migration@.name),
{
    let mut line = match direction {
        Direction::Up => String::from_str("Migration completed: "),
        Direction::Down => String::from_str("Migration reverted: "),
    };
    let version = decimal_text(*migration.version());
    line.append(version.as_str());
    line.append(" ");
    line.append(migration.name());
    proof {
        reveal_strlit(" ");
        assert(" "@ =~= seq![' ']);
    }
    line
}

} // verus!
