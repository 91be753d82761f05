//! The options of a run: the time window, and durations in the shorthand of
//! a number and a unit.

use crate::text::{decimal_digits, decimal_string};
use crate::timestamp::Timestamp;
use std::path::PathBuf;
use std::str::FromStr;
use vstd::prelude::*;
use vstd::string::*;

verus! {

#[verifier::external_type_specification]
#[verifier::external_body]
pub struct ExPathBuf(PathBuf);

/// A span of whole seconds.
#[derive(Debug, Clone, Copy, PartialEq, Eq, Structural)]
pub struct AppDuration(pub u64);

/// The options of a run.
#[derive(Debug)]
pub struct Args {
    /// Records before this instant are passed over.
    pub start: Option<Timestamp>,
    /// Files whose last record lies behind this instant are left out.
    pub end: Option<Timestamp>,
    pub lines: Option<usize>,
    pub files: Vec<PathBuf>,
    pub duration: Option<AppDuration>,
}

/// Whether `c` is one of the digits `0` to `9`.
pub open spec fn is_digit(c: char) -> bool {
    '0' <= c && c <= '9'
}

/// The number that the decimal digits `s` write.
pub open spec fn digits_value(s: Seq<char>) -> nat
    decreases s.len(),
{
    if s.len() == 0 {
        0
    } else {
        digits_value(s.drop_last()) * 10 + (s.last() as u32 - '0' as u32) as nat
    }
}

/// Whether `s` is made of digits only.
pub open spec fn all_digits(s: Seq<char>) -> bool {
    forall|i: int| 0 <= i < s.len() ==> is_digit(#[trigger] s[i])
}

/// The number that `s` writes: decimal digits, at least one, behind an
/// optional `+`; `None` for any other text and for a number above
/// `u64::MAX`.
pub open spec fn number_of(s: Seq<char>) -> Option<u64> {
    let digits = if s.len() > 0 && s[0] == '+' {
        s.drop_first()
    } else {
        s
    };
    if digits.len() > 0 && all_digits(digits) && digits_value(digits) <= u64::MAX {
        Some(digits_value(digits) as u64)
    } else {
        None
    }
}

/// The seconds in one unit: `s`, `m` or `h`.
pub open spec fn unit_seconds(unit: char) -> Option<u64> {
    if unit == 's' {
        Some(1u64)
    } else if unit == 'm' {
        Some(60u64)
    } else if unit == 'h' {
        Some(3600u64)
    } else {
        None
    }
}

/// The seconds that the shorthand `s` stands for: a number, then one
/// character for the unit. The number is judged first: where it is no
/// number, or the span does not fit in `u64`, the error is `Invalid num`;
/// an unknown unit gives `Bad unit`.
pub open spec fn duration_of(s: Seq<char>) -> Result<u64, Seq<char>> {
    if s.len() == 0 {
        Err("Invalid num"@)
    } else {
        match number_of(s.drop_last()) {
            None => Err("Invalid num"@),
            Some(num) => match unit_seconds(s.last()) {
                None => Err("Bad unit"@),
                Some(factor) => if num * factor <= u64::MAX {
                    Ok((num * factor) as u64)
                } else {
                    Err("Invalid num"@)
                },
            },
        }
    }
}

/// The shorthand for `secs` seconds: in days where that is a whole number
/// of days, else in hours, minutes or seconds, in the largest unit that
/// leaves no rest.
pub open spec fn shorthand(secs: u64) -> Seq<char> {
    if secs % 86400 == 0 {
        decimal_digits((secs / 86400) as nat).push('d')
    } else if secs % 3600 == 0 {
        decimal_digits((secs / 3600) as nat).push('h')
    } else if secs % 60 == 0 {
        decimal_digits((secs / 60) as nat).push('m')
    } else {
        decimal_digits(secs as nat).push('s')
    }
}

/// A prefix of a text of digits writes no greater a number than the whole.
proof fn lemma_digits_prefix(s: Seq<char>, i: int)
    requires
        0 <= i <= s.len(),
    ensures
        digits_value(s.subrange(0, i)) <= digits_value(s),
    decreases s.len() - i,
{
    if i < s.len() {
        lemma_digits_prefix(s, i + 1);
        assert(s.subrange(0, i + 1).drop_last() =~= s.subrange(0, i));
    } else {
        assert(s.subrange(0, i) =~= s);
    }
}

/// Reads the digits of `s` from the character at `from` on.
fn parse_digits(s: &str, from: usize, to: usize) -> (r: Option<u64>)
    requires
        from <= to <= s@.len(),
    ensures
        r == (if to > from && all_digits(s@.subrange(from as int, to as int)) && digits_value(
            s@.subrange(from as int, to as int),
        ) <= u64::MAX {
            Some(digits_value(s@.subrange(from as int, to as int)) as u64)
        } else {
            None
        }),
{
    if from == to {
        return None;
    }
    let ghost digits = s@.subrange(from as int, to as int);
    let mut acc: u64 = 0;
    let mut i = from;
    while i < to
        invariant
            from <= i <= to <= s@.len(),
            digits == s@.subrange(from as int, to as int),
            all_digits(digits.subrange(0, i - from)),
            acc == digits_value(digits.subrange(0, i - from)),
        decreases to - i,
    {
        let c = s.get_char(i);
        let ghost pre = digits.subrange(0, i - from);
        let ghost cur = digits.subrange(0, i + 1 - from);
        proof {
            assert(cur.drop_last() =~= pre);
            assert(cur.last() == c);
            lemma_digits_prefix(digits, i + 1 - from);
        }
        if !('0' <= c && c <= '9') {
            assert(!is_digit(digits[i - from]));
            return None;
        }
        let d = (c as u32 - '0' as u32) as u64;
        let next = match acc.checked_mul(10) {
            Some(tens) => tens.checked_add(d),
            None => None,
        };
        match next {
            Some(value) => {
                acc = value;
            },
            None => {
                return None;
            },
        }
        proof {
            assert forall|j: int| 0 <= j < cur.len() implies is_digit(#[trigger] cur[j]) by {
                if j < pre.len() {
                    assert(cur[j] == pre[j]);
                }
            }
        }
        i += 1;
    }
    proof {
        assert(digits.subrange(0, to - from) =~= digits);
    }
    Some(acc)
}

/// Reads a number as `u64::from_str` does: decimal digits behind an
/// optional `+`.
pub fn parse_number(s: &str) -> (r: Option<u64>)
    ensures
        r == number_of(s@),
{
    let n = s.unicode_len();
    let from: usize = if n > 0 && s.get_char(0) == '+' {
        1
    } else {
        0
    };
    proof {
        if from == 1 {
            assert(s@.drop_first() =~= s@.subrange(1, n as int));
        } else {
            assert(s@ =~= s@.subrange(0, n as int));
        }
    }
    parse_digits(s, from, n)
}

impl AppDuration {
    /// A span of `secs` seconds.
    pub fn from_secs(secs: u64) -> (r: AppDuration)
        ensures
            r.0 == secs,
    {
        AppDuration(secs)
    }

    /// The span in seconds.
    pub fn as_secs(&self) -> (secs: u64)
        ensures
            secs == self.0,
    {
        self.0
    }

    /// Reads the shorthand of a number and a unit, `s`, `m` or `h`.
    pub fn parse(s: &str) -> (r: Result<AppDuration, String>)
        ensures
            match r {
                Ok(d) => duration_of(s@) == Ok::<u64, Seq<char>>(d.0),
                Err(e) => duration_of(s@) == Err::<u64, Seq<char>>(e@),
            },
    {
        let n = s.unicode_len();
        if n == 0 {
            return Err("Invalid num".to_owned());
        }
        let num_part = s.substring_char(0, n - 1);
        let unit_part = s.get_char(n - 1);
        proof {
            assert(s@.drop_last() =~= s@.subrange(0, n - 1));
        }
        let num = match parse_number(num_part) {
            Some(num) => num,
            None => return Err("Invalid num".to_owned()),
        };
        let factor: u64 = if unit_part == 's' {
            1
        } else if unit_part == 'm' {
            60
        } else if unit_part == 'h' {
            3600
        } else {
            return Err("Bad unit".to_owned());
        };
        match num.checked_mul(factor) {
            Some(secs) => Ok(AppDuration(secs)),
            None => Err("Invalid num".to_owned()),
        }
    }

    /// The shorthand of the span, in the largest unit of days, hours,
    /// minutes and seconds that leaves no rest.
    pub fn to_string(&self) -> (r: String)
        ensures
            r@ == shorthand(self.0),
    {
        let secs = self.0;
        let minutes = secs / 60;
        let (count, unit) = if secs % 86400 == 0 {
            (secs / 86400, "d")
        } else if secs % 3600 == 0 {
            (secs / 3600, "h")
        } else if secs % 60 == 0 {
            (minutes, "m")
        } else {
            (secs, "s")
        };
        let mut text = decimal_string(count);
        text.append(unit);
        proof {
            reveal_strlit("d");
            reveal_strlit("h");
            reveal_strlit("m");
            reveal_strlit("s");
            assert(text@ =~= shorthand(self.0));
        }
        text
    }
}

impl FromStr for AppDuration {
    type Err = String;

    /// Reads the shorthand of a number and a unit, as [`AppDuration::parse`]
    /// does.
    fn from_str(s: &str) -> (r: Result<Self, Self::Err>)
        ensures
            match r {
                Ok(d) => duration_of(s@) == Ok::<u64, Seq<char>>(d.0),
                Err(e) => duration_of(s@) == Err::<u64, Seq<char>>(e@),
            },
    {
        AppDuration::parse(s)
    }
}

} // verus!
