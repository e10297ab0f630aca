//! Resolving which puzzle to run: the year, the day, the part, and where
//! its input file is kept.

use vstd::prelude::*;

verus! {

/// A resolved run selection.
pub struct RunArgs {
    pub year: u32,
    pub day: u8,
    pub part: u8,
    pub input_file: String,
}

/// Why a selection cannot be resolved: no year to fall back on, no day, a
/// part outside one to three, or no part with an input to fall back on.
#[derive(Clone, Copy, Debug, PartialEq, Eq, Structural)]
pub enum ArgError {
    NoYear,
    NoDay,
    InvalidPart(u8),
    NoPart,
}

/// A day number as it appears in file names: zero-padded to two digits.
pub open spec fn day_chars(n: int) -> Seq<char> {
    if n < 10 {
        seq!['0', crate::text::digit_char(n)]
    } else {
        crate::text::dec_chars(n)
    }
}

/// The usual place of an input file:
/// `input/year_<year>/day<day>/part<part>.txt`.
pub open spec fn default_input_chars(year: u32, day: u8, part: u8) -> Seq<char> {
    seq!['i', 'n', 'p', 'u', 't', '/', 'y', 'e', 'a', 'r', '_'] + crate::text::dec_chars(
        year as int,
    ) + seq!['/', 'd', 'a', 'y'] + day_chars(day as int) + seq!['/', 'p', 'a', 'r', 't']
        + crate::text::dec_chars(part as int) + seq!['.', 't', 'x', 't']
}

/// Appends a day number, zero-padded to two digits.
fn push_day(out: &mut Vec<char>, n: u8)
    ensures
        final(out)@ == old(out)@ + day_chars(n as int),
{
    if n < 10 {
        out.push('0');
        out.push(('0' as u8 + n) as char);
        proof {
            assert(final(out)@ =~= old(out)@ + day_chars(n as int));
        }
    } else {
        crate::text::push_decimal(out, n as u64);
    }
}

/// The path where the input for a year, day and part is kept by default.
pub fn get_default_input(year: u32, day: u8, part: u8) -> (r: String)
    ensures
        r@ == default_input_chars(year, day, part),
{
    let mut out: Vec<char> = Vec::new();
    out.push('i');
    out.push('n');
    out.push('p');
    out.push('u');
    out.push('t');
    out.push('/');
    out.push('y');
    out.push('e');
    out.push('a');
    out.push('r');
    out.push('_');
    crate::text::push_decimal(&mut out, year as u64);
    out.push('/');
    out.push('d');
    out.push('a');
    out.push('y');
    push_day(&mut out, day);
    out.push('/');
    out.push('p');
    out.push('a');
    out.push('r');
    out.push('t');
    crate::text::push_decimal(&mut out, part as u64);
    out.push('.');
    out.push('t');
    out.push('x');
    out.push('t');
    proof {
        assert(out@ =~= default_input_chars(year, day, part));
    }
    crate::text::chars_to_string(&out)
}

impl RunArgs {
    /// Resolves the command-line options into a run selection: a missing
    /// year or day falls back to the newest one found on disk, a missing
    /// part to the highest part with an input file, and a missing input
    /// file to its usual place.  The fallback values are looked up by the
    /// caller; whether the chosen files exist is also the caller's check.
    pub fn parse(
        year: Option<u32>,
        day: Option<u8>,
        part: Option<u8>,
        input_file: Option<String>,
        max_year: Option<u32>,
        max_day: Option<u8>,
        default_part: Option<u8>,
    ) -> (r: Result<RunArgs, ArgError>)
        ensures
            match r {
                Ok(a) => {
                    &&& match year {
                        Some(y) => a.year == y,
                        None => max_year matches Some(my) && a.year == my,
                    }
                    &&& match day {
                        Some(d) => a.day == d,
                        None => max_day matches Some(md) && a.day == md,
                    }
                    &&& match part {
                        Some(p) => 1 <= p <= 3 && a.part == p,
                        None => default_part matches Some(dp) && a.part == dp,
                    }
                    &&& match input_file {
                        Some(f) => a.input_file == f,
                        None => a.input_file@ == default_input_chars(a.year, a.day, a.part),
                    }
                },
                Err(e) => {
                    ||| (e == ArgError::NoYear && year is None && max_year is None)
                    ||| (e == ArgError::NoDay && day is None && max_day is None && (
                    year is Some || max_year is Some))
                    ||| (part matches Some(p) && !(1 <= p <= 3) && e == ArgError::InvalidPart(p)
                        && (year is Some || max_year is Some) && (day is Some || max_day is Some))
                    ||| (e == ArgError::NoPart && part is None && default_part is None && (
                    year is Some || max_year is Some) && (day is Some || max_day is Some))
                },
            },
    {
        let year = match year {
            Some(y) => y,
            None => match max_year {
                Some(my) => my,
                None => {
                    return Err(ArgError::NoYear);
                },
            },
        };
        let day = match day {
            Some(d) => d,
            None => match max_day {
                Some(md) => md,
                None => {
                    return Err(ArgError::NoDay);
                },
            },
        };
        let part = match part {
            Some(p) => {
                if 1 <= p && p <= 3 {
                    p
                } else {
                    return Err(ArgError::InvalidPart(p));
                }
            },
            None => match default_part {
                Some(dp) => dp,
                None => {
                    return Err(ArgError::NoPart);
                },
            },
        };
        let input_file = match input_file {
            Some(f) => f,
            None => get_default_input(year, day, part),
        };
        Ok(RunArgs { year, day, part, input_file })
    }
}

} // verus!
