//! Plain-text helpers shared by the puzzle modules: splitting input into
//! lines, reading decimal numbers, and printing them.

use vstd::prelude::*;

verus! {

/// A decimal digit as a character.
pub open spec fn digit_char(d: int) -> char
    recommends
        0 <= d < 10,
{
    ('0' as u8 + d as u8) as char
}

/// The decimal representation of `n`, most significant digit first.
pub open spec fn dec_chars(n: int) -> Seq<char>
    recommends
        n >= 0,
    decreases n,
{
    if n < 10 {
        seq![digit_char(n)]
    } else {
        dec_chars(n / 10).push(digit_char(n % 10))
    }
}

/// Appends the decimal representation of `n` to `out`.
pub fn push_decimal(out: &mut Vec<char>, n: u64)
    ensures
        final(out)@ == old(out)@ + dec_chars(n as int),
    decreases n,
{
    if n < 10 {
        out.push(('0' as u8 + n as u8) as char);
    } else {
        push_decimal(out, n / 10);
        out.push(('0' as u8 + (n % 10) as u8) as char);
    }
}

/// Whether `c` is a decimal digit.
pub open spec fn is_digit(c: char) -> bool {
    '0' <= c && c <= '9'
}

/// The numeric value of a digit character.
pub open spec fn digit_value(c: char) -> int {
    c as int - '0' as int
}

/// The value of a sequence of digit characters, most significant first.
pub open spec fn dec_value(s: Seq<char>) -> int
    decreases s.len(),
{
    if s.len() == 0 {
        0
    } else {
        dec_value(s.drop_last()) * 10 + digit_value(s.last())
    }
}

/// Whether `s` is a well-formed unsigned decimal literal.
pub open spec fn is_dec_literal(s: Seq<char>) -> bool {
    s.len() > 0 && forall|i: int| 0 <= i < s.len() ==> is_digit(#[trigger] s[i])
}

proof fn lemma_dec_value_nonneg(s: Seq<char>)
    requires
        forall|i: int| 0 <= i < s.len() ==> is_digit(#[trigger] s[i]),
    ensures
        dec_value(s) >= 0,
    decreases s.len(),
{
    if s.len() > 0 {
        lemma_dec_value_nonneg(s.drop_last());
    }
}

/// Reads `s` as an unsigned decimal number.  Returns `None` when `s` is not
/// a digit string or its value does not fit in a `u64`.
pub fn parse_u64(s: &Vec<char>) -> (r: Option<u64>)
    ensures
        match r {
            Some(v) => is_dec_literal(s@) && v as int == dec_value(s@),
            None => !is_dec_literal(s@) || dec_value(s@) > u64::MAX,
        },
{
    if s.len() == 0 {
        return None;
    }
    let mut val: u64 = 0;
    let mut i: usize = 0;
    while i < s.len()
        invariant
            0 <= i <= s.len(),
            val as int == dec_value(s@.subrange(0, i as int)),
            forall|j: int| 0 <= j < i ==> is_digit(#[trigger] s@[j]),
        decreases s.len() - i,
    {
        let c = s[i];
        if !('0' <= c && c <= '9') {
            return None;
        }
        let d = c as u32 - '0' as u32;
        proof {
            assert(s@.subrange(0, i + 1).drop_last() =~= s@.subrange(0, i as int));
        }
        if val > (u64::MAX - d as u64) / 10 {
            proof {
                assert(val * 10 + d > u64::MAX) by (nonlinear_arith)
                    requires
                        val > (u64::MAX - d as u64) / 10,
                        0 <= d < 10,
                ;
                if is_dec_literal(s@) {
                    lemma_dec_prefix_monotonic(s@, i + 1);
                }
            }
            return None;
        }
        val = val * 10 + d as u64;
        i = i + 1;
    }
    proof {
        assert(s@.subrange(0, s@.len() as int) =~= s@);
    }
    Some(val)
}

/// The value of a digit string only grows as digits are appended.
proof fn lemma_dec_prefix_monotonic(s: Seq<char>, i: int)
    requires
        0 < i <= s.len(),
        forall|j: int| 0 <= j < s.len() ==> is_digit(#[trigger] s[j]),
    ensures
        dec_value(s) >= dec_value(s.subrange(0, i)),
    decreases s.len() - i,
{
    if i == s.len() {
        assert(s.subrange(0, i) =~= s);
    } else {
        lemma_dec_prefix_monotonic(s, i + 1);
        assert(s.subrange(0, i + 1).drop_last() =~= s.subrange(0, i));
        lemma_dec_value_nonneg(s.subrange(0, i));
    }
}

/// The value of `s` as a signed decimal literal: an optional minus sign
/// followed by digits.
pub open spec fn signed_dec_value(s: Seq<char>) -> int {
    if s.len() > 0 && s[0] == '-' {
        -dec_value(s.subrange(1, s.len() as int))
    } else {
        dec_value(s)
    }
}

/// Whether `s` is a well-formed signed decimal literal.
pub open spec fn is_signed_dec_literal(s: Seq<char>) -> bool {
    if s.len() > 0 && s[0] == '-' {
        is_dec_literal(s.subrange(1, s.len() as int))
    } else {
        is_dec_literal(s)
    }
}

/// Reads `s` as a signed decimal number.  Returns `None` when `s` is not a
/// signed digit string or its value does not fit in an `i64`.
pub fn parse_i64(s: &Vec<char>) -> (r: Option<i64>)
    ensures
        match r {
            Some(v) => is_signed_dec_literal(s@) && v as int == signed_dec_value(s@),
            None => !is_signed_dec_literal(s@) || signed_dec_value(s@) > i64::MAX
                || signed_dec_value(s@) < i64::MIN,
        },
{
    if s.len() > 0 && s[0] == '-' {
        let mut digits: Vec<char> = Vec::new();
        let mut i: usize = 1;
        while i < s.len()
            invariant
                1 <= i <= s.len(),
                digits@ == s@.subrange(1, i as int),
            decreases s.len() - i,
        {
            digits.push(s[i]);
            i = i + 1;
        }
        proof {
            assert(digits@ =~= s@.subrange(1, s@.len() as int));
        }
        match parse_u64(&digits) {
            None => None,
            Some(v) => {
                proof {
                    lemma_dec_value_nonneg(s@.subrange(1, s@.len() as int));
                }
                if v <= i64::MAX as u64 {
                    Some(-(v as i64))
                } else if v == i64::MAX as u64 + 1 {
                    Some(i64::MIN)
                } else {
                    None
                }
            },
        }
    } else {
        match parse_u64(s) {
            None => None,
            Some(v) => {
                if v <= i64::MAX as u64 {
                    Some(v as i64)
                } else {
                    None
                }
            },
        }
    }
}

/// A copy of `v[i..j]`.
pub fn subvec(v: &Vec<char>, i: usize, j: usize) -> (r: Vec<char>)
    requires
        i <= j <= v@.len(),
    ensures
        r@ == v@.subrange(i as int, j as int),
{
    let mut r: Vec<char> = Vec::new();
    let mut k: usize = i;
    while k < j
        invariant
            i <= k <= j <= v@.len(),
            r@ == v@.subrange(i as int, k as int),
        decreases j - k,
    {
        r.push(v[k]);
        proof {
            assert(v@.subrange(i as int, k + 1 as int) =~= v@.subrange(i as int, k as int).push(
                v@[k as int],
            ));
        }
        k = k + 1;
    }
    r
}

/// `s` with one trailing carriage return removed, as `str::lines` does.
pub open spec fn strip_cr(s: Seq<char>) -> Seq<char> {
    if s.len() > 0 && s.last() == '\r' {
        s.drop_last()
    } else {
        s
    }
}

/// The index of the first newline in `s`, or `s.len()` when there is none.
pub open spec fn first_newline(s: Seq<char>) -> int
    decreases s.len(),
{
    if s.len() == 0 {
        0
    } else if s[0] == '\n' {
        0
    } else {
        1 + first_newline(s.subrange(1, s.len() as int))
    }
}

proof fn lemma_first_newline(s: Seq<char>)
    ensures
        0 <= first_newline(s) <= s.len(),
        forall|j: int| 0 <= j < first_newline(s) ==> s[j] != '\n',
        first_newline(s) < s.len() ==> s[first_newline(s)] == '\n',
    decreases s.len(),
{
    if s.len() > 0 && s[0] != '\n' {
        let sub = s.subrange(1, s.len() as int);
        lemma_first_newline(sub);
        assert forall|j: int| 0 <= j < first_newline(s) implies s[j] != '\n' by {
            if j > 0 {
                assert(s[j] == sub[j - 1]);
            }
        }
    }
}

/// Any index with no newline before it and a newline (or the end) at it is
/// the first newline.
proof fn lemma_first_newline_unique(s: Seq<char>, i: int)
    requires
        0 <= i <= s.len(),
        forall|j: int| 0 <= j < i ==> s[j] != '\n',
        i < s.len() ==> s[i] == '\n',
    ensures
        i == first_newline(s),
    decreases s.len(),
{
    if s.len() > 0 && s[0] != '\n' {
        lemma_first_newline_unique(s.subrange(1, s.len() as int), i - 1);
    }
}

/// The lines of `s`: the pieces between newlines, each with a trailing
/// carriage return removed, and no final empty line, as `str::lines` yields
/// them.
pub open spec fn spec_lines(s: Seq<char>) -> Seq<Seq<char>>
    decreases s.len(),
    via spec_lines_decreases
{
    if s.len() == 0 {
        seq![]
    } else {
        let i = first_newline(s);
        if i >= s.len() {
            seq![strip_cr(s)]
        } else {
            seq![strip_cr(s.subrange(0, i))] + spec_lines(s.subrange(i + 1, s.len() as int))
        }
    }
}

#[via_fn]
proof fn spec_lines_decreases(s: Seq<char>) {
    lemma_first_newline(s);
}

/// Splits `text` into its lines, as `str::lines` does.
pub fn split_lines(text: &Vec<char>) -> (r: Vec<Vec<char>>)
    ensures
        r@.map_values(|l: Vec<char>| l@) == spec_lines(text@),
{
    let mut r: Vec<Vec<char>> = Vec::new();
    let mut start: usize = 0;
    proof {
        assert(text@.subrange(0, text@.len() as int) =~= text@);
        assert(r@.map_values(|l: Vec<char>| l@) =~= Seq::<Seq<char>>::empty());
    }
    while start < text.len()
        invariant
            0 <= start <= text@.len(),
            spec_lines(text@) == r@.map_values(|l: Vec<char>| l@) + spec_lines(
                text@.subrange(start as int, text@.len() as int),
            ),
        decreases text@.len() - start,
    {
        let ghost rest = text@.subrange(start as int, text@.len() as int);
        let mut k: usize = start;
        while k < text.len() && text[k] != '\n'
            invariant
                start <= k <= text@.len(),
                forall|j: int| start <= j < k ==> text@[j] != '\n',
            decreases text@.len() - k,
        {
            k = k + 1;
        }
        proof {
            assert(forall|j: int| 0 <= j < k - start ==> rest[j] != '\n');
            lemma_first_newline_unique(rest, k - start);
        }
        let mut end = k;
        if end > start && text[end - 1] == '\r' {
            end = end - 1;
        }
        let line = subvec(text, start, end);
        proof {
            assert(line@ =~= strip_cr(rest.subrange(0, k - start)));
            if k == text@.len() {
                assert(rest.subrange(0, k - start) =~= rest);
            } else {
                assert(rest.subrange(k - start + 1, rest.len() as int) =~= text@.subrange(
                    k + 1 as int,
                    text@.len() as int,
                ));
            }
        }
        r.push(line);
        proof {
            assert(r@.map_values(|l: Vec<char>| l@) =~= r@.drop_last().map_values(
                |l: Vec<char>| l@,
            ).push(line@));
        }
        if k == text.len() {
            start = k;
            proof {
                assert(spec_lines(text@.subrange(start as int, text@.len() as int)) =~= Seq::<
                    Seq<char>,
                >::empty());
                assert(spec_lines(text@) =~= r@.map_values(|l: Vec<char>| l@));
            }
        } else {
            start = k + 1;
        }
    }
    proof {
        assert(spec_lines(text@.subrange(start as int, text@.len() as int)) =~= Seq::<
            Seq<char>,
        >::empty());
        assert(spec_lines(text@) =~= r@.map_values(|l: Vec<char>| l@));
    }
    r
}

/// Relies on `String::from_iter` over `char`: the string holds exactly the
/// given characters.
#[verifier::external_body]
pub fn chars_to_string(v: &Vec<char>) -> (r: String)
    ensures
        r@ == v@,
{
    v.iter().collect()
}

} // verus!
