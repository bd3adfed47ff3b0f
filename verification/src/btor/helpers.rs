//! Token-level parsers for the witness grammar: unsigned decimal integers,
//! the newline token, and BTOR2 comment lines.
//!
//! Every parser takes the input byte slice and a start position and returns
//! `Some((next_position, value))` on success, `None` on failure, exactly as
//! its specification-level counterpart describes.

use vstd::prelude::*;

verus! {

/// Is `b` an ASCII decimal digit?
pub open spec fn is_digit(b: u8) -> bool {
    48 <= b <= 57
}

/// Length of the maximal run of decimal digits starting at `pos`.
pub open spec fn digit_run(s: Seq<u8>, pos: int) -> int
    decreases s.len() - pos,
{
    if pos < 0 || pos >= s.len() || !is_digit(s[pos]) {
        0
    } else {
        1 + digit_run(s, pos + 1)
    }
}

/// The value of a digit sequence (most significant digit first) in the given
/// base, where each byte contributes its distance from the `0` digit.
pub open spec fn radix_val(s: Seq<u8>, base: nat) -> nat
    decreases s.len(),
{
    if s.len() == 0 {
        0
    } else {
        radix_val(s.drop_last(), base) * base + (if is_digit(s.last()) {
            (s.last() - 48) as nat
        } else {
            0
        })
    }
}

/// The decimal value of a digit sequence.
pub open spec fn dec_val(s: Seq<u8>) -> nat {
    radix_val(s, 10)
}

/// The value of a binary digit sequence (leftmost bit most significant).
pub open spec fn bin_val(s: Seq<u8>) -> nat {
    radix_val(s, 2)
}

/// The `uint` token: one or more decimal digits, read as a decimal number.
/// Fails when no digit is present or the value of the whole run does not fit
/// in a `u64`.
pub open spec fn spec_uint(s: Seq<u8>, pos: int) -> Option<(int, u64)> {
    let n = digit_run(s, pos);
    if n == 0 {
        None
    } else {
        let v = dec_val(s.subrange(pos, pos + n));
        if v > u64::MAX {
            None
        } else {
            Some((pos + n, v as u64))
        }
    }
}

/// The `newline` token: exactly one line-feed byte.
pub open spec fn spec_newline(s: Seq<u8>, pos: int) -> Option<int> {
    if 0 <= pos < s.len() && s[pos] == 10 {
        Some(pos + 1)
    } else {
        None
    }
}

/// The position of the first two-byte `\n` marker (a backslash byte followed
/// by the letter `n`) at or after `pos`, if any.
pub open spec fn find_marker(s: Seq<u8>, pos: int) -> Option<int>
    decreases s.len() - pos,
{
    if pos < 0 || pos >= s.len() {
        None
    } else if pos + 1 < s.len() && s[pos] == 92 && s[pos + 1] == 110 {
        Some(pos)
    } else {
        find_marker(s, pos + 1)
    }
}

/// A comment: a `;`-prefixed line whose body extends up to the first literal
/// two-character `\n` marker, which must then be followed by a real newline
/// byte. (This marker rule mirrors the witness grammar exactly; it is
/// deliberately not a scan to an actual end of line.)
pub open spec fn spec_comment(s: Seq<u8>, pos: int) -> Option<int> {
    if 0 <= pos < s.len() && s[pos] == 59 {
        match find_marker(s, pos + 1) {
            Some(p) => match spec_newline(s, p) {
                Some(p2) => Some(p2),
                None => None,
            },
            None => None,
        }
    } else {
        None
    }
}

proof fn lemma_digit_run_bounds(s: Seq<u8>, pos: int)
    requires
        0 <= pos <= s.len(),
    ensures
        0 <= digit_run(s, pos),
        pos + digit_run(s, pos) <= s.len(),
        forall|k: int| pos <= k < pos + digit_run(s, pos) ==> is_digit(s[k]),
    decreases s.len() - pos,
{
    if pos < s.len() && is_digit(s[pos]) {
        lemma_digit_run_bounds(s, pos + 1);
    }
}

/// The digit run ends exactly at the first non-digit (or the end of input).
proof fn lemma_digit_run_of(s: Seq<u8>, pos: int, end: int)
    requires
        0 <= pos <= end <= s.len(),
        forall|k: int| pos <= k < end ==> is_digit(s[k]),
        end == s.len() || !is_digit(s[end]),
    ensures
        digit_run(s, pos) == end - pos,
    decreases end - pos,
{
    if pos < end {
        lemma_digit_run_of(s, pos + 1, end);
    }
}

/// Appending one digit multiplies the value by the base and adds the digit.
pub proof fn lemma_radix_val_step(s: Seq<u8>, pos: int, i: int, base: nat)
    requires
        0 <= pos <= i < s.len(),
    ensures
        radix_val(s.subrange(pos, i + 1), base) == radix_val(s.subrange(pos, i), base) * base + (
        if is_digit(s[i]) {
            (s[i] - 48) as int
        } else {
            0
        }),
{
    let t = s.subrange(pos, i + 1);
    assert(t.drop_last() =~= s.subrange(pos, i));
    assert(t.last() == s[i]);
}

/// The value of a digit string never shrinks as the string grows.
pub proof fn lemma_radix_val_monotone(s: Seq<u8>, pos: int, i: int, j: int, base: nat)
    requires
        0 <= pos <= i <= j <= s.len(),
        base >= 1,
    ensures
        radix_val(s.subrange(pos, i), base) <= radix_val(s.subrange(pos, j), base),
    decreases j - i,
{
    if i < j {
        lemma_radix_val_monotone(s, pos, i, j - 1, base);
        lemma_radix_val_step(s, pos, j - 1, base);
        let v = radix_val(s.subrange(pos, j - 1), base);
        assert(v * base >= v) by (nonlinear_arith)
            requires
                base >= 1,
                v >= 0,
        ;
    }
}

/// Parse an unsigned decimal integer.
pub fn uint(s: &[u8], pos: usize) -> (r: Option<(usize, u64)>)
    requires
        pos <= s@.len(),
    ensures
        match r {
            Some((p, v)) => spec_uint(s@, pos as int) == Some((p as int, v)) && pos < p
                <= s@.len(),
            None => spec_uint(s@, pos as int) is None,
        },
{
    proof {
        lemma_digit_run_bounds(s@, pos as int);
    }
    let mut end: usize = pos;
    while end < s.len() && 48 <= s[end] && s[end] <= 57
        invariant
            pos <= end <= s@.len(),
            forall|k: int| pos <= k < end ==> is_digit(s@[k]),
        decreases s@.len() - end,
    {
        end = end + 1;
    }
    proof {
        lemma_digit_run_of(s@, pos as int, end as int);
    }
    if end == pos {
        return None;
    }
    let mut val: u64 = 0;
    let mut i: usize = pos;
    while i < end
        invariant
            pos <= i <= end <= s@.len(),
            digit_run(s@, pos as int) == end - pos,
            forall|k: int| pos <= k < end ==> is_digit(s@[k]),
            val == dec_val(s@.subrange(pos as int, i as int)),
        decreases end - i,
    {
        let d: u64 = (s[i] - 48) as u64;
        proof {
            lemma_radix_val_step(s@, pos as int, i as int, 10);
            vstd::arithmetic::div_mod::lemma_fundamental_div_mod(
                (u64::MAX - d) as int,
                10,
            );
        }
        if val > (u64::MAX - d) / 10 {
            proof {
                lemma_radix_val_monotone(s@, pos as int, i as int + 1, end as int, 10);
            }
            return None;
        }
        val = val * 10 + d;
        i = i + 1;
    }
    Some((end, val))
}

/// Parse a single newline byte.
pub fn newline(s: &[u8], pos: usize) -> (r: Option<usize>)
    requires
        pos <= s@.len(),
    ensures
        match r {
            Some(p) => spec_newline(s@, pos as int) == Some(p as int) && pos < p <= s@.len(),
            None => spec_newline(s@, pos as int) is None,
        },
{
    if pos < s.len() && s[pos] == 10 {
        Some(pos + 1)
    } else {
        None
    }
}

/// Parse a comment line.
pub fn comment(s: &[u8], pos: usize) -> (r: Option<usize>)
    requires
        pos <= s@.len(),
    ensures
        match r {
            Some(p) => spec_comment(s@, pos as int) == Some(p as int) && pos < p <= s@.len(),
            None => spec_comment(s@, pos as int) is None,
        },
{
    if pos >= s.len() || s[pos] != 59 {
        return None;
    }
    let mut i: usize = pos + 1;
    while i < s.len() - 1 && !(s[i] == 92 && s[i + 1] == 110)
        invariant
            pos + 1 <= i <= s@.len(),
            find_marker(s@, pos as int + 1) == find_marker(s@, i as int),
        decreases s@.len() - i,
    {
        i = i + 1;
    }
    if i < s.len() - 1 {
        // marker found at i; a real newline byte must stand there
        if s[i] == 10 {
            Some(i + 1)
        } else {
            None
        }
    } else {
        proof {
            if i < s@.len() {
                assert(find_marker(s@, i as int) == find_marker(s@, i as int + 1));
            }
        }
        None
    }
}

} // verus!
