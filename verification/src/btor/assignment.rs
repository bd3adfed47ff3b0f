//! One value-assignment line of the witness format: a bitvector or array
//! assignment with an optional symbolic name, plus the rendering of a decoded
//! value back into its fixed-width binary textual form.

use vstd::prelude::*;
use vstd::string::*;
use vstd::arithmetic::power2::pow2;

use crate::btor::helpers;
use crate::btor::text;

verus! {

/// Represents different kinds of possible assignments in the BTOR2 witness
/// format.
#[derive(Debug, Copy, Clone, PartialEq, Eq, Structural)]
pub enum AssignmentKind {
    /// Assignment to a bitvector.
    BitVec {
        /// Value of the bitvector at the given transition.
        value: u64,
        /// Number of bits in the bitvector.
        bits: usize,
    },
    /// Assignment to an array of bitvectors.
    Array {
        /// Index in the array.
        index: u64,
        /// Value of the bitvector at `index` at the given transition.
        value: u64,
        /// Number of bits of the bitvector.
        bits: usize,
    },
}

/// Represents an assignment in the BTOR2 witness format.
#[derive(Debug, Clone, PartialEq, Eq)]
pub struct Assignment {
    /// The kind of assignment, either bitvec or array.
    pub kind: AssignmentKind,
    /// The optional symbol for the assignment.
    pub symbol: Option<String>,
}

/// The mathematical content of an `Assignment`: its kind and the characters
/// of its symbol, if any.
pub ghost struct AssignmentView {
    pub kind: AssignmentKind,
    pub symbol: Option<Seq<char>>,
}

impl View for Assignment {
    type V = AssignmentView;

    open spec fn view(&self) -> AssignmentView {
        AssignmentView {
            kind: self.kind,
            symbol: match self.symbol {
                Option::Some(s) => Option::Some(s@),
                Option::None => Option::None,
            },
        }
    }
}

/// The decoded value carried by an assignment kind (the array value for
/// arrays).
pub open spec fn spec_value(k: AssignmentKind) -> u64 {
    match k {
        AssignmentKind::BitVec { value, .. } => value,
        AssignmentKind::Array { value, .. } => value,
    }
}

impl Assignment {
    /// The decoded value of this assignment.
    pub fn get_value(&self) -> (r: u64)
        ensures
            r == spec_value(self@.kind),
    {
        match self.kind {
            AssignmentKind::BitVec { value, .. } => value,
            AssignmentKind::Array { value, .. } => value,
        }
    }
}

// ---------------------------------------------------------------------------
// Binary rendering.
// ---------------------------------------------------------------------------

/// Is bit `sh` (counted from the least significant end) of `v` set?
pub open spec fn bit_one(v: u64, sh: nat) -> bool {
    ((v as nat) / pow2(sh)) % 2 == 1
}

/// The character for bit `sh` of `v`.
pub open spec fn bit_char(v: u64, sh: nat) -> char {
    if bit_one(v, sh) {
        '1'
    } else {
        '0'
    }
}

/// The fixed-width binary rendering of `v`: `w` characters, most significant
/// bit first.
pub open spec fn bits_chars(v: u64, w: nat) -> Seq<char> {
    Seq::new(w, |j: int| bit_char(v, (w - 1 - j) as nat))
}

/// The full binary rendering of an assignment kind. A bitvector renders as
/// its bits; an array renders as the bracketed index, an arrow, and the
/// value, index and value both at the stored width.
pub open spec fn binary_chars(k: AssignmentKind) -> Seq<char> {
    match k {
        AssignmentKind::BitVec { value, bits } => bits_chars(value, bits as nat),
        AssignmentKind::Array { index, value, bits } => "["@ + bits_chars(index, bits as nat)
            + "]"@ + " -> "@ + bits_chars(value, bits as nat),
    }
}

/// The numeric value of a binary digit character (`1` counts as one,
/// anything else as zero).
pub open spec fn bin_digit_val(c: char) -> nat {
    if c == '1' {
        1
    } else {
        0
    }
}

/// Decode a character sequence as a binary numeral, leftmost character most
/// significant.
pub open spec fn bin_val_chars(s: Seq<char>) -> nat
    decreases s.len(),
{
    if s.len() == 0 {
        0
    } else {
        bin_val_chars(s.drop_last()) * 2 + bin_digit_val(s.last())
    }
}

/// Extract one bit of `v`.
fn bit_of(v: u64, sh: usize) -> (r: bool)
    ensures
        r == bit_one(v, sh as nat),
{
    if sh >= 64 {
        proof {
            vstd::arithmetic::power2::lemma2_to64();
            if sh > 64 {
                vstd::arithmetic::power2::lemma_pow2_strictly_increases(64, sh as nat);
            }
            vstd::arithmetic::div_mod::lemma_basic_div(v as int, pow2(sh as nat) as int);
        }
        false
    } else {
        let b = (v >> (sh as u64)) & 1;
        proof {
            vstd::bits::lemma_u64_shr_is_div(v, sh as u64);
            let y = v >> (sh as u64);
            assert((y & 1) == y % 2) by (bit_vector);
        }
        b == 1
    }
}

/// Append the fixed-width binary rendering of `v` to `buf`.
fn push_bits(buf: &mut String, v: u64, w: usize)
    ensures
        final(buf)@ =~= old(buf)@ + bits_chars(v, w as nat),
{
    let mut j: usize = 0;
    while j < w
        invariant
            j <= w,
            buf@ =~= old(buf)@ + bits_chars(v, w as nat).take(j as int),
        decreases w - j,
    {
        let sh = w - 1 - j;
        if bit_of(v, sh) {
            buf.append("1");
        } else {
            buf.append("0");
        }
        j = j + 1;
        proof {
            reveal_strlit("0");
            reveal_strlit("1");
            assert(bits_chars(v, w as nat)[j - 1] == bit_char(v, sh as nat));
            assert(bits_chars(v, w as nat).take(j as int) =~= bits_chars(v, w as nat).take(
                j as int - 1,
            ) + seq![bit_char(v, sh as nat)]);
            if bit_one(v, sh as nat) {
                assert("1"@ =~= seq![bit_char(v, sh as nat)]);
            } else {
                assert("0"@ =~= seq![bit_char(v, sh as nat)]);
            }
        }
    }
    proof {
        assert(bits_chars(v, w as nat).take(w as int) =~= bits_chars(v, w as nat));
    }
}

impl AssignmentKind {
    /// Generate the visual binary representation of the assignment kind: the
    /// bits of a bitvector, or `[index] -> value` for an array, index and
    /// value both rendered at the stored width.
    pub fn to_binary_string(self) -> (r: String)
        ensures
            r@ =~= binary_chars(self),
    {
        let mut buf = String::new();
        match self {
            AssignmentKind::BitVec { value, bits } => {
                push_bits(&mut buf, value, bits);
            },
            AssignmentKind::Array { index, value, bits } => {
                buf.append("[");
                push_bits(&mut buf, index, bits);
                buf.append("]");
                buf.append(" -> ");
                push_bits(&mut buf, value, bits);
            },
        }
        buf
    }
}

proof fn lemma_bits_chars_val(v: u64, w: nat)
    ensures
        bin_val_chars(bits_chars(v, w)) == (v as nat) % pow2(w),
    decreases w,
{
    vstd::arithmetic::power2::lemma_pow2_pos(w);
    if w == 0 {
        assert(pow2(0) == 1) by {
            vstd::arithmetic::power2::lemma_pow2_unfold(1);
            vstd::arithmetic::power2::lemma_pow2_pos(0);
            vstd::arithmetic::power2::lemma2_to64();
        }
        assert(bits_chars(v, 0).len() == 0);
        vstd::arithmetic::div_mod::lemma_fundamental_div_mod(v as int, 1);
    } else {
        let s = bits_chars(v, w);
        let h = (v / 2) as u64;
        vstd::arithmetic::power2::lemma2_to64();
        assert forall|j: int| 0 <= j < w - 1 implies s.drop_last()[j] == bits_chars(
            h,
            (w - 1) as nat,
        )[j] by {
            let k = (w - 2 - j) as nat;
            vstd::arithmetic::power2::lemma_pow2_pos(k);
            vstd::arithmetic::div_mod::lemma_div_denominator(v as int, 2, pow2(k) as int);
            vstd::arithmetic::power2::lemma_pow2_adds(1, k);
            vstd::arithmetic::power2::lemma_pow2_unfold(1);
            assert((h as nat) / pow2(k) == (v as nat) / pow2((k + 1) as nat));
        }
        assert(s.drop_last() =~= bits_chars(h, (w - 1) as nat));
        vstd::arithmetic::div_mod::lemma_fundamental_div_mod(v as int, 1);
        assert(s.last() == bit_char(v, 0));
        assert(bin_digit_val(s.last()) == (v as nat) % 2);
        lemma_bits_chars_val(h, (w - 1) as nat);
        // v % 2^w == (v/2 % 2^(w-1)) * 2 + v % 2
        let p = pow2((w - 1) as nat) as int;
        vstd::arithmetic::power2::lemma_pow2_pos((w - 1) as nat);
        vstd::arithmetic::power2::lemma_pow2_adds(1, (w - 1) as nat);
        vstd::arithmetic::power2::lemma_pow2_unfold(1);
        assert(pow2(w) == 2 * p);
        let q = v as int / 2;
        let rr = v as int % 2;
        vstd::arithmetic::div_mod::lemma_fundamental_div_mod(v as int, 2);
        vstd::arithmetic::div_mod::lemma_fundamental_div_mod(q, p);
        let qp = q / p;
        let rp = q % p;
        assert(v as int == 2 * (p * qp + rp) + rr);
        assert(2 * (p * qp + rp) + rr == qp * (2 * p) + (2 * rp + rr)) by (nonlinear_arith);
        assert(0 <= 2 * rp + rr < 2 * p);
        vstd::arithmetic::div_mod::lemma_fundamental_div_mod_converse(
            v as int,
            2 * p,
            qp,
            2 * rp + rr,
        );
        assert((v as nat) % pow2(w) == 2 * rp + rr);
    }
}

/// Round trip for the bitvector rendering: for width `w` and value
/// `v < 2^w`, the rendered string has length exactly `w` and decoding it as
/// a binary numeral reproduces `v` exactly.
pub proof fn lemma_bitvec_render_round_trip(v: u64, w: nat)
    requires
        (v as nat) < pow2(w),
    ensures
        bits_chars(v, w).len() == w,
        bin_val_chars(bits_chars(v, w)) == v,
{
    lemma_bits_chars_val(v, w);
    vstd::arithmetic::power2::lemma_pow2_pos(w);
    vstd::arithmetic::div_mod::lemma_small_mod(v as nat, pow2(w));
}

// ---------------------------------------------------------------------------
// The assignment grammar.
// ---------------------------------------------------------------------------

/// Is `b` a binary digit byte?
pub open spec fn is_bin(b: u8) -> bool {
    b == 48 || b == 49
}

/// Length of the maximal run of binary digits starting at `pos`.
pub open spec fn bin_run(s: Seq<u8>, pos: int) -> int
    decreases s.len() - pos,
{
    if pos < 0 || pos >= s.len() || !is_bin(s[pos]) {
        0
    } else {
        1 + bin_run(s, pos + 1)
    }
}

/// End of the maximal run of spaces and tabs starting at `pos`.
pub open spec fn spec_space0(s: Seq<u8>, pos: int) -> int
    decreases s.len() - pos,
{
    if 0 <= pos < s.len() && (s[pos] == 32 || s[pos] == 9) {
        spec_space0(s, pos + 1)
    } else {
        pos
    }
}

/// Is `b` a symbol byte: ASCII and not a newline?
pub open spec fn is_sym(b: u8) -> bool {
    b < 128 && b != 10
}

/// Length of the maximal run of symbol bytes starting at `pos`.
pub open spec fn sym_run(s: Seq<u8>, pos: int) -> int
    decreases s.len() - pos,
{
    if pos < 0 || pos >= s.len() || !is_sym(s[pos]) {
        0
    } else {
        1 + sym_run(s, pos + 1)
    }
}

/// The index of the first `@` byte in `t`, or `t.len()` if there is none.
pub open spec fn at_cut(t: Seq<u8>) -> int
    decreases t.len(),
{
    if t.len() == 0 {
        0
    } else if t[0] == 64 {
        0
    } else {
        1 + at_cut(t.drop_first())
    }
}

/// A bitvector assignment: a maximal run of binary digits, decoded as an
/// unsigned binary integer whose bit-width is the run length. Fails when no
/// binary digit is present or the decoded value does not fit in a `u64`.
pub open spec fn spec_bitvec(s: Seq<u8>, pos: int) -> Option<(int, AssignmentKind)> {
    let n = bin_run(s, pos);
    if n == 0 {
        None
    } else {
        let v = helpers::bin_val(s.subrange(pos, pos + n));
        if v > u64::MAX {
            None
        } else {
            Some(
                (
                    pos + n,
                    AssignmentKind::BitVec { value: v as u64, bits: n as usize },
                ),
            )
        }
    }
}

/// An array assignment: a bracketed binary run (the index), optional blanks,
/// then a binary run (the value); the stored width is the value run's length.
pub open spec fn spec_array(s: Seq<u8>, pos: int) -> Option<(int, AssignmentKind)> {
    if !(0 <= pos < s.len() && s[pos] == 91) {
        None
    } else {
        let n1 = bin_run(s, pos + 1);
        if n1 == 0 {
            None
        } else {
            let v1 = helpers::bin_val(s.subrange(pos + 1, pos + 1 + n1));
            let q = pos + 1 + n1;
            if v1 > u64::MAX {
                None
            } else if !(q < s.len() && s[q] == 93) {
                None
            } else {
                let q2 = spec_space0(s, q + 1);
                let n2 = bin_run(s, q2);
                if n2 == 0 {
                    None
                } else {
                    let v2 = helpers::bin_val(s.subrange(q2, q2 + n2));
                    if v2 > u64::MAX {
                        None
                    } else {
                        Some(
                            (
                                q2 + n2,
                                AssignmentKind::Array {
                                    index: v1 as u64,
                                    value: v2 as u64,
                                    bits: n2 as usize,
                                },
                            ),
                        )
                    }
                }
            }
        }
    }
}

/// A symbol: a maximal run of ASCII non-newline bytes, truncated before the
/// first `@` if one occurs.
pub open spec fn spec_symbol(s: Seq<u8>, pos: int) -> Option<(int, Seq<u8>)> {
    let n = sym_run(s, pos);
    if n == 0 {
        None
    } else {
        let taken = s.subrange(pos, pos + n);
        Some((pos + n, taken.take(at_cut(taken))))
    }
}

/// One assignment line: a declaration id (consumed and discarded), blanks, a
/// bitvector or array assignment, blanks, an optional symbol, and a newline.
pub open spec fn spec_assignment(s: Seq<u8>, pos: int) -> Option<(int, AssignmentView)> {
    match helpers::spec_uint(s, pos) {
        None => None,
        Some((p1, _)) => {
            let p2 = spec_space0(s, p1);
            let kind_r = match spec_bitvec(s, p2) {
                Some(x) => Some(x),
                None => spec_array(s, p2),
            };
            match kind_r {
                None => None,
                Some((p3, kind)) => {
                    let p4 = spec_space0(s, p3);
                    let (p5, sym) = match spec_symbol(s, p4) {
                        Some((q, bytes)) => (q, Some(bytes.map_values(|b: u8| b as char))),
                        None => (p4, Option::<Seq<char>>::None),
                    };
                    match helpers::spec_newline(s, p5) {
                        None => None,
                        Some(p6) => Some((p6, AssignmentView { kind, symbol: sym })),
                    }
                },
            }
        },
    }
}

// ---------------------------------------------------------------------------
// Executable parsers.
// ---------------------------------------------------------------------------

proof fn lemma_bin_run_bounds(s: Seq<u8>, pos: int)
    requires
        0 <= pos <= s.len(),
    ensures
        0 <= bin_run(s, pos),
        pos + bin_run(s, pos) <= s.len(),
    decreases s.len() - pos,
{
    if pos < s.len() && is_bin(s[pos]) {
        lemma_bin_run_bounds(s, pos + 1);
    }
}

proof fn lemma_bin_run_of(s: Seq<u8>, pos: int, end: int)
    requires
        0 <= pos <= end <= s.len(),
        forall|k: int| pos <= k < end ==> is_bin(s[k]),
        end == s.len() || !is_bin(s[end]),
    ensures
        bin_run(s, pos) == end - pos,
    decreases end - pos,
{
    if pos < end {
        lemma_bin_run_of(s, pos + 1, end);
    }
}

/// Scan the maximal binary-digit run starting at `pos` and decode its value;
/// `None` when the run is empty or the value does not fit in a `u64`.
fn scan_bin(s: &[u8], pos: usize) -> (r: Option<(usize, u64)>)
    requires
        pos <= s@.len(),
    ensures
        match r {
            Some((p, v)) => {
                let n = bin_run(s@, pos as int);
                &&& n == p - pos
                &&& pos < p <= s@.len()
                &&& helpers::bin_val(s@.subrange(pos as int, p as int)) == v
            },
            None => bin_run(s@, pos as int) == 0 || helpers::bin_val(
                s@.subrange(pos as int, pos as int + bin_run(s@, pos as int)),
            ) > u64::MAX,
        },
{
    proof {
        lemma_bin_run_bounds(s@, pos as int);
    }
    let mut end: usize = pos;
    while end < s.len() && (s[end] == 48 || s[end] == 49)
        invariant
            pos <= end <= s@.len(),
            forall|k: int| pos <= k < end ==> is_bin(s@[k]),
        decreases s@.len() - end,
    {
        end = end + 1;
    }
    proof {
        lemma_bin_run_of(s@, pos as int, end as int);
    }
    if end == pos {
        return None;
    }
    let mut val: u64 = 0;
    let mut i: usize = pos;
    while i < end
        invariant
            pos <= i <= end <= s@.len(),
            bin_run(s@, pos as int) == end - pos,
            forall|k: int| pos <= k < end ==> is_bin(s@[k]),
            val == helpers::bin_val(s@.subrange(pos as int, i as int)),
        decreases end - i,
    {
        let d: u64 = (s[i] - 48) as u64;
        proof {
            lemma_radix_val_step_bin(s@, pos as int, i as int);
            vstd::arithmetic::div_mod::lemma_fundamental_div_mod((u64::MAX - d) as int, 2);
        }
        if val > (u64::MAX - d) / 2 {
            proof {
                helpers::lemma_radix_val_monotone(s@, pos as int, i as int + 1, end as int, 2);
            }
            return None;
        }
        val = val * 2 + d;
        i = i + 1;
    }
    Some((end, val))
}

proof fn lemma_radix_val_step_bin(s: Seq<u8>, pos: int, i: int)
    requires
        0 <= pos <= i < s.len(),
    ensures
        helpers::bin_val(s.subrange(pos, i + 1)) == helpers::bin_val(s.subrange(pos, i)) * 2 + (
        if helpers::is_digit(s[i]) {
            (s[i] - 48) as int
        } else {
            0
        }),
{
    helpers::lemma_radix_val_step(s, pos, i, 2);
}

/// Skip blanks (spaces and tabs).
fn space0(s: &[u8], pos: usize) -> (r: usize)
    requires
        pos <= s@.len(),
    ensures
        r == spec_space0(s@, pos as int),
        pos <= r <= s@.len(),
{
    let mut i: usize = pos;
    while i < s.len() && (s[i] == 32 || s[i] == 9)
        invariant
            pos <= i <= s@.len(),
            spec_space0(s@, pos as int) == spec_space0(s@, i as int),
        decreases s@.len() - i,
    {
        i = i + 1;
    }
    i
}

/// Parse a bitvector assignment.
fn bitvec_assign(s: &[u8], pos: usize) -> (r: Option<(usize, AssignmentKind)>)
    requires
        pos <= s@.len(),
    ensures
        match r {
            Some((p, k)) => spec_bitvec(s@, pos as int) == Some((p as int, k)) && pos < p
                <= s@.len(),
            None => spec_bitvec(s@, pos as int) is None,
        },
{
    match scan_bin(s, pos) {
        Some((p, v)) => Some(
            (p, AssignmentKind::BitVec { value: v, bits: p - pos }),
        ),
        None => None,
    }
}

/// Parse an array assignment.
fn array_assign(s: &[u8], pos: usize) -> (r: Option<(usize, AssignmentKind)>)
    requires
        pos <= s@.len(),
    ensures
        match r {
            Some((p, k)) => spec_array(s@, pos as int) == Some((p as int, k)) && pos < p
                <= s@.len(),
            None => spec_array(s@, pos as int) is None,
        },
{
    if !(pos < s.len() && s[pos] == 91) {
        return None;
    }
    let (q, index) = match scan_bin(s, pos + 1) {
        Some(x) => x,
        None => {
            return None;
        },
    };
    if !(q < s.len() && s[q] == 93) {
        return None;
    }
    let q2 = space0(s, q + 1);
    let (p, value) = match scan_bin(s, q2) {
        Some(x) => x,
        None => {
            return None;
        },
    };
    Some((p, AssignmentKind::Array { index, value, bits: p - q2 }))
}

/// Parse a symbol, returning its bytes (all ASCII) truncated before `@`.
fn symbol(s: &[u8], pos: usize) -> (r: Option<(usize, Vec<u8>)>)
    requires
        pos <= s@.len(),
    ensures
        match r {
            Some((p, v)) => {
                &&& spec_symbol(s@, pos as int) == Some((p as int, v@))
                &&& pos < p <= s@.len()
                &&& forall|i: int| 0 <= i < v@.len() ==> v@[i] < 128
            },
            None => spec_symbol(s@, pos as int) is None,
        },
{
    let mut end: usize = pos;
    while end < s.len() && s[end] < 128 && s[end] != 10
        invariant
            pos <= end <= s@.len(),
            forall|k: int| pos <= k < end ==> is_sym(s@[k]),
        decreases s@.len() - end,
    {
        end = end + 1;
    }
    proof {
        lemma_sym_run_of(s@, pos as int, end as int);
    }
    if end == pos {
        return None;
    }
    let ghost taken = s@.subrange(pos as int, end as int);
    // find the cut before the first '@'
    let mut cut: usize = pos;
    while cut < end && s[cut] != 64
        invariant
            pos <= cut <= end <= s@.len(),
            forall|k: int| pos <= k < cut ==> s@[k] != 64,
        decreases end - cut,
    {
        cut = cut + 1;
    }
    proof {
        lemma_at_cut_of(taken, cut - pos);
        assert(taken.len() == end - pos);
    }
    let mut v: Vec<u8> = Vec::new();
    let mut k: usize = pos;
    while k < cut
        invariant
            pos <= k <= cut <= end <= s@.len(),
            forall|j: int| pos <= j < end ==> is_sym(s@[j]),
            v@ =~= s@.subrange(pos as int, k as int),
        decreases cut - k,
    {
        v.push(s[k]);
        k = k + 1;
    }
    proof {
        assert(v@ =~= taken.take(at_cut(taken)));
        assert(forall|i: int| 0 <= i < v@.len() ==> is_sym(#[trigger] v@[i]));
    }
    Some((end, v))
}

proof fn lemma_sym_run_of(s: Seq<u8>, pos: int, end: int)
    requires
        0 <= pos <= end <= s.len(),
        forall|k: int| pos <= k < end ==> is_sym(s[k]),
        end == s.len() || !is_sym(s[end]),
    ensures
        sym_run(s, pos) == end - pos,
    decreases end - pos,
{
    if pos < end {
        lemma_sym_run_of(s, pos + 1, end);
    }
}

/// `at_cut` is the position of the first `@`, here characterised from the
/// outside: if all bytes before `c` differ from `@` and either `c` is the
/// length or byte `c` is `@`, then the cut is `c`.
proof fn lemma_at_cut_of(t: Seq<u8>, c: int)
    requires
        0 <= c <= t.len(),
        forall|k: int| 0 <= k < c ==> t[k] != 64,
        c == t.len() || t[c] == 64,
    ensures
        at_cut(t) == c,
    decreases c,
{
    if c == 0 {
    } else {
        lemma_at_cut_of(t.drop_first(), c - 1);
    }
}

impl Assignment {
    /// Parse one assignment line starting at `pos`.
    pub fn parse(s: &[u8], pos: usize) -> (r: Option<(usize, Assignment)>)
        requires
            pos <= s@.len(),
        ensures
            match r {
                Some((p, a)) => spec_assignment(s@, pos as int) == Some((p as int, a@)) && pos < p
                    <= s@.len(),
                None => spec_assignment(s@, pos as int) is None,
            },
    {
        let (p1, _declid) = match helpers::uint(s, pos) {
            Some(x) => x,
            None => {
                return None;
            },
        };
        let p2 = space0(s, p1);
        let (p3, kind) = match bitvec_assign(s, p2) {
            Some(x) => x,
            None => match array_assign(s, p2) {
                Some(x) => x,
                None => {
                    return None;
                },
            },
        };
        let p4 = space0(s, p3);
        let (p5, sym) = match symbol(s, p4) {
            Some((q, bytes)) => {
                let name = text::lossy_string(&bytes);
                (q, Some(name))
            },
            None => (p4, None),
        };
        let p6 = match helpers::newline(s, p5) {
            Some(x) => x,
            None => {
                return None;
            },
        };
        Some((p6, Assignment { kind, symbol: sym }))
    }
}

} // verus!
