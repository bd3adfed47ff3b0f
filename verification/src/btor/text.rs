//! Text utilities shared by the grammar and the report engine: decimal
//! rendering of unsigned integers, byte-to-string conversion for ASCII data,
//! and byte-wise lexicographic comparison of names.

use vstd::prelude::*;
use vstd::string::*;
use vstd::utf8::*;

verus! {

/// The decimal digit character for `d` (meaningful for `0 <= d <= 9`).
pub open spec fn dchar(d: nat) -> char {
    ((48 + d) as u8) as char
}

/// The decimal digit byte for `d` (meaningful for `0 <= d <= 9`).
pub open spec fn dbyte(d: nat) -> u8 {
    (48 + d) as u8
}

/// Decimal rendering of `n` as ASCII digit bytes, most significant first.
pub open spec fn dec_bytes(n: nat) -> Seq<u8>
    decreases n,
{
    if n < 10 {
        seq![dbyte(n)]
    } else {
        dec_bytes(n / 10).push(dbyte(n % 10))
    }
}

/// Decimal rendering of `n` as a character sequence.
pub open spec fn dec_chars(n: nat) -> Seq<char> {
    dec_bytes(n).map_values(|b: u8| b as char)
}

/// Every byte of `dec_bytes` is an ASCII digit.
pub proof fn lemma_dec_bytes_ascii(n: nat)
    ensures
        forall|i: int| 0 <= i < dec_bytes(n).len() ==> 48 <= #[trigger] dec_bytes(n)[i] <= 57,
    decreases n,
{
    if n < 10 {
        assert(dec_bytes(n) =~= seq![dbyte(n)]);
    } else {
        lemma_dec_bytes_ascii(n / 10);
        assert forall|i: int| 0 <= i < dec_bytes(n).len() implies 48 <= #[trigger] dec_bytes(n)[i]
            <= 57 by {
            let pre = dec_bytes(n / 10);
            assert(dec_bytes(n) == pre.push(dbyte(n % 10)));
            if i < pre.len() {
                assert(dec_bytes(n)[i] == pre[i]);
            } else {
                assert(dec_bytes(n)[i] == dbyte(n % 10));
            }
        }
    }
}

/// Bytes below 128, read as characters, are ASCII characters whose UTF-8
/// encoding is the original byte sequence.
pub proof fn lemma_ascii_bytes_to_chars(b: Seq<u8>)
    requires
        forall|i: int| 0 <= i < b.len() ==> b[i] < 128,
    ensures
        is_ascii_chars(b.map_values(|x: u8| x as char)),
        encode_utf8(b.map_values(|x: u8| x as char)) =~= b,
{
    let cs = b.map_values(|x: u8| x as char);
    assert forall|i: int| 0 <= i < cs.len() implies '\0' <= #[trigger] cs[i] <= '\u{7f}' by {
        assert(b[i] < 128);
        assert(cs[i] == b[i] as char);
    }
    is_ascii_chars_encode_utf8(cs);
    assert forall|i: int| 0 <= i < b.len() implies #[trigger] encode_utf8(cs)[i] == b[i] by {
        assert(cs[i] as u8 == encode_utf8(cs)[i]);
    }
}

/// Relies on `String::from_utf8_lossy` / `Cow::into_owned` from std: a byte
/// sequence that is entirely ASCII (every byte below 128) is valid UTF-8 and
/// decodes to exactly those bytes as characters; other sequences decode to
/// some string (invalid parts become replacement characters).
#[verifier::external_body]
pub fn lossy_string(v: &Vec<u8>) -> (r: String)
    ensures
        (forall|i: int| 0 <= i < v@.len() ==> v@[i] < 128) ==> r@ =~= v@.map_values(
            |b: u8| b as char,
        ),
{
    String::from_utf8_lossy(v.as_slice()).into_owned()
}

/// Render `n` in decimal as a `String`.
pub fn u64_to_string(n: u64) -> (r: String)
    ensures
        r@ =~= dec_chars(n as nat),
{
    let mut rev: Vec<u8> = Vec::new();
    let mut x: u64 = n;
    rev.push(48 + (x % 10) as u8);
    x = x / 10;
    while x > 0
        invariant
            rev@.len() >= 1,
            forall|i: int| 0 <= i < rev@.len() ==> 48 <= #[trigger] rev@[i] <= 57,
            dec_bytes(n as nat) =~= if x > 0 {
                dec_bytes(x as nat) + rev@.reverse()
            } else {
                rev@.reverse()
            },
        decreases x,
    {
        let d: u8 = 48 + (x % 10) as u8;
        let ghost old_rev = rev@;
        rev.push(d);
        x = x / 10;
        proof {
            assert(rev@.reverse() =~= seq![d] + old_rev.reverse());
            if x > 0 {
                assert(dec_bytes((x * 10 + (d - 48)) as nat) =~= dec_bytes(x as nat).push(d));
            }
        }
    }
    let mut digits: Vec<u8> = Vec::new();
    let mut j: usize = rev.len();
    while j > 0
        invariant
            j <= rev@.len(),
            forall|i: int| 0 <= i < rev@.len() ==> 48 <= #[trigger] rev@[i] <= 57,
            digits@ =~= rev@.subrange(j as int, rev@.len() as int).reverse(),
        decreases j,
    {
        j = j - 1;
        let b = rev[j];
        digits.push(b);
        proof {
            assert(digits@ =~= rev@.subrange(j as int, rev@.len() as int).reverse());
        }
    }
    proof {
        assert(digits@ =~= rev@.reverse());
        assert(digits@ =~= dec_bytes(n as nat));
        assert(forall|i: int| 0 <= i < digits@.len() ==> #[trigger] digits@[i] < 128);
    }
    lossy_string(&digits)
}

/// Strict byte-wise lexicographic order on byte sequences. This is the order
/// in which signal names are listed in the report.
pub open spec fn bytes_lt(a: Seq<u8>, b: Seq<u8>) -> bool
    decreases a.len(),
{
    if b.len() == 0 {
        false
    } else if a.len() == 0 {
        true
    } else if a[0] < b[0] {
        true
    } else if a[0] > b[0] {
        false
    } else {
        bytes_lt(a.drop_first(), b.drop_first())
    }
}

proof fn lemma_bytes_lt_skip(a: Seq<u8>, b: Seq<u8>, i: int)
    requires
        0 <= i <= a.len(),
        i <= b.len(),
        forall|k: int| 0 <= k < i ==> a[k] == b[k],
    ensures
        bytes_lt(a, b) == bytes_lt(a.skip(i), b.skip(i)),
    decreases i,
{
    if i > 0 {
        assert(a.len() > 0 && b.len() > 0 && a[0] == b[0]);
        assert(bytes_lt(a, b) == bytes_lt(a.drop_first(), b.drop_first()));
        assert(a.drop_first() =~= a.skip(1));
        assert(b.drop_first() =~= b.skip(1));
        lemma_bytes_lt_skip(a.skip(1), b.skip(1), i - 1);
        assert(a.skip(1).skip(i - 1) =~= a.skip(i));
        assert(b.skip(1).skip(i - 1) =~= b.skip(i));
    } else {
        assert(a.skip(0) =~= a);
        assert(b.skip(0) =~= b);
    }
}

/// Decide the byte-wise lexicographic order of two strings.
pub fn str_bytes_lt(a: &str, b: &str) -> (r: bool)
    ensures
        r == bytes_lt(a.spec_bytes(), b.spec_bytes()),
{
    let ab = a.as_bytes();
    let bb = b.as_bytes();
    let mut i: usize = 0;
    while i < ab.len() && i < bb.len()
        invariant
            i <= ab@.len(),
            i <= bb@.len(),
            ab@ == a.spec_bytes(),
            bb@ == b.spec_bytes(),
            forall|k: int| 0 <= k < i ==> ab@[k] == bb@[k],
        decreases ab@.len() - i,
    {
        let x = ab[i];
        let y = bb[i];
        if x < y {
            proof {
                lemma_bytes_lt_skip(ab@, bb@, i as int);
            }
            return true;
        }
        if x > y {
            proof {
                lemma_bytes_lt_skip(ab@, bb@, i as int);
            }
            return false;
        }
        i = i + 1;
    }
    proof {
        lemma_bytes_lt_skip(ab@, bb@, i as int);
    }
    ab.len() < bb.len()
}

/// The order `bytes_lt` is irreflexive.
pub proof fn lemma_bytes_lt_irrefl(a: Seq<u8>)
    ensures
        !bytes_lt(a, a),
    decreases a.len(),
{
    if a.len() > 0 {
        lemma_bytes_lt_irrefl(a.drop_first());
    }
}

/// The order `bytes_lt` is connex: two sequences are ordered one way or the
/// other, or they are equal.
pub proof fn lemma_bytes_lt_connex(a: Seq<u8>, b: Seq<u8>)
    ensures
        bytes_lt(a, b) || bytes_lt(b, a) || a == b,
    decreases a.len(),
{
    if a.len() == 0 && b.len() == 0 {
        assert(a =~= b);
    } else if a.len() > 0 && b.len() > 0 && a[0] == b[0] {
        lemma_bytes_lt_connex(a.drop_first(), b.drop_first());
        if a.drop_first() == b.drop_first() {
            assert(a.drop_first().len() == b.drop_first().len());
            assert(a.len() == b.len());
            assert forall|i: int| 0 <= i < a.len() implies a[i] == b[i] by {
                if i > 0 {
                    assert(a.drop_first()[i - 1] == a[i]);
                    assert(b.drop_first()[i - 1] == b[i]);
                    assert(a.drop_first()[i - 1] == b.drop_first()[i - 1]);
                }
            }
            assert(a =~= b);
        }
    }
}

/// The order `bytes_lt` is transitive.
pub proof fn lemma_bytes_lt_trans(a: Seq<u8>, b: Seq<u8>, c: Seq<u8>)
    requires
        bytes_lt(a, b),
        bytes_lt(b, c),
    ensures
        bytes_lt(a, c),
    decreases a.len(),
{
    if a.len() > 0 && b.len() > 0 && c.len() > 0 && a[0] == b[0] && b[0] == c[0] {
        lemma_bytes_lt_trans(a.drop_first(), b.drop_first(), c.drop_first());
    }
}

/// Decide whether two strings consist of the same bytes.
pub fn str_bytes_eq(a: &str, b: &str) -> (r: bool)
    ensures
        r == (a.spec_bytes() == b.spec_bytes()),
{
    let ab = a.as_bytes();
    let bb = b.as_bytes();
    if ab.len() != bb.len() {
        return false;
    }
    let mut i: usize = 0;
    while i < ab.len()
        invariant
            i <= ab@.len(),
            ab@.len() == bb@.len(),
            ab@ == a.spec_bytes(),
            bb@ == b.spec_bytes(),
            forall|k: int| 0 <= k < i ==> ab@[k] == bb@[k],
        decreases ab@.len() - i,
    {
        if ab[i] != bb[i] {
            return false;
        }
        i = i + 1;
    }
    proof {
        assert(ab@ =~= bb@);
    }
    true
}

/// `n` space characters (none for negative `n`).
pub open spec fn spaces(n: int) -> Seq<char> {
    Seq::new(
        if n >= 0 {
            n as nat
        } else {
            0
        },
        |i: int| ' ',
    )
}

/// Append `n` spaces to `buf`.
pub fn push_spaces(buf: &mut String, n: usize)
    ensures
        final(buf)@ =~= old(buf)@ + spaces(n as int),
{
    proof {
        reveal_strlit(" ");
    }
    let mut k: usize = 0;
    while k < n
        invariant
            k <= n,
            " "@ =~= seq![' '],
            buf@ =~= old(buf)@ + spaces(k as int),
        decreases n - k,
    {
        buf.append(" ");
        k = k + 1;
        proof {
            assert(buf@ =~= old(buf)@ + spaces(k as int));
        }
    }
}

/// Powers of ten.
pub open spec fn pow10(e: nat) -> nat
    decreases e,
{
    if e == 0 {
        1
    } else {
        10 * pow10((e - 1) as nat)
    }
}

/// A decimal rendering has at least one digit.
pub proof fn lemma_dec_bytes_pos(n: nat)
    ensures
        dec_bytes(n).len() >= 1,
    decreases n,
{
    if n >= 10 {
        lemma_dec_bytes_pos(n / 10);
    }
}

/// A number below `pow10(d)` has at most `d` decimal digits.
pub proof fn lemma_dec_bytes_len(n: nat, d: nat)
    requires
        d >= 1,
        n < pow10(d),
    ensures
        1 <= dec_bytes(n).len() <= d,
    decreases n,
{
    if n < 10 {
    } else {
        assert(pow10(d) == 10 * pow10((d - 1) as nat));
        if d == 1 {
            assert(pow10(0) == 1);
            assert(false);
        }
        vstd::arithmetic::div_mod::lemma_fundamental_div_mod(n as int, 10);
        assert(10 * (n as int / 10) <= n);
        assert(n / 10 < pow10((d - 1) as nat));
        lemma_dec_bytes_len(n / 10, (d - 1) as nat);
    }
}

/// `u64` values have at most 20 decimal digits.
pub proof fn lemma_dec_bytes_len_u64(n: u64)
    ensures
        1 <= dec_bytes(n as nat).len() <= 20,
{
    reveal_with_fuel(pow10, 21);
    assert(n < pow10(20));
    lemma_dec_bytes_len(n as nat, 20);
}

/// The number of decimal digits of `n`.
pub fn dec_len(n: u64) -> (r: usize)
    ensures
        r == dec_bytes(n as nat).len(),
        1 <= r <= 20,
{
    proof {
        lemma_dec_bytes_len_u64(n);
    }
    let mut x: u64 = n;
    let mut c: usize = 1;
    while x >= 10
        invariant
            c >= 1,
            dec_bytes(n as nat).len() == dec_bytes(x as nat).len() + c - 1,
            dec_bytes(n as nat).len() <= 20,
        decreases x,
    {
        proof {
            lemma_dec_bytes_pos((x / 10) as nat);
        }
        x = x / 10;
        c = c + 1;
    }
    c
}

} // verus!
