//! Property-name extraction from BTOR2 model source text.
//!
//! A model line such as `5 bad 4 overflow-check` declares a property: node
//! identifier, kind, referenced operand, and an optional human-readable
//! name. Lines are retained when their second space-delimited token is
//! exactly `bad` or `justice`; retained lines are numbered from zero in file
//! order, and that ordinal is the key that correlates them with the
//! witness-header properties. A retained line whose node or name cannot be
//! read still occupies its ordinal but yields no table entry.

use vstd::prelude::*;
use vstd::slice::slice_subrange;
use vstd::utf8::encode_utf8;
use vstd::utf8::valid_utf8;

use crate::btor::helpers;
use crate::btor::witness_format::PropKind;

verus! {

/// A property declaration recovered from the model source.
#[derive(Debug, Clone)]
pub struct Property {
    /// The model node identifier.
    pub node: usize,
    /// The property kind (a redundant copy of the header's kind).
    pub _kind: PropKind,
    /// The optional human-readable name.
    pub name: Option<String>,
}

/// The mathematical content of a `Property`.
pub ghost struct PropertyView {
    pub node: usize,
    pub kind: PropKind,
    pub name: Option<Seq<char>>,
}

impl View for Property {
    type V = PropertyView;

    open spec fn view(&self) -> PropertyView {
        PropertyView {
            node: self.node,
            kind: self._kind,
            name: match self.name {
                Option::Some(n) => Option::Some(n@),
                Option::None => Option::None,
            },
        }
    }
}

/// A property declaration at the byte level: the name is kept as the raw
/// bytes of its token.
pub ghost struct RawProperty {
    pub node: usize,
    pub kind: PropKind,
    pub name: Option<Seq<u8>>,
}

/// A `PropertyView` abstracts a `RawProperty` when they agree field by
/// field, the name through its UTF-8 encoding.
pub open spec fn prop_abstracts(rp: RawProperty, pv: PropertyView) -> bool {
    &&& pv.node == rp.node
    &&& pv.kind == rp.kind
    &&& match (rp.name, pv.name) {
        (Some(rb), Some(nc)) => encode_utf8(nc) == rb,
        (None, None) => true,
        _ => false,
    }
}

/// A table of property views abstracts a raw table entry by entry.
pub open spec fn table_abstracts(
    raw: Seq<(u64, RawProperty)>,
    tv: Seq<(u64, PropertyView)>,
) -> bool {
    &&& raw.len() == tv.len()
    &&& forall|k: int|
        0 <= k < raw.len() ==> (#[trigger] tv[k]).0 == raw[k].0 && prop_abstracts(
            raw[k].1,
            tv[k].1,
        )
}

/// The position of the first newline byte at or after `pos` (or the end).
pub open spec fn line_end(s: Seq<u8>, pos: int) -> int
    decreases s.len() - pos,
{
    if pos < 0 || pos >= s.len() {
        s.len() as int
    } else if s[pos] == 10 {
        pos
    } else {
        line_end(s, pos + 1)
    }
}

/// A line without its trailing carriage return, if it has one.
pub open spec fn strip_cr(line: Seq<u8>) -> Seq<u8> {
    if line.len() > 0 && line.last() == 13 {
        line.drop_last()
    } else {
        line
    }
}

/// The position of the first space byte at or after `pos` (or the end).
pub open spec fn token_end(line: Seq<u8>, pos: int) -> int
    decreases line.len() - pos,
{
    if pos < 0 || pos >= line.len() {
        line.len() as int
    } else if line[pos] == 32 {
        pos
    } else {
        token_end(line, pos + 1)
    }
}

/// The bytes of the token `bad`.
pub open spec fn bad_bytes() -> Seq<u8> {
    seq![98u8, 97u8, 100u8]
}

/// The bytes of the token `justice`.
pub open spec fn justice_bytes() -> Seq<u8> {
    seq![106u8, 117u8, 115u8, 116u8, 105u8, 99u8, 101u8]
}

/// Is this line retained: valid UTF-8, with `bad` or `justice` as its
/// second space-delimited token?
pub open spec fn retained(line: Seq<u8>) -> bool {
    let t0e = token_end(line, 0);
    valid_utf8(line) && t0e < line.len() && {
        let t1 = line.subrange(t0e + 1, token_end(line, t0e + 1));
        t1 == bad_bytes() || t1 == justice_bytes()
    }
}

/// A token read as an unsigned number that fits a `usize`: one or more
/// digits and nothing else.
pub open spec fn usize_token(t: Seq<u8>) -> Option<int> {
    if t.len() > 0 && (forall|i: int| 0 <= i < t.len() ==> helpers::is_digit(t[i]))
        && helpers::dec_val(t) <= usize::MAX {
        Some(helpers::dec_val(t) as int)
    } else {
        None
    }
}

/// The table entry of a retained line, if its node parses; the name is the
/// fourth token when present (and itself valid UTF-8).
pub open spec fn line_entry(line: Seq<u8>) -> Option<RawProperty> {
    let t0e = token_end(line, 0);
    let t0 = line.subrange(0, t0e);
    match usize_token(t0) {
        None => None,
        Some(node) => {
            let t1e = token_end(line, t0e + 1);
            let kind = if line.subrange(t0e + 1, t1e) == bad_bytes() {
                PropKind::Bad
            } else {
                PropKind::Justice
            };
            if t1e >= line.len() {
                Some(RawProperty { node: node as usize, kind, name: None })
            } else {
                let t2e = token_end(line, t1e + 1);
                if t2e >= line.len() {
                    Some(RawProperty { node: node as usize, kind, name: None })
                } else {
                    let t3 = line.subrange(t2e + 1, token_end(line, t2e + 1));
                    if valid_utf8(t3) {
                        Some(RawProperty { node: node as usize, kind, name: Some(t3) })
                    } else {
                        None
                    }
                }
            }
        },
    }
}

/// The property table of the model source from `pos` on, the next retained
/// line receiving ordinal `ord`.
pub open spec fn spec_prop_table_from(s: Seq<u8>, pos: int, ord: int) -> Seq<(u64, RawProperty)>
    decreases s.len() + 1 - pos,
{
    if pos < 0 || pos >= s.len() {
        Seq::empty()
    } else {
        let e = line_end(s, pos);
        if !(pos <= e <= s.len()) {
            Seq::empty()
        } else {
            let line = strip_cr(s.subrange(pos, e));
            if retained(line) {
                match line_entry(line) {
                    Some(rp) => seq![(ord as u64, rp)] + spec_prop_table_from(s, e + 1, ord + 1),
                    None => spec_prop_table_from(s, e + 1, ord + 1),
                }
            } else {
                spec_prop_table_from(s, e + 1, ord)
            }
        }
    }
}

/// The property table of the whole model source.
pub open spec fn spec_prop_table(s: Seq<u8>) -> Seq<(u64, RawProperty)> {
    spec_prop_table_from(s, 0, 0)
}

// ---------------------------------------------------------------------------
// Executable extraction.
// ---------------------------------------------------------------------------

/// Relies on `std::str::from_utf8`: it succeeds exactly on valid UTF-8, and
/// the resulting string's UTF-8 encoding is the input itself.
#[verifier::external_body]
fn utf8_check<'a>(v: &'a [u8]) -> (r: Option<&'a str>)
    ensures
        match r {
            Some(t) => valid_utf8(v@) && encode_utf8(t@) =~= v@,
            None => !valid_utf8(v@),
        },
{
    std::str::from_utf8(v).ok()
}

proof fn lemma_line_end_of(s: Seq<u8>, pos: int, e: int)
    requires
        0 <= pos <= e <= s.len(),
        forall|k: int| pos <= k < e ==> s[k] != 10,
        e == s.len() || s[e] == 10,
    ensures
        line_end(s, pos) == e,
    decreases e - pos,
{
    if pos < e {
        lemma_line_end_of(s, pos + 1, e);
    }
}

proof fn lemma_token_end_of(line: Seq<u8>, pos: int, e: int)
    requires
        0 <= pos <= e <= line.len(),
        forall|k: int| pos <= k < e ==> line[k] != 32,
        e == line.len() || line[e] == 32,
    ensures
        token_end(line, pos) == e,
    decreases e - pos,
{
    if pos < e {
        lemma_token_end_of(line, pos + 1, e);
    }
}

/// Find the end of the line starting at `pos`.
fn scan_line_end(s: &[u8], pos: usize) -> (r: usize)
    requires
        pos <= s@.len(),
    ensures
        r == line_end(s@, pos as int),
        pos <= r <= s@.len(),
{
    let mut i: usize = pos;
    while i < s.len() && s[i] != 10
        invariant
            pos <= i <= s@.len(),
            forall|k: int| pos <= k < i ==> s@[k] != 10,
        decreases s@.len() - i,
    {
        i = i + 1;
    }
    proof {
        lemma_line_end_of(s@, pos as int, i as int);
    }
    i
}

/// Find the end of the token starting at `pos`.
fn scan_token_end(line: &[u8], pos: usize) -> (r: usize)
    requires
        pos <= line@.len(),
    ensures
        r == token_end(line@, pos as int),
        pos <= r <= line@.len(),
{
    let mut i: usize = pos;
    while i < line.len() && line[i] != 32
        invariant
            pos <= i <= line@.len(),
            forall|k: int| pos <= k < i ==> line@[k] != 32,
        decreases line@.len() - i,
    {
        i = i + 1;
    }
    proof {
        lemma_token_end_of(line@, pos as int, i as int);
    }
    i
}

/// Parse a token as an unsigned number fitting a `usize`.
fn parse_usize_token(t: &[u8]) -> (r: Option<usize>)
    ensures
        match r {
            Some(v) => usize_token(t@) == Some(v as int),
            None => usize_token(t@) is None,
        },
{
    if t.len() == 0 {
        return None;
    }
    let mut val: usize = 0;
    let mut i: usize = 0;
    while i < t.len()
        invariant
            i <= t@.len(),
            t@.len() > 0,
            forall|k: int| 0 <= k < i ==> helpers::is_digit(t@[k]),
            val == helpers::dec_val(t@.subrange(0, i as int)),
        decreases t@.len() - i,
    {
        let b = t[i];
        if !(48 <= b && b <= 57) {
            return None;
        }
        let d: usize = (b - 48) as usize;
        proof {
            helpers::lemma_radix_val_step(t@, 0, i as int, 10);
            vstd::arithmetic::div_mod::lemma_fundamental_div_mod((usize::MAX - d) as int, 10);
        }
        if val > (usize::MAX - d) / 10 {
            proof {
                helpers::lemma_radix_val_monotone(t@, 0, i as int + 1, t@.len() as int, 10);
                assert(t@.subrange(0, t@.len() as int) =~= t@);
            }
            return None;
        }
        val = val * 10 + d;
        i = i + 1;
    }
    proof {
        assert(t@.subrange(0, t@.len() as int) =~= t@);
    }
    Some(val)
}

/// Classify one line: whether it is retained, and its table entry if so.
fn line_property(line: &[u8]) -> (r: (bool, Option<Property>))
    ensures
        r.0 == retained(line@),
        retained(line@) ==> (match (line_entry(line@), r.1) {
            (Some(rp), Some(p)) => prop_abstracts(rp, p@),
            (None, None) => true,
            _ => false,
        }),
        !retained(line@) ==> r.1 is None,
{
    if utf8_check(line).is_none() {
        return (false, None);
    }
    let t0e = scan_token_end(line, 0);
    if t0e >= line.len() {
        return (false, None);
    }
    let t1e = scan_token_end(line, t0e + 1);
    let t1len = t1e - (t0e + 1);
    let is_bad = t1len == 3 && line[t0e + 1] == 98 && line[t0e + 2] == 97 && line[t0e + 3] == 100;
    let is_jus = t1len == 7 && line[t0e + 1] == 106 && line[t0e + 2] == 117 && line[t0e + 3]
        == 115 && line[t0e + 4] == 116 && line[t0e + 5] == 105 && line[t0e + 6] == 99 && line[t0e
        + 7] == 101;
    proof {
        let t1 = line@.subrange(t0e as int + 1, t1e as int);
        assert(bad_bytes().len() == 3 && justice_bytes().len() == 7);
        if is_bad {
            assert(t1 =~= bad_bytes());
        } else {
            assert(t1 != bad_bytes()) by {
                if t1 == bad_bytes() {
                    assert(t1.len() == 3);
                    assert(t1[0] == 98 && t1[1] == 97 && t1[2] == 100);
                    assert(line@[t0e as int + 1] == t1[0]);
                    assert(line@[t0e as int + 2] == t1[1]);
                    assert(line@[t0e as int + 3] == t1[2]);
                }
            }
        }
        if is_jus {
            assert(t1 =~= justice_bytes());
        } else {
            assert(t1 != justice_bytes()) by {
                if t1 == justice_bytes() {
                    assert(t1.len() == 7);
                    assert(t1[0] == 106 && t1[1] == 117 && t1[2] == 115 && t1[3] == 116 && t1[4]
                        == 105 && t1[5] == 99 && t1[6] == 101);
                    assert(line@[t0e as int + 1] == t1[0]);
                    assert(line@[t0e as int + 2] == t1[1]);
                    assert(line@[t0e as int + 3] == t1[2]);
                    assert(line@[t0e as int + 4] == t1[3]);
                    assert(line@[t0e as int + 5] == t1[4]);
                    assert(line@[t0e as int + 6] == t1[5]);
                    assert(line@[t0e as int + 7] == t1[6]);
                }
            }
        }
    }
    if !(is_bad || is_jus) {
        return (false, None);
    }
    // the line is retained; read node and optional name
    let t0s: &[u8] = slice_subrange(line, 0, t0e);
    let node = match parse_usize_token(t0s) {
        Some(v) => v,
        None => {
            return (true, None);
        },
    };
    let kind = if is_bad {
        PropKind::Bad
    } else {
        PropKind::Justice
    };
    if t1e >= line.len() {
        return (true, Some(Property { node, _kind: kind, name: None }));
    }
    let t2e = scan_token_end(line, t1e + 1);
    if t2e >= line.len() {
        return (true, Some(Property { node, _kind: kind, name: None }));
    }
    let t3e = scan_token_end(line, t2e + 1);
    let t3: &[u8] = slice_subrange(line, t2e + 1, t3e);
    match utf8_check(t3) {
        Some(st) => {
            let name = st.to_owned();
            (true, Some(Property { node, _kind: kind, name: Some(name) }))
        },
        None => (true, None),
    }
}

/// Extract the names of properties found in the BTOR2 model source.
///
/// `bad` and `justice` properties are supported, such as:
/// `43011 bad 43010 core-0-illegal-instruction`. The key of each entry is
/// the 0-based ordinal of its line among the retained lines.
pub fn get_property_names(src: &[u8]) -> (r: Vec<(u64, Property)>)
    ensures
        table_abstracts(spec_prop_table(src@), crate::btor::table_views(r@)),
{
    let mut out: Vec<(u64, Property)> = Vec::new();
    let ghost mut raw_acc: Seq<(u64, RawProperty)> = Seq::empty();
    let mut pos: usize = 0;
    let mut ord: u64 = 0;
    proof {
        assert(raw_acc + spec_prop_table_from(src@, 0, 0) =~= spec_prop_table(src@));
        assert(crate::btor::table_views(out@) =~= Seq::<(u64, PropertyView)>::empty());
    }
    while pos < src.len()
        invariant
            pos <= src@.len(),
            ord as int <= pos as int,
            spec_prop_table(src@) =~= raw_acc + spec_prop_table_from(
                src@,
                pos as int,
                ord as int,
            ),
            table_abstracts(raw_acc, crate::btor::table_views(out@)),
        decreases src@.len() - pos,
    {
        let e = scan_line_end(src, pos);
        let lend = if e > pos && src[e - 1] == 13 {
            e - 1
        } else {
            e
        };
        let line: &[u8] = slice_subrange(src, pos, lend);
        proof {
            assert(line@ =~= strip_cr(src@.subrange(pos as int, e as int)));
        }
        let (is_retained, entry) = line_property(line);
        let ghost old_raw = raw_acc;
        let ghost old_ord = ord as int;
        if is_retained {
            match entry {
                Some(p) => {
                    let ghost rp = (match line_entry(line@) {
                        Some(rp0) => rp0,
                        None => arbitrary(),
                    });
                    let ghost pre_out = out@;
                    out.push((ord, p));
                    proof {
                        raw_acc = raw_acc.push((ord, rp));
                        assert(crate::btor::table_views(out@) =~= crate::btor::table_views(
                            pre_out,
                        ).push((ord, p@)));
                        assert(table_abstracts(raw_acc, crate::btor::table_views(out@)));
                    }
                },
                None => {},
            }
            ord = ord + 1;
        }
        proof {
            let s = src@;
            let ln = strip_cr(s.subrange(pos as int, e as int));
            assert(spec_prop_table_from(s, pos as int, old_ord) == (if retained(ln) {
                match line_entry(ln) {
                    Some(rp2) => seq![(old_ord as u64, rp2)] + spec_prop_table_from(
                        s,
                        e as int + 1,
                        old_ord + 1,
                    ),
                    None => spec_prop_table_from(s, e as int + 1, old_ord + 1),
                }
            } else {
                spec_prop_table_from(s, e as int + 1, old_ord)
            }));
            if is_retained {
                match line_entry(line@) {
                    Some(rp2) => {
                        assert(raw_acc =~= old_raw + seq![(old_ord as u64, rp2)]);
                        assert(old_raw + (seq![(old_ord as u64, rp2)] + spec_prop_table_from(
                            s,
                            e as int + 1,
                            old_ord + 1,
                        )) =~= raw_acc + spec_prop_table_from(s, e as int + 1, old_ord + 1));
                    },
                    None => {},
                }
            }
        }
        if e < src.len() {
            pos = e + 1;
        } else {
            pos = src.len();
            proof {
                assert(spec_prop_table_from(src@, e as int + 1, ord as int) =~= Seq::<
                    (u64, RawProperty),
                >::empty());
                assert(spec_prop_table_from(src@, src@.len() as int, ord as int) =~= Seq::<
                    (u64, RawProperty),
                >::empty());
            }
        }
    }
    proof {
        assert(spec_prop_table_from(src@, pos as int, ord as int) =~= Seq::<
            (u64, RawProperty),
        >::empty());
        assert(spec_prop_table(src@) =~= raw_acc);
    }
    out
}

} // verus!
