//! The BTOR2 witness machinery: the witness object with its entry points,
//! enrichment with property names from the model source, and the
//! signal-flow collection engine.

pub mod assignment;
pub mod btor2;
pub mod helpers;
pub mod report;
pub mod text;
pub mod witness_format;

pub use witness_format::Prop;
pub use witness_format::PropKind;
pub use witness_format::PropVec;

use vstd::prelude::*;
use vstd::string::*;

use crate::btor::btor2::Property;
use crate::btor::btor2::PropertyView;
use crate::btor::witness_format::PropView;
use crate::btor::witness_format::WitnessFormat;
use crate::btor::witness_format::WitnessFormatView;
use crate::btor::witness_format::prop_views;
use crate::btor::witness_format::spec_witness_format;

verus! {

/// The AST for the BTOR2 witness format.
#[derive(Debug, Clone)]
pub struct Witness {
    pub inner: WitnessFormat,
}

impl View for Witness {
    type V = WitnessFormatView;

    open spec fn view(&self) -> WitnessFormatView {
        self.inner@
    }
}

/// Why a witness text was rejected.
#[derive(Debug, Clone, Copy, PartialEq, Eq, Structural)]
pub enum WitnessError {
    /// The input was empty: there is nothing to parse, which is reported as
    /// its own condition, distinct from a malformed trace.
    EmptyInput,
    /// The grammar rejected the input; `at` is the offset at which the
    /// witness format was expected (after any leading comments).
    Grammar { at: usize },
    /// The grammar matched a prefix, but non-empty text remains; `at` is the
    /// end of the matched prefix.
    Unconsumed { at: usize },
}

/// The position after any leading comments.
pub open spec fn spec_comments(s: Seq<u8>, pos: int) -> int
    decreases s.len() - pos,
{
    match helpers::spec_comment(s, pos) {
        Some(p) => if pos < p <= s.len() {
            spec_comments(s, p)
        } else {
            pos
        },
        None => pos,
    }
}

/// Skip leading comments.
fn skip_comments(s: &[u8], pos: usize) -> (r: usize)
    requires
        pos <= s@.len(),
    ensures
        r == spec_comments(s@, pos as int),
        pos <= r <= s@.len(),
{
    let mut cur: usize = pos;
    let mut go = true;
    while go
        invariant
            pos <= cur <= s@.len(),
            go ==> spec_comments(s@, pos as int) == spec_comments(s@, cur as int),
            !go ==> spec_comments(s@, pos as int) == cur,
        decreases s@.len() - cur, (if go {
            1int
        } else {
            0int
        }),
    {
        match helpers::comment(s, cur) {
            Some(p) => {
                cur = p;
            },
            None => {
                go = false;
            },
        }
    }
    cur
}

impl Witness {
    /// Parse a witness from raw bytes. An empty input is its own condition;
    /// leading comments are skipped; after the grammar matches, any
    /// remaining text is an error of its own.
    pub fn from_bytes(s: &[u8]) -> (r: Result<Witness, WitnessError>)
        ensures
            ({
                let start = spec_comments(s@, 0);
                match r {
                    Result::Ok(w) => s@.len() > 0 && spec_witness_format(s@, start) == Some(
                        (s@.len() as int, w@),
                    ),
                    Result::Err(e) => match e {
                        WitnessError::EmptyInput => s@.len() == 0,
                        WitnessError::Grammar { at } => s@.len() > 0 && spec_witness_format(
                            s@,
                            start,
                        ) is None && at == start,
                        WitnessError::Unconsumed { at } => s@.len() > 0 && (
                        match spec_witness_format(s@, start) {
                            Some((e2, _)) => e2 == at && at < s@.len(),
                            None => false,
                        }),
                    },
                }
            }),
    {
        if s.len() == 0 {
            return Err(WitnessError::EmptyInput);
        }
        let start = skip_comments(s, 0);
        match WitnessFormat::parse(s, start) {
            None => Err(WitnessError::Grammar { at: start }),
            Some((end, inner)) => {
                if end < s.len() {
                    Err(WitnessError::Unconsumed { at: end })
                } else {
                    Ok(Witness { inner })
                }
            },
        }
    }

    /// Parse a witness from text, as `from_bytes` on its UTF-8 bytes.
    pub fn from_str(input: &str) -> (r: Result<Witness, WitnessError>)
        ensures
            ({
                let s = input.spec_bytes();
                let start = spec_comments(s, 0);
                match r {
                    Result::Ok(w) => s.len() > 0 && spec_witness_format(s, start) == Some(
                        (s.len() as int, w@),
                    ),
                    Result::Err(e) => match e {
                        WitnessError::EmptyInput => s.len() == 0,
                        WitnessError::Grammar { at } => s.len() > 0 && spec_witness_format(
                            s,
                            start,
                        ) is None && at == start,
                        WitnessError::Unconsumed { at } => s.len() > 0 && (
                        match spec_witness_format(s, start) {
                            Some((e2, _)) => e2 == at && at < s.len(),
                            None => false,
                        }),
                    },
                }
            }),
    {
        Witness::from_bytes(input.as_bytes())
    }
}

impl WitnessError {
    /// A descriptive message for this error, quoting the unparsed remainder
    /// of `input` at the failure point.
    pub fn message(&self, input: &[u8]) -> (r: String)
        ensures
            match *self {
                WitnessError::EmptyInput => r@ =~= "No satisfiable property found."@,
                WitnessError::Grammar { at } => exists|t: Seq<char>|
                    r@ =~= "Failed to parse witness format. Remaining: "@ + t && ((at
                        <= input@.len() && forall|i: int|
                        at <= i < input@.len() ==> input@[i] < 128) ==> t =~= input@.skip(
                        at as int,
                    ).map_values(|b: u8| b as char)),
                WitnessError::Unconsumed { at } => exists|t: Seq<char>|
                    r@ =~= "Could not parse full input. Remaining: "@ + t && ((at <= input@.len()
                        && forall|i: int| at <= i < input@.len() ==> input@[i] < 128) ==> t
                        =~= input@.skip(at as int).map_values(|b: u8| b as char)),
            },
    {
        match *self {
            WitnessError::EmptyInput => {
                let mut buf = String::new();
                buf.append("No satisfiable property found.");
                buf
            },
            WitnessError::Grammar { at } => {
                let mut buf = String::new();
                buf.append("Failed to parse witness format. Remaining: ");
                let tail = remainder_string(input, at);
                buf.append(tail.as_str());
                buf
            },
            WitnessError::Unconsumed { at } => {
                let mut buf = String::new();
                buf.append("Could not parse full input. Remaining: ");
                let tail = remainder_string(input, at);
                buf.append(tail.as_str());
                buf
            },
        }
    }
}

/// The bytes of `input` from `at` on, as a string (exact when they are all
/// ASCII).
fn remainder_string(input: &[u8], at: usize) -> (r: String)
    ensures
        (at <= input@.len() && forall|i: int| at <= i < input@.len() ==> input@[i] < 128) ==> r@
            =~= input@.skip(at as int).map_values(|b: u8| b as char),
{
    let mut bytes: Vec<u8> = Vec::new();
    let mut i: usize = if at <= input.len() {
        at
    } else {
        input.len()
    };
    let ghost start = i as int;
    while i < input.len()
        invariant
            0 <= start,
            start <= i as int <= input@.len(),
            bytes@ =~= input@.subrange(start, i as int),
        decreases input@.len() - i,
    {
        bytes.push(input[i]);
        i = i + 1;
        proof {
            assert(bytes@ =~= input@.subrange(start, i as int));
        }
    }
    proof {
        if at <= input@.len() {
            assert(bytes@ =~= input@.skip(at as int));
        }
    }
    text::lossy_string(&bytes)
}

/// Clone one property, preserving its view.
fn clone_property(p: &Property) -> (r: Property)
    ensures
        r@ == p@,
{
    Property {
        node: p.node,
        _kind: p._kind,
        name: match &p.name {
            Some(n) => Some(n.clone()),
            None => None,
        },
    }
}

/// Clone one property reference, preserving its view.
fn clone_prop(p: &Prop) -> (r: Prop)
    ensures
        r@ == p@,
{
    Prop {
        kind: p.kind,
        idx: p.idx,
        property: match &p.property {
            Some(pr) => Some(clone_property(pr)),
            None => None,
        },
    }
}

// ---------------------------------------------------------------------------
// Enrichment: attaching property details to the header's references.
// ---------------------------------------------------------------------------

/// The views of a property-name table.
pub open spec fn table_views(t: Seq<(u64, Property)>) -> Seq<(u64, PropertyView)> {
    t.map_values(|e: (u64, Property)| (e.0, e.1@))
}

/// The smallest index of an entry with the given key, or `-1`.
pub open spec fn first_key(t: Seq<(u64, PropertyView)>, key: u64) -> int
    decreases t.len(),
{
    if t.len() == 0 {
        -1
    } else if t[0].0 == key {
        0
    } else {
        let r = first_key(t.drop_first(), key);
        if r < 0 {
            -1
        } else {
            1 + r
        }
    }
}

/// Enrichment: walk the property references in order; give each the detail
/// of the first table entry with its index, removing that entry, so a second
/// reference with the same index is not served twice.
pub open spec fn spec_enrich(ps: Seq<PropView>, t: Seq<(u64, PropertyView)>) -> Seq<PropView>
    decreases ps.len(),
{
    if ps.len() == 0 {
        Seq::empty()
    } else {
        let head = ps[0];
        let j = first_key(t, head.idx);
        if j >= 0 {
            seq![PropView { kind: head.kind, idx: head.idx, property: Some(t[j].1) }]
                + spec_enrich(ps.drop_first(), t.remove(j))
        } else {
            seq![head] + spec_enrich(ps.drop_first(), t)
        }
    }
}

/// `first_key` is the index found by a left-to-right scan.
proof fn lemma_first_key_of(t: Seq<(u64, PropertyView)>, key: u64, j: int)
    requires
        0 <= j <= t.len(),
        forall|q: int| 0 <= q < j ==> (#[trigger] t[q]).0 != key,
        j == t.len() || t[j].0 == key,
    ensures
        first_key(t, key) == if j == t.len() {
            -1int
        } else {
            j
        },
    decreases j,
{
    if t.len() == 0 {
    } else if j == 0 {
    } else {
        assert forall|q: int| 0 <= q < j - 1 implies (#[trigger] t.drop_first()[q]).0 != key by {
            assert(t.drop_first()[q] == t[q + 1]);
        }
        if j < t.len() {
            assert(t.drop_first()[j - 1] == t[j]);
        }
        lemma_first_key_of(t.drop_first(), key, j - 1);
    }
}

impl Witness {
    /// Merge extracted property details into the header's property
    /// references by declaration-order index. Frames are untouched;
    /// references are never removed or reordered; each table entry serves at
    /// most one reference.
    pub fn add_prop_names(&mut self, table: Vec<(u64, Property)>)
        ensures
            final(self)@.frames == old(self)@.frames,
            final(self)@.props == spec_enrich(old(self)@.props, table_views(table@)),
    {
        let ghost all = old(self)@.props;
        let mut tbl = table;
        let mut out: Vec<Prop> = Vec::new();
        let mut k: usize = 0;
        proof {
            assert(all.skip(0) =~= all);
            assert(prop_views(out@) + spec_enrich(all.skip(0), table_views(tbl@)) =~= spec_enrich(
                all,
                table_views(table@),
            ));
        }
        while k < self.inner.header.props.len()
            invariant
                k <= self.inner.header.props@.len(),
                self.inner.header.props@.len() == all.len(),
                all == prop_views(self.inner.header.props@),
                self.inner == old(self).inner,
                spec_enrich(all, table_views(table@)) =~= prop_views(out@) + spec_enrich(
                    all.skip(k as int),
                    table_views(tbl@),
                ),
            decreases self.inner.header.props@.len() - k,
        {
            let idx = self.inner.header.props[k].idx;
            proof {
                assert(all[k as int] == self.inner.header.props@[k as int]@);
            }
            // scan the table for the first entry with this index
            let mut j: usize = 0;
            while j < tbl.len() && tbl[j].0 != idx
                invariant
                    j <= tbl@.len(),
                    forall|q: int| 0 <= q < j ==> (#[trigger] table_views(tbl@)[q]).0 != idx,
                decreases tbl@.len() - j,
            {
                proof {
                    assert(table_views(tbl@)[j as int].0 == tbl@[j as int].0);
                }
                j = j + 1;
            }
            let ghost tv = table_views(tbl@);
            proof {
                if j < tbl@.len() {
                    assert(tv[j as int].0 == tbl@[j as int].0);
                }
                lemma_first_key_of(tv, idx, j as int);
            }
            let ghost head = all[k as int];
            if j < tbl.len() {
                let entry = tbl.remove(j);
                let np = Prop { kind: self.inner.header.props[k].kind, idx, property: Some(
                    entry.1,
                ) };
                proof {
                    assert(np@ == PropView { kind: head.kind, idx: head.idx, property: Some(
                        tv[j as int].1,
                    ) });
                }
                let ghost pre_out = out@;
                out.push(np);
                proof {
                    assert(table_views(tbl@) =~= tv.remove(j as int));
                    assert(spec_enrich(all.skip(k as int), tv) == seq![np@] + spec_enrich(
                        all.skip(k as int).drop_first(),
                        tv.remove(j as int),
                    ));
                    assert(all.skip(k as int).drop_first() =~= all.skip(k as int + 1));
                    assert(prop_views(out@) =~= prop_views(pre_out) + seq![np@]);
                    assert(spec_enrich(all, table_views(table@)) =~= prop_views(out@)
                        + spec_enrich(all.skip(k as int + 1), table_views(tbl@)));
                }
            } else {
                let np = clone_prop(&self.inner.header.props[k]);
                let ghost pre_out = out@;
                out.push(np);
                proof {
                    assert(spec_enrich(all.skip(k as int), tv) == seq![head] + spec_enrich(
                        all.skip(k as int).drop_first(),
                        tv,
                    ));
                    assert(all.skip(k as int).drop_first() =~= all.skip(k as int + 1));
                    assert(prop_views(out@) =~= prop_views(pre_out) + seq![np@]);
                    assert(spec_enrich(all, table_views(table@)) =~= prop_views(out@)
                        + spec_enrich(all.skip(k as int + 1), table_views(tbl@)));
                }
            }
            k = k + 1;
        }
        proof {
            assert(all.skip(all.len() as int) =~= Seq::<PropView>::empty());
            assert(spec_enrich(all, table_views(table@)) =~= prop_views(out@));
        }
        self.inner.header.props = out;
    }

    /// The ordered property list and the frame count, for callers that need
    /// run sizes without the rendered report.
    pub fn props_in_steps(&self) -> (r: (PropVec, usize))
        ensures
            r.0@ == self@.props,
            r.1 == self@.frames.len(),
    {
        let mut inner: Vec<Prop> = Vec::new();
        let mut i: usize = 0;
        while i < self.inner.header.props.len()
            invariant
                i <= self.inner.header.props@.len(),
                prop_views(inner@) =~= prop_views(self.inner.header.props@).take(i as int),
            decreases self.inner.header.props@.len() - i,
        {
            let np = clone_prop(&self.inner.header.props[i]);
            let ghost pre = inner@;
            inner.push(np);
            i = i + 1;
            proof {
                assert(prop_views(pre.push(np)) =~= prop_views(pre).push(np@));
                assert(prop_views(self.inner.header.props@).take(i as int) =~= prop_views(
                    self.inner.header.props@,
                ).take(i as int - 1).push(self.inner.header.props@[i as int - 1]@));
                assert(prop_views(inner@) =~= prop_views(self.inner.header.props@).take(i as int));
            }
        }
        proof {
            assert(prop_views(self.inner.header.props@).take(
                self.inner.header.props@.len() as int,
            ) =~= prop_views(self.inner.header.props@));
        }
        (PropVec { inner }, self.inner.frames.len())
    }
}

/// Parse the BTOR2 witness format produced by the model checker, optionally
/// enriching the result with property names extracted from the model source.
pub fn parse_btor_witness(input: &[u8], btor2: Option<&[u8]>) -> (r: Result<Witness, WitnessError>)
    ensures
        ({
            let start = spec_comments(input@, 0);
            match r {
                Result::Ok(w) => input@.len() > 0 && (match spec_witness_format(input@, start) {
                    Some((e, wv)) => {
                        &&& e == input@.len()
                        &&& w@.frames == wv.frames
                        &&& match btor2 {
                            Some(b) => exists|tv: Seq<(u64, PropertyView)>|
                                btor2::table_abstracts(btor2::spec_prop_table(b@), tv) && w@.props
                                    == spec_enrich(wv.props, tv),
                            None => w@.props == wv.props,
                        }
                    },
                    None => false,
                }),
                Result::Err(e) => match e {
                    WitnessError::EmptyInput => input@.len() == 0,
                    WitnessError::Grammar { at } => input@.len() > 0 && spec_witness_format(
                        input@,
                        start,
                    ) is None && at == start,
                    WitnessError::Unconsumed { at } => input@.len() > 0 && (
                    match spec_witness_format(input@, start) {
                        Some((e2, _)) => e2 == at && at < input@.len(),
                        None => false,
                    }),
                },
            }
        }),
{
    let mut w = match Witness::from_bytes(input) {
        Ok(w) => w,
        Err(e) => {
            return Err(e);
        },
    };
    match btor2 {
        Some(b) => {
            let table = btor2::get_property_names(b);
            let ghost tv0 = table_views(table@);
            let ghost wv0 = w@;
            w.add_prop_names(table);
            proof {
                assert(btor2::table_abstracts(btor2::spec_prop_table(b@), tv0));
                assert(w@.props == spec_enrich(wv0.props, tv0));
                assert(exists|tv: Seq<(u64, PropertyView)>|
                    btor2::table_abstracts(btor2::spec_prop_table(b@), tv) && w@.props
                        == spec_enrich(wv0.props, tv));
                assert(w@.frames == wv0.frames);
            }
        },
        None => {},
    }
    Ok(w)
}

} // verus!
