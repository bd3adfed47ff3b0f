//! The witness-format grammar: properties, header, models, transitions,
//! frames, and the full format, with their parsers.
//!
//! ```text
//! witness   := comment* header frame+ '.' newline?
//! header    := "sat\n" prop+ newline
//! prop      := ("b" | "j") uint
//! frame     := ("#" transition)? "@" transition
//! transition:= uint newline model?
//! model     := (comment-line | assignment)+
//! ```

use vstd::prelude::*;
use vstd::string::*;

use crate::btor::assignment::Assignment;
use crate::btor::assignment::AssignmentView;
use crate::btor::btor2::Property;
use crate::btor::btor2::PropertyView;
use crate::btor::helpers;
use crate::btor::text;

verus! {

/// Different kinds of BTOR2 properties. At the moment only `bad` and
/// `justice` are supported.
#[derive(Debug, Clone, Copy, PartialEq, Eq, Structural)]
pub enum PropKind {
    /// The property `bad` - a problem is found if this property _is_
    /// satisfied.
    Bad,
    /// The property `justice` - a problem is found if this property _is
    /// **not**_ satisfied.
    Justice,
}

/// BTOR2 property representation.
#[derive(Debug, Clone)]
pub struct Prop {
    /// Kind of this property.
    pub kind: PropKind,
    /// Index of the property as it appears in the BTOR2 format.
    pub idx: u64,
    /// Property definition, filled in by enrichment from the model source.
    pub property: Option<Property>,
}

/// The mathematical content of a `Prop`.
pub ghost struct PropView {
    pub kind: PropKind,
    pub idx: u64,
    pub property: Option<PropertyView>,
}

impl View for Prop {
    type V = PropView;

    open spec fn view(&self) -> PropView {
        PropView {
            kind: self.kind,
            idx: self.idx,
            property: match self.property {
                Option::Some(p) => Option::Some(p@),
                Option::None => Option::None,
            },
        }
    }
}

/// The views of a sequence of properties.
pub open spec fn prop_views(v: Seq<Prop>) -> Seq<PropView> {
    v.map_values(|p: Prop| p@)
}

/// A list of properties.
#[derive(Debug, Clone)]
pub struct PropVec {
    pub inner: Vec<Prop>,
}

impl View for PropVec {
    type V = Seq<PropView>;

    open spec fn view(&self) -> Seq<PropView> {
        prop_views(self.inner@)
    }
}

/// Representation of the witness format header.
#[derive(Debug, Clone)]
pub struct WitnessHeader {
    /// List of properties that were reported by the checker.
    pub props: Vec<Prop>,
}

impl View for WitnessHeader {
    type V = Seq<PropView>;

    open spec fn view(&self) -> Seq<PropView> {
        prop_views(self.props@)
    }
}

/// Representation of a model parsed from the witness format.
#[derive(Debug, Clone)]
pub struct Model {
    /// List of assignments that are part of this `Model`.
    pub assignments: Vec<Assignment>,
}

/// The views of a sequence of assignments.
pub open spec fn assignment_views(v: Seq<Assignment>) -> Seq<AssignmentView> {
    v.map_values(|a: Assignment| a@)
}

impl View for Model {
    type V = Seq<AssignmentView>;

    open spec fn view(&self) -> Seq<AssignmentView> {
        assignment_views(self.assignments@)
    }
}

/// A single transition as it appears in the witness format.
#[derive(Debug, Clone)]
pub struct Transition {
    /// The explicit step number read from the text.
    pub step: u64,
    /// The assignments recorded for this transition.
    pub model: Model,
}

/// The mathematical content of a `Transition`.
pub ghost struct TransitionView {
    pub step: u64,
    pub model: Seq<AssignmentView>,
}

impl View for Transition {
    type V = TransitionView;

    open spec fn view(&self) -> TransitionView {
        TransitionView { step: self.step, model: self.model@ }
    }
}

/// A witness-format frame: one time step, with an optional state transition
/// and a mandatory input transition.
#[derive(Debug, Clone)]
pub struct WitnessFrame {
    pub state_part: Option<Transition>,
    pub input_part: Transition,
}

/// The mathematical content of a `WitnessFrame`.
pub ghost struct WitnessFrameView {
    pub state_part: Option<TransitionView>,
    pub input_part: TransitionView,
}

impl View for WitnessFrame {
    type V = WitnessFrameView;

    open spec fn view(&self) -> WitnessFrameView {
        WitnessFrameView {
            state_part: match self.state_part {
                Option::Some(t) => Option::Some(t@),
                Option::None => Option::None,
            },
            input_part: self.input_part@,
        }
    }
}

/// The views of a sequence of frames.
pub open spec fn frame_views(v: Seq<WitnessFrame>) -> Seq<WitnessFrameView> {
    v.map_values(|f: WitnessFrame| f@)
}

/// The parsed witness format: a header and a non-empty sequence of frames.
#[derive(Debug, Clone)]
pub struct WitnessFormat {
    pub header: WitnessHeader,
    pub frames: Vec<WitnessFrame>,
}

/// The mathematical content of a `WitnessFormat`.
pub ghost struct WitnessFormatView {
    pub props: Seq<PropView>,
    pub frames: Seq<WitnessFrameView>,
}

impl View for WitnessFormat {
    type V = WitnessFormatView;

    open spec fn view(&self) -> WitnessFormatView {
        WitnessFormatView { props: self.header@, frames: frame_views(self.frames@) }
    }
}

// ---------------------------------------------------------------------------
// The specification-level grammar.
// ---------------------------------------------------------------------------

/// One property token: `b` or `j` followed by an unsigned integer.
pub open spec fn spec_prop(s: Seq<u8>, pos: int) -> Option<(int, PropView)> {
    if !(0 <= pos < s.len() && (s[pos] == 98 || s[pos] == 106)) {
        None
    } else {
        let kind = if s[pos] == 98 {
            PropKind::Bad
        } else {
            PropKind::Justice
        };
        match helpers::spec_uint(s, pos + 1) {
            None => None,
            Some((p, idx)) => Some((p, PropView { kind, idx, property: None })),
        }
    }
}

/// One or more property tokens, back to back.
pub open spec fn spec_props(s: Seq<u8>, pos: int) -> Option<(int, Seq<PropView>)>
    decreases s.len() - pos,
{
    match spec_prop(s, pos) {
        None => None,
        Some((p, pr)) => if pos < p <= s.len() {
            match spec_props(s, p) {
                Some((e, rest)) => Some((e, seq![pr] + rest)),
                None => Some((p, seq![pr])),
            }
        } else {
            None
        },
    }
}

/// The header: the literal line `sat`, one or more property tokens, and a
/// newline.
pub open spec fn spec_header(s: Seq<u8>, pos: int) -> Option<(int, Seq<PropView>)> {
    if !(0 <= pos && pos + 4 <= s.len() && s[pos] == 115 && s[pos + 1] == 97 && s[pos + 2] == 116
        && s[pos + 3] == 10) {
        None
    } else {
        match spec_props(s, pos + 4) {
            None => None,
            Some((p, props)) => match helpers::spec_newline(s, p) {
                None => None,
                Some(p2) => Some((p2, props)),
            },
        }
    }
}

/// One model item: an optional comment line (a comment followed by one more
/// newline), then a mandatory assignment.
pub open spec fn spec_model_item(s: Seq<u8>, pos: int) -> Option<(int, AssignmentView)> {
    let p1 = match helpers::spec_comment(s, pos) {
        Some(cp) => match helpers::spec_newline(s, cp) {
            Some(cp2) => cp2,
            None => pos,
        },
        None => pos,
    };
    crate::btor::assignment::spec_assignment(s, p1)
}

/// One or more model items.
pub open spec fn spec_model(s: Seq<u8>, pos: int) -> Option<(int, Seq<AssignmentView>)>
    decreases s.len() - pos,
{
    match spec_model_item(s, pos) {
        None => None,
        Some((p, a)) => if pos < p <= s.len() {
            match spec_model(s, p) {
                Some((e, rest)) => Some((e, seq![a] + rest)),
                None => Some((p, seq![a])),
            }
        } else {
            None
        },
    }
}

/// A transition: a step number, a newline, and an optional model.
pub open spec fn spec_transition(s: Seq<u8>, pos: int) -> Option<(int, TransitionView)> {
    match helpers::spec_uint(s, pos) {
        None => None,
        Some((p1, step)) => match helpers::spec_newline(s, p1) {
            None => None,
            Some(p2) => match spec_model(s, p2) {
                Some((p3, assigns)) => Some((p3, TransitionView { step, model: assigns })),
                None => Some((p2, TransitionView { step, model: Seq::empty() })),
            },
        },
    }
}

/// A frame: an optional `#`-prefixed state transition followed by a
/// mandatory `@`-prefixed input transition.
pub open spec fn spec_frame(s: Seq<u8>, pos: int) -> Option<(int, WitnessFrameView)> {
    let state_r = if 0 <= pos < s.len() && s[pos] == 35 {
        spec_transition(s, pos + 1)
    } else {
        None
    };
    let p1 = match state_r {
        Some((p, _)) => p,
        None => pos,
    };
    let state_part = match state_r {
        Some((_, t)) => Some(t),
        None => Option::<TransitionView>::None,
    };
    if !(0 <= p1 < s.len() && s[p1] == 64) {
        None
    } else {
        match spec_transition(s, p1 + 1) {
            None => None,
            Some((p2, t)) => Some((p2, WitnessFrameView { state_part, input_part: t })),
        }
    }
}

/// One or more frames.
pub open spec fn spec_frames(s: Seq<u8>, pos: int) -> Option<(int, Seq<WitnessFrameView>)>
    decreases s.len() - pos,
{
    match spec_frame(s, pos) {
        None => None,
        Some((p, f)) => if pos < p <= s.len() {
            match spec_frames(s, p) {
                Some((e, rest)) => Some((e, seq![f] + rest)),
                None => Some((p, seq![f])),
            }
        } else {
            None
        },
    }
}

/// The full witness format: header, frames, the terminating dot, and an
/// optional final newline.
pub open spec fn spec_witness_format(s: Seq<u8>, pos: int) -> Option<(int, WitnessFormatView)> {
    match spec_header(s, pos) {
        None => None,
        Some((p1, props)) => match spec_frames(s, p1) {
            None => None,
            Some((p2, frames)) => if p2 < s.len() && s[p2] == 46 {
                let end = match helpers::spec_newline(s, p2 + 1) {
                    Some(p3) => p3,
                    None => p2 + 1,
                };
                Some((end, WitnessFormatView { props, frames }))
            } else {
                None
            },
        },
    }
}

// ---------------------------------------------------------------------------
// Executable parsers.
// ---------------------------------------------------------------------------

impl Prop {
    /// Parse the witness-format representation of one property token.
    fn parse(s: &[u8], pos: usize) -> (r: Option<(usize, Prop)>)
        requires
            pos <= s@.len(),
        ensures
            match r {
                Some((p, pr)) => spec_prop(s@, pos as int) == Some((p as int, pr@)) && pos < p
                    <= s@.len(),
                None => spec_prop(s@, pos as int) is None,
            },
    {
        if !(pos < s.len() && (s[pos] == 98 || s[pos] == 106)) {
            return None;
        }
        let kind = if s[pos] == 98 {
            PropKind::Bad
        } else {
            PropKind::Justice
        };
        match helpers::uint(s, pos + 1) {
            Some((p, idx)) => Some((p, Prop { kind, idx, property: None })),
            None => None,
        }
    }
}

/// What remains of `spec_props` when the items of `acc` have already been
/// taken at positions before `cur`.
spec fn props_cont(s: Seq<u8>, cur: int, acc: Seq<PropView>) -> Option<(int, Seq<PropView>)> {
    match spec_props(s, cur) {
        Some((e, rest)) => Some((e, acc + rest)),
        None => if acc.len() == 0 {
            None
        } else {
            Some((cur, acc))
        },
    }
}

/// Parse one or more property tokens.
fn parse_props(s: &[u8], pos: usize) -> (r: Option<(usize, Vec<Prop>)>)
    requires
        pos <= s@.len(),
    ensures
        match r {
            Some((p, v)) => spec_props(s@, pos as int) == Some((p as int, prop_views(v@))) && pos
                < p <= s@.len(),
            None => spec_props(s@, pos as int) is None,
        },
{
    let mut items: Vec<Prop> = Vec::new();
    let mut cur: usize = pos;
    let mut go = true;
    proof {
        assert(prop_views(items@) =~= Seq::<PropView>::empty());
        assert(spec_props(s@, pos as int) == props_cont(s@, pos as int, prop_views(items@)));
    }
    while go
        invariant
            pos <= cur <= s@.len(),
            go ==> spec_props(s@, pos as int) == props_cont(s@, cur as int, prop_views(items@)),
            go ==> (items@.len() == 0 ==> cur == pos),
            !go ==> (if items@.len() == 0 {
                spec_props(s@, pos as int) is None
            } else {
                spec_props(s@, pos as int) == Some((cur as int, prop_views(items@)))
            }),
            !go ==> pos < cur || items@.len() == 0,
        decreases s@.len() - cur, (if go {
            1int
        } else {
            0int
        }),
    {
        match Prop::parse(s, cur) {
            Some((p, pr)) => {
                proof {
                    let acc = prop_views(items@);
                    assert(prop_views(items@.push(pr)) =~= acc + seq![pr@]);
                    match spec_props(s@, p as int) {
                        Some((e, rest)) => {
                            assert(acc + (seq![pr@] + rest) =~= (acc + seq![pr@]) + rest);
                        },
                        None => {
                            assert(spec_props(s@, cur as int) == Some((p as int, seq![pr@])));
                        },
                    }
                }
                items.push(pr);
                cur = p;
            },
            None => {
                proof {
                    assert(spec_props(s@, cur as int) is None);
                }
                go = false;
            },
        }
    }
    if items.len() == 0 {
        None
    } else {
        Some((cur, items))
    }
}

impl WitnessHeader {
    /// Parse the witness-format header.
    fn parse(s: &[u8], pos: usize) -> (r: Option<(usize, WitnessHeader)>)
        requires
            pos <= s@.len(),
        ensures
            match r {
                Some((p, h)) => spec_header(s@, pos as int) == Some((p as int, h@)) && pos < p
                    <= s@.len(),
                None => spec_header(s@, pos as int) is None,
            },
    {
        if !(s.len() - pos >= 4 && s[pos] == 115 && s[pos + 1] == 97 && s[pos + 2] == 116 && s[pos
            + 3] == 10) {
            return None;
        }
        let (p, props) = match parse_props(s, pos + 4) {
            Some(x) => x,
            None => {
                return None;
            },
        };
        match helpers::newline(s, p) {
            Some(p2) => Some((p2, WitnessHeader { props })),
            None => None,
        }
    }
}

/// Parse one model item: an optional comment line, then an assignment.
fn model_item(s: &[u8], pos: usize) -> (r: Option<(usize, Assignment)>)
    requires
        pos <= s@.len(),
    ensures
        match r {
            Some((p, a)) => spec_model_item(s@, pos as int) == Some((p as int, a@)) && pos < p
                <= s@.len(),
            None => spec_model_item(s@, pos as int) is None,
        },
{
    let p1 = match helpers::comment(s, pos) {
        Some(cp) => match helpers::newline(s, cp) {
            Some(cp2) => cp2,
            None => pos,
        },
        None => pos,
    };
    Assignment::parse(s, p1)
}

/// What remains of `spec_model` when the items of `acc` have already been
/// taken at positions before `cur`.
spec fn model_cont(s: Seq<u8>, cur: int, acc: Seq<AssignmentView>) -> Option<
    (int, Seq<AssignmentView>),
> {
    match spec_model(s, cur) {
        Some((e, rest)) => Some((e, acc + rest)),
        None => if acc.len() == 0 {
            None
        } else {
            Some((cur, acc))
        },
    }
}

impl Model {
    /// Parse a model: one or more comment or assignment lines.
    fn parse(s: &[u8], pos: usize) -> (r: Option<(usize, Model)>)
        requires
            pos <= s@.len(),
        ensures
            match r {
                Some((p, m)) => spec_model(s@, pos as int) == Some((p as int, m@)) && pos < p
                    <= s@.len(),
                None => spec_model(s@, pos as int) is None,
            },
    {
        let mut items: Vec<Assignment> = Vec::new();
        let mut cur: usize = pos;
        let mut go = true;
        proof {
            assert(assignment_views(items@) =~= Seq::<AssignmentView>::empty());
            assert(spec_model(s@, pos as int) == model_cont(
                s@,
                pos as int,
                assignment_views(items@),
            ));
        }
        while go
            invariant
                pos <= cur <= s@.len(),
                go ==> spec_model(s@, pos as int) == model_cont(
                    s@,
                    cur as int,
                    assignment_views(items@),
                ),
                go ==> (items@.len() == 0 ==> cur == pos),
                !go ==> (if items@.len() == 0 {
                    spec_model(s@, pos as int) is None
                } else {
                    spec_model(s@, pos as int) == Some((cur as int, assignment_views(items@)))
                }),
                !go ==> pos < cur || items@.len() == 0,
            decreases s@.len() - cur, (if go {
                1int
            } else {
                0int
            }),
        {
            match model_item(s, cur) {
                Some((p, a)) => {
                    proof {
                        let acc = assignment_views(items@);
                        assert(assignment_views(items@.push(a)) =~= acc + seq![a@]);
                        match spec_model(s@, p as int) {
                            Some((e, rest)) => {
                                assert(acc + (seq![a@] + rest) =~= (acc + seq![a@]) + rest);
                            },
                            None => {
                                assert(spec_model(s@, cur as int) == Some((p as int, seq![a@])));
                            },
                        }
                    }
                    items.push(a);
                    cur = p;
                },
                None => {
                    proof {
                        assert(spec_model(s@, cur as int) is None);
                    }
                    go = false;
                },
            }
        }
        if items.len() == 0 {
            None
        } else {
            Some((cur, Model { assignments: items }))
        }
    }
}

impl Transition {
    /// Parse a transition: a step number, a newline, and an optional model.
    fn parse(s: &[u8], pos: usize) -> (r: Option<(usize, Transition)>)
        requires
            pos <= s@.len(),
        ensures
            match r {
                Some((p, t)) => spec_transition(s@, pos as int) == Some((p as int, t@)) && pos < p
                    <= s@.len(),
                None => spec_transition(s@, pos as int) is None,
            },
    {
        let (p1, step) = match helpers::uint(s, pos) {
            Some(x) => x,
            None => {
                return None;
            },
        };
        let p2 = match helpers::newline(s, p1) {
            Some(x) => x,
            None => {
                return None;
            },
        };
        match Model::parse(s, p2) {
            Some((p3, m)) => Some((p3, Transition { step, model: m })),
            None => {
                let t = Transition { step, model: Model { assignments: Vec::new() } };
                proof {
                    assert(t@.model =~= Seq::<AssignmentView>::empty());
                }
                Some((p2, t))
            },
        }
    }
}

impl WitnessFrame {
    /// Parse a witness frame: an optional `#` state transition and a
    /// mandatory `@` input transition.
    fn parse(s: &[u8], pos: usize) -> (r: Option<(usize, WitnessFrame)>)
        requires
            pos <= s@.len(),
        ensures
            match r {
                Some((p, f)) => spec_frame(s@, pos as int) == Some((p as int, f@)) && pos < p
                    <= s@.len(),
                None => spec_frame(s@, pos as int) is None,
            },
    {
        let state_r = if pos < s.len() && s[pos] == 35 {
            Transition::parse(s, pos + 1)
        } else {
            None
        };
        let (p1, state_part) = match state_r {
            Some((p, t)) => (p, Some(t)),
            None => (pos, None),
        };
        if !(p1 < s.len() && s[p1] == 64) {
            return None;
        }
        match Transition::parse(s, p1 + 1) {
            None => None,
            Some((p2, t)) => Some((p2, WitnessFrame { state_part, input_part: t })),
        }
    }

    /// Parse one or more frames.
    fn parse_multi(s: &[u8], pos: usize) -> (r: Option<(usize, Vec<WitnessFrame>)>)
        requires
            pos <= s@.len(),
        ensures
            match r {
                Some((p, v)) => spec_frames(s@, pos as int) == Some((p as int, frame_views(v@)))
                    && pos < p <= s@.len(),
                None => spec_frames(s@, pos as int) is None,
            },
    {
        let mut items: Vec<WitnessFrame> = Vec::new();
        let mut cur: usize = pos;
        let mut go = true;
        proof {
            assert(frame_views(items@) =~= Seq::<WitnessFrameView>::empty());
            assert(spec_frames(s@, pos as int) == frames_cont(
                s@,
                pos as int,
                frame_views(items@),
            ));
        }
        while go
            invariant
                pos <= cur <= s@.len(),
                go ==> spec_frames(s@, pos as int) == frames_cont(
                    s@,
                    cur as int,
                    frame_views(items@),
                ),
                go ==> (items@.len() == 0 ==> cur == pos),
                !go ==> (if items@.len() == 0 {
                    spec_frames(s@, pos as int) is None
                } else {
                    spec_frames(s@, pos as int) == Some((cur as int, frame_views(items@)))
                }),
                !go ==> pos < cur || items@.len() == 0,
            decreases s@.len() - cur, (if go {
                1int
            } else {
                0int
            }),
        {
            match WitnessFrame::parse(s, cur) {
                Some((p, f)) => {
                    proof {
                        let acc = frame_views(items@);
                        assert(frame_views(items@.push(f)) =~= acc + seq![f@]);
                        match spec_frames(s@, p as int) {
                            Some((e, rest)) => {
                                assert(acc + (seq![f@] + rest) =~= (acc + seq![f@]) + rest);
                            },
                            None => {
                                assert(spec_frames(s@, cur as int) == Some((p as int, seq![f@])));
                            },
                        }
                    }
                    items.push(f);
                    cur = p;
                },
                None => {
                    proof {
                        assert(spec_frames(s@, cur as int) is None);
                    }
                    go = false;
                },
            }
        }
        if items.len() == 0 {
            None
        } else {
            Some((cur, items))
        }
    }
}

/// What remains of `spec_frames` when the items of `acc` have already been
/// taken at positions before `cur`.
spec fn frames_cont(s: Seq<u8>, cur: int, acc: Seq<WitnessFrameView>) -> Option<
    (int, Seq<WitnessFrameView>),
> {
    match spec_frames(s, cur) {
        Some((e, rest)) => Some((e, acc + rest)),
        None => if acc.len() == 0 {
            None
        } else {
            Some((cur, acc))
        },
    }
}

impl WitnessFormat {
    /// Parse the full witness format starting at `pos`.
    pub fn parse(s: &[u8], pos: usize) -> (r: Option<(usize, WitnessFormat)>)
        requires
            pos <= s@.len(),
        ensures
            match r {
                Some((p, w)) => spec_witness_format(s@, pos as int) == Some((p as int, w@)) && pos
                    < p <= s@.len(),
                None => spec_witness_format(s@, pos as int) is None,
            },
    {
        let (p1, header) = match WitnessHeader::parse(s, pos) {
            Some(x) => x,
            None => {
                return None;
            },
        };
        let (p2, frames) = match WitnessFrame::parse_multi(s, p1) {
            Some(x) => x,
            None => {
                return None;
            },
        };
        if !(p2 < s.len() && s[p2] == 46) {
            return None;
        }
        let end = match helpers::newline(s, p2 + 1) {
            Some(p3) => p3,
            None => p2 + 1,
        };
        Some((end, WitnessFormat { header, frames }))
    }
}

// ---------------------------------------------------------------------------
// Display of properties.
// ---------------------------------------------------------------------------

/// The display prefix for a property kind.
pub open spec fn kind_chars(k: PropKind) -> Seq<char> {
    match k {
        PropKind::Bad => "Bad at "@,
        PropKind::Justice => "Justice at "@,
    }
}

/// The display form of one property: its kind and index, and, when
/// enrichment attached a named property, a suffix with the name and the node
/// id. `colon` selects the report variant that writes `nid:` instead of
/// `nid`.
pub open spec fn prop_chars(p: PropView, colon: bool) -> Seq<char> {
    let base = kind_chars(p.kind) + crate::btor::text::dec_chars(p.idx as nat);
    match p.property {
        Some(d) => match d.name {
            Some(nm) => base + " named '"@ + nm + (if colon {
                "' with nid: "@
            } else {
                "' with nid "@
            }) + crate::btor::text::dec_chars(d.node as nat),
            None => base,
        },
        None => base,
    }
}

/// The display form of a property list, comma separated.
pub open spec fn props_joined(ps: Seq<PropView>, colon: bool) -> Seq<char>
    decreases ps.len(),
{
    if ps.len() == 0 {
        Seq::empty()
    } else if ps.len() == 1 {
        prop_chars(ps[0], colon)
    } else {
        props_joined(ps.drop_last(), colon) + ", "@ + prop_chars(ps.last(), colon)
    }
}

/// Append the display form of one property to `buf`.
fn push_prop(buf: &mut String, p: &Prop, colon: bool)
    ensures
        final(buf)@ =~= old(buf)@ + prop_chars(p@, colon),
{
    match p.kind {
        PropKind::Bad => buf.append("Bad at "),
        PropKind::Justice => buf.append("Justice at "),
    }
    let idx_s = text::u64_to_string(p.idx);
    buf.append(idx_s.as_str());
    if let Some(property) = &p.property {
        if let Some(nm) = &property.name {
            buf.append(" named '");
            buf.append(nm.as_str());
            if colon {
                buf.append("' with nid: ");
            } else {
                buf.append("' with nid ");
            }
            let node_s = text::u64_to_string(property.node as u64);
            buf.append(node_s.as_str());
        }
    }
    proof {
        assert(final(buf)@ =~= old(buf)@ + prop_chars(p@, colon));
    }
}

/// Append the comma-separated display form of a property list to `buf`.
pub(crate) fn push_props_joined(buf: &mut String, props: &Vec<Prop>, colon: bool)
    ensures
        final(buf)@ =~= old(buf)@ + props_joined(prop_views(props@), colon),
{
    let ghost ps = prop_views(props@);
    let mut i: usize = 0;
    while i < props.len()
        invariant
            i <= props@.len(),
            ps == prop_views(props@),
            buf@ =~= old(buf)@ + props_joined(ps.take(i as int), colon),
        decreases props@.len() - i,
    {
        if i > 0 {
            buf.append(", ");
        }
        push_prop(buf, &props[i], colon);
        i = i + 1;
        proof {
            let t = ps.take(i as int);
            assert(t.last() == ps[i - 1]);
            assert(ps[i - 1] == props@[i - 1]@);
            if i > 1 {
                assert(t.drop_last() =~= ps.take(i as int - 1));
                assert(props_joined(t, colon) == props_joined(t.drop_last(), colon) + ", "@
                    + prop_chars(t.last(), colon));
            }
            assert(buf@ =~= old(buf)@ + props_joined(ps.take(i as int), colon));
        }
    }
    proof {
        assert(ps.take(props@.len() as int) =~= ps);
    }
}

impl PropVec {
    /// Generate a pretty formatted string representation of the properties
    /// inside of this `PropVec`.
    pub fn formatted_string(&self) -> (r: String)
        ensures
            r@ =~= props_joined(self@, false),
    {
        let mut buf = String::new();
        push_props_joined(&mut buf, &self.inner, false);
        buf
    }
}

} // verus!
