//! The signal-flow engine: rebuilding the compact per-signal value-change
//! timelines from the flat trace.

use vstd::prelude::*;
use vstd::string::*;
use vstd::utf8::encode_utf8;

use crate::btor::Witness;
use crate::btor::assignment::Assignment;
use crate::btor::assignment::AssignmentView;
use crate::btor::assignment::spec_value;
use crate::btor::text;

verus! {

/// The recorded change-point series of one signal.
pub struct FlowEntry {
    /// The signal's name: its symbol, or the decimal form of its global
    /// position in the flattened pair sequence when it has no symbol.
    pub name: String,
    /// The change points: (step, assignment) pairs, adjacent duplicates (by
    /// decoded value) suppressed.
    pub points: Vec<(u64, Assignment)>,
}

/// The mathematical content of a `FlowEntry`.
pub ghost struct FlowEntryView {
    pub name: Seq<char>,
    pub points: Seq<(u64, AssignmentView)>,
}

/// The views of a sequence of (step, assignment) pairs.
pub open spec fn pair_views(v: Seq<(u64, Assignment)>) -> Seq<(u64, AssignmentView)> {
    v.map_values(|p: (u64, Assignment)| (p.0, p.1@))
}

impl View for FlowEntry {
    type V = FlowEntryView;

    open spec fn view(&self) -> FlowEntryView {
        FlowEntryView { name: self.name@, points: pair_views(self.points@) }
    }
}

/// The views of a sequence of flow entries.
pub open spec fn entry_views(v: Seq<FlowEntry>) -> Seq<FlowEntryView> {
    v.map_values(|e: FlowEntry| e@)
}

/// All signal flows of one category (inputs or states), in strictly
/// ascending byte-wise name order.
pub struct SignalFlow {
    pub entries: Vec<FlowEntry>,
}

impl View for SignalFlow {
    type V = Seq<FlowEntryView>;

    open spec fn view(&self) -> Seq<FlowEntryView> {
        entry_views(self.entries@)
    }
}

/// The grouping key of an entry: the UTF-8 bytes of its name.
pub open spec fn entry_key(e: FlowEntryView) -> Seq<u8> {
    encode_utf8(e.name)
}

/// The grouping key of pair `i`: the bytes of its symbol, or of the decimal
/// form of `i` when it has no symbol.
pub open spec fn name_bytes_of(pairs: Seq<(u64, AssignmentView)>, i: int) -> Seq<u8> {
    match pairs[i].1.symbol {
        Some(sym) => encode_utf8(sym),
        None => text::dec_bytes(i as nat),
    }
}

/// The name characters of pair `i`.
pub open spec fn name_chars_of(pairs: Seq<(u64, AssignmentView)>, i: int) -> Seq<char> {
    match pairs[i].1.symbol {
        Some(sym) => sym,
        None => text::dec_chars(i as nat),
    }
}

/// The change-point series of the signal with key `key`, over the first
/// `upto` pairs: a pair is appended only when its name matches the key and
/// its decoded value differs from the most recently appended value.
#[verifier::opaque]
pub open spec fn series(pairs: Seq<(u64, AssignmentView)>, upto: int, key: Seq<u8>) -> Seq<
    (u64, AssignmentView),
>
    decreases upto,
{
    if upto <= 0 {
        Seq::empty()
    } else {
        let r = series(pairs, upto - 1, key);
        if 0 <= upto - 1 < pairs.len() && name_bytes_of(pairs, upto - 1) == key {
            if r.len() == 0 || spec_value(r.last().1.kind) != spec_value(pairs[upto - 1].1.kind) {
                r.push(pairs[upto - 1])
            } else {
                r
            }
        } else {
            r
        }
    }
}

/// Unfolding `series` at a pair whose name differs from the key (or at an
/// index outside the pairs).
proof fn lemma_series_skip(pairs: Seq<(u64, AssignmentView)>, i: int, key: Seq<u8>)
    requires
        !(0 <= i < pairs.len()) || name_bytes_of(pairs, i) != key,
        i >= 0,
    ensures
        series(pairs, i + 1, key) == series(pairs, i, key),
{
    reveal(series);
}

/// Unfolding `series` at a pair whose name matches the key.
proof fn lemma_series_hit(pairs: Seq<(u64, AssignmentView)>, i: int, key: Seq<u8>)
    requires
        0 <= i < pairs.len(),
        name_bytes_of(pairs, i) == key,
    ensures
        ({
            let r = series(pairs, i, key);
            series(pairs, i + 1, key) == if r.len() == 0 || spec_value(r.last().1.kind)
                != spec_value(pairs[i].1.kind) {
                r.push(pairs[i])
            } else {
                r
            }
        }),
{
    reveal(series);
}

/// The series over no pairs is empty.
proof fn lemma_series_zero(pairs: Seq<(u64, AssignmentView)>, key: Seq<u8>)
    ensures
        series(pairs, 0, key) == Seq::<(u64, AssignmentView)>::empty(),
{
    reveal(series);
}

/// The maximum step over the first `upto` pairs, with a floor of one.
pub open spec fn spec_max_step(pairs: Seq<(u64, AssignmentView)>, upto: int) -> u64
    decreases upto,
{
    if upto <= 0 {
        1
    } else {
        let m = spec_max_step(pairs, upto - 1);
        if 0 <= upto - 1 < pairs.len() && pairs[upto - 1].0 > m {
            pairs[upto - 1].0
        } else {
            m
        }
    }
}

/// The entries stand in strictly ascending byte-wise name order.
pub open spec fn flows_sorted(entries: Seq<FlowEntryView>) -> bool {
    forall|k1: int, k2: int|
        #![trigger entries[k1], entries[k2]]
        0 <= k1 < k2 < entries.len() ==> text::bytes_lt(
            entry_key(entries[k1]),
            entry_key(entries[k2]),
        )
}

/// Every entry records exactly its signal's change-point series.
pub open spec fn flows_series(
    pairs: Seq<(u64, AssignmentView)>,
    entries: Seq<FlowEntryView>,
) -> bool {
    forall|k: int|
        0 <= k < entries.len() ==> (#[trigger] entries[k]).points == series(
            pairs,
            pairs.len() as int,
            entry_key(entries[k]),
        )
}

/// Every pair before `upto` has an entry for its name.
pub open spec fn flows_complete(
    pairs: Seq<(u64, AssignmentView)>,
    entries: Seq<FlowEntryView>,
    upto: int,
) -> bool {
    forall|j: int|
        0 <= j < upto && j < pairs.len() ==> exists|k: int|
            0 <= k < entries.len() && entry_key(entries[k]) == #[trigger] name_bytes_of(pairs, j)
}

/// Every entry is named by some pair before `upto`.
pub open spec fn flows_sound(
    pairs: Seq<(u64, AssignmentView)>,
    entries: Seq<FlowEntryView>,
    upto: int,
) -> bool {
    forall|k: int|
        0 <= k < entries.len() ==> exists|j: int|
            0 <= j < upto && j < pairs.len() && name_bytes_of(pairs, j) == entry_key(
                #[trigger] entries[k],
            ) && entries[k].name == name_chars_of(pairs, j)
}

/// The collection contract: `entries` is exactly the per-name grouping of
/// `pairs` with adjacent duplicates suppressed, in strictly ascending
/// byte-wise name order.
pub open spec fn collected(pairs: Seq<(u64, AssignmentView)>, entries: Seq<FlowEntryView>) -> bool {
    &&& flows_sorted(entries)
    &&& flows_series(pairs, entries)
    &&& flows_complete(pairs, entries, pairs.len() as int)
    &&& flows_sound(pairs, entries, pairs.len() as int)
}

/// Adjacent-duplicate suppression: in any change-point series, no two
/// adjacent points carry the same decoded value.
pub proof fn lemma_series_no_adjacent_duplicates(
    pairs: Seq<(u64, AssignmentView)>,
    upto: int,
    key: Seq<u8>,
)
    ensures
        forall|k: int|
            0 <= k < series(pairs, upto, key).len() - 1 ==> spec_value(
                (#[trigger] series(pairs, upto, key)[k]).1.kind,
            ) != spec_value(series(pairs, upto, key)[k + 1].1.kind),
    decreases upto,
{
    reveal(series);
    if upto > 0 {
        lemma_series_no_adjacent_duplicates(pairs, upto - 1, key);
        let r = series(pairs, upto - 1, key);
        let s = series(pairs, upto, key);
        if s != r {
            assert(s == r.push(pairs[upto - 1]));
            assert forall|k: int| 0 <= k < s.len() - 1 implies spec_value(
                (#[trigger] s[k]).1.kind,
            ) != spec_value(s[k + 1].1.kind) by {
                if k + 1 < r.len() {
                    assert(s[k] == r[k] && s[k + 1] == r[k + 1]);
                } else {
                    assert(s[k] == r.last() && s[k + 1] == pairs[upto - 1]);
                }
            }
        }
    }
}

/// The maximum step is at least one, and at least every step seen.
pub proof fn lemma_max_step_bounds(pairs: Seq<(u64, AssignmentView)>, upto: int)
    ensures
        spec_max_step(pairs, upto) >= 1,
        forall|j: int|
            0 <= j < upto && j < pairs.len() ==> (#[trigger] pairs[j]).0 <= spec_max_step(
                pairs,
                upto,
            ),
    decreases upto,
{
    if upto > 0 {
        lemma_max_step_bounds(pairs, upto - 1);
    }
}

/// Clone one assignment, preserving its view.
fn clone_assignment_local(a: &Assignment) -> (r: Assignment)
    ensures
        r@ == a@,
{
    Assignment {
        kind: a.kind,
        symbol: match &a.symbol {
            Some(s) => Some(s.clone()),
            None => None,
        },
    }
}

/// Compute the full change-point series of the signal named `name`.
fn series_for(pairs: &Vec<(u64, Assignment)>, name: &String) -> (r: Vec<(u64, Assignment)>)
    ensures
        pair_views(r@) == series(
            pair_views(pairs@),
            pairs@.len() as int,
            encode_utf8(name@),
        ),
{
    let ghost pv = pair_views(pairs@);
    let ghost key = encode_utf8(name@);
    let mut pts: Vec<(u64, Assignment)> = Vec::new();
    let mut j: usize = 0;
    proof {
        lemma_series_zero(pv, key);
        assert(pair_views(pts@) =~= series(pv, 0, key));
    }
    while j < pairs.len()
        invariant
            j <= pairs@.len(),
            pv == pair_views(pairs@),
            pv.len() == pairs@.len(),
            key == encode_utf8(name@),
            pair_views(pts@) == series(pv, j as int, key),
        decreases pairs@.len() - j,
    {
        let matches_name = match &pairs[j].1.symbol {
            Some(sym) => text::str_bytes_eq(sym.as_str(), name.as_str()),
            None => {
                let dec = text::u64_to_string(j as u64);
                text::str_bytes_eq(dec.as_str(), name.as_str())
            },
        };
        proof {
            assert(pv[j as int] == (pairs@[j as int].0, pairs@[j as int].1@));
            match pv[j as int].1.symbol {
                Some(sym) => {
                    assert(matches_name == (name_bytes_of(pv, j as int) == key));
                },
                None => {
                    text::lemma_dec_bytes_ascii(j as nat);
                    text::lemma_ascii_bytes_to_chars(text::dec_bytes(j as nat));
                    assert(matches_name == (name_bytes_of(pv, j as int) == key));
                },
            }
        }
        if matches_name {
            proof {
                lemma_series_hit(pv, j as int, key);
            }
            let value = pairs[j].1.get_value();
            let npts = pts.len();
            let push_needed = if npts == 0 {
                true
            } else {
                pts[npts - 1].1.get_value() != value
            };
            proof {
                let ser = series(pv, j as int, key);
                if npts > 0 {
                    assert(ser.last() == (pts@[npts - 1].0, pts@[npts - 1].1@));
                }
            }
            if push_needed {
                let na = clone_assignment_local(&pairs[j].1);
                let ghost pre = pts@;
                pts.push((pairs[j].0, na));
                proof {
                    assert(pair_views(pts@) =~= pair_views(pre).push(pv[j as int]));
                }
            }
        } else {
            proof {
                lemma_series_skip(pv, j as int, key);
            }
        }
        j = j + 1;
    }
    pts
}

/// Inserting a fresh entry for the name of pair `i` at its sorted position
/// `k` preserves the collection invariants.
#[verifier::rlimit(100)]
#[verifier::spinoff_prover]
proof fn lemma_insert_entry(
    pairs: Seq<(u64, AssignmentView)>,
    es0: Seq<FlowEntryView>,
    es1: Seq<FlowEntryView>,
    i: int,
    k: int,
)
    requires
        flows_sorted(es0),
        flows_series(pairs, es0),
        flows_complete(pairs, es0, i),
        flows_sound(pairs, es0, pairs.len() as int),
        0 <= i < pairs.len(),
        0 <= k <= es0.len(),
        es1.len() == es0.len() + 1,
        forall|q: int| 0 <= q < k ==> es1[q] == #[trigger] es0[q],
        forall|q: int| k <= q < es0.len() ==> es1[q + 1] == #[trigger] es0[q],
        entry_key(es1[k]) == name_bytes_of(pairs, i),
        es1[k].name == name_chars_of(pairs, i),
        es1[k].points == series(pairs, pairs.len() as int, name_bytes_of(pairs, i)),
        forall|q: int|
            0 <= q < k ==> text::bytes_lt(entry_key(#[trigger] es0[q]), name_bytes_of(pairs, i)),
        k < es0.len() ==> text::bytes_lt(name_bytes_of(pairs, i), entry_key(es0[k])),
    ensures
        flows_sorted(es1),
        flows_series(pairs, es1),
        flows_complete(pairs, es1, i + 1),
        flows_sound(pairs, es1, pairs.len() as int),
{
    let nb = name_bytes_of(pairs, i);
    assert forall|q1: int, q2: int|
        #![trigger es1[q1], es1[q2]]
        0 <= q1 < q2 < es1.len() implies text::bytes_lt(
        entry_key(es1[q1]),
        entry_key(es1[q2]),
    ) by {
        if q1 < k && q2 < k {
            assert(es1[q1] == es0[q1] && es1[q2] == es0[q2]);
        } else if q1 < k && q2 == k {
            assert(es1[q1] == es0[q1]);
        } else if q1 < k && q2 > k {
            assert(es1[(q2 - 1) + 1] == es0[q2 - 1]);
            assert(es1[q1] == es0[q1] && es1[q2] == es0[q2 - 1]);
            if q2 - 1 == k {
                text::lemma_bytes_lt_trans(entry_key(es0[q1]), nb, entry_key(es0[k]));
            }
        } else if q1 == k {
            assert(es1[(q2 - 1) + 1] == es0[q2 - 1]);
            assert(es1[q2] == es0[q2 - 1]);
            if q2 - 1 == k {
            } else {
                text::lemma_bytes_lt_trans(nb, entry_key(es0[k]), entry_key(es0[q2 - 1]));
            }
        } else {
            assert(es1[(q1 - 1) + 1] == es0[q1 - 1]);
            assert(es1[(q2 - 1) + 1] == es0[q2 - 1]);
            assert(es1[q1] == es0[q1 - 1] && es1[q2] == es0[q2 - 1]);
        }
    }
    assert forall|q: int| 0 <= q < es1.len() implies (#[trigger] es1[q]).points == series(
        pairs,
        pairs.len() as int,
        entry_key(es1[q]),
    ) by {
        if q < k {
            assert(es1[q] == es0[q]);
        } else if q > k {
            assert(es1[(q - 1) + 1] == es0[q - 1]);
            assert(es1[q] == es0[q - 1]);
        }
    }
    assert forall|j: int| 0 <= j < i + 1 && j < pairs.len() implies exists|q: int|
        0 <= q < es1.len() && entry_key(es1[q]) == #[trigger] name_bytes_of(pairs, j) by {
        if j < i {
            let q0 = choose|q: int|
                0 <= q < es0.len() && entry_key(es0[q]) == name_bytes_of(pairs, j);
            let q1 = if q0 < k {
                q0
            } else {
                q0 + 1
            };
            assert(es1[q0 + 1] == es0[q0] || q0 < k);
            assert(es1[q1] == es0[q0]);
            assert(entry_key(es1[q1]) == name_bytes_of(pairs, j));
        } else {
            assert(entry_key(es1[k]) == name_bytes_of(pairs, i));
        }
    }
    assert forall|q: int| 0 <= q < es1.len() implies exists|j: int|
        0 <= j < pairs.len() && name_bytes_of(pairs, j) == entry_key(#[trigger] es1[q])
            && es1[q].name == name_chars_of(pairs, j) by {
        if q == k {
            assert(0 <= i < pairs.len() && name_bytes_of(pairs, i) == entry_key(es1[k])
                && es1[k].name == name_chars_of(pairs, i));
        } else {
            let q0 = if q < k {
                q
            } else {
                q - 1
            };
            assert(q < k || es1[q0 + 1] == es0[q0]);
            assert(es1[q] == es0[q0]);
            let j0 = choose|j: int|
                0 <= j < pairs.len() && name_bytes_of(pairs, j) == entry_key(es0[q0])
                    && es0[q0].name == name_chars_of(pairs, j);
            assert(0 <= j0 < pairs.len() && name_bytes_of(pairs, j0) == entry_key(es1[q])
                && es1[q].name == name_chars_of(pairs, j0));
        }
    }
}

impl Witness {
    /// Rebuild the per-signal change-point series from a flat sequence of
    /// (step, assignment) pairs: the name of pair `i` is its symbol, or the
    /// decimal form of `i` when it has none; a point is recorded only when
    /// the decoded value differs from the signal's most recently recorded
    /// value; the maximum step is tracked with a floor of one.
    #[verifier::rlimit(100)]
    pub fn collect_assignments(pairs: &Vec<(u64, Assignment)>) -> (r: (SignalFlow, u64))
        ensures
            collected(pair_views(pairs@), r.0@),
            r.1 == spec_max_step(pair_views(pairs@), pairs@.len() as int),
    {
        let ghost pv = pair_views(pairs@);
        let mut max_step: u64 = 1;
        let mut m: usize = 0;
        while m < pairs.len()
            invariant
                m <= pairs@.len(),
                pv == pair_views(pairs@),
                pv.len() == pairs@.len(),
                max_step == spec_max_step(pv, m as int),
            decreases pairs@.len() - m,
        {
            proof {
                assert(pv[m as int] == (pairs@[m as int].0, pairs@[m as int].1@));
            }
            if pairs[m].0 > max_step {
                max_step = pairs[m].0;
            }
            m = m + 1;
        }
        let mut entries: Vec<FlowEntry> = Vec::new();
        let mut i: usize = 0;
        proof {
            assert(entry_views(entries@) =~= Seq::<FlowEntryView>::empty());
        }
        while i < pairs.len()
            invariant
                i <= pairs@.len(),
                pv == pair_views(pairs@),
                pv.len() == pairs@.len(),
                flows_sorted(entry_views(entries@)),
                flows_series(pv, entry_views(entries@)),
                flows_complete(pv, entry_views(entries@), i as int),
                flows_sound(pv, entry_views(entries@), pv.len() as int),
            decreases pairs@.len() - i,
        {
            let ghost es0 = entry_views(entries@);
            let name: String = match &pairs[i].1.symbol {
                Some(sym) => sym.clone(),
                None => text::u64_to_string(i as u64),
            };
            proof {
                assert(pv[i as int] == (pairs@[i as int].0, pairs@[i as int].1@));
                match pv[i as int].1.symbol {
                    Some(sym) => {
                        assert(name@ == name_chars_of(pv, i as int));
                    },
                    None => {
                        text::lemma_dec_bytes_ascii(i as nat);
                        text::lemma_ascii_bytes_to_chars(text::dec_bytes(i as nat));
                        assert(name@ == name_chars_of(pv, i as int));
                        assert(encode_utf8(name@) =~= text::dec_bytes(i as nat));
                    },
                }
                assert(encode_utf8(name@) == name_bytes_of(pv, i as int));
            }
            let ghost nb = name_bytes_of(pv, i as int);
            // find the sorted position of `name`
            let mut k: usize = 0;
            while k < entries.len() && text::str_bytes_lt(entries[k].name.as_str(), name.as_str())
                invariant
                    k <= entries@.len(),
                    nb == encode_utf8(name@),
                    forall|j: int|
                        0 <= j < k ==> text::bytes_lt(
                            entry_key(#[trigger] entry_views(entries@)[j]),
                            nb,
                        ),
                decreases entries@.len() - k,
            {
                proof {
                    assert(entry_views(entries@)[k as int].name == entries@[k as int].name@);
                }
                k = k + 1;
            }
            let is_match = if k < entries.len() {
                text::str_bytes_eq(entries[k].name.as_str(), name.as_str())
            } else {
                false
            };
            if is_match {
                proof {
                    assert(entry_key(es0[k as int]) == nb);
                    assert forall|j: int|
                        0 <= j < i as int + 1 && j < pv.len() implies exists|q: int|
                        (0 <= q < es0.len() && entry_key(es0[q]) == #[trigger] name_bytes_of(
                            pv,
                            j,
                        )) by {
                        if j == i as int {
                            assert(0 <= (k as int) && (k as int) < es0.len() && entry_key(es0[k as int])
                                == name_bytes_of(pv, i as int));
                        }
                    }
                    assert(flows_complete(pv, es0, i as int + 1));
                }
            } else {
                proof {
                    if k < entries@.len() {
                        assert(!text::bytes_lt(entry_key(es0[k as int]), nb));
                        assert(entry_key(es0[k as int]) != nb);
                        text::lemma_bytes_lt_connex(entry_key(es0[k as int]), nb);
                    }
                }
                let pts = series_for(pairs, &name);
                let e = FlowEntry { name, points: pts };
                proof {
                    assert(e@.name == name_chars_of(pv, i as int));
                    assert(entry_key(e@) == nb);
                    assert(e@.points == series(pv, pv.len() as int, nb));
                }
                entries.insert(k, e);
                proof {
                    let es1 = entry_views(entries@);
                    assert(es1.len() == es0.len() + 1);
                    assert forall|q: int| 0 <= q < k implies es1[q] == #[trigger] es0[q] by {
                        assert(entries@[q] == entries@[q]);
                    }
                    assert forall|q: int| k <= q < es0.len() implies es1[q + 1] == #[trigger] es0[
                        q
                    ] by {
                        assert(entries@[q + 1] == entries@[q + 1]);
                    }
                    assert(es1[k as int] == e@);
                    lemma_insert_entry(pv, es0, es1, i as int, k as int);
                }
            }
            i = i + 1;
        }
        (SignalFlow { entries }, max_step)
    }
}

} // verus!
