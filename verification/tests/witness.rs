use periscope::btor::assignment::Assignment;
use periscope::btor::assignment::AssignmentKind;
use periscope::btor::btor2::get_property_names;
use periscope::btor::helpers;
use periscope::btor::parse_btor_witness;
use periscope::btor::witness_format::PropKind;
use periscope::btor::witness_format::WitnessFormat;
use periscope::btor::Witness;
use periscope::btor::WitnessError;

#[test]
fn assignment_kind_to_binary_string() {
    let bitvec = AssignmentKind::BitVec { value: 6, bits: 3 };
    assert_eq!(bitvec.to_binary_string(), "110");

    let array = AssignmentKind::Array {
        index: 2,
        value: 3,
        bits: 3,
    };
    assert_eq!(array.to_binary_string(), "[010] -> 011");
}

#[test]
fn bitvec_render_round_trip() {
    // decoding the rendered string reproduces the value and the width
    for (value, bits) in [(0u64, 1usize), (6, 3), (5, 3), (255, 8), (1, 8)] {
        let rendered = AssignmentKind::BitVec { value, bits }.to_binary_string();
        assert_eq!(rendered.len(), bits);
        assert_eq!(u64::from_str_radix(&rendered, 2).unwrap(), value);
    }
}

#[test]
fn uint_parses_decimal_runs() {
    assert_eq!(helpers::uint(b"42x", 0), Some((2, 42)));
    assert_eq!(helpers::uint(b"007\n", 0), Some((3, 7)));
    assert_eq!(helpers::uint(b"x42", 0), None);
    // a run whose value does not fit in u64 fails
    assert_eq!(helpers::uint(b"99999999999999999999999", 0), None);
}

#[test]
fn newline_and_comment_tokens() {
    assert_eq!(helpers::newline(b"\nrest", 0), Some(1));
    assert_eq!(helpers::newline(b"x", 0), None);
    // a comment scans for a literal backslash-n marker, and then demands a
    // real newline at the marker itself, so an ordinary comment line fails
    assert_eq!(helpers::comment(b"; hello\n", 0), None);
    assert_eq!(helpers::comment(b"; hello\\n\n", 0), None);
    assert_eq!(helpers::comment(b"x", 0), None);
}

#[test]
fn assignment_parse_bitvec_with_symbol() {
    let (p, a) = Assignment::parse(b"2 01 x\n", 0).unwrap();
    assert_eq!(p, 7);
    assert_eq!(a.kind, AssignmentKind::BitVec { value: 1, bits: 2 });
    assert_eq!(a.symbol.as_deref(), Some("x"));
}

#[test]
fn assignment_parse_array() {
    let (p, a) = Assignment::parse(b"7 [010] 011 mem\n", 0).unwrap();
    assert_eq!(p, 16);
    assert_eq!(
        a.kind,
        AssignmentKind::Array {
            index: 2,
            value: 3,
            bits: 3
        }
    );
    assert_eq!(a.symbol.as_deref(), Some("mem"));
}

#[test]
fn assignment_symbol_truncated_at_at_sign() {
    let (_, a) = Assignment::parse(b"0 1 reset@0\n", 0).unwrap();
    assert_eq!(a.symbol.as_deref(), Some("reset"));
}

#[test]
fn assignment_parse_rejects_missing_value() {
    assert_eq!(Assignment::parse(b"2 \n", 0), None);
    assert_eq!(Assignment::parse(b"x 01\n", 0), None);
}

#[test]
fn witness_format_parse_end_to_end() {
    let text = b"sat\nb0\n@0\n2 01 x\n.\n";
    let (end, w) = WitnessFormat::parse(text, 0).unwrap();
    assert_eq!(end, text.len());
    assert_eq!(w.header.props.len(), 1);
    assert!(matches!(w.header.props[0].kind, PropKind::Bad));
    assert_eq!(w.header.props[0].idx, 0);
    assert!(w.header.props[0].property.is_none());
    assert_eq!(w.frames.len(), 1);
    let frame = &w.frames[0];
    assert!(frame.state_part.is_none());
    assert_eq!(frame.input_part.step, 0);
    assert_eq!(frame.input_part.model.assignments.len(), 1);
    let a = &frame.input_part.model.assignments[0];
    assert_eq!(a.kind, AssignmentKind::BitVec { value: 1, bits: 2 });
    assert_eq!(a.symbol.as_deref(), Some("x"));
}

#[test]
fn witness_format_parse_state_and_input() {
    let text = b"sat\nb0j1\n#0\n0 110 st\n@0\n1 01 in\n.\n";
    let (end, w) = WitnessFormat::parse(text, 0).unwrap();
    assert_eq!(end, text.len());
    assert_eq!(w.header.props.len(), 2);
    assert!(matches!(w.header.props[1].kind, PropKind::Justice));
    assert_eq!(w.header.props[1].idx, 1);
    let frame = &w.frames[0];
    let st = frame.state_part.as_ref().unwrap();
    assert_eq!(st.step, 0);
    assert_eq!(st.model.assignments[0].symbol.as_deref(), Some("st"));
    assert_eq!(frame.input_part.model.assignments[0].symbol.as_deref(), Some("in"));
}

#[test]
fn witness_format_parse_rejects_trailing_garbage_position() {
    // the parser stops after the terminator; the caller sees the end offset
    let text = b"sat\nb0\n@0\n.\nextra";
    let (end, _w) = WitnessFormat::parse(text, 0).unwrap();
    assert_eq!(end, 12);
    assert!(end < text.len());
}

#[test]
fn witness_format_parse_rejects_bad_header() {
    assert!(WitnessFormat::parse(b"nope\n", 0).is_none());
    assert!(WitnessFormat::parse(b"sat\n\n@0\n.\n", 0).is_none());
    assert!(WitnessFormat::parse(b"sat\nb0\n.\n", 0).is_none());
}

#[test]
fn formatted_string_lists_properties() {
    let text = b"sat\nb0j3\n@0\n.\n";
    let (_, w) = WitnessFormat::parse(text, 0).unwrap();
    let pv = periscope::btor::PropVec {
        inner: w.header.props.clone(),
    };
    assert_eq!(pv.formatted_string(), "Bad at 0, Justice at 3");
}

#[test]
fn from_str_distinguishes_empty_from_grammar_failure() {
    let empty = Witness::from_str("");
    assert_eq!(empty.unwrap_err(), WitnessError::EmptyInput);
    let bad = Witness::from_str("garbage");
    assert!(matches!(bad.unwrap_err(), WitnessError::Grammar { .. }));
    assert_ne!(
        Witness::from_str("").unwrap_err(),
        Witness::from_str("garbage").unwrap_err()
    );
}

#[test]
fn from_str_rejects_trailing_text() {
    let r = Witness::from_str("sat\nb0\n@0\n.\nextra");
    assert_eq!(r.unwrap_err(), WitnessError::Unconsumed { at: 12 });
    // the same trace without the trailing text parses
    let w = Witness::from_str("sat\nb0\n@0\n.\n").unwrap();
    assert_eq!(w.inner.frames.len(), 1);
}

#[test]
fn witness_error_messages() {
    let e = Witness::from_str("").unwrap_err();
    assert_eq!(e.message(b""), "No satisfiable property found.");
    let input = b"sat\nb0\n@0\n.\nextra";
    let e = Witness::from_str(std::str::from_utf8(input).unwrap()).unwrap_err();
    assert_eq!(
        e.message(input),
        "Could not parse full input. Remaining: extra"
    );
    let e = WitnessError::Grammar { at: 0 };
    assert_eq!(
        e.message(b"xyz"),
        "Failed to parse witness format. Remaining: xyz"
    );
}

#[test]
fn props_in_steps_reports_counts() {
    let w = Witness::from_str("sat\nb0j3\n@0\n@1\n.\n").unwrap();
    let (props, steps) = w.props_in_steps();
    assert_eq!(props.inner.len(), 2);
    assert_eq!(props.inner[1].idx, 3);
    assert_eq!(steps, 2);
}

fn named_bit(value: u64, name: &str) -> Assignment {
    Assignment {
        kind: AssignmentKind::BitVec { value, bits: 1 },
        symbol: Some(name.to_string()),
    }
}

#[test]
fn collect_assignments_suppresses_adjacent_duplicates() {
    // the same decoded value in two consecutive frames: one change point
    let pairs = vec![(0u64, named_bit(1, "x")), (1u64, named_bit(1, "x"))];
    let (flow, max_step) = Witness::collect_assignments(&pairs);
    assert_eq!(flow.entries.len(), 1);
    assert_eq!(flow.entries[0].name, "x");
    assert_eq!(flow.entries[0].points.len(), 1);
    assert_eq!(flow.entries[0].points[0].0, 0);
    assert_eq!(max_step, 1);
    // a changed value yields a second point
    let pairs = vec![(0u64, named_bit(1, "x")), (1u64, named_bit(0, "x"))];
    let (flow, _) = Witness::collect_assignments(&pairs);
    assert_eq!(flow.entries[0].points.len(), 2);
}

#[test]
fn collect_assignments_max_step_floor_is_one() {
    let pairs = vec![(0u64, named_bit(1, "x"))];
    let (_, max_step) = Witness::collect_assignments(&pairs);
    assert_eq!(max_step, 1);
    let (_, max_step) = Witness::collect_assignments(&Vec::new());
    assert_eq!(max_step, 1);
    let pairs = vec![(7u64, named_bit(1, "x"))];
    let (_, max_step) = Witness::collect_assignments(&pairs);
    assert_eq!(max_step, 7);
}

#[test]
fn collect_assignments_names_unnamed_by_global_position() {
    let unnamed = |v: u64| Assignment {
        kind: AssignmentKind::BitVec { value: v, bits: 1 },
        symbol: None,
    };
    // unnamed assignments key on their global flattened position, so they
    // are never merged across positions
    let pairs = vec![(0u64, unnamed(1)), (1u64, unnamed(1))];
    let (flow, _) = Witness::collect_assignments(&pairs);
    assert_eq!(flow.entries.len(), 2);
    assert_eq!(flow.entries[0].name, "0");
    assert_eq!(flow.entries[1].name, "1");
    assert_eq!(flow.entries[0].points.len(), 1);
    assert_eq!(flow.entries[1].points.len(), 1);
}

#[test]
fn collect_assignments_sorts_names() {
    let pairs = vec![
        (0u64, named_bit(1, "zz")),
        (0u64, named_bit(0, "aa")),
        (0u64, named_bit(1, "mm")),
    ];
    let (flow, _) = Witness::collect_assignments(&pairs);
    let names: Vec<&str> = flow.entries.iter().map(|e| e.name.as_str()).collect();
    assert_eq!(names, vec!["aa", "mm", "zz"]);
}

#[test]
fn get_property_names_builds_ordinal_table() {
    let src = b"1 sort bitvec 1\n5 bad 4 overflow-check\n9 justice 8\n";
    let table = get_property_names(src);
    assert_eq!(table.len(), 2);
    assert_eq!(table[0].0, 0);
    assert_eq!(table[0].1.node, 5);
    assert!(matches!(table[0].1._kind, PropKind::Bad));
    assert_eq!(table[0].1.name.as_deref(), Some("overflow-check"));
    assert_eq!(table[1].0, 1);
    assert_eq!(table[1].1.node, 9);
    assert!(matches!(table[1].1._kind, PropKind::Justice));
    assert_eq!(table[1].1.name, None);
}

#[test]
fn get_property_names_drops_malformed_lines_but_keeps_ordinals() {
    // the first bad/justice line fails its node parse: it occupies ordinal
    // 0 silently, and the next retained line gets ordinal 1
    let src = b"x bad 4 broken\n5 bad 4 good\n";
    let table = get_property_names(src);
    assert_eq!(table.len(), 1);
    assert_eq!(table[0].0, 1);
    assert_eq!(table[0].1.name.as_deref(), Some("good"));
}

#[test]
fn enrichment_attaches_names_by_declaration_index() {
    let w = parse_btor_witness(b"sat\nb0\n@0\n.\n", Some(b"5 bad 4 overflow-check\n")).unwrap();
    let prop = &w.inner.header.props[0];
    let detail = prop.property.as_ref().unwrap();
    assert_eq!(detail.node, 5);
    assert_eq!(detail.name.as_deref(), Some("overflow-check"));
    let pv = periscope::btor::PropVec {
        inner: w.inner.header.props.clone(),
    };
    assert_eq!(
        pv.formatted_string(),
        "Bad at 0 named 'overflow-check' with nid 5"
    );
}

#[test]
fn enrichment_serves_each_table_entry_once() {
    // two references to index 0: the table entry goes to the first only
    let w = parse_btor_witness(b"sat\nb0b0\n@0\n.\n", Some(b"5 bad 4 nm\n")).unwrap();
    assert!(w.inner.header.props[0].property.is_some());
    assert!(w.inner.header.props[1].property.is_none());
}

#[test]
fn parse_btor_witness_without_model_source() {
    let w = parse_btor_witness(b"sat\nb0\n@0\n2 01 x\n.\n", None).unwrap();
    assert!(w.inner.header.props[0].property.is_none());
    assert_eq!(w.inner.frames[0].input_part.model.assignments[0].symbol.as_deref(), Some("x"));
}
