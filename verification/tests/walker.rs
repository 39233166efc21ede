use pdf_replacer::{
    rewrite_operations, Font, Operand, Operation, ReplaceMap, TextKind, UnicodeMapper, WalkError,
};

fn rules(pairs: &[(&str, &str)]) -> Vec<ReplaceMap> {
    pairs
        .iter()
        .map(|(k, v)| ReplaceMap { key: k.to_string(), value: v.to_string() })
        .collect()
}

fn win_ansi_mapper(name: &[u8]) -> UnicodeMapper {
    let font = Font::new("WinAnsiEncoding".to_string(), None);
    UnicodeMapper::new(vec![(name.to_vec(), font)])
}

fn tf(name: &[u8]) -> Operation {
    Operation { operator: "Tf".to_string(), operands: vec![Operand::Name(name.to_vec())] }
}

fn text_bytes(op: &Operation, j: usize) -> Vec<u8> {
    match &op.operands[j] {
        Operand::Text(b, _) => b.clone(),
        _ => panic!("operand {j} is not a string"),
    }
}

#[test]
fn tj_operand_is_rewritten_in_place() {
    // a Tj operand decoding to "[PLACEHOLDER]" under a WinAnsi-class font
    let mapper = win_ansi_mapper(b"F1");
    let mut ops = vec![
        tf(b"F1"),
        Operation {
            operator: "Tj".to_string(),
            operands: vec![Operand::Text(b"[PLACEHOLDER]".to_vec(), TextKind::Literal)],
        },
    ];
    let modified = rewrite_operations(&mut ops, &mapper, &rules(&[("[PLACEHOLDER]", "Acme Corp")]))
        .expect("no structural error");
    assert!(modified);
    assert_eq!(ops[1].operator, "Tj");
    let decoded = mapper.decode(&b"F1".to_vec(), &text_bytes(&ops[1], 0));
    assert_eq!(decoded, "Acme Corp");
}

#[test]
fn modified_tj_array_collapses_to_tj() {
    // a TJ array ["Hel", "lo"] with no large negative spacing number
    let mapper = win_ansi_mapper(b"F1");
    let mut ops = vec![
        tf(b"F1"),
        Operation {
            operator: "TJ".to_string(),
            operands: vec![
                Operand::Text(b"Hel".to_vec(), TextKind::Literal),
                Operand::Text(b"lo".to_vec(), TextKind::Literal),
            ],
        },
    ];
    let modified =
        rewrite_operations(&mut ops, &mapper, &rules(&[("Hello", "Hi")])).expect("no error");
    assert!(modified);
    assert_eq!(ops[1].operator, "Tj");
    assert_eq!(ops[1].operands.len(), 1);
    let decoded = mapper.decode(&b"F1".to_vec(), &text_bytes(&ops[1], 0));
    assert_eq!(decoded, "Hi");
}

#[test]
fn unsupported_encoding_skips_matching_text() {
    // a font outside the allow-list holds matching text: nothing changes
    let font = Font::new("SomePrivateEncoding".to_string(), None);
    let mapper = UnicodeMapper::new(vec![(b"F1".to_vec(), font)]);
    let mut ops = vec![
        tf(b"F1"),
        Operation {
            operator: "Tj".to_string(),
            operands: vec![Operand::Text(b"Hello".to_vec(), TextKind::Literal)],
        },
    ];
    let modified =
        rewrite_operations(&mut ops, &mapper, &rules(&[("Hello", "Hi")])).expect("no error");
    assert!(!modified);
    assert_eq!(text_bytes(&ops[1], 0), b"Hello".to_vec());
}

#[test]
fn unmodified_tj_array_keeps_its_structure() {
    // the TJ is rewritten to Tj only when a rule matched
    let mapper = win_ansi_mapper(b"F1");
    let mut ops = vec![
        tf(b"F1"),
        Operation {
            operator: "TJ".to_string(),
            operands: vec![
                Operand::Text(b"Hel".to_vec(), TextKind::Literal),
                Operand::Number(-20),
                Operand::Text(b"lo".to_vec(), TextKind::Literal),
            ],
        },
    ];
    let modified =
        rewrite_operations(&mut ops, &mapper, &rules(&[("absent", "x")])).expect("no error");
    assert!(!modified);
    assert_eq!(ops[1].operator, "TJ");
    assert_eq!(ops[1].operands.len(), 3);
    assert_eq!(text_bytes(&ops[1], 0), b"Hel".to_vec());
    assert_eq!(text_bytes(&ops[1], 2), b"lo".to_vec());
}

#[test]
fn large_negative_spacing_reads_as_a_word_gap() {
    let mapper = win_ansi_mapper(b"F1");
    let mut ops = vec![
        tf(b"F1"),
        Operation {
            operator: "TJ".to_string(),
            operands: vec![
                Operand::Text(b"New".to_vec(), TextKind::Literal),
                Operand::Number(-150),
                Operand::Text(b"York".to_vec(), TextKind::Literal),
            ],
        },
    ];
    let modified =
        rewrite_operations(&mut ops, &mapper, &rules(&[("New York", "Boston")])).expect("ok");
    assert!(modified);
    let decoded = mapper.decode(&b"F1".to_vec(), &text_bytes(&ops[1], 0));
    assert_eq!(decoded, "Boston");
}

#[test]
fn large_negative_real_spacing_reads_as_a_word_gap() {
    // a non-integer spacing number more negative than -100 also inserts a gap
    let mapper = win_ansi_mapper(b"F1");
    let mut ops = vec![
        tf(b"F1"),
        Operation {
            operator: "TJ".to_string(),
            operands: vec![
                Operand::Text(b"New".to_vec(), TextKind::Literal),
                Operand::Real(lopdf::Object::Real(-150.5), true),
                Operand::Text(b"York".to_vec(), TextKind::Literal),
            ],
        },
    ];
    let modified =
        rewrite_operations(&mut ops, &mapper, &rules(&[("New York", "Boston")])).expect("ok");
    assert!(modified);
    let decoded = mapper.decode(&b"F1".to_vec(), &text_bytes(&ops[1], 0));
    assert_eq!(decoded, "Boston");
}

#[test]
fn small_real_spacing_adds_no_gap() {
    let mapper = win_ansi_mapper(b"F1");
    let mut ops = vec![
        tf(b"F1"),
        Operation {
            operator: "TJ".to_string(),
            operands: vec![
                Operand::Text(b"Hel".to_vec(), TextKind::Literal),
                Operand::Real(lopdf::Object::Real(-20.5), false),
                Operand::Text(b"lo".to_vec(), TextKind::Literal),
            ],
        },
    ];
    let modified =
        rewrite_operations(&mut ops, &mapper, &rules(&[("Hello", "Hi")])).expect("ok");
    assert!(modified);
    let decoded = mapper.decode(&b"F1".to_vec(), &text_bytes(&ops[1], 0));
    assert_eq!(decoded, "Hi");
}

#[test]
fn nested_array_text_is_followed_by_a_space() {
    let mapper = win_ansi_mapper(b"F1");
    let mut ops = vec![
        tf(b"F1"),
        Operation {
            operator: "TJ".to_string(),
            operands: vec![
                Operand::Array(vec![Operand::Text(b"One".to_vec(), TextKind::Literal)]),
                Operand::Text(b"Two".to_vec(), TextKind::Literal),
            ],
        },
    ];
    let modified =
        rewrite_operations(&mut ops, &mapper, &rules(&[("One Two", "Three")])).expect("ok");
    assert!(modified);
    let decoded = mapper.decode(&b"F1".to_vec(), &text_bytes(&ops[1], 0));
    assert_eq!(decoded, "Three");
}

#[test]
fn text_before_any_font_selection_is_skipped() {
    let mapper = win_ansi_mapper(b"F1");
    let mut ops = vec![Operation {
        operator: "Tj".to_string(),
        operands: vec![Operand::Text(b"Hello".to_vec(), TextKind::Literal)],
    }];
    let modified =
        rewrite_operations(&mut ops, &mapper, &rules(&[("Hello", "Hi")])).expect("no error");
    assert!(!modified);
    assert_eq!(text_bytes(&ops[0], 0), b"Hello".to_vec());
}

#[test]
fn tf_without_operand_is_a_structural_error() {
    let mapper = win_ansi_mapper(b"F1");
    let mut ops = vec![Operation { operator: "Tf".to_string(), operands: vec![] }];
    let r = rewrite_operations(&mut ops, &mapper, &rules(&[]));
    assert_eq!(r, Err(WalkError::MissingFontOperand));
}

#[test]
fn tf_with_non_name_operand_is_a_structural_error() {
    let mapper = win_ansi_mapper(b"F1");
    let mut ops = vec![Operation {
        operator: "Tf".to_string(),
        operands: vec![Operand::Number(3)],
    }];
    let r = rewrite_operations(&mut ops, &mapper, &rules(&[]));
    assert_eq!(r, Err(WalkError::FontOperandNotAName));
}

#[test]
fn composite_rewrite_drops_unmappable_replacement_characters() {
    // scenario: the replacement holds a character absent from the composite
    // font's reverse map; it is absent from the re-encoded bytes
    let forward = vec![
        (0x41u32, "A".to_string()),
        (0x42, "B".to_string()),
        (0x43, "C".to_string()),
    ];
    let font = Font::new("Identity-H".to_string(), Some(forward));
    let mapper = UnicodeMapper::new(vec![(b"G1".to_vec(), font)]);
    let mut ops = vec![
        tf(b"G1"),
        Operation {
            operator: "Tj".to_string(),
            operands: vec![Operand::Text(vec![0x00, 0x41], TextKind::Literal)],
        },
    ];
    let modified =
        rewrite_operations(&mut ops, &mapper, &rules(&[("A", "BZC")])).expect("no error");
    assert!(modified);
    assert_eq!(text_bytes(&ops[1], 0), vec![0x00, 0x42, 0x00, 0x43]);
}

#[test]
fn later_tf_switches_the_active_font() {
    let supported = Font::new("WinAnsiEncoding".to_string(), None);
    let unsupported = Font::new("Nope".to_string(), None);
    let mapper =
        UnicodeMapper::new(vec![(b"F1".to_vec(), supported), (b"F2".to_vec(), unsupported)]);
    let mut ops = vec![
        tf(b"F1"),
        Operation {
            operator: "Tj".to_string(),
            operands: vec![Operand::Text(b"Hello".to_vec(), TextKind::Literal)],
        },
        tf(b"F2"),
        Operation {
            operator: "Tj".to_string(),
            operands: vec![Operand::Text(b"Hello".to_vec(), TextKind::Literal)],
        },
    ];
    let modified =
        rewrite_operations(&mut ops, &mapper, &rules(&[("Hello", "Hi")])).expect("no error");
    assert!(modified);
    let decoded = mapper.decode(&b"F1".to_vec(), &text_bytes(&ops[1], 0));
    assert_eq!(decoded, "Hi");
    // the second Tj sits under the unsupported font and is untouched
    assert_eq!(text_bytes(&ops[3], 0), b"Hello".to_vec());
}

#[test]
fn pass_through_operators_are_untouched() {
    let mapper = win_ansi_mapper(b"F1");
    let mut ops = vec![
        Operation {
            operator: "BT".to_string(),
            operands: vec![],
        },
        Operation {
            operator: "Td".to_string(),
            operands: vec![Operand::Number(10), Operand::Number(20)],
        },
        Operation {
            operator: "re".to_string(),
            operands: vec![Operand::Other(lopdf::Object::Real(1.5))],
        },
    ];
    let modified = rewrite_operations(&mut ops, &mapper, &rules(&[("x", "y")])).expect("ok");
    assert!(!modified);
    assert_eq!(ops[0].operator, "BT");
    assert_eq!(ops[1].operator, "Td");
    assert_eq!(ops[2].operator, "re");
    assert!(matches!(&ops[2].operands[0], Operand::Other(lopdf::Object::Real(_))));
}
