use scent::analysis::{Function, FunctionEntrypoint, FunctionSelector};
use scent::loader::{Program, Section, SectionKind};
use scent::opcodes::mnemonic;
use scent::parser::Instruction;
use scent::text::{decimal_text, hex_number_text, offset_text, pad_right};
use scent::view::{bytes_to_u128, decorate_push_data, Line, LineKind, View};
use std::collections::HashMap;

fn names() -> HashMap<u32, String> {
    let mut names = HashMap::new();
    names.insert(0xa9059cbb, "transfer(address,uint256)".to_string());
    names
}

fn kinds(view: &View) -> Vec<String> {
    view.lines
        .iter()
        .map(|line| match &line.kind {
            LineKind::Label(name) => format!("label {}", name),
            LineKind::Instruction(i) => format!("ins {:02x}", i.opcode),
            LineKind::HexDump(bytes) => format!("dump {}", bytes.len()),
            LineKind::Blank => "blank".to_string(),
        })
        .collect()
}

#[test]
fn big_endian_u128() {
    assert_eq!(bytes_to_u128(&[]), 0);
    assert_eq!(bytes_to_u128(&[0x01, 0x00]), 256);
    assert_eq!(bytes_to_u128(&[0xa9, 0x05, 0x9c, 0xbb]), 0xa9059cbb);
    assert_eq!(bytes_to_u128(&[0xff; 16]), u128::MAX);
    // a seventeenth byte pushes the first one out
    let mut long = vec![0x12];
    long.extend([0x00; 15]);
    long.push(0x34);
    assert_eq!(bytes_to_u128(&long), 0x34);
}

#[test]
fn single_and_no_byte_get_no_comment() {
    let none = HashMap::new();
    assert_eq!(decorate_push_data(&[], &none), None);
    assert_eq!(decorate_push_data(&[0x01], &none), None);
    assert_eq!(decorate_push_data(&[0x41], &none), None);
}

#[test]
fn leading_zero_or_one_is_a_number() {
    let none = HashMap::new();
    assert_eq!(decorate_push_data(&[0x00, 0x00], &none).as_deref(), Some("0"));
    assert_eq!(decorate_push_data(&[0x01, 0xb8], &none).as_deref(), Some("440"));
    assert_eq!(decorate_push_data(&[0x00, 0x1c], &none).as_deref(), Some("28"));
    let mut fifteen = vec![0x01];
    fifteen.extend([0x00; 14]);
    assert_eq!(
        decorate_push_data(&fifteen, &none).as_deref(),
        Some("5192296858534827628530496329220096")
    );
    // sixteen bytes are too many for a number, and 0x01 is not printable
    let mut sixteen = vec![0x01];
    sixteen.extend([0x41; 15]);
    assert_eq!(decorate_push_data(&sixteen, &none), None);
    // 0x02 at the head is no number
    assert_eq!(decorate_push_data(&[0x02, 0x00], &none), None);
}

#[test]
fn printable_bytes_are_text() {
    let none = HashMap::new();
    assert_eq!(decorate_push_data(b"abc", &none).as_deref(), Some("\"abc\""));
    assert_eq!(decorate_push_data(b"a \"b\" \\ ~", &none).as_deref(), Some("\"a \\\"b\\\" \\\\ ~\""));
    // two characters are too few
    assert_eq!(decorate_push_data(b"ab", &none), None);
    // one byte outside the printable range spoils it
    assert_eq!(decorate_push_data(&[0x41, 0x42, 0x7f], &none), None);
    assert_eq!(decorate_push_data(&[0x41, 0x1f, 0x42], &none), None);
    assert_eq!(decorate_push_data(&[0x41, 0x42, 0x80], &none), None);
}

#[test]
fn known_selector_gets_its_signature() {
    let names = names();
    assert_eq!(
        decorate_push_data(&[0xa9, 0x05, 0x9c, 0xbb], &names).as_deref(),
        Some("transfer(address,uint256)")
    );
    // unknown selector: the other rules go on
    assert_eq!(decorate_push_data(&[0x01, 0x02, 0x03, 0x04], &names).as_deref(), Some("16909060"));
    assert_eq!(decorate_push_data(b"abcd", &names).as_deref(), Some("\"abcd\""));
    assert_eq!(decorate_push_data(&[0xa9, 0x05, 0x9c, 0xbc], &names), None);
    // a known selector wins over the number rule
    let mut low = HashMap::new();
    low.insert(0x0000_0001, "one()".to_string());
    assert_eq!(decorate_push_data(&[0, 0, 0, 1], &low).as_deref(), Some("one()"));
}

#[test]
fn listing_of_a_deployment() {
    let init = [0x60, 0x05, 0xf3, 0xfe];
    let runtime = [0x63, 0xa9, 0x05, 0x9c, 0xbb, 0x14, 0x61, 0x01, 0x0b, 0x57];
    let mut bytes = init.to_vec();
    bytes.extend(runtime);
    let mut block = vec![0xa2, 0x64];
    block.extend([0x22; 8]);
    bytes.extend(&block);
    bytes.extend([0x00, 0x0a]);
    let program = Program::load(&bytes, false, false);

    let plain = View::from_program_with_selectors(&program, false, &names());
    assert_eq!(
        kinds(&plain),
        vec![
            "label .init", "ins 60", "ins f3", "ins fe", "label .runtime", "ins 63", "ins 14",
            "ins 61", "ins 57", "label .metadata", "dump 12",
        ]
    );
    assert!(plain.lines.iter().all(|line| line.comment.is_none()));
    let offsets: Vec<usize> = plain.lines.iter().map(|line| line.offset).collect();
    assert_eq!(offsets, vec![0, 0, 2, 3, 0, 0, 5, 6, 9, 0, 0]);

    let decorated = View::from_program_with_selectors(&program, true, &names());
    assert_eq!(kinds(&decorated), kinds(&plain));
    let comments: Vec<Option<&str>> =
        decorated.lines.iter().map(|line| line.comment.as_deref()).collect();
    assert_eq!(
        comments,
        vec![
            None, None, None, None, None, Some("transfer(address,uint256)"), None, Some("267"),
            None, None, None,
        ]
    );

    let without_names = View::from_program(&program, true);
    assert_eq!(kinds(&without_names), kinds(&plain));
    assert_eq!(without_names.lines[5].comment, None);
    assert_eq!(without_names.lines[7].comment.as_deref(), Some("267"));
}

#[test]
fn raw_section_has_no_label_and_start_pc_shifts_offsets() {
    let program = Program {
        sections: vec![
            Section {
                kind: SectionKind::Raw,
                raw_bytes: vec![0x00, 0x01],
                instructions: Some(vec![
                    Instruction { offset: 0, opcode: 0x00, data: vec![] },
                    Instruction { offset: 1, opcode: 0x01, data: vec![] },
                ]),
                start_pc: 0x100,
            },
            Section {
                kind: SectionKind::Runtime,
                raw_bytes: vec![0xaa],
                instructions: None,
                start_pc: 0x20,
            },
        ],
        entrypoints: vec![],
    };
    let view = View::from_program(&program, true);
    assert_eq!(kinds(&view), vec!["ins 00", "ins 01", "label .runtime", "dump 1"]);
    let offsets: Vec<usize> = view.lines.iter().map(|line| line.offset).collect();
    assert_eq!(offsets, vec![0x100, 0x101, 0x20, 0]);
}

#[test]
fn empty_program_has_empty_listing() {
    let program = Program::load(&[], false, false);
    let view = View::from_program(&program, true);
    assert!(view.lines.is_empty());
    assert_eq!(view.to_text(), "");
}

#[test]
fn line_texts() {
    let label = Line { offset: 7, kind: LineKind::Label(".init".to_string()), comment: None };
    assert_eq!(label.to_text(), ".init:");
    // a label shows no comment
    let label = Line {
        offset: 7,
        kind: LineKind::Label(".runtime".to_string()),
        comment: Some("x".to_string()),
    };
    assert_eq!(label.to_text(), ".runtime:");

    let push = Line {
        offset: 0x1c,
        kind: LineKind::Instruction(Instruction { offset: 0, opcode: 0x61, data: vec![0x01, 0xb8] }),
        comment: Some("440".to_string()),
    };
    assert_eq!(push.to_text(), "001c: PUSH2 0x01b8        ; 440");

    let stop = Line {
        offset: 0x12345,
        kind: LineKind::Instruction(Instruction { offset: 0, opcode: 0x00, data: vec![] }),
        comment: None,
    };
    assert_eq!(stop.to_text(), "12345: STOP                ");

    let wide = Line {
        offset: 0,
        kind: LineKind::HexDump(vec![0xa2, 0x64, 0x73, 0x6f, 0x6c, 0x63, 0x43, 0x00, 0x08, 0x1e, 0xff]),
        comment: None,
    };
    assert_eq!(wide.to_text(), "0000: a264736f6c634300081eff");

    let blank = Line { offset: 0xab, kind: LineKind::Blank, comment: Some("c".to_string()) };
    assert_eq!(blank.to_text(), format!("00ab: {}; c", " ".repeat(20)));
}

#[test]
fn listing_text_closes_every_line() {
    let program = Program::load(&[0x60, 0x01, 0xf3, 0xfe, 0x5b, 0x00], false, false);
    let view = View::from_program(&program, true);
    let want = [
        ".init:",
        "0000: PUSH1 0x01          ",
        "0002: RETURN              ",
        "0003: INVALID             ",
        ".runtime:",
        "0000: JUMPDEST            ",
        "0001: STOP                ",
        "",
    ]
    .join("\n");
    assert_eq!(view.to_text(), want);
}

#[test]
fn padding_counts_characters() {
    assert_eq!(pad_right("ab".to_string(), 4), "ab  ");
    assert_eq!(pad_right("abcd".to_string(), 4), "abcd");
    assert_eq!(pad_right("abcde".to_string(), 4), "abcde");
    assert_eq!(pad_right("é".to_string(), 3), "é  ");
    assert_eq!(pad_right(String::new(), 0), "");
    assert_eq!(pad_right("x".to_string(), 20), format!("{:<20}", "x"));
}

#[test]
fn opcode_names() {
    assert_eq!(mnemonic(0x00), "STOP");
    assert_eq!(mnemonic(0x14), "EQ");
    assert_eq!(mnemonic(0x56), "JUMP");
    assert_eq!(mnemonic(0x57), "JUMPI");
    assert_eq!(mnemonic(0x5b), "JUMPDEST");
    assert_eq!(mnemonic(0x5f), "PUSH0");
    assert_eq!(mnemonic(0x60), "PUSH1");
    assert_eq!(mnemonic(0x63), "PUSH4");
    assert_eq!(mnemonic(0x69), "PUSH10");
    assert_eq!(mnemonic(0x7f), "PUSH32");
    assert_eq!(mnemonic(0x80), "DUP1");
    assert_eq!(mnemonic(0x8f), "DUP16");
    assert_eq!(mnemonic(0x90), "SWAP1");
    assert_eq!(mnemonic(0x9f), "SWAP16");
    assert_eq!(mnemonic(0xa0), "LOG0");
    assert_eq!(mnemonic(0xa4), "LOG4");
    assert_eq!(mnemonic(0xa5), "UNKNOWN");
    assert_eq!(mnemonic(0x0c), "UNKNOWN");
    assert_eq!(mnemonic(0xf3), "RETURN");
    assert_eq!(mnemonic(0xfd), "REVERT");
    assert_eq!(mnemonic(0xfe), "INVALID");
    assert_eq!(mnemonic(0xff), "SELFDESTRUCT");
}

#[test]
fn records_describe_themselves() {
    let instruction = Instruction { offset: 12, opcode: 0x0a, data: vec![0x80, 0x0f] };
    assert_eq!(instruction.describe(), "Instruction { offset: 12, opcode: 0x0a, data: 0x800f }");
    assert_eq!(instruction.to_text(), "EXP 0x800f");
    let bare = Instruction { offset: 0, opcode: 0x52, data: vec![] };
    assert_eq!(bare.describe(), "Instruction { offset: 0, opcode: 0x52, data: 0x }");
    assert_eq!(bare.to_text(), "MSTORE");

    let selector =
        FunctionSelector { offset: 59, selector: [0x3f, 0xb5, 0xc1, 0xcb], name: None };
    assert_eq!(selector.describe(), "Selector { offset: 59, selector: 0x3fb5c1cb }");

    let function = Function { selector: [0xa9, 0x05, 0x9c, 0xbb], start: 0x234, end: 0x12345 };
    assert_eq!(
        function.describe(),
        "Function { selector: 0xa9059cbb, start: 0x0234, end: 0x12345 }"
    );

    let entrypoint = FunctionEntrypoint { selector: [0, 1, 2, 3], offset: 0 };
    assert_eq!(entrypoint.describe(), "Function { selector: 0x00010203, offset: 0x0000 }");
}

#[test]
fn numbers_are_written_as_the_formatter_writes_them() {
    for value in [0u128, 1, 9, 10, 11, 99, 100, 12345, u64::MAX as u128, u128::MAX] {
        assert_eq!(decimal_text(value), format!("{}", value));
    }
    for value in [0usize, 1, 9, 10, 15, 16, 0xff, 0x100, 0xfff, 0x1000, 0xabcdef, usize::MAX] {
        assert_eq!(hex_number_text(value), format!("{:x}", value));
        assert_eq!(offset_text(value), format!("{:04x}", value));
    }
}

#[test]
fn quoting_agrees_with_the_formatter_on_every_printable_character() {
    let none = HashMap::new();
    for b in 0x20u8..=0x7e {
        // a printable head other than a digit rule trigger, then the byte twice
        let data = [b'#', b, b];
        let text = std::str::from_utf8(&data).unwrap();
        assert_eq!(decorate_push_data(&data, &none), Some(format!("{:?}", text)));
    }
    let all: Vec<u8> = (0x20u8..=0x7e).collect();
    let text = std::str::from_utf8(&all).unwrap();
    assert_eq!(decorate_push_data(&all, &none), Some(format!("{:?}", text)));
}
