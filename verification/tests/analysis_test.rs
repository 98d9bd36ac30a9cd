use scent::analysis::{
    analyze_function_entrypoints, analyze_function_selectors, analyze_functions,
    find_function_end, Analysis, Function, FunctionEntrypoint, FunctionSelector,
};
use scent::parser::Instruction;

fn ins(offset: usize, opcode: u8, data: &[u8]) -> Instruction {
    Instruction { offset, opcode, data: data.to_vec() }
}

fn dispatcher() -> Vec<Instruction> {
    vec![
        ins(0x00, 0x63, &[0xa9, 0x05, 0x9c, 0xbb]),
        ins(0x05, 0x14, &[]),
        ins(0x06, 0x61, &[0x02, 0x34]),
        ins(0x09, 0x57, &[]),
        ins(0x234, 0x5B, &[]),
        ins(0x235, 0x34, &[]),
        ins(0x236, 0xF3, &[]),
    ]
}

#[test]
fn analyze_function_selector() {
    let instructions = vec![
        Instruction {
            offset: 100,
            opcode: 0x63,
            data: vec![0x11, 0x22, 0x33, 0x44],
        },
        Instruction {
            offset: 106,
            opcode: 0x14,
            data: Vec::new(),
        },
    ];

    let analysis = analyze_function_selectors(&instructions);

    assert_eq!(analysis.len(), 1);
    assert_eq!(
        analysis[0],
        FunctionSelector {
            offset: 100,
            selector: [0x11, 0x22, 0x33, 0x44],
            name: Some("func_11223344".to_string()),
        }
    )
}

#[test]
fn analyze_function() {
    let instructions = vec![
        Instruction {
            offset: 0x00,
            opcode: 0x63,
            data: vec![0xa9, 0x05, 0x9c, 0xbb],
        }, // PUSH4 selector
        Instruction {
            offset: 0x05,
            opcode: 0x14,
            data: vec![],
        }, // EQ
        Instruction {
            offset: 0x06,
            opcode: 0x61,
            data: vec![0x02, 0x34],
        }, // PUSH2 0x0234
        Instruction {
            offset: 0x09,
            opcode: 0x57,
            data: vec![],
        }, // JUMPI
        Instruction {
            offset: 0x234,
            opcode: 0x5B,
            data: vec![],
        }, // JUMPDEST
        Instruction {
            offset: 0x235,
            opcode: 0x34,
            data: vec![],
        }, // CALLVALUE
        Instruction {
            offset: 0x236,
            opcode: 0xF3,
            data: vec![],
        }, // RETURN
    ];

    let functions = analyze_functions(&instructions);

    assert_eq!(functions.len(), 1);
    assert_eq!(functions[0].selector, [0xa9, 0x05, 0x9c, 0xbb]);
    assert_eq!(functions[0].start, 0x234);
    assert_eq!(functions[0].end, 0x236);
}

#[test]
fn entrypoint_of_known_dispatcher() {
    let found = analyze_function_entrypoints(&dispatcher());
    assert_eq!(
        found,
        vec![FunctionEntrypoint { selector: [0xa9, 0x05, 0x9c, 0xbb], offset: 0x234 }]
    );
}

#[test]
fn analysis_runs_all_three() {
    let analysis = Analysis::from_instructions(&dispatcher());
    assert_eq!(analysis.function_selectors.len(), 1);
    assert_eq!(analysis.function_selectors[0].offset, 0);
    assert_eq!(analysis.function_selectors[0].name.as_deref(), Some("func_a9059cbb"));
    assert_eq!(
        analysis.functions,
        vec![Function { selector: [0xa9, 0x05, 0x9c, 0xbb], start: 0x234, end: 0x236 }]
    );
    assert_eq!(
        analysis.function_entrypoints,
        vec![FunctionEntrypoint { selector: [0xa9, 0x05, 0x9c, 0xbb], offset: 0x234 }]
    );
}

#[test]
fn new_analysis_is_empty() {
    let analysis = Analysis::new();
    assert!(analysis.function_selectors.is_empty());
    assert!(analysis.functions.is_empty());
    assert!(analysis.function_entrypoints.is_empty());
}

#[test]
fn wide_target_push_is_no_entrypoint() {
    let instructions = vec![
        ins(0, 0x63, &[1, 2, 3, 4]),
        ins(5, 0x14, &[]),
        ins(6, 0x63, &[0, 0, 2, 0x34]),
        ins(11, 0x57, &[]),
    ];
    assert!(analyze_function_entrypoints(&instructions).is_empty());
    assert!(analyze_functions(&instructions).is_empty());
    assert_eq!(analyze_function_selectors(&instructions).len(), 1);
}

#[test]
fn overlapping_window_still_matches() {
    // PUSH4 EQ PUSH4 EQ PUSH1 JUMPI: the first window fails, the one that
    // starts two instructions later matches.
    let instructions = vec![
        ins(0, 0x63, &[1, 2, 3, 4]),
        ins(5, 0x14, &[]),
        ins(6, 0x63, &[5, 6, 7, 8]),
        ins(11, 0x14, &[]),
        ins(12, 0x60, &[0x20]),
        ins(14, 0x57, &[]),
    ];
    assert_eq!(
        analyze_function_entrypoints(&instructions),
        vec![FunctionEntrypoint { selector: [5, 6, 7, 8], offset: 0x20 }]
    );
    let selectors = analyze_function_selectors(&instructions);
    assert_eq!(selectors.len(), 2);
    assert_eq!(selectors[0].offset, 0);
    assert_eq!(selectors[1].offset, 6);
}

#[test]
fn target_is_read_big_endian() {
    for (opcode, data, want) in [
        (0x60u8, vec![0x7fu8], 0x7fusize),
        (0x61, vec![0x02, 0x34], 0x0234),
        (0x62, vec![0x01, 0x02, 0x03], 0x010203),
        (0x61, vec![0x02], 0x02),
        (0x60, vec![], 0),
    ] {
        let instructions = vec![
            ins(0, 0x63, &[1, 2, 3, 4]),
            ins(5, 0x14, &[]),
            ins(6, opcode, &data),
            ins(9, 0x57, &[]),
        ];
        let found = analyze_function_entrypoints(&instructions);
        assert_eq!(found, vec![FunctionEntrypoint { selector: [1, 2, 3, 4], offset: want }]);
    }
}

#[test]
fn short_selector_push_is_no_site() {
    let instructions = vec![
        ins(0, 0x63, &[1, 2, 3]),
        ins(4, 0x14, &[]),
        ins(5, 0x60, &[9]),
        ins(7, 0x57, &[]),
    ];
    assert!(analyze_function_selectors(&instructions).is_empty());
    assert!(analyze_function_entrypoints(&instructions).is_empty());
}

#[test]
fn gap_breaks_the_idiom() {
    let instructions = vec![
        ins(0, 0x63, &[1, 2, 3, 4]),
        ins(5, 0x80, &[]),
        ins(6, 0x14, &[]),
        ins(7, 0x60, &[9]),
        ins(9, 0x57, &[]),
    ];
    assert!(analyze_function_selectors(&instructions).is_empty());
    assert!(analyze_function_entrypoints(&instructions).is_empty());
}

#[test]
fn unresolved_target_gives_entrypoint_but_no_function() {
    let instructions = vec![
        ins(0, 0x63, &[1, 2, 3, 4]),
        ins(5, 0x14, &[]),
        ins(6, 0x61, &[0x10, 0x00]),
        ins(9, 0x57, &[]),
        ins(10, 0x5b, &[]),
        ins(11, 0x00, &[]),
    ];
    assert_eq!(analyze_function_entrypoints(&instructions).len(), 1);
    assert!(analyze_functions(&instructions).is_empty());
    assert_eq!(find_function_end(&instructions, 0x1000), None);
}

#[test]
fn function_end_rules() {
    // terminal opcodes and JUMP end the body at their own offset
    for stop in [0xf3u8, 0xfd, 0x00, 0xfe, 0x56] {
        let instructions = vec![ins(0, 0x5b, &[]), ins(1, 0x01, &[]), ins(2, stop, &[]), ins(3, 0x01, &[])];
        assert_eq!(find_function_end(&instructions, 0), Some(2));
    }
    // a later JUMPDEST ends it at the instruction before
    let instructions =
        vec![ins(0, 0x5b, &[]), ins(1, 0x60, &[7]), ins(3, 0x5b, &[]), ins(4, 0x00, &[])];
    assert_eq!(find_function_end(&instructions, 0), Some(1));
    // the JUMPDEST at the start does not end it; nothing else does either
    let instructions = vec![ins(0, 0x01, &[]), ins(1, 0x5b, &[]), ins(2, 0x01, &[]), ins(3, 0x02, &[])];
    assert_eq!(find_function_end(&instructions, 1), Some(3));
    // a terminal opcode at the start ends it at once
    let instructions = vec![ins(0, 0x00, &[]), ins(1, 0x01, &[])];
    assert_eq!(find_function_end(&instructions, 0), Some(0));
    // nothing starts at the offset
    assert_eq!(find_function_end(&instructions, 5), None);
    assert_eq!(find_function_end(&[], 0), None);
}

#[test]
fn first_instruction_at_offset_is_the_start() {
    // two instructions claim offset 4: the first one counts
    let instructions =
        vec![ins(4, 0x01, &[]), ins(5, 0xf3, &[]), ins(4, 0x01, &[]), ins(9, 0x00, &[])];
    assert_eq!(find_function_end(&instructions, 4), Some(5));
}
