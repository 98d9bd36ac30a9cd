use scent::analysis::FunctionEntrypoint;
use scent::loader::{Program, Section, SectionKind};
use scent::parser::{parse_bytecode, Instruction};

const EMPTY_SOL: &str = "6080604052348015600e575f5ffd5b50601580601a5f395ff3fe60806040525f5ffdfea164736f6c634300081e000a";

const COUNTER_SOL: &str = "6080604052348015600e575f5ffd5b506101b88061001c5f395ff3fe608060405234801561000f575f5ffd5b506004361061003f575f3560e01c80633fb5c1cb146100435780638381f58a1461005f578063d09de08a1461007d575b5f5ffd5b61005d600480360381019061005891906100e4565b610087565b005b610067610090565b604051610074919061011e565b60405180910390f35b610085610095565b005b805f8190555050565b5f5481565b5f5f8154809291906100a690610164565b9190505550565b5f5ffd5b5f819050919050565b6100c3816100b1565b81146100cd575f5ffd5b50565b5f813590506100de816100ba565b92915050565b5f602082840312156100f9576100f86100ad565b5b5f610106848285016100d0565b91505092915050565b610118816100b1565b82525050565b5f6020820190506101315f83018461010f565b92915050565b7f4e487b71000000000000000000000000000000000000000000000000000000005f52601160045260245ffd5b5f61016e826100b1565b91507fffffffffffffffffffffffffffffffffffffffffffffffffffffffffffffffff82036101a05761019f610137565b5b60018201905091905056fea164736f6c634300081e000a";

/// Code, then a metadata block of the usual shape, then the block's length.
fn with_metadata(code: &[u8], tag: u8) -> Vec<u8> {
    let mut block = vec![0xa2, tag, b's', b'o', b'l', b'c', 0x43, 0x00, 0x08, 0x1e];
    block.extend([0x11; 23]);
    let mut bytes = code.to_vec();
    bytes.extend(&block);
    bytes.extend((block.len() as u16).to_be_bytes());
    bytes
}

fn kinds(program: &Program) -> Vec<SectionKind> {
    program.sections.iter().map(|s| s.kind).collect()
}

#[test]
fn raw_mode_yields_one_raw_section() {
    for bytes in [
        Vec::new(),
        vec![0x00],
        hex::decode(COUNTER_SOL).unwrap(),
        with_metadata(&[0x60, 0x01, 0xf3, 0xfe, 0x00], 0x64),
    ] {
        for runtime in [false, true] {
            let program = Program::load(&bytes, true, runtime);
            assert_eq!(program.sections.len(), 1);
            let section = &program.sections[0];
            assert_eq!(section.kind, SectionKind::Raw);
            assert_eq!(section.raw_bytes, bytes);
            assert_eq!(section.start_pc, 0);
            assert_eq!(section.instructions, Some(parse_bytecode(&bytes)));
            assert!(program.entrypoints.is_empty());
        }
    }
}

#[test]
fn metadata_boundary_is_len_minus_l_minus_2() {
    let code = [0x60, 0x80, 0x60, 0x40, 0x52, 0x00];
    for tag in [0x64u8, 0x65, 0x66] {
        let bytes = with_metadata(&code, tag);
        let announced = u16::from_be_bytes([bytes[bytes.len() - 2], bytes[bytes.len() - 1]]);
        assert_eq!(announced, 33);
        assert_eq!(Program::detect_metadata_split(&bytes), bytes.len() - 33 - 2);
        assert_eq!(Program::detect_metadata_split(&bytes), code.len());
    }
}

#[test]
fn metadata_needs_tag_and_room() {
    let code = [0x60, 0x80, 0x00];
    // second tag byte outside 0x64..=0x66
    for tag in [0x63u8, 0x67] {
        let bytes = with_metadata(&code, tag);
        assert_eq!(Program::detect_metadata_split(&bytes), bytes.len());
    }
    // first tag byte wrong
    let mut bytes = with_metadata(&code, 0x64);
    bytes[code.len()] = 0xa1;
    assert_eq!(Program::detect_metadata_split(&bytes), bytes.len());
    // announced length reaches before the buffer
    assert_eq!(Program::detect_metadata_split(&[0xff, 0xff]), 2);
    assert_eq!(Program::detect_metadata_split(&[0xa2, 0x64, 0x00, 0x01]), 4);
    // announced length that ends exactly at the start
    assert_eq!(Program::detect_metadata_split(&[0xa2, 0x64, 0x00, 0x02]), 0);
    // length 0 points at the length bytes themselves
    assert_eq!(Program::detect_metadata_split(&[0xa2, 0x64, 0x00, 0x00]), 4);
    // short buffers
    assert_eq!(Program::detect_metadata_split(&[]), 0);
    assert_eq!(Program::detect_metadata_split(&[0xa2]), 1);
}

#[test]
fn solc_trailer_that_announces_ten_bytes_is_no_tagged_block() {
    // the fixtures end in a1 64 "solc" 43 .. 00 0a: the byte ten before
    // the length is a1, which is not the tag
    let bytes = hex::decode(EMPTY_SOL).unwrap();
    assert_eq!(Program::detect_metadata_split(&bytes), bytes.len());
}

#[test]
fn runtime_starts_behind_first_return_invalid() {
    assert_eq!(Program::detect_runtime_split(&[0x60, 0x01, 0xf3, 0xfe, 0x00]), 4);
    assert_eq!(Program::detect_runtime_split(&[0xf3, 0xfe]), 2);
    assert_eq!(Program::detect_runtime_split(&[0xf3, 0xfe, 0x00, 0xf3, 0xfe, 0x01]), 2);
    assert_eq!(Program::detect_runtime_split(&[0xfe, 0xf3]), 0);
    assert_eq!(Program::detect_runtime_split(&[0x00, 0xf3]), 0);
    assert_eq!(Program::detect_runtime_split(&[0xf3]), 0);
    assert_eq!(Program::detect_runtime_split(&[]), 0);
}

#[test]
fn deployment_splits_into_init_runtime_metadata() {
    let init = [0x60, 0x05, 0x80, 0xf3, 0xfe];
    let runtime = [
        0x63, 0xa9, 0x05, 0x9c, 0xbb, 0x14, 0x61, 0x00, 0x0b, 0x57, 0x00, 0x5b, 0x00,
    ];
    let mut code = init.to_vec();
    code.extend(runtime);
    let bytes = with_metadata(&code, 0x64);
    let program = Program::load(&bytes, false, false);

    assert_eq!(
        kinds(&program),
        vec![SectionKind::Init, SectionKind::Runtime, SectionKind::Metadata]
    );
    assert_eq!(program.sections[0].raw_bytes, init);
    assert_eq!(program.sections[0].instructions, Some(parse_bytecode(&init)));
    assert_eq!(program.sections[1].raw_bytes, runtime);
    assert_eq!(program.sections[1].instructions, Some(parse_bytecode(&runtime)));
    assert_eq!(program.sections[2].raw_bytes, bytes[code.len()..]);
    assert_eq!(program.sections[2].instructions, None);
    assert!(program.sections.iter().all(|s| s.start_pc == 0));
    assert_eq!(
        program.entrypoints,
        vec![FunctionEntrypoint { selector: [0xa9, 0x05, 0x9c, 0xbb], offset: 0x0b }]
    );

    let joined: Vec<u8> = program.sections.iter().flat_map(|s| s.raw_bytes.clone()).collect();
    assert_eq!(joined, bytes);
}

#[test]
fn runtime_only_emits_no_init() {
    let bytes = [0x60, 0x05, 0xf3, 0xfe, 0x00];
    let program = Program::load(&bytes, false, true);
    assert_eq!(kinds(&program), vec![SectionKind::Runtime]);
    assert_eq!(program.sections[0].raw_bytes, bytes);

    let program = Program::load(&bytes, false, false);
    assert_eq!(kinds(&program), vec![SectionKind::Init, SectionKind::Runtime]);
    assert_eq!(program.sections[0].raw_bytes, [0x60, 0x05, 0xf3, 0xfe]);
    assert_eq!(program.sections[1].raw_bytes, [0x00]);
}

#[test]
fn no_delimiter_means_all_runtime() {
    let bytes = [0x60, 0x05, 0x00];
    let program = Program::load(&bytes, false, false);
    assert_eq!(kinds(&program), vec![SectionKind::Runtime]);
    assert_eq!(
        program.sections[0].instructions,
        Some(vec![
            Instruction { offset: 0, opcode: 0x60, data: vec![0x05] },
            Instruction { offset: 2, opcode: 0x00, data: vec![] },
        ])
    );
}

#[test]
fn empty_runtime_emits_no_runtime_section() {
    // the delimiter ends the code: nothing is left for the runtime
    let program = Program::load(&[0x60, 0x01, 0xf3, 0xfe], false, false);
    assert_eq!(kinds(&program), vec![SectionKind::Init]);
    assert!(program.entrypoints.is_empty());

    let bytes = with_metadata(&[0xf3, 0xfe], 0x65);
    let program = Program::load(&bytes, false, false);
    assert_eq!(kinds(&program), vec![SectionKind::Init, SectionKind::Metadata]);
    assert!(program.entrypoints.is_empty());

    let program = Program::load(&[], false, false);
    assert!(program.sections.is_empty());
    assert!(program.entrypoints.is_empty());

    // metadata alone
    let bytes = with_metadata(&[], 0x66);
    let program = Program::load(&bytes, false, true);
    assert_eq!(kinds(&program), vec![SectionKind::Metadata]);
    assert_eq!(program.sections[0].raw_bytes, bytes);
}

#[test]
fn delimiter_inside_metadata_is_not_looked_at() {
    let mut bytes = with_metadata(&[0x00], 0x64);
    let n = bytes.len();
    bytes[n - 10] = 0xf3;
    bytes[n - 9] = 0xfe;
    let program = Program::load(&bytes, false, false);
    assert_eq!(kinds(&program), vec![SectionKind::Runtime, SectionKind::Metadata]);
}

#[test]
fn counter_contract_loads_with_three_entrypoints() {
    let bytes = hex::decode(COUNTER_SOL).unwrap();
    let program = Program::load(&bytes, false, false);
    assert_eq!(kinds(&program), vec![SectionKind::Init, SectionKind::Runtime]);
    assert_eq!(program.sections[0].raw_bytes.len(), 28);
    assert_eq!(
        program.entrypoints,
        vec![
            FunctionEntrypoint { selector: [0x3f, 0xb5, 0xc1, 0xcb], offset: 0x43 },
            FunctionEntrypoint { selector: [0x83, 0x81, 0xf5, 0x8a], offset: 0x5f },
            FunctionEntrypoint { selector: [0xd0, 0x9d, 0xe0, 0x8a], offset: 0x7d },
        ]
    );
}

#[test]
fn section_clone_is_equal() {
    let program = Program::load(&hex::decode(EMPTY_SOL).unwrap(), false, false);
    for section in &program.sections {
        let copy: Section = section.clone();
        assert_eq!(copy.kind, section.kind);
        assert_eq!(copy.raw_bytes, section.raw_bytes);
        assert_eq!(copy.instructions, section.instructions);
        assert_eq!(copy.start_pc, section.start_pc);
    }
}
