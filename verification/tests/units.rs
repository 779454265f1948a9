use b2g::disassembler;
use b2g::disassembler::DISASSEMBLER;
use b2g::dumper_plain;
use b2g::elf::ELF;
use b2g::groundtruth::ARCHITECTURE;
use b2g::groundtruth::Byte;
use b2g::groundtruth::Function;
use b2g::groundtruth::Section;
use b2g::groundtruth::DWARF;
use b2g::groundtruth::FLAG;
use b2g::strutil;

fn byte(off: u64, val: u8, flags: Vec<FLAG>) -> Byte {
    Byte { offset: off, value: val, flags }
}

#[test]
fn flag_insertion_is_idempotent() {
    let mut b = byte(0, 0, Vec::new());
    b.set_flags(vec![FLAG::CODE, FLAG::CODE, FLAG::READABLE]);
    b.set_flags(vec![FLAG::CODE]);
    assert_eq!(b.get_flags(), vec![FLAG::CODE, FLAG::READABLE]);
    assert!(b.is_code());
    assert!(!b.is_data());
}

#[test]
fn msvc_nop_operand_matcher() {
    let yes = "eax, dword ptr [eax]".to_string();
    assert!(strutil::operand_is_msvc_nop(&yes));
    let yes2 = "rdi, dword ptr [edi]".to_string();
    assert!(strutil::operand_is_msvc_nop(&yes2));
    let no = "eax, dword ptr [ebx]".to_string();
    assert!(!strutil::operand_is_msvc_nop(&no));
    let no2 = "eax, qword ptr [eax]".to_string();
    assert!(!strutil::operand_is_msvc_nop(&no2));
    let no3 = "eax, dword ptr [eax".to_string();
    assert!(!strutil::operand_is_msvc_nop(&no3));
}

#[test]
fn remove_vec_scans_left_to_right() {
    let s: Vec<char> = "msettabvec".chars().collect();
    let r: String = strutil::remove_vec(&s).into_iter().collect();
    assert_eq!(r, "msettab");
    let s2: Vec<char> = "vevecc".chars().collect();
    let r2: String = strutil::remove_vec(&s2).into_iter().collect();
    assert_eq!(r2, "vec");
    let s3: Vec<char> = "novvec".chars().collect();
    let r3: String = strutil::remove_vec(&s3).into_iter().collect();
    assert_eq!(r3, "nov");
}

#[test]
fn substring_search_matches_std_contains() {
    let hay: Vec<char> = "msettab0".chars().collect();
    let needle: Vec<char> = "settab".chars().collect();
    assert!(strutil::contains_chars(&hay, &needle));
    let needle2: Vec<char> = "msettab00".chars().collect();
    assert!(!strutil::contains_chars(&hay, &needle2));
    let empty: Vec<char> = Vec::new();
    assert!(strutil::contains_chars(&hay, &empty));
}

#[test]
fn zydis_backend_reports_an_error() {
    let r = disassembler::disassemble(vec![0x90], &ARCHITECTURE::X64, DISASSEMBLER::ZYDIS);
    assert!(r.is_err());
}

#[test]
fn capstone_decodes_return_and_nop() {
    let r = disassembler::disassemble(
        vec![0x90, 0xC3],
        &ARCHITECTURE::X64,
        DISASSEMBLER::CAPSTONE,
    )
    .unwrap();
    assert_eq!(r.len(), 2);
    assert_eq!(r[0].mnemonic, "nop");
    assert_eq!(r[0].offset, 0);
    assert_eq!(r[0].length, 1);
    assert!(r[0].is_alignment());
    assert_eq!(r[1].mnemonic, "ret");
    assert_eq!(r[1].offset, 1);
    assert!(r[1].get_flags().contains(&FLAG::INSTRUCTION_RET));
    assert!(!r[1].is_alignment());
}

#[test]
fn capstone_flags_jump_and_call() {
    // EB FE: jmp short; E8 00 00 00 00: call.
    let r = disassembler::disassemble(
        vec![0xEB, 0xFE, 0xE8, 0x00, 0x00, 0x00, 0x00],
        &ARCHITECTURE::X64,
        DISASSEMBLER::CAPSTONE,
    )
    .unwrap();
    assert_eq!(r.len(), 2);
    assert!(r[0].get_flags().contains(&FLAG::INSTRUCTION_JUMP));
    assert!(r[1].get_flags().contains(&FLAG::INSTRUCTION_CALL));
    assert_eq!(r[1].bytes, vec![0xE8, 0x00, 0x00, 0x00, 0x00]);
}

#[test]
fn plain_dump_headers_and_runs() {
    let sections = vec![
        Section {
            name: ".data".to_string(),
            va: 0,
            raw_data_offset: 0,
            raw_data_size: 0x10,
        },
        Section {
            name: ".text".to_string(),
            va: 0x1000,
            raw_data_offset: 0,
            raw_data_size: 4,
        },
    ];
    let bytes = vec![
        byte(0x1000, 0x90, vec![FLAG::CODE, FLAG::FUNCTION_START, FLAG::INSTRUCTION_START]),
        byte(0x1001, 0x90, vec![FLAG::CODE]),
        byte(0x1002, 0xAA, vec![FLAG::DATA]),
        byte(0x1003, 0x00, Vec::new()),
    ];
    let s = dumper_plain::dump(0x400000, &sections, &bytes);
    let mut expected = String::new();
    expected.push_str("******* section .data *******\n");
    expected.push_str("<.data va: 0x00000000, size:0x00000010, flags: []>\n");
    expected.push_str("******* section .text *******\n");
    expected.push_str("<.text va: 0x00001000, size:0x00000004, flags: []>\n");
    expected.push_str("@0x000000401000: [FIC]C\n");
    expected.push_str("@0x000000401002: [D]\n");
    expected.push_str("@0x000000401003: [U]\n");
    assert_eq!(s, expected);
}

#[test]
fn class_runs_cover_the_buffer_once() {
    let bytes = vec![
        byte(0, 1, vec![FLAG::CODE]),
        byte(1, 2, vec![FLAG::CODE]),
        byte(2, 3, vec![FLAG::DATA]),
        byte(3, 4, Vec::new()),
        byte(4, 5, Vec::new()),
    ];
    let runs = dumper_plain::class_runs(&bytes);
    assert_eq!(runs, vec![(0usize, 2usize), (2, 1), (3, 2)]);
    let covered: usize = runs.iter().map(|r| r.1).sum();
    assert_eq!(covered, bytes.len());
    assert_eq!(runs[0].0, 0);
    for w in runs.windows(2) {
        assert_eq!(w[0].0 + w[0].1, w[1].0);
    }
}

#[test]
fn elf_pipeline_rebases_to_the_section_address() {
    let mut vals = vec![0u8; 4];
    vals.extend_from_slice(&[0xC3u8; 8]);
    let bytes: Vec<Byte> = vals
        .iter()
        .enumerate()
        .map(|(i, v)| byte(i as u64, *v, Vec::new()))
        .collect();
    let sections = vec![Section {
        name: ".text".to_string(),
        va: 0x4000,
        raw_data_offset: 4,
        raw_data_size: 8,
    }];
    let dwarf = DWARF {
        image_base: 0x400000,
        architecture: ARCHITECTURE::X64,
        functions: vec![
            Function {
                name: "f".to_string(),
                offset: 4,
                segment: 1,
                size: 8,
                labels: Vec::new(),
                data: Vec::new(),
            },
            Function {
                name: "zero".to_string(),
                offset: 4,
                segment: 1,
                size: 0,
                labels: Vec::new(),
                data: Vec::new(),
            },
        ],
    };
    let mut elf = ELF {
        architecture: ARCHITECTURE::X64,
        file_name: "sample".to_string(),
        dwarf,
        sections,
        bytes,
        instructions: Vec::new(),
    };
    let r = elf.process();
    assert!(r.is_ok());
    // The zero-sized function is pruned.
    assert_eq!(elf.dwarf.functions.len(), 1);
    assert_eq!(elf.bytes.len(), 8);
    for (i, b) in elf.bytes.iter().enumerate() {
        assert_eq!(b.offset, 0x4000 + i as u64);
        assert_eq!(b.value, 0xC3);
        assert!(b.is_code());
    }
    assert!(elf.bytes[0].is_function_start());
    assert_eq!(elf.instructions.len(), 8);
}

#[test]
fn elf_function_past_the_section_is_skipped_not_fatal() {
    // The first function claims to run past the buffer: its reachable
    // range is still flagged, it gets no boundary marks and no
    // instructions, and the pass goes on to the next function.
    let vals = vec![0xC3u8; 8];
    let bytes: Vec<Byte> = vals
        .iter()
        .enumerate()
        .map(|(i, v)| byte(i as u64, *v, Vec::new()))
        .collect();
    let sections = vec![Section {
        name: ".text".to_string(),
        va: 0x4000,
        raw_data_offset: 0,
        raw_data_size: 8,
    }];
    let dwarf = DWARF {
        image_base: 0x400000,
        architecture: ARCHITECTURE::X64,
        functions: vec![
            Function {
                name: "big".to_string(),
                offset: 4,
                segment: 1,
                size: 100,
                labels: Vec::new(),
                data: Vec::new(),
            },
            Function {
                name: "ok".to_string(),
                offset: 0,
                segment: 1,
                size: 2,
                labels: Vec::new(),
                data: Vec::new(),
            },
        ],
    };
    let mut elf = ELF {
        architecture: ARCHITECTURE::X64,
        file_name: "sample".to_string(),
        dwarf,
        sections,
        bytes,
        instructions: Vec::new(),
    };
    let r = elf.process();
    assert!(r.is_ok());
    // The oversized function's reachable range is still flagged as code.
    assert!(elf.bytes[4].is_code());
    assert!(elf.bytes[7].is_code());
    // It gets no boundary mark, while the in-range function after it in
    // the list is still processed.
    assert!(!elf.bytes[4].is_function_start());
    assert!(elf.bytes[0].is_function_start());
    assert_eq!(elf.instructions.len(), 2);
}

#[test]
fn lea_self_reference_depends_on_the_printed_operand() {
    // 8D 80 00 00 00 00: lea eax, [eax] in 32-bit mode.  The MSVC filler
    // rule matches the operand text `Xyy, dword ptr [Xyy]`; the decoder
    // linked here prints lea operands without the size prefix, so this
    // form is not flagged, while the matcher itself accepts the prefixed
    // text (see msvc_nop_operand_matcher).
    let r = disassembler::disassemble(
        vec![0x8D, 0x80, 0x00, 0x00, 0x00, 0x00],
        &ARCHITECTURE::X86,
        DISASSEMBLER::CAPSTONE,
    )
    .unwrap();
    assert_eq!(r.len(), 1);
    assert_eq!(r[0].mnemonic, "lea");
    assert_eq!(r[0].operand, "eax, [eax]");
    assert!(!r[0].is_alignment());
}
