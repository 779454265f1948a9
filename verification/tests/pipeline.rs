use b2g::dumper_yaml;
use b2g::groundtruth::ARCHITECTURE;
use b2g::groundtruth::Byte;
use b2g::groundtruth::Data;
use b2g::groundtruth::Function;
use b2g::groundtruth::Label;
use b2g::groundtruth::Section;
use b2g::groundtruth::FLAG;
use b2g::groundtruth::PDB;
use b2g::pe::PE;

fn raw_bytes(values: &[u8]) -> Vec<Byte> {
    let mut out = Vec::new();
    for (i, v) in values.iter().enumerate() {
        out.push(Byte { offset: i as u64, value: *v, flags: Vec::new() });
    }
    out
}

fn text_section(size: u64) -> Section {
    Section { name: ".text".to_string(), va: 0x1000, raw_data_offset: 0, raw_data_size: size }
}

fn empty_pdb() -> PDB {
    PDB {
        image_base: 0x400000,
        architecture: ARCHITECTURE::X64,
        functions: Vec::new(),
        data: Vec::new(),
        thunks: Vec::new(),
        labels: Vec::new(),
    }
}

fn func(name: &str, offset: u64, size: u64) -> Function {
    Function {
        name: name.to_string(),
        offset,
        segment: 1,
        size,
        labels: Vec::new(),
        data: Vec::new(),
    }
}

fn pe_with(bytes: Vec<Byte>, sections: Vec<Section>, pdb: PDB) -> PE {
    PE {
        architecture: ARCHITECTURE::X64,
        file_name: "sample".to_string(),
        pdb,
        sections,
        bytes,
        instructions: Vec::new(),
    }
}

#[test]
fn empty_text_section_emits_zero_totals() {
    let mut pe = pe_with(raw_bytes(&[]), vec![text_section(0)], empty_pdb());
    let r = pe.process();
    assert!(r.is_ok());
    assert_eq!(pe.bytes.len(), 0);
    let d = dumper_yaml::dump_pe(&pe);
    assert_eq!(d.total_bytes, 0);
    assert_eq!(d.bytes_identified, 0);
    assert_eq!(d.version, "v0.1");
}

#[test]
fn missing_text_section_is_an_error() {
    let mut pe = pe_with(raw_bytes(&[0x90; 16]), Vec::new(), empty_pdb());
    let r = pe.process();
    assert!(r.is_err());
}

#[test]
fn trailing_jump_table_cuts_the_function() {
    // A function of 0x80 bytes at offset 0x1000 with an unnamed data symbol
    // at 0x1060: the symbol takes the tail and the function shrinks.
    let total = 0x1080usize;
    let mut vals = vec![0x90u8; total];
    vals[0x1000..0x1080].fill(0x90);
    let mut pdb = empty_pdb();
    pdb.functions.push(func("f", 0x1000, 0x80));
    pdb.data.push(Data { name: String::new(), offset: 0x1060, segment: 1, size: 0 });
    let mut pe = pe_with(raw_bytes(&vals), vec![text_section(total as u64)], pdb);
    let r = pe.process();
    assert!(r.is_ok());
    assert_eq!(pe.pdb.functions[0].size, 0x60);
    assert_eq!(pe.pdb.functions[0].data[0].size, 0x20);
    for i in 0x1000..0x1060 {
        assert!(pe.bytes[i].is_code());
        assert!(!pe.bytes[i].is_data());
    }
    for i in 0x1060..0x1080 {
        assert!(pe.bytes[i].is_data());
        assert!(!pe.bytes[i].is_code());
    }
    assert!(pe.bytes[0x1000].is_function_start());
    // The end mark lands on the last code byte: the function was shrunk
    // before the mark was placed.
    assert!(pe.bytes[0x105F].get_flags().contains(&FLAG::FUNCTION_END));
    assert!(!pe.bytes[0x107F].get_flags().contains(&FLAG::FUNCTION_END));
}

#[test]
fn mid_function_jump_table_is_sized_from_labels() {
    // A named data symbol sized as four bytes per label that carries the
    // lower-cased base name.
    let total = 0x200usize;
    let vals = vec![0x90u8; total];
    let mut pdb = empty_pdb();
    pdb.functions.push(func("f", 0x10, 0x100));
    pdb.data.push(Data { name: "MsetTabVec".to_string(), offset: 0x80, segment: 1, size: 0 });
    for i in 0..5 {
        pdb.labels.push(Label {
            name: format!("msetTab{}", i),
            offset: 0x20 + i as u64,
            segment: 1,
        });
    }
    let mut pe = pe_with(raw_bytes(&vals), vec![text_section(total as u64)], pdb);
    let r = pe.process();
    assert!(r.is_ok());
    assert_eq!(pe.pdb.functions[0].labels.len(), 5);
    assert_eq!(pe.pdb.functions[0].data[0].size, 20);
    for i in 0x80..0x94 {
        assert!(pe.bytes[i].is_data());
        assert!(!pe.bytes[i].is_code());
    }
    assert!(pe.bytes[0x7F].is_code());
    assert!(pe.bytes[0x94].is_code());
}

#[test]
fn jump_table_without_matching_labels_stays_empty() {
    let total = 0x200usize;
    let vals = vec![0x90u8; total];
    let mut pdb = empty_pdb();
    pdb.functions.push(func("f", 0x10, 0x100));
    pdb.data.push(Data { name: "OtherVec".to_string(), offset: 0x80, segment: 1, size: 0 });
    pdb.labels.push(Label { name: "unrelated".to_string(), offset: 0x20, segment: 1 });
    let mut pe = pe_with(raw_bytes(&vals), vec![text_section(total as u64)], pdb);
    let r = pe.process();
    assert!(r.is_ok());
    assert_eq!(pe.pdb.functions[0].data[0].size, 0);
    assert!(!pe.bytes[0x80].is_data());
}

#[test]
fn oversized_jump_table_is_rejected() {
    // Enough matching labels to push the computed table past the section:
    // the pipeline refuses the layout instead of writing out of range.
    let total = 0x40usize;
    let vals = vec![0x90u8; total];
    let mut pdb = empty_pdb();
    pdb.functions.push(func("f", 0, 0x30));
    pdb.data.push(Data { name: "BigTabVec".to_string(), offset: 0x10, segment: 1, size: 0 });
    for i in 0..100 {
        pdb.labels.push(Label {
            name: format!("bigTab{}", i),
            offset: 1 + (i % 0x2e) as u64,
            segment: 1,
        });
    }
    let mut pe = pe_with(raw_bytes(&vals), vec![text_section(total as u64)], pdb);
    let r = pe.process();
    assert!(r.is_err());
}

#[test]
fn int3_padding_is_flagged_as_alignment() {
    // Sixteen 0xCC bytes between two functions.
    let mut vals = vec![0xC3u8; 1];
    vals.extend_from_slice(&[0xCCu8; 16]);
    vals.push(0xC3);
    let total = vals.len();
    let mut pdb = empty_pdb();
    pdb.functions.push(func("a", 0, 1));
    pdb.functions.push(func("b", 17, 1));
    let mut pe = pe_with(raw_bytes(&vals), vec![text_section(total as u64)], pdb);
    let r = pe.process();
    assert!(r.is_ok());
    for i in 1..17 {
        assert!(pe.bytes[i].is_alignment());
        assert!(!pe.bytes[i].is_code());
        assert!(!pe.bytes[i].is_data());
    }
}

#[test]
fn multi_byte_nop_padding_is_flagged_as_alignment() {
    // A six-byte nop (66 0F 1F 44 00 00) between two one-byte functions.
    let mut vals = vec![0xC3u8];
    vals.extend_from_slice(&[0x66, 0x0F, 0x1F, 0x44, 0x00, 0x00]);
    vals.push(0xC3);
    let total = vals.len();
    let mut pdb = empty_pdb();
    pdb.functions.push(func("a", 0, 1));
    pdb.functions.push(func("b", 7, 1));
    let mut pe = pe_with(raw_bytes(&vals), vec![text_section(total as u64)], pdb);
    let r = pe.process();
    assert!(r.is_ok());
    for i in 1..7 {
        assert!(pe.bytes[i].is_alignment(), "byte {} not flagged", i);
    }
}

#[test]
fn zero_tail_is_truncated() {
    // The buffer ends in 64 zero bytes with no flags; the end-of-section
    // pass drops them.
    let mut vals = vec![0xC3u8; 8];
    vals.extend_from_slice(&[0u8; 64]);
    let total = vals.len();
    let mut pdb = empty_pdb();
    pdb.functions.push(func("a", 0, 8));
    let mut pe = pe_with(raw_bytes(&vals), vec![text_section(total as u64)], pdb);
    let r = pe.process();
    assert!(r.is_ok());
    assert_eq!(pe.bytes.len(), 8);
}

#[test]
fn offsets_are_rebased_after_processing() {
    let vals = vec![0xC3u8; 4];
    let mut pdb = empty_pdb();
    pdb.functions.push(func("a", 0, 4));
    let mut pe = pe_with(raw_bytes(&vals), vec![text_section(4)], pdb);
    let r = pe.process();
    assert!(r.is_ok());
    for (i, b) in pe.bytes.iter().enumerate() {
        assert_eq!(b.offset, 0x1000 + i as u64);
    }
}

#[test]
fn no_byte_is_both_code_and_data() {
    let total = 0x1080usize;
    let vals = vec![0x90u8; total];
    let mut pdb = empty_pdb();
    pdb.functions.push(func("f", 0x1000, 0x80));
    pdb.data.push(Data { name: String::new(), offset: 0x1060, segment: 1, size: 0 });
    let mut pe = pe_with(raw_bytes(&vals), vec![text_section(total as u64)], pdb);
    let r = pe.process();
    assert!(r.is_ok());
    for b in &pe.bytes {
        assert!(!(b.is_code() && b.is_data()));
    }
}

#[test]
fn each_function_has_one_start_and_one_end() {
    let vals = vec![0xC3u8; 32];
    let mut pdb = empty_pdb();
    pdb.functions.push(func("a", 0, 8));
    pdb.functions.push(func("b", 16, 8));
    let mut pe = pe_with(raw_bytes(&vals), vec![text_section(32)], pdb);
    let r = pe.process();
    assert!(r.is_ok());
    for f in &pe.pdb.functions {
        let lo = f.offset as usize;
        let hi = (f.offset + f.size) as usize;
        let starts = (lo..hi).filter(|i| pe.bytes[*i].is_function_start()).count();
        let ends = (lo..hi)
            .filter(|i| pe.bytes[*i].get_flags().contains(&FLAG::FUNCTION_END))
            .count();
        assert_eq!(starts, 1);
        assert_eq!(ends, 1);
        assert!(pe.bytes[lo].is_function_start());
    }
}

#[test]
fn every_instruction_keeps_its_boundary_marks() {
    let vals = vec![0xC3u8; 8];
    let mut pdb = empty_pdb();
    pdb.functions.push(func("a", 0, 8));
    let mut pe = pe_with(raw_bytes(&vals), vec![text_section(8)], pdb);
    let r = pe.process();
    assert!(r.is_ok());
    assert_eq!(pe.instructions.len(), 8);
    for ins in &pe.instructions {
        let lead = ins.offset as usize;
        assert!(pe.bytes[lead].is_instruction_start());
        let trail = lead + ins.length as usize - 1;
        assert!(pe.bytes[trail].get_flags().contains(&FLAG::INSTRUCTION_END));
    }
}

#[test]
fn identified_bytes_match_the_nonempty_flag_count() {
    let mut vals = vec![0xC3u8; 4];
    vals.extend_from_slice(&[0x11, 0x22]);
    let mut pdb = empty_pdb();
    pdb.functions.push(func("a", 0, 4));
    let mut pe = pe_with(raw_bytes(&vals), vec![text_section(6)], pdb);
    let r = pe.process();
    assert!(r.is_ok());
    let d = dumper_yaml::dump_pe(&pe);
    let manual = pe.bytes.iter().filter(|b| !b.get_flags().is_empty()).count() as u64;
    assert_eq!(d.bytes_identified, manual);
    assert_eq!(d.total_bytes, pe.bytes.len() as u64);
    assert_eq!(d.bytes.len(), pe.bytes.len());
    for (a, b) in d.bytes.iter().zip(pe.bytes.iter()) {
        assert_eq!(a.value, b.value);
        assert_eq!(a.offset, b.offset);
    }
}

#[test]
fn dump_bytes_carry_the_original_values() {
    let vals: Vec<u8> = (0..16u8).map(|v| v | 0xC0).collect();
    let mut pdb = empty_pdb();
    pdb.functions.push(func("a", 0, 16));
    let mut pe = pe_with(raw_bytes(&vals), vec![text_section(16)], pdb);
    let r = pe.process();
    assert!(r.is_ok());
    let d = dumper_yaml::dump_pe(&pe);
    let collected: Vec<u8> = d.bytes.iter().map(|b| b.value).collect();
    assert_eq!(collected, vals);
}
