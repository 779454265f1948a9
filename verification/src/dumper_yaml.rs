//! The structured dump: the record the serializer writes out, with the
//! byte, function and instruction tables and the identification counts.
//! Serialization itself, the timestamp and the accuracy ratio are added
//! outside the library.

use vstd::prelude::*;

use crate::groundtruth::ARCHITECTURE;
use crate::groundtruth::Byte;
use crate::groundtruth::Function;
use crate::groundtruth::Instruction;
use crate::pe::find_text;
use crate::pe::pe_done;
use crate::pe::PE;

verus! {

/// How many of the first `k` bytes carry at least one flag.
pub open spec fn identified_count(s: Seq<Byte>, k: int) -> int
    decreases k,
{
    if k <= 0 {
        0
    } else {
        identified_count(s, k - 1) + (if s[k - 1].unflagged() {
            0int
        } else {
            1int
        })
    }
}

/// The structured dump record.
pub struct Dump {
    pub version: String,
    pub architecture: ARCHITECTURE,
    pub total_bytes: u64,
    pub bytes_identified: u64,
    pub bytes: Vec<Byte>,
    pub functions: Vec<Function>,
    pub instructions: Vec<Instruction>,
}

/// Build the structured dump record: the total byte count, the number of
/// bytes whose flag set is not empty, and copies of the byte, function
/// and instruction tables.
#[verifier::loop_isolation(false)]
pub fn dump(
    architecture: ARCHITECTURE,
    bytes: &Vec<Byte>,
    functions: &Vec<Function>,
    instructions: &Vec<Instruction>,
) -> (r: Dump)
    requires
        bytes@.len() <= u64::MAX,
    ensures
        r.version@ == "v0.1"@,
        r.architecture == architecture,
        r.total_bytes == bytes@.len(),
        r.bytes_identified as int == identified_count(bytes@, bytes@.len() as int),
        r.bytes@.len() == bytes@.len(),
        forall|i: int|
            0 <= i < bytes@.len() ==> (#[trigger] r.bytes@[i]).like(bytes@[i]),
        r.functions@.len() == functions@.len(),
        forall|j: int|
            0 <= j < functions@.len() ==> {
                &&& (#[trigger] r.functions@[j]).name == functions@[j].name
                &&& r.functions@[j].offset == functions@[j].offset
                &&& r.functions@[j].segment == functions@[j].segment
                &&& r.functions@[j].size == functions@[j].size
                &&& r.functions@[j].labels@ == functions@[j].labels@
                &&& r.functions@[j].data@ == functions@[j].data@
            },
        r.instructions@.len() == instructions@.len(),
        forall|k: int|
            0 <= k < instructions@.len() ==> {
                &&& (#[trigger] r.instructions@[k]).mnemonic == instructions@[k].mnemonic
                &&& r.instructions@[k].operand == instructions@[k].operand
                &&& r.instructions@[k].bytes@ == instructions@[k].bytes@
                &&& r.instructions@[k].offset == instructions@[k].offset
                &&& r.instructions@[k].length == instructions@[k].length
                &&& r.instructions@[k].flags@ == instructions@[k].flags@
            },
{
    let n: usize = bytes.len();
    let mut identified: u64 = 0;
    let mut i: usize = 0;
    while i < n
        invariant
            i <= n,
            n == bytes@.len(),
            identified as int == identified_count(bytes@, i as int),
            identified <= i,
        decreases n - i,
    {
        if bytes[i].flags.len() > 0 {
            identified = identified + 1;
        }
        i = i + 1;
    }
    let mut bcopy: Vec<Byte> = Vec::new();
    let mut k: usize = 0;
    while k < n
        invariant
            k <= n,
            n == bytes@.len(),
            bcopy@.len() == k,
            forall|t: int| 0 <= t < k ==> (#[trigger] bcopy@[t]).like(bytes@[t]),
        decreases n - k,
    {
        bcopy.push(bytes[k].clone());
        k = k + 1;
    }
    let nf: usize = functions.len();
    let mut fcopy: Vec<Function> = Vec::new();
    let mut j: usize = 0;
    while j < nf
        invariant
            j <= nf,
            nf == functions@.len(),
            fcopy@.len() == j,
            forall|t: int|
                0 <= t < j ==> {
                    &&& (#[trigger] fcopy@[t]).name == functions@[t].name
                    &&& fcopy@[t].offset == functions@[t].offset
                    &&& fcopy@[t].segment == functions@[t].segment
                    &&& fcopy@[t].size == functions@[t].size
                    &&& fcopy@[t].labels@ == functions@[t].labels@
                    &&& fcopy@[t].data@ == functions@[t].data@
                },
        decreases nf - j,
    {
        fcopy.push(functions[j].clone());
        j = j + 1;
    }
    let ni: usize = instructions.len();
    let mut icopy: Vec<Instruction> = Vec::new();
    let mut t: usize = 0;
    while t < ni
        invariant
            t <= ni,
            ni == instructions@.len(),
            icopy@.len() == t,
            forall|w: int|
                0 <= w < t ==> {
                    &&& (#[trigger] icopy@[w]).mnemonic == instructions@[w].mnemonic
                    &&& icopy@[w].operand == instructions@[w].operand
                    &&& icopy@[w].bytes@ == instructions@[w].bytes@
                    &&& icopy@[w].offset == instructions@[w].offset
                    &&& icopy@[w].length == instructions@[w].length
                    &&& icopy@[w].flags@ == instructions@[w].flags@
                },
        decreases ni - t,
    {
        icopy.push(instructions[t].clone());
        t = t + 1;
    }
    Dump {
        version: String::from_str("v0.1"),
        architecture,
        total_bytes: n as u64,
        bytes_identified: identified,
        bytes: bcopy,
        functions: fcopy,
        instructions: icopy,
    }
}

/// The round trip from the binary through the pipeline into the dump
/// record: after a PE pipeline completes, a dump whose byte table mirrors
/// the pipeline buffer carries, byte for byte, the values of the trimmed
/// text section of the original binary, in order.
pub proof fn lemma_dump_round_trip(s0: PE, s1: PE, d: Dump)
    requires
        find_text(s0.sections@, 0) >= 0,
        pe_done(s0, s1),
        d.bytes@.len() == s1.bytes@.len(),
        forall|i: int|
            0 <= i < s1.bytes@.len() ==> (#[trigger] d.bytes@[i]).like(s1.bytes@[i]),
    ensures
        d.bytes@.len() <= s0.sections@[find_text(s0.sections@, 0)].raw_data_size,
        forall|i: int|
            0 <= i < d.bytes@.len() ==> (#[trigger] d.bytes@[i]).value == s0.bytes@[
                s0.sections@[find_text(s0.sections@, 0)].raw_data_offset + i
            ].value,
{
    let t = s0.sections@[find_text(s0.sections@, 0)];
    assert forall|i: int| 0 <= i < d.bytes@.len() implies (#[trigger] d.bytes@[i]).value
        == s0.bytes@[t.raw_data_offset + i].value by {
        assert(d.bytes@[i].like(s1.bytes@[i]));
        assert(s1.bytes@[i].value == s0.bytes@[t.raw_data_offset + i].value);
    }
}

/// Build the structured dump of a PE pipeline.
pub fn dump_pe(pe: &crate::pe::PE) -> (r: Dump)
    requires
        pe.bytes@.len() <= u64::MAX,
    ensures
        r.version@ == "v0.1"@,
        r.architecture == pe.architecture,
        r.total_bytes == pe.bytes@.len(),
        r.bytes_identified as int == identified_count(pe.bytes@, pe.bytes@.len() as int),
        r.bytes@.len() == pe.bytes@.len(),
        forall|i: int|
            0 <= i < pe.bytes@.len() ==> (#[trigger] r.bytes@[i]).like(pe.bytes@[i]),
        r.functions@.len() == pe.pdb.functions@.len(),
        r.instructions@.len() == pe.instructions@.len(),
{
    dump(pe.architecture, &pe.bytes, &pe.pdb.functions, &pe.instructions)
}

/// Build the structured dump of an ELF pipeline.
pub fn dump_elf(elf: &crate::elf::ELF) -> (r: Dump)
    requires
        elf.bytes@.len() <= u64::MAX,
    ensures
        r.version@ == "v0.1"@,
        r.architecture == elf.architecture,
        r.total_bytes == elf.bytes@.len(),
        r.bytes_identified as int == identified_count(elf.bytes@, elf.bytes@.len() as int),
        r.bytes@.len() == elf.bytes@.len(),
        forall|i: int|
            0 <= i < elf.bytes@.len() ==> (#[trigger] r.bytes@[i]).like(elf.bytes@[i]),
        r.functions@.len() == elf.dwarf.functions@.len(),
        r.instructions@.len() == elf.instructions@.len(),
{
    dump(elf.architecture, &elf.bytes, &elf.dwarf.functions, &elf.instructions)
}

} // verus!
