//! The disassembler oracle: a thin trusted layer over capstone, and the
//! verified derivation of instruction class flags from what the decoder
//! reports.

use vstd::prelude::*;

use crate::groundtruth::FLAG;
use crate::groundtruth::ARCHITECTURE;
use crate::groundtruth::Instruction;
use crate::strutil::is_nop_name;
use crate::strutil::is_lea_name;
use crate::strutil::is_msvc_nop_operand;
use crate::strutil::operand_is_msvc_nop;
use crate::strutil::name_is_nop;
use crate::strutil::name_is_lea;
use capstone::arch::BuildsCapstone;
use capstone::arch::BuildsCapstoneSyntax;

verus! {

/// The selectable disassembler back ends.  Only the capstone back end is
/// implemented; the other is a placeholder that always reports an error.
#[allow(non_camel_case_types)]
pub enum DISASSEMBLER {
    CAPSTONE,
    ZYDIS,
}

/// Decoder group identifiers, as the capstone C library defines them.
pub const CS_GRP_JUMP: u8 = 1;

pub const CS_GRP_CALL: u8 = 2;

pub const CS_GRP_RET: u8 = 3;

pub const CS_GRP_INT: u8 = 4;

pub const CS_GRP_IRET: u8 = 5;

/// One decoded instruction as the trusted decoder hands it back, before any
/// flag derivation: its text, its bytes and its raw group identifiers.
pub struct RawInsn {
    pub mnemonic: String,
    pub operand: String,
    pub bytes: Vec<u8>,
    pub length: u64,
    pub groups: Vec<u8>,
}

#[verifier::external_type_specification]
#[verifier::external_body]
pub struct ExCapstone(capstone::Capstone);

/// A configured decoder handle.  Only `cs_build` constructs one, and it
/// records, as a ghost value, the mode the engine was configured with, so
/// that contracts can speak of the decode as a function of that mode.
struct Decoder {
    cs: capstone::Capstone,
    mode: Ghost<bool>,
}

/// What the decoder returns for the instruction at position `pos` of a
/// byte sequence, in 32- or 64-bit mode: its mnemonic, operand text,
/// instruction bytes and group identifiers, or nothing if the bytes at
/// `pos` do not decode.  The decode is a function of the mode and the
/// bytes alone; its content is not restated here.
pub uninterp spec fn decode_at(mode64: bool, buf: Seq<u8>, pos: int) -> Option<
    (Seq<char>, Seq<char>, Seq<u8>, Seq<u8>),
>;

/// The view a raw decoded instruction presents: the projection compared
/// against the named decode result.
pub open spec fn raw_view(o: Option<RawInsn>) -> Option<(Seq<char>, Seq<char>, Seq<u8>, Seq<u8>)> {
    match o {
        Option::None => Option::None,
        Option::Some(r) => Option::Some((r.mnemonic@, r.operand@, r.bytes@, r.groups@)),
    }
}

/// Relies on capstone's builder: an x86 decoder in 32- or 64-bit mode with
/// Intel syntax and detail enabled, or nothing if the engine cannot be set
/// up.
#[verifier::external_body]
fn cs_build(mode64: bool) -> (r: Option<Decoder>)
    ensures
        r matches Some(d) ==> d.mode@ == mode64,
{
    let mode = if mode64 {
        capstone::arch::x86::ArchMode::Mode64
    } else {
        capstone::arch::x86::ArchMode::Mode32
    };
    let cs = capstone::Capstone::new().x86().mode(mode).syntax(
        capstone::arch::x86::ArchSyntax::Intel,
    ).detail(true).build().ok()?;
    Some(Decoder { cs, mode: Ghost(mode64) })
}

/// Relies on capstone's `disasm_count` and `insn_detail`: decodes the
/// single instruction at the start of `buf[pos..]`, reported at address
/// `pos`.  The result is the named decode of the mode and the bytes: the
/// engine state never enters it; engine failures surface as an error.  A
/// decoded instruction is at least one byte and its bytes are copied from
/// the buffer at `pos`.
#[verifier::external_body]
fn cs_decode_one(d: &Decoder, buf: &Vec<u8>, pos: usize) -> (r: Result<
    Option<RawInsn>,
    &'static str,
>)
    requires
        pos < buf@.len(),
    ensures
        r matches Ok(o) ==> raw_view(o) == decode_at(d.mode@, buf@, pos as int),
        r matches Ok(o) && o matches Some(ri) ==> {
            &&& 1 <= ri.length
            &&& pos + ri.length <= buf@.len()
            &&& ri.length == ri.bytes@.len()
            &&& ri.bytes@ == buf@.subrange(pos as int, pos + ri.length)
        },
{
    let fault = "Could not disassemble given bytes!";
    let insns = d.cs.disasm_count(&buf[pos..], pos as u64, 1).map_err(|_| fault)?;
    let i = match insns.first() {
        Some(i) => i,
        None => return Ok(None),
    };
    let detail = d.cs.insn_detail(i).map_err(|_| fault)?;
    Ok(Some(RawInsn {
        mnemonic: i.mnemonic().unwrap_or("").to_string(),
        operand: i.op_str().unwrap_or("").to_string(),
        bytes: i.bytes().to_vec(),
        length: i.bytes().len() as u64,
        groups: detail.groups().iter().map(|g| g.0).collect(),
    }))
}

/// The 64-bit flag a given architecture decodes under; the unknown
/// architecture decodes as 64-bit.
pub open spec fn mode64_of(a: ARCHITECTURE) -> bool {
    !(a is X86)
}

/// The whole decode of a buffer from position `pos`: one instruction after
/// the other, each entry carrying its position, stopping at the first
/// position that does not decode.
pub open spec fn decode_list(mode64: bool, buf: Seq<u8>, pos: int) -> Seq<
    (int, (Seq<char>, Seq<char>, Seq<u8>, Seq<u8>)),
>
    decreases buf.len() - pos,
{
    if pos < 0 || pos >= buf.len() {
        Seq::empty()
    } else {
        match decode_at(mode64, buf, pos) {
            Option::None => Seq::empty(),
            Option::Some(t) => {
                if 1 <= t.2.len() && pos + t.2.len() <= buf.len() {
                    seq![(pos, t)] + decode_list(mode64, buf, pos + t.2.len())
                } else {
                    Seq::empty()
                }
            },
        }
    }
}

/// Every entry of a decode starts at or after the starting position, is at
/// least one byte, ends inside the buffer, and decoding is sequential:
/// the first entry sits at the starting position and each further entry
/// starts where the previous one ended.
pub proof fn lemma_decode_list_shape(mode64: bool, buf: Seq<u8>, pos: int)
    ensures
        forall|k: int|
            0 <= k < decode_list(mode64, buf, pos).len() ==> {
                &&& pos <= (#[trigger] decode_list(mode64, buf, pos)[k]).0
                &&& 1 <= decode_list(mode64, buf, pos)[k].1.2.len()
                &&& decode_list(mode64, buf, pos)[k].0 + decode_list(mode64, buf, pos)[
                    k
                ].1.2.len() <= buf.len()
            },
        decode_list(mode64, buf, pos).len() > 0 ==> decode_list(mode64, buf, pos)[0].0
            == pos,
        forall|k: int|
            0 <= k < decode_list(mode64, buf, pos).len() - 1 ==> (#[trigger] decode_list(
                mode64,
                buf,
                pos,
            )[k + 1]).0 == decode_list(mode64, buf, pos)[k].0 + decode_list(
                mode64,
                buf,
                pos,
            )[k].1.2.len(),
    decreases buf.len() - pos,
{
    let dl = decode_list(mode64, buf, pos);
    if 0 <= pos < buf.len() {
        match decode_at(mode64, buf, pos) {
            Option::None => {},
            Option::Some(t) => {
                if 1 <= t.2.len() && pos + t.2.len() <= buf.len() {
                    lemma_decode_list_shape(mode64, buf, pos + t.2.len());
                    let rest = decode_list(mode64, buf, pos + t.2.len());
                    assert(dl == seq![(pos, t)] + rest);
                    assert(dl[0] == (pos, t));
                    assert(forall|k: int|
                        1 <= k < dl.len() ==> #[trigger] dl[k] == rest[k - 1]);
                    assert forall|k: int|
                        0 <= k < dl.len() - 1 implies (#[trigger] dl[k + 1]).0 == dl[k].0
                            + dl[k].1.2.len() by {
                        if k == 0 {
                            assert(dl[1] == rest[0]);
                            assert(rest[0].0 == pos + t.2.len());
                        } else {
                            assert(dl[k + 1] == rest[k]);
                            assert(dl[k] == rest[k - 1]);
                            assert(rest[(k - 1) + 1].0 == rest[k - 1].0 + rest[k
                                - 1].1.2.len());
                        }
                    }
                }
            },
        }
    }
}

/// The instruction list is exactly the decode of the buffer: same length,
/// and entry for entry the same position, texts and bytes, with the flags
/// the class derivation assigns for the entry's groups and texts.
pub open spec fn decoded_entry_ok(
    ins: Seq<Instruction>,
    dl: Seq<(int, (Seq<char>, Seq<char>, Seq<u8>, Seq<u8>))>,
    k: int,
) -> bool {
    &&& ins[k].offset == dl[k].0
    &&& ins[k].mnemonic@ == dl[k].1.0
    &&& ins[k].operand@ == dl[k].1.1
    &&& ins[k].bytes@ == dl[k].1.2
    &&& ins[k].length == dl[k].1.2.len()
    &&& forall|g: FLAG|
        ins[k].has(g) <==> insn_flag_set(dl[k].1.3, dl[k].1.0, dl[k].1.1, g)
}

pub open spec fn decoded_matches(
    ins: Seq<Instruction>,
    dl: Seq<(int, (Seq<char>, Seq<char>, Seq<u8>, Seq<u8>))>,
) -> bool {
    &&& ins.len() == dl.len()
    &&& forall|k: int| 0 <= k < ins.len() ==> #[trigger] decoded_entry_ok(ins, dl, k)
}

/// The instruction text marks an alignment filler: a `nop`, or the MSVC
/// `lea` form that only copies a register onto itself.
pub open spec fn is_alignment_text(mnemonic: Seq<char>, operand: Seq<char>) -> bool {
    is_nop_name(mnemonic) || (is_lea_name(mnemonic) && is_msvc_nop_operand(operand))
}

/// The class flag `f` belongs to an instruction with the given groups and
/// text.
pub open spec fn insn_flag_set(
    groups: Seq<u8>,
    mnemonic: Seq<char>,
    operand: Seq<char>,
    f: FLAG,
) -> bool {
    ||| (f == FLAG::INSTRUCTION_CALL && groups.contains(CS_GRP_CALL))
    ||| (f == FLAG::INSTRUCTION_INT && groups.contains(CS_GRP_INT))
    ||| (f == FLAG::INSTRUCTION_IRET && groups.contains(CS_GRP_IRET))
    ||| (f == FLAG::INSTRUCTION_JUMP && groups.contains(CS_GRP_JUMP))
    ||| (f == FLAG::INSTRUCTION_RET && groups.contains(CS_GRP_RET))
    ||| (f == FLAG::INSTRUCTION_ALIGNMENT && is_alignment_text(mnemonic, operand))
}

fn add_flag(ins: &mut Instruction, f: FLAG)
    ensures
        final(ins).mnemonic@ == old(ins).mnemonic@,
        final(ins).operand@ == old(ins).operand@,
        final(ins).bytes@ == old(ins).bytes@,
        final(ins).offset == old(ins).offset,
        final(ins).length == old(ins).length,
        forall|g: FLAG| final(ins).has(g) <==> old(ins).has(g) || g == f,
        old(ins).dup_free() ==> final(ins).dup_free(),
{
    let mut v: Vec<FLAG> = Vec::new();
    v.push(f);
    proof {
        crate::groundtruth::lemma_seq1_contains(v@, f);
    }
    ins.set_flags(v);
    proof {
        assert forall|g: FLAG| ins.has(g) <==> old(ins).has(g) || g == f by {
            assert(v@.contains(g) <==> g == f);
        }
    }
}

fn groups_contain(groups: &Vec<u8>, g: u8) -> (r: bool)
    ensures
        r == groups@.contains(g),
{
    let mut k: usize = 0;
    while k < groups.len()
        invariant
            k <= groups@.len(),
            forall|i: int| 0 <= i < k ==> groups@[i] != g,
        decreases groups@.len() - k,
    {
        if groups[k] == g {
            return true;
        }
        k = k + 1;
    }
    false
}

/// Turn a raw decoded instruction into an `Instruction` record at the given
/// offset, deriving its class flags from the decoder groups and from the
/// `nop`/`lea` alignment forms.
pub fn instruction_from_raw(raw: RawInsn, offset: u64) -> (r: Instruction)
    ensures
        r.mnemonic@ == raw.mnemonic@,
        r.operand@ == raw.operand@,
        r.bytes@ == raw.bytes@,
        r.offset == offset,
        r.length == raw.length,
        forall|f: FLAG|
            r.has(f) <==> insn_flag_set(raw.groups@, raw.mnemonic@, raw.operand@, f),
        r.dup_free(),
{
    let RawInsn { mnemonic, operand, bytes, length, groups } = raw;
    let mut ins = Instruction {
        mnemonic,
        operand,
        bytes,
        offset,
        length,
        flags: Vec::new(),
    };
    if groups_contain(&groups, CS_GRP_CALL) {
        add_flag(&mut ins, FLAG::INSTRUCTION_CALL);
    }
    if groups_contain(&groups, CS_GRP_INT) {
        add_flag(&mut ins, FLAG::INSTRUCTION_INT);
    }
    if groups_contain(&groups, CS_GRP_IRET) {
        add_flag(&mut ins, FLAG::INSTRUCTION_IRET);
    }
    if groups_contain(&groups, CS_GRP_JUMP) {
        add_flag(&mut ins, FLAG::INSTRUCTION_JUMP);
    }
    if groups_contain(&groups, CS_GRP_RET) {
        add_flag(&mut ins, FLAG::INSTRUCTION_RET);
    }
    if name_is_nop(&ins.mnemonic) {
        add_flag(&mut ins, FLAG::INSTRUCTION_ALIGNMENT);
    } else if name_is_lea(&ins.mnemonic) {
        if operand_is_msvc_nop(&ins.operand) {
            add_flag(&mut ins, FLAG::INSTRUCTION_ALIGNMENT);
        }
    }
    ins
}

/// The instruction list is a well-formed decoding of `buf`: every
/// instruction is at least one byte, lies inside the buffer, carries the
/// bytes it was decoded from, and its flags are exactly the ones the class
/// derivation assigns, with the alignment flag if and only if the text shows
/// an alignment form.
pub open spec fn instrs_wf(ins: Seq<Instruction>, buf: Seq<u8>) -> bool {
    forall|k: int|
        0 <= k < ins.len() ==> {
            &&& 1 <= (#[trigger] ins[k]).length
            &&& ins[k].offset + ins[k].length <= buf.len()
            &&& ins[k].length == ins[k].bytes@.len()
            &&& ins[k].bytes@ == buf.subrange(
                ins[k].offset as int,
                ins[k].offset + ins[k].length,
            )
            &&& ins[k].dup_free()
            &&& (ins[k].has(FLAG::INSTRUCTION_ALIGNMENT) <==> is_alignment_text(
                ins[k].mnemonic@,
                ins[k].operand@,
            ))
            &&& forall|f: FLAG| ins[k].has(f) ==> is_class_flag(f)
        }
}

/// The flags the decoder derivation can assign.
pub open spec fn is_class_flag(f: FLAG) -> bool {
    ||| f == FLAG::INSTRUCTION_CALL
    ||| f == FLAG::INSTRUCTION_INT
    ||| f == FLAG::INSTRUCTION_IRET
    ||| f == FLAG::INSTRUCTION_JUMP
    ||| f == FLAG::INSTRUCTION_RET
    ||| f == FLAG::INSTRUCTION_ALIGNMENT
}

/// Decode `buffer` from its start with the chosen back end.
pub fn disassemble(
    buffer: Vec<u8>,
    architecture: &ARCHITECTURE,
    disassembler: DISASSEMBLER,
) -> (r: Result<Vec<Instruction>, &'static str>)
    ensures
        disassembler is ZYDIS ==> r is Err,
        r matches Ok(ins) ==> instrs_wf(ins@, buffer@),
        r matches Ok(ins) ==> decoded_matches(
            ins@,
            decode_list(mode64_of(*architecture), buffer@, 0),
        ),
{
    match disassembler {
        DISASSEMBLER::CAPSTONE => disassemble_capstone(buffer, architecture),
        DISASSEMBLER::ZYDIS => disassemble_zydis(buffer, architecture),
    }
}

/// Decode `buffer` with capstone: one instruction after the other from
/// offset 0, stopping at the first position that does not decode.
pub fn disassemble_capstone(buffer: Vec<u8>, architecture: &ARCHITECTURE) -> (r: Result<
    Vec<Instruction>,
    &'static str,
>)
    ensures
        r matches Ok(ins) ==> instrs_wf(ins@, buffer@),
        r matches Ok(ins) ==> decoded_matches(
            ins@,
            decode_list(mode64_of(*architecture), buffer@, 0),
        ),
{
    let mode64 = match architecture {
        ARCHITECTURE::X86 => false,
        ARCHITECTURE::X64 => true,
        ARCHITECTURE::UNKNOWN => true,
    };
    proof {
        assert(mode64 == mode64_of(*architecture));
    }
    let d = match cs_build(mode64) {
        Some(d) => d,
        None => {
            return Err("Could not initialize disassembler!");
        },
    };
    let ghost dl = decode_list(mode64, buffer@, 0);
    let mut out: Vec<Instruction> = Vec::new();
    let mut pos: usize = 0;
    proof {
        assert(dl.skip(0) =~= dl);
    }
    let mut done = false;
    while pos < buffer.len() && !done
        invariant
            pos <= buffer@.len(),
            instrs_wf(out@, buffer@),
            d.mode@ == mode64,
            dl == decode_list(mode64, buffer@, 0),
            out@.len() <= dl.len(),
            decode_list(mode64, buffer@, pos as int) == dl.skip(out@.len() as int),
            decoded_matches(out@, dl.take(out@.len() as int)),
            done ==> out@.len() == dl.len(),
        decreases buffer@.len() - pos + (if done { 0int } else { 1int }),
    {
        let ghost c = out@.len() as int;
        match cs_decode_one(&d, &buffer, pos) {
            Ok(Some(raw)) => {
                let step = raw.length;
                let ghost t = (raw.mnemonic@, raw.operand@, raw.bytes@, raw.groups@);
                let ins = instruction_from_raw(raw, pos as u64);
                proof {
                    assert(forall|f: FLAG| ins.has(f) ==> is_class_flag(f));
                    assert(decode_at(mode64, buffer@, pos as int) == Option::Some(t));
                    assert(decode_list(mode64, buffer@, pos as int) == seq![(pos as int, t)]
                        + decode_list(mode64, buffer@, pos + t.2.len()));
                    assert(dl.skip(c).len() >= 1);
                    assert(c < dl.len());
                    assert(dl[c] == dl.skip(c)[0]);
                    assert(dl.skip(c)[0] == (pos as int, t));
                    assert(decode_list(mode64, buffer@, pos + t.2.len()) =~= dl.skip(
                        c + 1,
                    )) by {
                        assert forall|w: int|
                            0 <= w < dl.skip(c + 1).len() implies #[trigger] dl.skip(
                                c + 1,
                            )[w] == (seq![(pos as int, t)] + decode_list(
                                mode64,
                                buffer@,
                                pos + t.2.len(),
                            ))[w + 1] by {
                        }
                    }
                    assert(dl.take(c + 1) =~= dl.take(c).push(dl[c]));
                    assert forall|k: int|
                        0 <= k < c + 1 implies #[trigger] decoded_entry_ok(
                            out@.push(ins),
                            dl.take(c + 1),
                            k,
                        ) by {
                        if k < c {
                            assert(decoded_entry_ok(out@, dl.take(c), k));
                            assert(out@.push(ins)[k] == out@[k]);
                            assert(dl.take(c + 1)[k] == dl.take(c)[k]);
                        } else {
                            assert(out@.push(ins)[k] == ins);
                            assert(dl.take(c + 1)[k] == (pos as int, t));
                        }
                    }
                    assert(decoded_matches(out@.push(ins), dl.take(c + 1)));
                }
                out.push(ins);
                pos = pos + step as usize;
            },
            Ok(None) => {
                proof {
                    assert(decode_list(mode64, buffer@, pos as int) =~= Seq::empty());
                    assert(dl.skip(c).len() == 0);
                    assert(dl.take(c) =~= dl);
                }
                done = true;
            },
            Err(e) => {
                return Err(e);
            },
        }
    }
    proof {
        if pos >= buffer@.len() {
            assert(decode_list(mode64, buffer@, pos as int) =~= Seq::empty());
            assert(dl.skip(out@.len() as int).len() == 0);
            assert(dl.take(out@.len() as int) =~= dl);
        }
    }
    Ok(out)
}

/// The placeholder back end: not implemented, reports an error whenever it
/// is selected.
pub fn disassemble_zydis(_buffer: Vec<u8>, _architecture: &ARCHITECTURE) -> (r: Result<
    Vec<Instruction>,
    &'static str,
>)
    ensures
        r is Err,
{
    Err("The zydis backend is not implemented!")
}

} // verus!
