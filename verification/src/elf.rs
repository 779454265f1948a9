//! The ELF labeling pipeline: the same passes as for PE, in the DWARF
//! order, with absolute pre-trim offsets and without label or data
//! relationships.

use vstd::prelude::*;

use crate::groundtruth::Byte;
use crate::groundtruth::DWARF;
use crate::groundtruth::FLAG;
use crate::groundtruth::Function;
use crate::groundtruth::Hole;
use crate::groundtruth::Instruction;
use crate::groundtruth::Section;
use crate::passes;
use crate::strutil;

verus! {

broadcast use vstd::prelude::Seq::lemma_take_succ_push;

/// The index of the first section named `.text`, or a negative value if
/// there is none.
pub open spec fn find_text_elf(sections: Seq<Section>, k: int) -> int
    decreases sections.len() - k,
{
    if k < 0 || k >= sections.len() {
        -1
    } else if strutil::is_text_name(sections[k].name@) {
        k
    } else {
        find_text_elf(sections, k + 1)
    }
}

/// The instruction is marked at its plain position inside the function
/// range: DWARF offsets need no hole re-expansion.
pub open spec fn elf_placed(bytes: Seq<Byte>, f: Function, ins: Instruction) -> bool {
    &&& 1 <= ins.length
    &&& ins.offset + ins.length <= f.size
    &&& passes::marked_at(bytes, ins, f.offset + ins.offset)
    &&& forall|g: FLAG|
        ins.has(g) ==> (#[trigger] bytes[f.offset + ins.offset]).has(g)
}

pub open spec fn elf_placed_from(bytes: Seq<Byte>, funcs: Seq<Function>, ins: Instruction) -> bool {
    exists|j: int| 0 <= j < funcs.len() && elf_placed(bytes, #[trigger] funcs[j], ins)
}

proof fn lemma_elf_placed_grown(
    b1: Seq<Byte>,
    b2: Seq<Byte>,
    funcs: Seq<Function>,
    ins: Instruction,
)
    requires
        elf_placed_from(b1, funcs, ins),
        passes::grown(b1, b2),
    ensures
        elf_placed_from(b2, funcs, ins),
{
    let j = choose|j: int| 0 <= j < funcs.len() && elf_placed(b1, #[trigger] funcs[j], ins);
    let lead = funcs[j].offset + ins.offset;
    passes::lemma_marked_at_grown(b1, b2, ins, lead);
    assert forall|g: FLAG| ins.has(g) implies (#[trigger] b2[lead]).has(g) by {
        assert(b1[lead].has(g));
    }
    assert(elf_placed(b2, funcs[j], ins));
}

/// The decodes of the functions that lie whole inside the buffer, in
/// function order; a function that runs past the buffer is skipped and
/// contributes nothing.
pub open spec fn elf_fn_decodes_concat(b: Seq<Byte>, funcs: Seq<Function>, mode64: bool) -> Seq<
    (int, (Seq<char>, Seq<char>, Seq<u8>, Seq<u8>)),
>
    decreases funcs.len(),
{
    if funcs.len() == 0 {
        Seq::empty()
    } else {
        elf_fn_decodes_concat(b, funcs.drop_last(), mode64) + (if funcs.last().offset
            + funcs.last().size <= b.len() {
            crate::pe::fn_decode(b, funcs.last(), mode64)
        } else {
            Seq::empty()
        })
    }
}

/// The state an ELF pipeline accepts: a fresh byte buffer, no instructions
/// yet, and, if there is a text section, sane bounds for it and for the
/// symbols' machine integers and data regions.
pub open spec fn elf_ready(s: ELF) -> bool {
    &&& forall|i: int| 0 <= i < s.bytes@.len() ==> (#[trigger] s.bytes@[i]).unflagged()
    &&& s.instructions@.len() == 0
    &&& (find_text_elf(s.sections@, 0) >= 0 ==> {
        let t = s.sections@[find_text_elf(s.sections@, 0)];
        &&& t.raw_data_offset + t.raw_data_size <= s.bytes@.len()
        &&& t.va + t.raw_data_size <= u64::MAX
        &&& forall|j: int|
            0 <= j < s.dwarf.functions@.len() ==> (#[trigger] s.dwarf.functions@[j]).offset
                + s.dwarf.functions@[j].size <= u64::MAX
        &&& forall|j: int, d: int|
            0 <= j < s.dwarf.functions@.len() && 0 <= d < (#[trigger] s.dwarf.functions@[j]).data@.len()
                ==> (#[trigger] s.dwarf.functions@[j].data@[d]).offset
                + s.dwarf.functions@[j].data@[d].size <= s.bytes@.len()
    })
}

/// What holds of an ELF pipeline when processing succeeds: the functions
/// are exactly the pruned originals; every byte kept carries its original
/// text-section value at the section's virtual address plus its index; and
/// the recovered instructions carry only well-formed class-flag sets.
pub open spec fn elf_done(s0: ELF, s1: ELF) -> bool {
    let ti = find_text_elf(s0.sections@, 0);
    let t = s0.sections@[ti];
    &&& s1.sections == s0.sections
    &&& s1.architecture == s0.architecture
    &&& s1.file_name == s0.file_name
    &&& s1.dwarf.image_base == s0.dwarf.image_base
    &&& s1.dwarf.architecture == s0.dwarf.architecture
    &&& s1.dwarf.functions@ == passes::positive_functions(s0.dwarf.functions@)
    &&& s1.bytes@.len() <= t.raw_data_size
    &&& forall|i: int|
        0 <= i < s1.bytes@.len() ==> {
            &&& (#[trigger] s1.bytes@[i]).value == s0.bytes@[t.raw_data_offset + i].value
            &&& s1.bytes@[i].offset == t.va + i
            &&& s1.bytes@[i].dup_free()
        }
    &&& forall|k: int|
        0 <= k < s1.instructions@.len() ==> (#[trigger] s1.instructions@[k]).dup_free() && (
        forall|g: FLAG|
            s1.instructions@[k].has(g) ==> crate::disassembler::is_class_flag(g))
}

/// In the trimmed buffer, the function's region survives whole and its
/// boundary marks sit exactly at its first and last byte, shifted by the
/// section's file offset.
pub open spec fn elf_fn_marked(t_off: int, f: Function, bytes: Seq<Byte>) -> bool {
    &&& f.offset + f.size - t_off <= bytes.len()
    &&& bytes[f.offset - t_off].has(FLAG::FUNCTION_START)
    &&& bytes[f.offset + f.size - 1 - t_off].has(FLAG::FUNCTION_END)
    &&& forall|i: int|
        f.offset - t_off <= i < f.offset + f.size - t_off ==> {
            &&& ((#[trigger] bytes[i]).has(FLAG::FUNCTION_START) <==> i == f.offset - t_off)
            &&& (bytes[i].has(FLAG::FUNCTION_END) <==> i == f.offset + f.size - 1 - t_off)
        }
}


/// Byte `i` is the first byte of a function that lies whole inside a
/// buffer of `n` bytes; only such functions get boundary marks, since the
/// pass skips the remainder of any function that runs past the buffer.
pub open spec fn fs_at_in(funcs: Seq<Function>, i: int, n: int) -> bool {
    exists|j: int|
        0 <= j < funcs.len() && (#[trigger] funcs[j]).offset + funcs[j].size <= n && i
            == funcs[j].offset
}

/// Byte `i` is the last byte of a function that lies whole inside a
/// buffer of `n` bytes.
pub open spec fn fe_at_in(funcs: Seq<Function>, i: int, n: int) -> bool {
    exists|j: int|
        0 <= j < funcs.len() && (#[trigger] funcs[j]).offset + funcs[j].size <= n && i
            == funcs[j].offset + funcs[j].size - 1
}

proof fn lemma_elf_fs_in_push(funcs: Seq<Function>, f: Function, i: int, n: int)
    ensures
        fs_at_in(funcs.push(f), i, n) <==> fs_at_in(funcs, i, n) || (f.offset + f.size
            <= n && i == f.offset),
        fe_at_in(funcs.push(f), i, n) <==> fe_at_in(funcs, i, n) || (f.offset + f.size
            <= n && i == f.offset + f.size - 1),
{
    let s2 = funcs.push(f);
    if fs_at_in(s2, i, n) {
        let j = choose|j: int|
            0 <= j < s2.len() && (#[trigger] s2[j]).offset + s2[j].size <= n && i
                == s2[j].offset;
        if j < funcs.len() {
            assert(s2[j] == funcs[j]);
            assert(fs_at_in(funcs, i, n));
        } else {
            assert(s2[j] == f);
        }
    }
    if fs_at_in(funcs, i, n) {
        let j = choose|j: int|
            0 <= j < funcs.len() && (#[trigger] funcs[j]).offset + funcs[j].size <= n && i
                == funcs[j].offset;
        assert(s2[j] == funcs[j]);
        assert(fs_at_in(s2, i, n));
    }
    if f.offset + f.size <= n && i == f.offset {
        assert(s2[s2.len() - 1] == f);
        assert(fs_at_in(s2, i, n));
    }
    if fe_at_in(s2, i, n) {
        let j = choose|j: int|
            0 <= j < s2.len() && (#[trigger] s2[j]).offset + s2[j].size <= n && i
                == s2[j].offset + s2[j].size - 1;
        if j < funcs.len() {
            assert(s2[j] == funcs[j]);
            assert(fe_at_in(funcs, i, n));
        } else {
            assert(s2[j] == f);
        }
    }
    if fe_at_in(funcs, i, n) {
        let j = choose|j: int|
            0 <= j < funcs.len() && (#[trigger] funcs[j]).offset + funcs[j].size <= n && i
                == funcs[j].offset + funcs[j].size - 1;
        assert(s2[j] == funcs[j]);
        assert(fe_at_in(s2, i, n));
    }
    if f.offset + f.size <= n && i == f.offset + f.size - 1 {
        assert(s2[s2.len() - 1] == f);
        assert(fe_at_in(s2, i, n));
    }
}

/// The byte state the ELF disassembly pass leaves: code, readable and
/// executable exactly on the functions' non-data range bytes, clipped at
/// the buffer's end; boundary marks exactly at the boundaries of the
/// functions that lie whole inside the buffer; data, writeable and
/// block-start flags untouched.
pub open spec fn elf_dis_state(bytes0: Seq<Byte>, funcs: Seq<Function>, b: Seq<Byte>) -> bool {
    &&& b.len() == bytes0.len()
    &&& forall|i: int|
        0 <= i < bytes0.len() ==> {
            &&& (#[trigger] b[i]).same_cell(bytes0[i])
            &&& (bytes0[i].dup_free() ==> b[i].dup_free())
            &&& forall|g: FLAG|
                g == FLAG::DATA || g == FLAG::WRITEABLE || g == FLAG::BLOCK_START ==> (
                b[i].has(g) <==> bytes0[i].has(g))
            &&& forall|g: FLAG|
                g == FLAG::CODE || g == FLAG::READABLE || g == FLAG::EXECUTABLE ==> (
                b[i].has(g) <==> bytes0[i].has(g) || crate::pe::range_code_covers(
                    bytes0,
                    funcs,
                    i,
                ))
            &&& (b[i].has(FLAG::FUNCTION_START) <==> bytes0[i].has(FLAG::FUNCTION_START)
                || fs_at_in(funcs, i, bytes0.len() as int))
            &&& (b[i].has(FLAG::FUNCTION_END) <==> bytes0[i].has(FLAG::FUNCTION_END)
                || fe_at_in(funcs, i, bytes0.len() as int))
        }
}

/// The relations the ELF pipeline tail leaves between its intermediate
/// byte states: `b0` fresh, `b1` after flag setting, `b2` after
/// disassembly, `bt` after trimming, `b3` after rebasing, `b4` after
/// alignment detection, `bf` after tail truncation.
pub open spec fn elf_tail_states(
    b0: Seq<Byte>,
    fc: Seq<Function>,
    b1: Seq<Byte>,
    b2: Seq<Byte>,
    bt: Seq<Byte>,
    b3: Seq<Byte>,
    b4: Seq<Byte>,
    bf: Seq<Byte>,
    t_off: int,
    t_size: int,
) -> bool {
    &&& b1.len() == b0.len()
    &&& b2.len() == b0.len()
    &&& bt.len() == t_size
    &&& b3.len() == t_size
    &&& b4.len() == t_size
    &&& 0 <= t_off
    &&& t_off + t_size <= b0.len()
    &&& forall|i: int| 0 <= i < b0.len() ==> (#[trigger] b0[i]).unflagged()
    &&& forall|i: int|
        0 <= i < b0.len() ==> {
            &&& ((#[trigger] b1[i]).has(FLAG::DATA) <==> passes::data_covers(fc, i))
            &&& (b1[i].has(FLAG::CODE) <==> passes::code_covers(b0, fc, i))
            &&& forall|g: FLAG|
                g != FLAG::CODE && g != FLAG::DATA ==> (b1[i].has(g) <==> b0[i].has(g))
        }
    &&& forall|i: int|
        0 <= i < b0.len() ==> ((#[trigger] b2[i]).has(FLAG::DATA) <==> b1[i].has(FLAG::DATA))
    &&& forall|i: int|
        0 <= i < b0.len() && (#[trigger] b2[i]).has(FLAG::CODE) ==> b1[i].has(FLAG::CODE)
            || crate::pe::range_code_covers(b1, fc, i)
    &&& elf_dis_state(b1, fc, b2)
    &&& forall|i: int| 0 <= i < t_size ==> (#[trigger] bt[i]).like(b2[t_off + i])
    &&& forall|i: int| 0 <= i < t_size ==> (#[trigger] b3[i]).flags@ == bt[i].flags@
    &&& forall|i: int|
        0 <= i < t_size ==> forall|g: FLAG|
            g != FLAG::INSTRUCTION_ALIGNMENT ==> ((#[trigger] b4[i]).has(g) <==> b3[i].has(
                g,
            ))
    &&& forall|i: int|
        0 <= i < t_size && (#[trigger] b3[i]).has(FLAG::INSTRUCTION_ALIGNMENT)
            ==> b4[i].has(FLAG::INSTRUCTION_ALIGNMENT)
    &&& bf == b4.subrange(0, passes::keep_len(b4))
    &&& forall|j: int| 0 <= j < fc.len() ==> (#[trigger] fc[j]).size >= 1
}

/// All functions lie inside the text window.
pub open spec fn elf_window(fc: Seq<Function>, t_off: int, t_size: int) -> bool {
    forall|j: int|
        0 <= j < fc.len() ==> t_off <= (#[trigger] fc[j]).offset && fc[j].offset
            + fc[j].size <= t_off + t_size
}

/// Under a disjoint layout, no byte of the final ELF buffer is both code
/// and data.
#[verifier::rlimit(60)]
proof fn lemma_elf_code_data(
    b0: Seq<Byte>,
    fc: Seq<Function>,
    b1: Seq<Byte>,
    b2: Seq<Byte>,
    bt: Seq<Byte>,
    b3: Seq<Byte>,
    b4: Seq<Byte>,
    bf: Seq<Byte>,
    t_off: int,
    t_size: int,
)
    requires
        elf_tail_states(b0, fc, b1, b2, bt, b3, b4, bf, t_off, t_size),
        crate::pe::laid_out(fc),
    ensures
        forall|i: int|
            0 <= i < bf.len() ==> !((#[trigger] bf[i]).has(FLAG::CODE) && bf[i].has(
                FLAG::DATA,
            )),
{
    passes::lemma_keep_len_bounds(b4);
    assert forall|i: int| 0 <= i < bf.len() implies !((#[trigger] bf[i]).has(FLAG::CODE)
        && bf[i].has(FLAG::DATA)) by {
        if bf[i].has(FLAG::CODE) && bf[i].has(FLAG::DATA) {
            assert(bf[i] == b4[i]);
            assert(b3[i].flags@ == bt[i].flags@);
            assert(bt[i].like(b2[t_off + i]));
            let t = t_off + i;
            assert(b2[t].has(FLAG::CODE) && b2[t].has(FLAG::DATA));
            assert(b1[t].has(FLAG::DATA));
            if b1[t].has(FLAG::CODE) {
                crate::pe::lemma_no_code_data(b0, fc, t);
            } else {
                assert(crate::pe::range_code_covers(b1, fc, t));
                assert(!b1[t].has(FLAG::DATA));
            }
        }
    }
}

/// Inside the window, every byte of a function's region carries code or
/// data before truncation, so the shifted region survives whole.
#[verifier::rlimit(60)]
proof fn lemma_elf_region_byte(
    b0: Seq<Byte>,
    fc: Seq<Function>,
    b1: Seq<Byte>,
    b2: Seq<Byte>,
    bt: Seq<Byte>,
    b3: Seq<Byte>,
    b4: Seq<Byte>,
    bf: Seq<Byte>,
    t_off: int,
    t_size: int,
    j: int,
    i: int,
)
    requires
        elf_tail_states(b0, fc, b1, b2, bt, b3, b4, bf, t_off, t_size),
        elf_window(fc, t_off, t_size),
        0 <= j < fc.len(),
        fc[j].offset - t_off <= i < fc[j].offset + fc[j].size - t_off,
    ensures
        i < bf.len(),
        bf[i] == b4[i],
        forall|g: FLAG|
            g != FLAG::INSTRUCTION_ALIGNMENT ==> (b4[i].has(g) <==> b2[t_off + i].has(g)),
        forall|g: FLAG| b2[t_off + i].has(g) ==> b4[i].has(g),
{
    passes::lemma_keep_len_bounds(b4);
    passes::lemma_keep_len_pad(b4);
    let t = t_off + i;
    assert(fc[j].offset <= t < fc[j].offset + fc[j].size);
    assert(bt[i].like(b2[t]));
    assert(b3[i].flags@ == bt[i].flags@);
    assert(b2[t].has(FLAG::CODE) || b2[t].has(FLAG::DATA)) by {
        if !b1[t].has(FLAG::DATA) {
            assert(crate::pe::range_code_covers(b1, fc, t)) by {
                assert(fc[j].offset <= t < fc[j].offset + fc[j].size && t < b1.len());
            }
            assert(b2[t].has(FLAG::CODE));
        }
    }
    assert(b4[i].has(FLAG::CODE) || b4[i].has(FLAG::DATA));
    if i >= passes::keep_len(b4) {
        assert(passes::is_zero_pad(b4[i]));
    }
    assert(bf[i] == b4[i]);
    assert forall|g: FLAG|
        g != FLAG::INSTRUCTION_ALIGNMENT implies (b4[i].has(g) <==> b2[t].has(g)) by {
        assert(b4[i].has(g) <==> b3[i].has(g));
        assert(b3[i].has(g) <==> bt[i].has(g));
        assert(bt[i].has(g) <==> b2[t].has(g));
    }
    assert forall|g: FLAG| b2[t].has(g) implies b4[i].has(g) by {
        assert(bt[i].has(g));
        assert(b3[i].has(g));
    }
}

/// Under a disjoint layout inside the window, the shifted boundary marks
/// of the final ELF buffer sit exactly at the function boundaries.
#[verifier::rlimit(60)]
proof fn lemma_elf_boundaries(
    b0: Seq<Byte>,
    fc: Seq<Function>,
    b1: Seq<Byte>,
    b2: Seq<Byte>,
    bt: Seq<Byte>,
    b3: Seq<Byte>,
    b4: Seq<Byte>,
    bf: Seq<Byte>,
    t_off: int,
    t_size: int,
    j: int,
)
    requires
        elf_tail_states(b0, fc, b1, b2, bt, b3, b4, bf, t_off, t_size),
        elf_window(fc, t_off, t_size),
        crate::pe::laid_out(fc),
        0 <= j < fc.len(),
    ensures
        elf_fn_marked(t_off, fc[j], bf),
{
    assert forall|i: int|
        fc[j].offset - t_off <= i < fc[j].offset + fc[j].size - t_off implies {
        &&& i < bf.len()
        &&& ((#[trigger] bf[i]).has(FLAG::FUNCTION_START) <==> i == fc[j].offset - t_off)
        &&& (bf[i].has(FLAG::FUNCTION_END) <==> i == fc[j].offset + fc[j].size - 1 - t_off)
    } by {
        lemma_elf_region_byte(b0, fc, b1, b2, bt, b3, b4, bf, t_off, t_size, j, i);
        let t = t_off + i;
        assert(!b1[t].has(FLAG::FUNCTION_START) && !b1[t].has(FLAG::FUNCTION_END)) by {
            assert(b0[t].unflagged());
        }
        let n = b1.len() as int;
        assert(b2[t].has(FLAG::FUNCTION_START) <==> fs_at_in(fc, t, n));
        assert(b2[t].has(FLAG::FUNCTION_END) <==> fe_at_in(fc, t, n));
        assert(fs_at_in(fc, t, n) <==> crate::pe::fs_at(fc, t)) by {
            if crate::pe::fs_at(fc, t) {
                let w = choose|w: int|
                    0 <= w < fc.len() && t == (#[trigger] fc[w]).offset;
                assert(t_off <= fc[w].offset && fc[w].offset + fc[w].size <= t_off
                    + t_size);
                assert(fs_at_in(fc, t, n));
            }
        }
        assert(fe_at_in(fc, t, n) <==> crate::pe::fe_at(fc, t)) by {
            if crate::pe::fe_at(fc, t) {
                let w = choose|w: int|
                    0 <= w < fc.len() && t == (#[trigger] fc[w]).offset + fc[w].size - 1;
                assert(t_off <= fc[w].offset && fc[w].offset + fc[w].size <= t_off
                    + t_size);
                assert(fe_at_in(fc, t, n));
            }
        }
        crate::pe::lemma_fs_unique(fc, j, t);
        assert(bf[i].has(FLAG::FUNCTION_START) <==> b2[t].has(FLAG::FUNCTION_START));
        assert(bf[i].has(FLAG::FUNCTION_END) <==> b2[t].has(FLAG::FUNCTION_END));
    }
    assert(bf[fc[j].offset - t_off].has(FLAG::FUNCTION_START));
    assert(bf[fc[j].offset + fc[j].size - 1 - t_off].has(FLAG::FUNCTION_END));
}

/// Inside the window, every recovered ELF instruction keeps its shifted
/// boundary marks in the final buffer.
#[verifier::rlimit(60)]
proof fn lemma_elf_marks(
    b0: Seq<Byte>,
    fc: Seq<Function>,
    b1: Seq<Byte>,
    b2: Seq<Byte>,
    bt: Seq<Byte>,
    b3: Seq<Byte>,
    b4: Seq<Byte>,
    bf: Seq<Byte>,
    t_off: int,
    t_size: int,
    ins: Instruction,
)
    requires
        elf_tail_states(b0, fc, b1, b2, bt, b3, b4, bf, t_off, t_size),
        elf_window(fc, t_off, t_size),
        elf_placed_from(b2, fc, ins),
    ensures
        crate::pe::instr_marked(bf, ins),
{
    let j = choose|j: int| 0 <= j < fc.len() && elf_placed(b2, #[trigger] fc[j], ins);
    let li = fc[j].offset + ins.offset - t_off;
    assert forall|i: int|
        li <= i < li + ins.length implies i < bf.len() && (forall|g: FLAG|
            b2[t_off + i].has(g) ==> (#[trigger] bf[i]).has(g)) by {
        lemma_elf_region_byte(b0, fc, b1, b2, bt, b3, b4, bf, t_off, t_size, j, i);
    }
    assert(b2[t_off + li].has(FLAG::INSTRUCTION_START));
    assert(b2[t_off + (li + ins.length - 1)].has(FLAG::INSTRUCTION_END));
    assert(bf[li].has(FLAG::INSTRUCTION_START));
    assert(bf[li + ins.length - 1].has(FLAG::INSTRUCTION_END));
    assert forall|g: FLAG| ins.has(g) implies bf[li].has(g) by {
        assert(b2[t_off + li].has(g));
    }
    assert(0 <= li && li + ins.length <= bf.len() && bf[li].has(FLAG::INSTRUCTION_START)
        && bf[li + ins.length - 1].has(FLAG::INSTRUCTION_END) && (forall|g: FLAG|
        ins.has(g) ==> bf[li].has(g)));
    assert(crate::pe::instr_marked(bf, ins));
}

/// The three completion laws of the ELF pipeline in one step, derived
/// from the tail-state relations: no code-and-data byte under a disjoint
/// layout, exact boundary marks inside the window, and surviving
/// instruction marks inside the window.
proof fn lemma_elf_process_laws(
    b0: Seq<Byte>,
    fc: Seq<Function>,
    b1: Seq<Byte>,
    b2: Seq<Byte>,
    bt: Seq<Byte>,
    b3: Seq<Byte>,
    b4: Seq<Byte>,
    bf: Seq<Byte>,
    t_off: int,
    t_size: int,
    ins: Seq<Instruction>,
)
    requires
        elf_tail_states(b0, fc, b1, b2, bt, b3, b4, bf, t_off, t_size),
        forall|k: int|
            0 <= k < ins.len() ==> elf_placed_from(b2, fc, #[trigger] ins[k]),
    ensures
        crate::pe::laid_out(fc) ==> forall|i: int|
            0 <= i < bf.len() ==> !((#[trigger] bf[i]).has(FLAG::CODE) && bf[i].has(
                FLAG::DATA,
            )),
        crate::pe::laid_out(fc) && elf_window(fc, t_off, t_size) ==> forall|j: int|
            0 <= j < fc.len() ==> elf_fn_marked(t_off, #[trigger] fc[j], bf),
        elf_window(fc, t_off, t_size) ==> forall|k: int|
            0 <= k < ins.len() ==> crate::pe::instr_marked(bf, #[trigger] ins[k]),
{
    if crate::pe::laid_out(fc) {
        lemma_elf_code_data(b0, fc, b1, b2, bt, b3, b4, bf, t_off, t_size);
        if elf_window(fc, t_off, t_size) {
            assert forall|j: int| 0 <= j < fc.len() implies elf_fn_marked(
                t_off,
                #[trigger] fc[j],
                bf,
            ) by {
                lemma_elf_boundaries(b0, fc, b1, b2, bt, b3, b4, bf, t_off, t_size, j);
            }
        }
    }
    if elf_window(fc, t_off, t_size) {
        assert forall|k: int| 0 <= k < ins.len() implies crate::pe::instr_marked(
            bf,
            #[trigger] ins[k],
        ) by {
            lemma_elf_marks(b0, fc, b1, b2, bt, b3, b4, bf, t_off, t_size, ins[k]);
        }
    }
}

/// An ELF binary under labeling: its architecture, the symbols of its
/// DWARF information, its sections, the byte buffer and the instructions
/// recovered so far.
pub struct ELF {
    pub architecture: crate::groundtruth::ARCHITECTURE,
    pub file_name: String,
    pub dwarf: DWARF,
    pub sections: Vec<Section>,
    pub bytes: Vec<Byte>,
    pub instructions: Vec<Instruction>,
}

/// Disassemble one ELF function at its absolute offset: collect its
/// non-data bytes with the code flags, mark its boundaries, decode and
/// mark every decoded instruction in place.
#[verifier::loop_isolation(false)]
fn elf_dis_function(
    bytes: &mut Vec<Byte>,
    f: &Function,
    architecture: &crate::groundtruth::ARCHITECTURE,
    instructions: &mut Vec<Instruction>,
) -> (r: Result<(), &'static str>)
    requires
        f.size >= 1,
        f.offset + f.size <= old(bytes)@.len(),
    ensures
        final(bytes)@.len() == old(bytes)@.len(),
        passes::grown(old(bytes)@, final(bytes)@),
        forall|i: int|
            0 <= i < old(bytes)@.len() ==> {
                &&& forall|g: FLAG|
                    g == FLAG::DATA || g == FLAG::WRITEABLE || g == FLAG::BLOCK_START
                        ==> ((#[trigger] final(bytes)@[i]).has(g) <==> old(bytes)@[i].has(
                        g,
                    ))
                &&& forall|g: FLAG|
                    g == FLAG::CODE || g == FLAG::READABLE || g == FLAG::EXECUTABLE ==> (
                    (#[trigger] final(bytes)@[i]).has(g) <==> old(bytes)@[i].has(g) || (
                    f.offset <= i < f.offset + f.size && !old(bytes)@[i].has(FLAG::DATA)))
                &&& (final(bytes)@[i].has(FLAG::FUNCTION_START) <==> old(bytes)@[i].has(
                    FLAG::FUNCTION_START,
                ) || i == f.offset)
                &&& (final(bytes)@[i].has(FLAG::FUNCTION_END) <==> old(bytes)@[i].has(
                    FLAG::FUNCTION_END,
                ) || i == f.offset + f.size - 1)
            },
        final(instructions)@.len() >= old(instructions)@.len(),
        forall|k: int|
            0 <= k < old(instructions)@.len() ==> #[trigger] final(instructions)@[k]
                == old(instructions)@[k],
        forall|k: int|
            old(instructions)@.len() <= k < final(instructions)@.len() ==> elf_placed(
                final(bytes)@,
                *f,
                #[trigger] final(instructions)@[k],
            ) && final(instructions)@[k].dup_free() && (forall|g: FLAG|
                final(instructions)@[k].has(g) ==> crate::disassembler::is_class_flag(g)),
        r is Ok ==> crate::disassembler::decoded_matches(
            final(instructions)@.subrange(
                old(instructions)@.len() as int,
                final(instructions)@.len() as int,
            ),
            crate::pe::fn_decode(
                old(bytes)@,
                *f,
                crate::disassembler::mode64_of(*architecture),
            ),
        ),
{
    let n: usize = bytes.len();
    let ghost b0 = bytes@;
    let ghost ins0 = instructions@.len() as int;
    let off: u64 = f.offset;
    let sz: u64 = f.size;
    let buf = passes::collect_function_code(bytes, off, sz);
    let ghost bufv = buf@;
    let ghost b_c = bytes@;
    passes::mark_byte(bytes, off as usize, FLAG::FUNCTION_START);
    let ghost b_s = bytes@;
    passes::mark_byte(bytes, (off + sz - 1) as usize, FLAG::FUNCTION_END);
    let ghost b_m = bytes@;
    proof {
        assert forall|i: int| 0 <= i < n implies crate::pe::state_after_boundary(
            b0,
            *f,
            #[trigger] b_m[i],
            i,
        ) by {
            assert(b_c[i].same_cell(b0[i]));
            assert(b_s[i].same_cell(b0[i]));
        }
        assert(passes::grown(b0, b_m));
    }
    let decoded = match crate::disassembler::disassemble(
        buf,
        architecture,
        crate::disassembler::DISASSEMBLER::CAPSTONE,
    ) {
        Ok(decoded) => decoded,
        Err(e) => {
            return Err(e);
        },
    };
    let ghost dl = crate::pe::fn_decode(b0, *f, crate::disassembler::mode64_of(*architecture));
    proof {
        assert(bufv == passes::code_values(
            b0,
            f.offset as int,
            passes::clip_len(f.offset as int, f.size as int, b0.len() as int),
        ));
        assert(crate::disassembler::decoded_matches(decoded@, dl));
        assert(instructions@.subrange(ins0, instructions@.len() as int) =~= Seq::empty());
        assert(dl.take(0) =~= Seq::<(int, (Seq<char>, Seq<char>, Seq<u8>, Seq<u8>))>::empty());
    }
    let ni: usize = decoded.len();
    let mut k: usize = 0;
    while k < ni
        invariant
            k <= ni,
            ni == decoded@.len(),
            dl == crate::pe::fn_decode(b0, *f, crate::disassembler::mode64_of(*architecture)),
            crate::disassembler::decoded_matches(decoded@, dl),
            ni == dl.len(),
            instructions@.len() == ins0 + k,
            crate::disassembler::decoded_matches(
                instructions@.subrange(ins0, instructions@.len() as int),
                dl.take(k as int),
            ),
            crate::disassembler::instrs_wf(decoded@, bufv),
            bufv.len() <= f.size,
            off == f.offset,
            sz == f.size,
            bytes@.len() == n,
            n == b0.len(),
            passes::grown(b0, bytes@),
            forall|i: int|
                0 <= i < n ==> crate::pe::state_after_boundary(
                    b0,
                    *f,
                    #[trigger] bytes@[i],
                    i,
                ),
            instructions@.len() >= ins0,
            forall|t: int|
                0 <= t < ins0 ==> #[trigger] instructions@[t] == old(instructions)@[t],
            forall|t: int|
                ins0 <= t < instructions@.len() ==> elf_placed(
                    bytes@,
                    *f,
                    #[trigger] instructions@[t],
                ) && instructions@[t].dup_free() && (forall|g: FLAG|
                    instructions@[t].has(g) ==> crate::disassembler::is_class_flag(g)),
        decreases ni - k,
    {
        let ins = decoded[k].clone();
        proof {
            assert(ins.offset == decoded@[k as int].offset);
            assert(ins.length == decoded@[k as int].length);
            assert(ins.offset + ins.length <= bufv.len());
        }
        let lead: u64 = off + ins.offset;
        let ghost b_k = bytes@;
        let leadu: usize = lead as usize;
        passes::apply_instruction_marks(bytes, &ins, leadu);
        proof {
            assert forall|g: FLAG| #![trigger ins.flags@.contains(g)]
                ins.has(g) implies crate::disassembler::is_class_flag(g) by {
                assert(decoded@[k as int].has(g));
            }
            assert(!ins.has(FLAG::DATA) && !ins.has(FLAG::WRITEABLE) && !ins.has(
                FLAG::BLOCK_START,
            ) && !ins.has(FLAG::CODE) && !ins.has(FLAG::READABLE) && !ins.has(
                FLAG::EXECUTABLE,
            ) && !ins.has(FLAG::FUNCTION_START) && !ins.has(FLAG::FUNCTION_END));
            assert forall|i: int| 0 <= i < n implies {
                &&& (#[trigger] bytes@[i]).same_cell(b_k[i])
                &&& (b_k[i].dup_free() ==> bytes@[i].dup_free())
                &&& (forall|g: FLAG| b_k[i].has(g) ==> bytes@[i].has(g))
                &&& crate::pe::state_after_boundary(b0, *f, bytes@[i], i)
            } by {
                assert(crate::pe::state_after_boundary(b0, *f, b_k[i], i));
                assert forall|g: FLAG|
                    bytes@[i].has(g) <==> b_k[i].has(g) || (i == leadu && (g
                        == FLAG::INSTRUCTION_START || ins.has(g))) || (i == leadu
                        + ins.length - 1 && g == FLAG::INSTRUCTION_END) by {
                }
            }
            assert(passes::grown(b_k, bytes@));
            passes::lemma_grown_trans(b0, b_k, bytes@);
            assert(bytes@[leadu as int].has(FLAG::INSTRUCTION_START));
            assert(bytes@[leadu + ins.length - 1].has(FLAG::INSTRUCTION_END));
            assert(passes::marked_at(bytes@, ins, lead as int));
            assert(elf_placed(bytes@, *f, ins));
            assert forall|t: int| ins0 <= t < instructions@.len() implies elf_placed(
                bytes@,
                *f,
                #[trigger] instructions@[t],
            ) by {
                passes::lemma_marked_at_grown(
                    b_k,
                    bytes@,
                    instructions@[t],
                    f.offset + instructions@[t].offset,
                );
            }
        }
        let ghost apre = instructions@.subrange(ins0, instructions@.len() as int);
        instructions.push(ins);
        proof {
            assert(instructions@.subrange(ins0, instructions@.len() as int) =~= apre.push(
                ins,
            ));
            assert(dl.take(k + 1) =~= dl.take(k as int).push(dl[k as int]));
            assert(crate::disassembler::decoded_entry_ok(decoded@, dl, k as int));
            assert forall|w: int|
                0 <= w < k + 1 implies #[trigger] crate::disassembler::decoded_entry_ok(
                    apre.push(ins),
                    dl.take(k + 1),
                    w,
                ) by {
                if w < k {
                    assert(crate::disassembler::decoded_entry_ok(apre, dl.take(k as int), w));
                    assert(apre.push(ins)[w] == apre[w]);
                    assert(dl.take(k + 1)[w] == dl.take(k as int)[w]);
                } else {
                    assert(apre.push(ins)[w] == ins);
                    assert(dl.take(k + 1)[w] == dl[k as int]);
                }
            }
        }
        k = k + 1;
    }
    proof {
        assert(dl.take(ni as int) =~= dl);
    }
    Ok(())
}

impl ELF {
    /// Keep only the bytes whose index falls in `[start, end)`.
    pub fn trim_byte_vector(&mut self, start: u64, end: u64)
        requires
            start <= end,
            end <= old(self).bytes@.len(),
        ensures
            final(self).bytes@.len() == end - start,
            forall|i: int|
                0 <= i < final(self).bytes@.len() ==> (#[trigger] final(self).bytes@[i]).like(old(self).bytes@[start + i]),
            final(self).dwarf == old(self).dwarf,
            final(self).sections == old(self).sections,
            final(self).instructions == old(self).instructions,
            final(self).architecture == old(self).architecture,
            final(self).file_name == old(self).file_name,
    {
        passes::trim_bytes(&mut self.bytes, start, end);
    }

    /// Set every byte's offset to `base` plus its index.
    pub fn rebase_byte_vector(&mut self, base: u64)
        requires
            base + old(self).bytes@.len() <= u64::MAX + 1,
        ensures
            final(self).bytes@.len() == old(self).bytes@.len(),
            forall|i: int|
                0 <= i < final(self).bytes@.len() ==> {
                    &&& (#[trigger] final(self).bytes@[i]).offset == base + i
                    &&& final(self).bytes@[i].value == old(self).bytes@[i].value
                    &&& final(self).bytes@[i].flags@ == old(self).bytes@[i].flags@
                },
            final(self).dwarf == old(self).dwarf,
            final(self).sections == old(self).sections,
            final(self).instructions == old(self).instructions,
            final(self).architecture == old(self).architecture,
            final(self).file_name == old(self).file_name,
    {
        passes::rebase_bytes(&mut self.bytes, base);
    }

    /// Drop the functions whose size is zero.
    pub fn preprocess_functions(&mut self)
        ensures
            final(self).dwarf.functions@ == passes::positive_functions(
                old(self).dwarf.functions@,
            ),
            final(self).dwarf.image_base == old(self).dwarf.image_base,
            final(self).dwarf.architecture == old(self).dwarf.architecture,
            final(self).bytes == old(self).bytes,
            final(self).sections == old(self).sections,
            final(self).instructions == old(self).instructions,
            final(self).architecture == old(self).architecture,
            final(self).file_name == old(self).file_name,
    {
        passes::retain_positive(&mut self.dwarf.functions);
    }

    /// Scan the buffer for its maximal runs of bytes without any flag.
    pub fn detect_holes(&self) -> (holes: Vec<Hole>)
        ensures
            forall|k: int|
                0 <= k < holes@.len() ==> passes::hole_ok(
                    self.bytes@,
                    #[trigger] holes@[k],
                ),
            forall|i: int|
                0 <= i < self.bytes@.len() && self.bytes@[i].unflagged()
                    ==> exists|k: int|
                    0 <= k < holes@.len() && (#[trigger] holes@[k]).start <= i
                        <= holes@[k].end,
            forall|k1: int, k2: int|
                0 <= k1 < k2 < holes@.len() ==> (#[trigger] holes@[k1]).end < (
                #[trigger] holes@[k2]).start,
    {
        passes::detect_holes_in(&self.bytes)
    }

    /// Truncate the buffer at the start of its trailing run of zero-valued
    /// bytes that carry neither code nor data.
    pub fn detect_end_of_section(&mut self)
        ensures
            final(self).bytes@ == old(self).bytes@.subrange(
                0,
                passes::keep_len(old(self).bytes@),
            ),
            final(self).dwarf == old(self).dwarf,
            final(self).sections == old(self).sections,
            final(self).instructions == old(self).instructions,
            final(self).architecture == old(self).architecture,
            final(self).file_name == old(self).file_name,
    {
        passes::truncate_zero_tail(&mut self.bytes);
    }

    /// Mark every function's child data regions as data, then its range as
    /// code; a function range that runs past the buffer is clipped, data
    /// wins over code.
    pub fn set_byte_flags(&mut self)
        requires
            forall|j: int, d: int|
                0 <= j < old(self).dwarf.functions@.len() && 0 <= d < (#[trigger] old(self).dwarf.functions@[j]).data@.len() ==> (#[trigger] old(self).dwarf.functions@[j].data@[d]).offset + old(self).dwarf.functions@[j].data@[d].size <= old(self).bytes@.len(),
            forall|j: int|
                0 <= j < old(self).dwarf.functions@.len() ==> (#[trigger] old(self).dwarf.functions@[j]).offset + old(self).dwarf.functions@[j].size <= u64::MAX,
        ensures
            final(self).bytes@.len() == old(self).bytes@.len(),
            forall|i: int|
                0 <= i < old(self).bytes@.len() ==> {
                    &&& (#[trigger] final(self).bytes@[i]).same_cell(old(self).bytes@[i])
                    &&& (old(self).bytes@[i].dup_free() ==> final(self).bytes@[i].dup_free())
                    &&& (final(self).bytes@[i].has(FLAG::DATA) <==> old(self).bytes@[i].has(FLAG::DATA) || passes::data_covers(
                        old(self).dwarf.functions@,
                        i,
                    ))
                    &&& (final(self).bytes@[i].has(FLAG::CODE) <==> old(self).bytes@[i].has(FLAG::CODE) || passes::code_covers(
                        old(self).bytes@,
                        old(self).dwarf.functions@,
                        i,
                    ))
                    &&& forall|g: FLAG|
                        g != FLAG::CODE && g != FLAG::DATA ==> (final(self).bytes@[i].has(g) <==> old(self).bytes@[i].has(g))
                },
            final(self).dwarf == old(self).dwarf,
            final(self).sections == old(self).sections,
            final(self).instructions == old(self).instructions,
            final(self).architecture == old(self).architecture,
            final(self).file_name == old(self).file_name,
    {
        passes::set_flags_from_functions(&mut self.bytes, &self.dwarf.functions);
    }

    /// Flag the `0xCC` filler bytes, then decode each hole of unclassified
    /// bytes and flag the bytes of the alignment instructions found there.
    pub fn detect_alignment_bytes(&mut self) -> (r: Result<(), &'static str>)
        ensures
            final(self).bytes@.len() == old(self).bytes@.len(),
            forall|i: int|
                0 <= i < old(self).bytes@.len() ==> {
                    &&& (#[trigger] final(self).bytes@[i]).same_cell(old(self).bytes@[i])
                    &&& (old(self).bytes@[i].dup_free() ==> final(self).bytes@[i].dup_free())
                    &&& forall|g: FLAG|
                        g != FLAG::INSTRUCTION_ALIGNMENT ==> (final(self).bytes@[i].has(g)
                            <==> old(self).bytes@[i].has(g))
                    &&& (old(self).bytes@[i].has(FLAG::INSTRUCTION_ALIGNMENT)
                        ==> final(self).bytes@[i].has(FLAG::INSTRUCTION_ALIGNMENT))
                    &&& (final(self).bytes@[i].has(FLAG::INSTRUCTION_ALIGNMENT)
                        ==> old(self).bytes@[i].has(FLAG::INSTRUCTION_ALIGNMENT) || (!old(self).bytes@[i].has(FLAG::CODE) && !old(self).bytes@[i].has(FLAG::DATA)))
                    &&& (!old(self).bytes@[i].has(FLAG::CODE) && !old(self).bytes@[i].has(FLAG::DATA) && old(self).bytes@[i].value == 0xCC ==> final(self).bytes@[i].has(FLAG::INSTRUCTION_ALIGNMENT))
                },
            (forall|i: int|
                0 <= i < old(self).bytes@.len() && (#[trigger] old(self).bytes@[i]).unflagged() ==> old(self).bytes@[i].value == 0xCC) ==> r is Ok,
            r is Ok ==> forall|s: int, e: int|
                #[trigger] passes::pad_hole(old(self).bytes@, s, e) ==> passes::hole_aligned(
                    final(self).bytes@,
                    crate::disassembler::mode64_of(old(self).dwarf.architecture),
                    old(self).bytes@,
                    s,
                    e,
                ),
            final(self).dwarf == old(self).dwarf,
            final(self).sections == old(self).sections,
            final(self).instructions == old(self).instructions,
            final(self).architecture == old(self).architecture,
            final(self).file_name == old(self).file_name,
    {
        let arch = self.dwarf.architecture;
        passes::detect_alignment_in(&mut self.bytes, &arch)
    }

    /// Disassemble every function in place.  A function that runs past the
    /// buffer has the reachable part of its range flagged and ends the
    /// pass, as the DWARF front end tolerates symbol sizes that exceed the
    /// section.
    #[verifier::loop_isolation(false)]
    pub fn disassemble(&mut self) -> (r: Result<(), &'static str>)
        requires
            forall|j: int|
                0 <= j < old(self).dwarf.functions@.len() ==> (#[trigger] old(self).dwarf.functions@[j]).size >= 1,
            forall|j: int|
                0 <= j < old(self).dwarf.functions@.len() ==> (#[trigger] old(self).dwarf.functions@[j]).offset + old(self).dwarf.functions@[j].size <= u64::MAX,
        ensures
            old(self).dwarf.functions@.len() == 0 ==> r is Ok,
            final(self).bytes@.len() == old(self).bytes@.len(),
            passes::grown(old(self).bytes@, final(self).bytes@),
            forall|i: int|
                0 <= i < old(self).bytes@.len() ==> forall|g: FLAG|
                    g == FLAG::DATA || g == FLAG::WRITEABLE || g == FLAG::BLOCK_START
                        ==> ((#[trigger] final(self).bytes@[i]).has(g) <==> old(self).bytes@[i].has(g)),
            forall|i: int|
                0 <= i < old(self).bytes@.len() && (#[trigger] final(self).bytes@[i]).has(FLAG::CODE) ==> old(self).bytes@[i].has(FLAG::CODE)
                    || crate::pe::range_code_covers(old(self).bytes@, old(self).dwarf.functions@, i),
            r is Ok ==> elf_dis_state(
                old(self).bytes@,
                old(self).dwarf.functions@,
                final(self).bytes@,
            ),
            final(self).instructions@.len() >= old(self).instructions@.len(),
            forall|k: int|
                0 <= k < old(self).instructions@.len() ==> #[trigger] final(self).instructions@[k] == old(self).instructions@[k],
            forall|k: int|
                old(self).instructions@.len() <= k < final(self).instructions@.len()
                    ==> elf_placed_from(
                    final(self).bytes@,
                    old(self).dwarf.functions@,
                    #[trigger] final(self).instructions@[k],
                ) && final(self).instructions@[k].dup_free() && (forall|g: FLAG|
                    final(self).instructions@[k].has(g)
                        ==> crate::disassembler::is_class_flag(g)),
            r is Ok ==> crate::disassembler::decoded_matches(
                final(self).instructions@.subrange(
                    old(self).instructions@.len() as int,
                    final(self).instructions@.len() as int,
                ),
                elf_fn_decodes_concat(
                    old(self).bytes@,
                    old(self).dwarf.functions@,
                    crate::disassembler::mode64_of(old(self).dwarf.architecture),
                ),
            ),
            final(self).dwarf == old(self).dwarf,
            final(self).sections == old(self).sections,
            final(self).architecture == old(self).architecture,
            final(self).file_name == old(self).file_name,
    {
        let n: usize = self.bytes.len();
        let ghost bytes0 = self.bytes@;
        let ghost funcs = self.dwarf.functions@;
        let ghost ins0 = self.instructions@.len() as int;
        let ghost m = crate::disassembler::mode64_of(self.dwarf.architecture);
        proof {
            assert(self.instructions@.subrange(ins0, self.instructions@.len() as int)
                =~= Seq::<Instruction>::empty());
            assert(elf_fn_decodes_concat(bytes0, funcs.take(0), m) =~= Seq::<
                (int, (Seq<char>, Seq<char>, Seq<u8>, Seq<u8>)),
            >::empty()) by {
                assert(funcs.take(0).len() == 0);
            }
        }
        let nf: usize = self.dwarf.functions.len();
        let mut j: usize = 0;
        while j < nf
            invariant
                j <= nf,
                nf == funcs.len(),
                self.dwarf.functions@ == funcs,
                self.bytes@.len() == n,
                n == bytes0.len(),
                m == crate::disassembler::mode64_of(self.dwarf.architecture),
                crate::disassembler::decoded_matches(
                    self.instructions@.subrange(ins0, self.instructions@.len() as int),
                    elf_fn_decodes_concat(bytes0, funcs.take(j as int), m),
                ),
                passes::grown(bytes0, self.bytes@),
                forall|i: int|
                    0 <= i < n && (#[trigger] self.bytes@[i]).has(FLAG::CODE)
                        ==> bytes0[i].has(FLAG::CODE) || crate::pe::range_code_covers(
                        bytes0,
                        funcs,
                        i,
                    ),
                elf_dis_state(bytes0, funcs.take(j as int), self.bytes@),
                self.instructions@.len() >= ins0,
                forall|k: int|
                    0 <= k < ins0 ==> #[trigger] self.instructions@[k] == old(self).instructions@[k],
                forall|k: int|
                    ins0 <= k < self.instructions@.len() ==> elf_placed_from(
                        self.bytes@,
                        funcs,
                        #[trigger] self.instructions@[k],
                    ) && self.instructions@[k].dup_free() && (forall|g: FLAG|
                        self.instructions@[k].has(g)
                            ==> crate::disassembler::is_class_flag(g)),
                self.dwarf == old(self).dwarf,
                self.sections == old(self).sections,
                self.architecture == old(self).architecture,
                self.file_name == old(self).file_name,
            decreases nf - j,
        {
            let ghost fj = funcs[j as int];
            let ghost b_in = self.bytes@;
            let ghost insb = self.instructions@.len() as int;
            let f = self.dwarf.functions[j].clone();
            let arch = self.dwarf.architecture;
            proof {
                assert(f.offset == fj.offset && f.size == fj.size && f.data@ == fj.data@);
            }
            if f.offset > n as u64 || f.size > n as u64 - f.offset {
                // The function runs past the buffer: flag the reachable
                // part of its range, skip its remainder without boundary
                // marks or decoding, and go on with the next function.
                let _clipped = passes::collect_function_code(&mut self.bytes, f.offset, f.size);
                proof {
                    assert(passes::grown(b_in, self.bytes@));
                    passes::lemma_grown_trans(bytes0, b_in, self.bytes@);
                    assert(funcs.take(j + 1) =~= funcs.take(j as int).push(fj));
                    assert(fj.offset + fj.size > n);
                    assert forall|i: int| 0 <= i < n implies {
                        &&& (crate::pe::range_code_covers(bytes0, funcs.take(j + 1), i)
                            <==> crate::pe::range_code_covers(
                            bytes0,
                            funcs.take(j as int),
                            i,
                        ) || (fj.offset <= i < fj.offset + fj.size && i < n
                            && !bytes0[i].has(FLAG::DATA)))
                        &&& (fs_at_in(funcs.take(j + 1), i, n as int) <==> fs_at_in(
                            funcs.take(j as int),
                            i,
                            n as int,
                        ))
                        &&& (fe_at_in(funcs.take(j + 1), i, n as int) <==> fe_at_in(
                            funcs.take(j as int),
                            i,
                            n as int,
                        ))
                    } by {
                        crate::pe::lemma_range_code_covers_push(
                            bytes0,
                            funcs.take(j as int),
                            fj,
                            i,
                        );
                        lemma_elf_fs_in_push(funcs.take(j as int), fj, i, n as int);
                    }
                    assert forall|i: int|
                        0 <= i < n && (#[trigger] self.bytes@[i]).has(FLAG::CODE)
                            implies bytes0[i].has(FLAG::CODE) || crate::pe::range_code_covers(
                            bytes0,
                            funcs,
                            i,
                        ) by {
                        if !b_in[i].has(FLAG::CODE) {
                            assert(fj.offset <= i < fj.offset + fj.size && i < n
                                && !b_in[i].has(FLAG::DATA));
                            assert(!bytes0[i].has(FLAG::DATA));
                            assert(crate::pe::range_code_covers(bytes0, funcs, i)) by {
                                assert(0 <= j < funcs.len());
                            }
                        }
                    }
                    assert(elf_dis_state(bytes0, funcs.take(j + 1), self.bytes@));
                    assert(elf_fn_decodes_concat(bytes0, funcs.take(j + 1), m)
                        =~= elf_fn_decodes_concat(bytes0, funcs.take(j as int), m)) by {
                        assert(funcs.take(j + 1).drop_last() =~= funcs.take(j as int));
                        assert(funcs.take(j + 1).last() == fj);
                    }
                    assert forall|k: int|
                        ins0 <= k < self.instructions@.len() implies elf_placed_from(
                            self.bytes@,
                            funcs,
                            #[trigger] self.instructions@[k],
                        ) by {
                        lemma_elf_placed_grown(
                            b_in,
                            self.bytes@,
                            funcs,
                            self.instructions@[k],
                        );
                    }
                }
            } else {
                let ghost ipre = self.instructions@;
                let res = elf_dis_function(&mut self.bytes, &f, &arch, &mut self.instructions);
                proof {
                    passes::lemma_grown_trans(bytes0, b_in, self.bytes@);
                    assert(funcs.take(j + 1) =~= funcs.take(j as int).push(fj));
                    assert(fj.offset + fj.size <= n);
                    if res is Ok {
                        assert forall|i: int|
                            0 <= i < n implies (#[trigger] b_in[i]).value == bytes0[i].value
                                && (b_in[i].has(FLAG::DATA) <==> bytes0[i].has(FLAG::DATA)) by {
                            assert(b_in[i].same_cell(bytes0[i]));
                        }
                        passes::lemma_code_values_congruent(
                            b_in,
                            bytes0,
                            fj.offset as int,
                            passes::clip_len(fj.offset as int, fj.size as int, n as int),
                        );
                        assert(crate::pe::fn_decode(b_in, f, m) == crate::pe::fn_decode(
                            bytes0,
                            fj,
                            m,
                        ));
                        assert(elf_fn_decodes_concat(bytes0, funcs.take(j + 1), m)
                            == elf_fn_decodes_concat(bytes0, funcs.take(j as int), m)
                            + crate::pe::fn_decode(bytes0, fj, m)) by {
                            assert(funcs.take(j + 1).drop_last() =~= funcs.take(j as int));
                            assert(funcs.take(j + 1).last() == fj);
                        }
                        assert(self.instructions@.subrange(
                            ins0,
                            self.instructions@.len() as int,
                        ) =~= self.instructions@.subrange(ins0, insb)
                            + self.instructions@.subrange(
                            insb,
                            self.instructions@.len() as int,
                        ));
                        assert(self.instructions@.subrange(ins0, insb) =~= ipre.subrange(
                            ins0,
                            insb,
                        ));
                        crate::pe::lemma_decoded_matches_append(
                            self.instructions@.subrange(ins0, insb),
                            elf_fn_decodes_concat(bytes0, funcs.take(j as int), m),
                            self.instructions@.subrange(insb, self.instructions@.len() as int),
                            crate::pe::fn_decode(bytes0, fj, m),
                        );
                    }
                    assert forall|i: int| 0 <= i < n implies {
                        &&& (crate::pe::range_code_covers(bytes0, funcs.take(j + 1), i)
                            <==> crate::pe::range_code_covers(
                            bytes0,
                            funcs.take(j as int),
                            i,
                        ) || (fj.offset <= i < fj.offset + fj.size && i < n
                            && !bytes0[i].has(FLAG::DATA)))
                        &&& (fs_at_in(funcs.take(j + 1), i, n as int) <==> fs_at_in(
                            funcs.take(j as int),
                            i,
                            n as int,
                        ) || i == fj.offset)
                        &&& (fe_at_in(funcs.take(j + 1), i, n as int) <==> fe_at_in(
                            funcs.take(j as int),
                            i,
                            n as int,
                        ) || i == fj.offset + fj.size - 1)
                    } by {
                        crate::pe::lemma_range_code_covers_push(
                            bytes0,
                            funcs.take(j as int),
                            fj,
                            i,
                        );
                        lemma_elf_fs_in_push(funcs.take(j as int), fj, i, n as int);
                    }
                    assert(elf_dis_state(bytes0, funcs.take(j + 1), self.bytes@));
                    assert forall|i: int|
                        0 <= i < n && (#[trigger] self.bytes@[i]).has(FLAG::CODE)
                            implies bytes0[i].has(FLAG::CODE) || crate::pe::range_code_covers(
                            bytes0,
                            funcs,
                            i,
                        ) by {
                        if !b_in[i].has(FLAG::CODE) {
                            assert(fj.offset <= i < fj.offset + fj.size && !b_in[i].has(
                                FLAG::DATA,
                            ));
                            assert(!bytes0[i].has(FLAG::DATA));
                            assert(crate::pe::range_code_covers(bytes0, funcs, i)) by {
                                assert(0 <= j < funcs.len());
                            }
                        }
                    }
                    assert forall|k: int|
                        ins0 <= k < self.instructions@.len() implies elf_placed_from(
                            self.bytes@,
                            funcs,
                            #[trigger] self.instructions@[k],
                        ) by {
                        if k < insb {
                            lemma_elf_placed_grown(
                                b_in,
                                self.bytes@,
                                funcs,
                                self.instructions@[k],
                            );
                        } else {
                            assert(elf_placed(self.bytes@, f, self.instructions@[k]));
                            assert(elf_placed(self.bytes@, fj, self.instructions@[k]));
                            assert(0 <= j < funcs.len() && funcs[j as int] == fj);
                        }
                    }
                }
                match res {
                    Ok(()) => {},
                    Err(e) => {
                        return Err(e);
                    },
                }
            }
            j = j + 1;
        }
        proof {
            assert(funcs.take(nf as int) =~= funcs);
        }
        Ok(())
    }

    /// Run the passes in the ELF order: select the text section, prune,
    /// set byte flags, disassemble, trim, rebase to the section's virtual
    /// address, detect alignment and the section end.
    #[verifier::loop_isolation(false)]
    #[verifier::rlimit(100)]
    pub fn process(&mut self) -> (r: Result<(), &'static str>)
        requires
            elf_ready(*old(self)),
        ensures
            find_text_elf(old(self).sections@, 0) < 0 ==> r is Err && *final(self) == *old(self),
            r is Ok ==> find_text_elf(old(self).sections@, 0) >= 0,
            find_text_elf(old(self).sections@, 0) >= 0 && old(self).sections@[find_text_elf(
                old(self).sections@,
                0,
            )].raw_data_size == 0 && passes::positive_functions(
                old(self).dwarf.functions@,
            ).len() == 0 ==> r is Ok,
            r is Ok ==> elf_done(*old(self), *final(self)),
            r is Ok && crate::pe::laid_out(final(self).dwarf.functions@) ==> forall|i: int|
                0 <= i < final(self).bytes@.len() ==> !((#[trigger] final(self).bytes@[i]).has(FLAG::CODE) && final(self).bytes@[i].has(FLAG::DATA)),
            r is Ok && crate::pe::laid_out(final(self).dwarf.functions@) && (forall|j: int|
                0 <= j < final(self).dwarf.functions@.len() ==> old(self).sections@[find_text_elf(old(self).sections@, 0)].raw_data_offset <= (#[trigger] final(self).dwarf.functions@[j]).offset
                    && final(self).dwarf.functions@[j].offset + final(self).dwarf.functions@[j].size
                    <= old(self).sections@[find_text_elf(old(self).sections@, 0)].raw_data_offset + old(self).sections@[find_text_elf(old(self).sections@, 0)].raw_data_size)
                ==> forall|j: int|
                0 <= j < final(self).dwarf.functions@.len() ==> elf_fn_marked(
                    old(self).sections@[find_text_elf(old(self).sections@, 0)].raw_data_offset as int,
                    #[trigger] final(self).dwarf.functions@[j],
                    final(self).bytes@,
                ),
            r is Ok && (forall|j: int|
                0 <= j < final(self).dwarf.functions@.len() ==> old(self).sections@[find_text_elf(old(self).sections@, 0)].raw_data_offset <= (#[trigger] final(self).dwarf.functions@[j]).offset
                    && final(self).dwarf.functions@[j].offset + final(self).dwarf.functions@[j].size
                    <= old(self).sections@[find_text_elf(old(self).sections@, 0)].raw_data_offset + old(self).sections@[find_text_elf(old(self).sections@, 0)].raw_data_size)
                ==> forall|k: int|
                0 <= k < final(self).instructions@.len() ==> crate::pe::instr_marked(
                    final(self).bytes@,
                    #[trigger] final(self).instructions@[k],
                ),
    {
        let ns: usize = self.sections.len();
        let mut k: usize = 0;
        let mut ti: usize = 0;
        let mut found = false;
        while k < ns && !found
            invariant
                k <= ns,
                ns == self.sections@.len(),
                !found ==> find_text_elf(self.sections@, 0) == find_text_elf(self.sections@, k as int),
                found ==> ti < ns && find_text_elf(self.sections@, 0) == ti,
                *self == *old(self),
            decreases ns - k + (if found { 0int } else { 1int }),
        {
            if strutil::name_is_text(&self.sections[k].name) {
                ti = k;
                found = true;
            } else {
                k = k + 1;
            }
        }
        if !found {
            proof {
                assert(find_text_elf(self.sections@, ns as int) == -1);
            }
            return Err("Binary does not have a text section.");
        }
        let ghost s0 = *old(self);
        let ghost tsec = s0.sections@[find_text_elf(s0.sections@, 0)];
        let t_off: u64 = self.sections[ti].raw_data_offset;
        let t_size: u64 = self.sections[ti].raw_data_size;
        let t_va: u64 = self.sections[ti].va;
        let nb: usize = self.bytes.len();
        let ghost pruned = passes::positive_functions(s0.dwarf.functions@);
        proof {
            assert(ti as int == find_text_elf(s0.sections@, 0));
            assert(tsec == s0.sections@[ti as int]);
            assert(s0.bytes@.len() == nb);
            assert(t_off + t_size <= nb);
            passes::lemma_positive_sub(s0.dwarf.functions@);
            passes::lemma_positive_all(s0.dwarf.functions@);
        }
        self.preprocess_functions();
        proof {
            assert forall|j: int| 0 <= j < pruned.len() implies {
                &&& (#[trigger] self.dwarf.functions@[j]).offset
                    + self.dwarf.functions@[j].size <= u64::MAX
                &&& self.dwarf.functions@[j].size >= 1
                &&& forall|d: int|
                    0 <= d < self.dwarf.functions@[j].data@.len() ==> (
                    #[trigger] self.dwarf.functions@[j].data@[d]).offset
                        + self.dwarf.functions@[j].data@[d].size <= nb
            } by {
                let j0 = choose|j0: int|
                    0 <= j0 < s0.dwarf.functions@.len() && #[trigger] pruned[j] == s0.dwarf.functions@[j0];
                assert(s0.dwarf.functions@[j0].offset + s0.dwarf.functions@[j0].size
                    <= u64::MAX);
                assert forall|d: int|
                    0 <= d < self.dwarf.functions@[j].data@.len() implies (
                    #[trigger] self.dwarf.functions@[j].data@[d]).offset
                        + self.dwarf.functions@[j].data@[d].size <= nb by {
                    assert(s0.dwarf.functions@[j0].data@[d].offset
                        + s0.dwarf.functions@[j0].data@[d].size <= s0.bytes@.len());
                }
            }
        }
        self.set_byte_flags();
        let ghost b1 = self.bytes@;
        let r_dis = self.disassemble();
        match r_dis {
            Ok(()) => {},
            Err(e) => {
                return Err(e);
            },
        }
        let ghost b2 = self.bytes@;
        proof {
            assert forall|i: int| 0 <= i < nb implies {
                &&& (#[trigger] b2[i]).value == s0.bytes@[i].value
                &&& b2[i].dup_free()
            } by {
                assert(b2[i].same_cell(b1[i]));
                assert(b1[i].same_cell(s0.bytes@[i]));
                assert(s0.bytes@[i].unflagged());
            }
        }
        self.trim_byte_vector(t_off, t_off + t_size);
        let ghost bt = self.bytes@;
        self.rebase_byte_vector(t_va);
        let ghost b3 = self.bytes@;
        let r_al = self.detect_alignment_bytes();
        match r_al {
            Ok(()) => {},
            Err(e) => {
                return Err(e);
            },
        }
        let ghost b4 = self.bytes@;
        self.detect_end_of_section();
        proof {
            passes::lemma_keep_len_bounds(b4);
            assert forall|i: int| 0 <= i < self.bytes@.len() implies {
                &&& (#[trigger] self.bytes@[i]).value == s0.bytes@[t_off + i].value
                &&& self.bytes@[i].offset == t_va + i
                &&& self.bytes@[i].dup_free()
            } by {
                assert(self.bytes@[i] == b4[i]);
                assert(b4[i].same_cell(b3[i]));
                assert(b3[i].value == b2[t_off + i].value);
            }
            let fc = self.dwarf.functions@;
            passes::lemma_positive_all(s0.dwarf.functions@);
            assert(elf_tail_states(
                s0.bytes@,
                fc,
                b1,
                b2,
                bt,
                b3,
                b4,
                self.bytes@,
                t_off as int,
                t_size as int,
            ));
            lemma_elf_process_laws(
                s0.bytes@,
                fc,
                b1,
                b2,
                bt,
                b3,
                b4,
                self.bytes@,
                t_off as int,
                t_size as int,
                self.instructions@,
            );
        }
        Ok(())
    }
}

} // verus!
