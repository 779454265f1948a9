//! The PE labeling pipeline: nine ordered passes over the text-section
//! bytes, driven by the symbols of a PDB dump.

use vstd::prelude::*;

use crate::groundtruth::Byte;
use crate::groundtruth::Data;
use crate::groundtruth::FLAG;
use crate::groundtruth::Function;
use crate::groundtruth::Hole;
use crate::groundtruth::Instruction;
use crate::groundtruth::Label;
use crate::groundtruth::PDB;
use crate::groundtruth::Section;
use crate::passes;
use crate::strutil;

verus! {

broadcast use vstd::prelude::Seq::lemma_take_succ_push;

/// The label lies strictly inside the function range and on its segment.
pub open spec fn label_attaches(l: Label, seg: u8, off: int, end: int) -> bool {
    l.segment == seg && off < l.offset < end
}

/// The data symbol lies strictly inside the function range and on its
/// segment.
pub open spec fn data_attaches(d: Data, seg: u8, off: int, end: int) -> bool {
    d.segment == seg && off < d.offset < end
}

/// The labels among the first `k` that attach to the function range, in
/// order.
pub open spec fn attached_labels(labels: Seq<Label>, seg: u8, off: int, end: int, k: int) -> Seq<
    Label,
>
    decreases k,
{
    if k <= 0 {
        Seq::empty()
    } else {
        attached_labels(labels, seg, off, end, k - 1) + (if label_attaches(
            labels[k - 1],
            seg,
            off,
            end,
        ) {
            seq![labels[k - 1]]
        } else {
            Seq::empty()
        })
    }
}

/// The data symbols among the first `k` that attach to the function range,
/// in order.
pub open spec fn attached_data(data: Seq<Data>, seg: u8, off: int, end: int, k: int) -> Seq<Data>
    decreases k,
{
    if k <= 0 {
        Seq::empty()
    } else {
        attached_data(data, seg, off, end, k - 1) + (if data_attaches(
            data[k - 1],
            seg,
            off,
            end,
        ) {
            seq![data[k - 1]]
        } else {
            Seq::empty()
        })
    }
}

/// The data list and function size after the in-line-data-end pass has
/// looked at the first `k` data entries of a function that started at
/// `off` with size `size0`: an empty-named entry strictly inside the
/// current range takes the tail of the range and the range shrinks to end
/// where that entry starts.
pub open spec fn cut_end_state(data: Seq<Data>, off: int, size0: int, k: int) -> (Seq<Data>, int)
    decreases k,
{
    if k <= 0 {
        (data, size0)
    } else {
        let prev = cut_end_state(data, off, size0, k - 1);
        let d = prev.0[k - 1];
        if d.name@.len() == 0 && off < d.offset && d.offset < off + prev.1 {
            (
                prev.0.update(
                    k - 1,
                    Data {
                        name: d.name,
                        offset: d.offset,
                        segment: d.segment,
                        size: (prev.1 + off - d.offset) as u64,
                    },
                ),
                d.offset - off,
            )
        } else {
            prev
        }
    }
}

/// Shape facts about the in-line-data-end fold: the data list keeps its
/// length and its entries' names, offsets and segments; the size never
/// grows.
pub proof fn lemma_cut_end_props(data: Seq<Data>, off: int, size0: int, k: int)
    requires
        0 <= k <= data.len(),
    ensures
        cut_end_state(data, off, size0, k).0.len() == data.len(),
        cut_end_state(data, off, size0, k).1 <= size0,
        forall|t: int|
            0 <= t < data.len() ==> {
                &&& (#[trigger] cut_end_state(data, off, size0, k).0[t]).name == data[t].name
                &&& cut_end_state(data, off, size0, k).0[t].offset == data[t].offset
                &&& cut_end_state(data, off, size0, k).0[t].segment == data[t].segment
            },
        forall|t: int|
            k <= t < data.len() ==> #[trigger] cut_end_state(data, off, size0, k).0[t]
                == data[t],
    decreases k,
{
    if k > 0 {
        lemma_cut_end_props(data, off, size0, k - 1);
    }
}

/// How many of the first `k` labels carry the base name of a jump table,
/// lower-cased, somewhere in their own lower-cased name.
pub open spec fn label_match_count(labels: Seq<Label>, base: Seq<char>, k: int) -> int
    decreases k,
{
    if k <= 0 {
        0
    } else {
        label_match_count(labels, base, k - 1) + (if strutil::contains_seq(
            strutil::lower_of(labels[k - 1].name@),
            base,
        ) {
            1int
        } else {
            0int
        })
    }
}

/// The base name a jump-table data symbol is matched under: its name
/// lower-cased, with every `vec` removed.
pub open spec fn jt_base_name(name: Seq<char>) -> Seq<char> {
    strutil::remove_vec_seq(strutil::lower_of(name))
}

/// The size the in-line-data-mid pass assigns to a data entry: four bytes
/// per matching label for a named entry, the present size for an unnamed
/// one.
pub open spec fn cut_mid_size(d: Data, labels: Seq<Label>) -> int {
    if d.name@.len() > 0 {
        4 * label_match_count(labels, jt_base_name(d.name@), labels.len() as int)
    } else {
        d.size as int
    }
}

/// The sum of the sizes of a function's child data entries.
pub open spec fn sum_data_sizes(data: Seq<Data>) -> int
    decreases data.len(),
{
    if data.len() == 0 {
        0
    } else {
        sum_data_sizes(data.drop_last()) + data.last().size
    }
}

/// The additional offset the hole-compensation step adds after looking at
/// the first `k` data entries: every entry whose offset the accumulated
/// position has reached contributes its size.
pub open spec fn extra_upto(data: Seq<Data>, base_pos: int, k: int) -> int
    decreases k,
{
    if k <= 0 {
        0
    } else {
        let p = extra_upto(data, base_pos, k - 1);
        if base_pos + p >= data[k - 1].offset {
            p + data[k - 1].size
        } else {
            p
        }
    }
}

pub proof fn lemma_extra_upto_bounds(data: Seq<Data>, base_pos: int, k: int)
    requires
        0 <= k <= data.len(),
    ensures
        0 <= extra_upto(data, base_pos, k) <= sum_data_sizes(data.take(k)),
        sum_data_sizes(data.take(k)) <= sum_data_sizes(data),
    decreases data.len() + k,
{
    if k > 0 {
        lemma_extra_upto_bounds(data, base_pos, k - 1);
        assert(data.take(k).drop_last() =~= data.take(k - 1));
        assert(data.take(k).last() == data[k - 1]);
    } else {
        assert(sum_data_sizes(data.take(0)) == 0) by {
            assert(data.take(0).len() == 0);
        }
    }
    if k < data.len() {
        lemma_sum_take_le(data, k);
    } else {
        assert(data.take(k) =~= data);
    }
}

pub proof fn lemma_sum_data_nonneg(data: Seq<Data>)
    ensures
        sum_data_sizes(data) >= 0,
    decreases data.len(),
{
    if data.len() > 0 {
        lemma_sum_data_nonneg(data.drop_last());
    }
}

pub proof fn lemma_sum_take_le(data: Seq<Data>, k: int)
    requires
        0 <= k <= data.len(),
    ensures
        sum_data_sizes(data.take(k)) <= sum_data_sizes(data),
    decreases data.len() - k,
{
    if k < data.len() {
        lemma_sum_take_le(data, k + 1);
        assert(data.take(k + 1).drop_last() =~= data.take(k));
        assert(data.take(k + 1).last() == data[k]);
    } else {
        assert(data.take(k) =~= data);
    }
}

/// Where an instruction decoded at function-buffer offset `ins_off` lands
/// in the byte buffer, after re-expanding the data holes the decoder never
/// saw.
pub open spec fn pe_lead(f: Function, ins_off: int) -> int {
    f.offset + ins_off + extra_upto(f.data@, f.offset + ins_off, f.data@.len() as int)
}

/// The instruction was decoded from `f`'s code bytes and its boundary
/// marks stand at its re-expanded position, inside the function's envelope
/// of range plus child data sizes; without in-line data the marks lie
/// inside the plain range.
pub open spec fn placed_in(bytes: Seq<Byte>, f: Function, ins: Instruction) -> bool {
    let lead = pe_lead(f, ins.offset as int);
    &&& 1 <= ins.length
    &&& ins.offset + ins.length <= f.size
    &&& f.offset <= lead
    &&& lead + ins.length <= f.offset + f.size + sum_data_sizes(f.data@)
    &&& passes::marked_at(bytes, ins, lead)
    &&& forall|g: FLAG| ins.has(g) ==> (#[trigger] bytes[lead]).has(g)
    &&& (sum_data_sizes(f.data@) == 0 ==> lead + ins.length <= f.offset + f.size)
}

/// The instruction was decoded from one of the functions and is marked on
/// the buffer.
pub open spec fn placed_from(bytes: Seq<Byte>, funcs: Seq<Function>, ins: Instruction) -> bool {
    exists|j: int| 0 <= j < funcs.len() && placed_in(bytes, #[trigger] funcs[j], ins)
}

proof fn lemma_placed_grown(b1: Seq<Byte>, b2: Seq<Byte>, funcs: Seq<Function>, ins: Instruction)
    requires
        placed_from(b1, funcs, ins),
        passes::grown(b1, b2),
    ensures
        placed_from(b2, funcs, ins),
{
    let j = choose|j: int| 0 <= j < funcs.len() && placed_in(b1, #[trigger] funcs[j], ins);
    let lead = pe_lead(funcs[j], ins.offset as int);
    passes::lemma_marked_at_grown(b1, b2, ins, lead);
    assert forall|g: FLAG| ins.has(g) implies (#[trigger] b2[lead]).has(g) by {
        assert(b1[lead].has(g));
    }
    assert(placed_in(b2, funcs[j], ins));
}

/// Compute the additional offset for an instruction at function-buffer
/// offset `ins_off`.
#[verifier::loop_isolation(false)]
fn extra_offset(f: &Function, ins_off: u64) -> (r: u64)
    requires
        f.offset + ins_off + sum_data_sizes(f.data@) <= u64::MAX,
    ensures
        r as int == extra_upto(f.data@, f.offset + ins_off, f.data@.len() as int),
        r <= sum_data_sizes(f.data@),
{
    proof {
        lemma_sum_data_nonneg(f.data@);
    }
    let base: u64 = f.offset + ins_off;
    let nd: usize = f.data.len();
    let mut add: u64 = 0;
    let mut k: usize = 0;
    proof {
        lemma_extra_upto_bounds(f.data@, base as int, 0);
    }
    while k < nd
        invariant
            k <= nd,
            nd == f.data@.len(),
            base == f.offset + ins_off,
            add as int == extra_upto(f.data@, base as int, k as int),
            add <= sum_data_sizes(f.data@),
        decreases nd - k,
    {
        proof {
            lemma_extra_upto_bounds(f.data@, base as int, k + 1);
        }
        if base + add >= f.data[k].offset {
            proof {
                assert(add + f.data@[k as int].size == extra_upto(
                    f.data@,
                    base as int,
                    k + 1,
                ));
            }
            add = add + f.data[k].size;
        }
        k = k + 1;
    }
    add
}

/// Byte `i` lies in the range of one of the functions and was not data
/// when the disassembly pass started.
pub open spec fn range_code_covers(bytes0: Seq<Byte>, funcs: Seq<Function>, i: int) -> bool {
    exists|j: int|
        0 <= j < funcs.len() && (#[trigger] funcs[j]).offset <= i < funcs[j].offset
            + funcs[j].size && i < bytes0.len() && !bytes0[i].has(FLAG::DATA)
}

/// Byte `i` is the first byte of one of the functions.
pub open spec fn fs_at(funcs: Seq<Function>, i: int) -> bool {
    exists|j: int| 0 <= j < funcs.len() && i == (#[trigger] funcs[j]).offset
}

/// Byte `i` is the last byte of one of the functions.
pub open spec fn fe_at(funcs: Seq<Function>, i: int) -> bool {
    exists|j: int|
        0 <= j < funcs.len() && i == (#[trigger] funcs[j]).offset + funcs[j].size - 1
}

pub(crate) proof fn lemma_range_code_covers_push(bytes0: Seq<Byte>, funcs: Seq<Function>, f: Function, i: int)
    ensures
        range_code_covers(bytes0, funcs.push(f), i) <==> range_code_covers(bytes0, funcs, i)
            || (f.offset <= i < f.offset + f.size && i < bytes0.len() && !bytes0[i].has(
            FLAG::DATA,
        )),
{
    let s2 = funcs.push(f);
    if range_code_covers(bytes0, s2, i) {
        let j = choose|j: int|
            0 <= j < s2.len() && (#[trigger] s2[j]).offset <= i < s2[j].offset + s2[j].size
                && i < bytes0.len() && !bytes0[i].has(FLAG::DATA);
        if j < funcs.len() {
            assert(s2[j] == funcs[j]);
            assert(range_code_covers(bytes0, funcs, i));
        } else {
            assert(s2[j] == f);
        }
    }
    if range_code_covers(bytes0, funcs, i) {
        let j = choose|j: int|
            0 <= j < funcs.len() && (#[trigger] funcs[j]).offset <= i < funcs[j].offset
                + funcs[j].size && i < bytes0.len() && !bytes0[i].has(FLAG::DATA);
        assert(s2[j] == funcs[j]);
        assert(range_code_covers(bytes0, s2, i));
    }
    if f.offset <= i < f.offset + f.size && i < bytes0.len() && !bytes0[i].has(FLAG::DATA) {
        assert(s2[s2.len() - 1] == f);
        assert(range_code_covers(bytes0, s2, i));
    }
}

pub(crate) proof fn lemma_fs_at_push(funcs: Seq<Function>, f: Function, i: int)
    ensures
        fs_at(funcs.push(f), i) <==> fs_at(funcs, i) || i == f.offset,
        fe_at(funcs.push(f), i) <==> fe_at(funcs, i) || i == f.offset + f.size - 1,
{
    let s2 = funcs.push(f);
    if fs_at(s2, i) {
        let j = choose|j: int| 0 <= j < s2.len() && i == (#[trigger] s2[j]).offset;
        if j < funcs.len() {
            assert(s2[j] == funcs[j]);
            assert(fs_at(funcs, i));
        } else {
            assert(s2[j] == f);
        }
    }
    if fs_at(funcs, i) {
        let j = choose|j: int| 0 <= j < funcs.len() && i == (#[trigger] funcs[j]).offset;
        assert(s2[j] == funcs[j]);
        assert(fs_at(s2, i));
    }
    if i == f.offset {
        assert(s2[s2.len() - 1] == f);
        assert(fs_at(s2, i));
    }
    if fe_at(s2, i) {
        let j = choose|j: int|
            0 <= j < s2.len() && i == (#[trigger] s2[j]).offset + s2[j].size - 1;
        if j < funcs.len() {
            assert(s2[j] == funcs[j]);
            assert(fe_at(funcs, i));
        } else {
            assert(s2[j] == f);
        }
    }
    if fe_at(funcs, i) {
        let j = choose|j: int|
            0 <= j < funcs.len() && i == (#[trigger] funcs[j]).offset + funcs[j].size - 1;
        assert(s2[j] == funcs[j]);
        assert(fe_at(s2, i));
    }
    if i == f.offset + f.size - 1 {
        assert(s2[s2.len() - 1] == f);
        assert(fe_at(s2, i));
    }
}

/// The byte state the disassembly pass leaves for a list of processed
/// functions: code, readable and executable exactly on their non-data
/// range bytes, function-start and function-end marks exactly at their
/// boundaries, and data, writeable and block-start flags untouched.
pub open spec fn dis_state(bytes0: Seq<Byte>, funcs: Seq<Function>, b: Seq<Byte>) -> bool {
    &&& b.len() == bytes0.len()
    &&& forall|i: int|
        0 <= i < bytes0.len() ==> {
            &&& (#[trigger] b[i]).same_cell(bytes0[i])
            &&& (bytes0[i].dup_free() ==> b[i].dup_free())
            &&& forall|g: FLAG|
                g == FLAG::DATA || g == FLAG::WRITEABLE || g == FLAG::BLOCK_START ==> (
                b[i].has(g) <==> bytes0[i].has(g))
            &&& forall|g: FLAG|
                g == FLAG::CODE || g == FLAG::READABLE || g == FLAG::EXECUTABLE ==> (
                b[i].has(g) <==> bytes0[i].has(g) || range_code_covers(bytes0, funcs, i))
            &&& (b[i].has(FLAG::FUNCTION_START) <==> bytes0[i].has(FLAG::FUNCTION_START)
                || fs_at(funcs, i))
            &&& (b[i].has(FLAG::FUNCTION_END) <==> bytes0[i].has(FLAG::FUNCTION_END)
                || fe_at(funcs, i))
        }
}

/// The decode of one function's code-only buffer: the non-data byte
/// values of its range, clipped at the buffer end, decoded from offset
/// zero.
pub open spec fn fn_decode(b: Seq<Byte>, f: Function, mode64: bool) -> Seq<
    (int, (Seq<char>, Seq<char>, Seq<u8>, Seq<u8>)),
> {
    crate::disassembler::decode_list(
        mode64,
        passes::code_values(
            b,
            f.offset as int,
            passes::clip_len(f.offset as int, f.size as int, b.len() as int),
        ),
        0,
    )
}

/// The decodes of all the functions, in function order, one after the
/// other.
pub open spec fn fn_decodes_concat(b: Seq<Byte>, funcs: Seq<Function>, mode64: bool) -> Seq<
    (int, (Seq<char>, Seq<char>, Seq<u8>, Seq<u8>)),
>
    decreases funcs.len(),
{
    if funcs.len() == 0 {
        Seq::empty()
    } else {
        fn_decodes_concat(b, funcs.drop_last(), mode64) + fn_decode(b, funcs.last(), mode64)
    }
}

/// Two matched runs concatenate to a matched run.
pub proof fn lemma_decoded_matches_append(
    a1: Seq<Instruction>,
    d1: Seq<(int, (Seq<char>, Seq<char>, Seq<u8>, Seq<u8>))>,
    a2: Seq<Instruction>,
    d2: Seq<(int, (Seq<char>, Seq<char>, Seq<u8>, Seq<u8>))>,
)
    requires
        crate::disassembler::decoded_matches(a1, d1),
        crate::disassembler::decoded_matches(a2, d2),
    ensures
        crate::disassembler::decoded_matches(a1 + a2, d1 + d2),
{
    assert forall|k: int|
        0 <= k < (a1 + a2).len() implies #[trigger] crate::disassembler::decoded_entry_ok(
            a1 + a2,
            d1 + d2,
            k,
        ) by {
        if k < a1.len() {
            assert(crate::disassembler::decoded_entry_ok(a1, d1, k));
            assert((a1 + a2)[k] == a1[k]);
            assert((d1 + d2)[k] == d1[k]);
        } else {
            assert(crate::disassembler::decoded_entry_ok(a2, d2, k - a1.len()));
            assert((a1 + a2)[k] == a2[k - a1.len()]);
            assert((d1 + d2)[k] == d2[k - a1.len()]);
        }
    }
}

/// Disassemble one function: collect its non-data bytes with the code
/// flags, mark its boundaries, decode the collected bytes and mark every
/// decoded instruction at its re-expanded position, appending it to the
/// instruction list.
#[verifier::loop_isolation(false)]
fn dis_function(
    bytes: &mut Vec<Byte>,
    f: &Function,
    architecture: &crate::groundtruth::ARCHITECTURE,
    instructions: &mut Vec<Instruction>,
) -> (r: Result<(), &'static str>)
    requires
        f.size >= 1,
        f.offset + f.size + sum_data_sizes(f.data@) <= old(bytes)@.len(),
    ensures
        final(bytes)@.len() == old(bytes)@.len(),
        passes::grown(old(bytes)@, final(bytes)@),
        forall|i: int|
            0 <= i < old(bytes)@.len() ==> {
                &&& forall|g: FLAG|
                    g == FLAG::DATA || g == FLAG::WRITEABLE || g == FLAG::BLOCK_START
                        ==> ((#[trigger] final(bytes)@[i]).has(g) <==> old(bytes)@[i].has(g))
                &&& forall|g: FLAG|
                    g == FLAG::CODE || g == FLAG::READABLE || g == FLAG::EXECUTABLE ==> (
                    (#[trigger] final(bytes)@[i]).has(g) <==> old(bytes)@[i].has(g) || (
                    f.offset <= i < f.offset + f.size && !old(bytes)@[i].has(FLAG::DATA)))
                &&& (final(bytes)@[i].has(FLAG::FUNCTION_START) <==> old(bytes)@[i].has(
                    FLAG::FUNCTION_START,
                ) || i == f.offset)
                &&& (final(bytes)@[i].has(FLAG::FUNCTION_END) <==> old(bytes)@[i].has(
                    FLAG::FUNCTION_END,
                ) || i == f.offset + f.size - 1)
            },
        final(instructions)@.len() >= old(instructions)@.len(),
        forall|k: int|
            0 <= k < old(instructions)@.len() ==> #[trigger] final(instructions)@[k]
                == old(instructions)@[k],
        forall|k: int|
            old(instructions)@.len() <= k < final(instructions)@.len() ==> placed_in(
                final(bytes)@,
                *f,
                #[trigger] final(instructions)@[k],
            ) && final(instructions)@[k].dup_free() && (forall|g: FLAG|
                final(instructions)@[k].has(g) ==> crate::disassembler::is_class_flag(g)),
        r is Ok ==> crate::disassembler::decoded_matches(
            final(instructions)@.subrange(
                old(instructions)@.len() as int,
                final(instructions)@.len() as int,
            ),
            fn_decode(old(bytes)@, *f, crate::disassembler::mode64_of(*architecture)),
        ),
{
    let n: usize = bytes.len();
    let ghost b0 = bytes@;
    let ghost ins0 = instructions@.len() as int;
    let off: u64 = f.offset;
    let sz: u64 = f.size;
    proof {
        lemma_sum_data_nonneg(f.data@);
    }
    let buf = passes::collect_function_code(bytes, off, sz);
    let ghost bufv = buf@;
    let ghost b_c = bytes@;
    passes::mark_byte(bytes, off as usize, FLAG::FUNCTION_START);
    let ghost b_s = bytes@;
    passes::mark_byte(bytes, (off + sz - 1) as usize, FLAG::FUNCTION_END);
    let ghost b_m = bytes@;
    proof {
        assert forall|i: int| 0 <= i < n implies state_after_boundary(
            b0,
            *f,
            #[trigger] b_m[i],
            i,
        ) by {
            assert(b_c[i].same_cell(b0[i]));
            assert(b_s[i].same_cell(b0[i]));
        }
        assert(passes::grown(b0, b_m));
    }
    let decoded = match crate::disassembler::disassemble(
        buf,
        architecture,
        crate::disassembler::DISASSEMBLER::CAPSTONE,
    ) {
        Ok(decoded) => decoded,
        Err(e) => {
            return Err(e);
        },
    };
    let ghost dl = fn_decode(b0, *f, crate::disassembler::mode64_of(*architecture));
    proof {
        assert(bufv == passes::code_values(
            b0,
            f.offset as int,
            passes::clip_len(f.offset as int, f.size as int, b0.len() as int),
        ));
        assert(crate::disassembler::decoded_matches(decoded@, dl));
        assert(instructions@.subrange(ins0, instructions@.len() as int) =~= Seq::empty());
        assert(dl.take(0) =~= Seq::<(int, (Seq<char>, Seq<char>, Seq<u8>, Seq<u8>))>::empty());
    }
    let ni: usize = decoded.len();
    let mut k: usize = 0;
    while k < ni
        invariant
            k <= ni,
            ni == decoded@.len(),
            dl == fn_decode(b0, *f, crate::disassembler::mode64_of(*architecture)),
            crate::disassembler::decoded_matches(decoded@, dl),
            ni == dl.len(),
            instructions@.len() == ins0 + k,
            crate::disassembler::decoded_matches(
                instructions@.subrange(ins0, instructions@.len() as int),
                dl.take(k as int),
            ),
            crate::disassembler::instrs_wf(decoded@, bufv),
            bufv.len() <= f.size,
            off == f.offset,
            sz == f.size,
            bytes@.len() == n,
            n == b0.len(),
            passes::grown(b0, bytes@),
            forall|i: int|
                0 <= i < n ==> state_after_boundary(b0, *f, #[trigger] bytes@[i], i),
            instructions@.len() >= ins0,
            forall|t: int|
                0 <= t < ins0 ==> #[trigger] instructions@[t] == old(instructions)@[t],
            forall|t: int|
                ins0 <= t < instructions@.len() ==> placed_in(
                    bytes@,
                    *f,
                    #[trigger] instructions@[t],
                ) && instructions@[t].dup_free() && (forall|g: FLAG|
                    instructions@[t].has(g) ==> crate::disassembler::is_class_flag(g)),
        decreases ni - k,
    {
        let ins = decoded[k].clone();
        proof {
            assert(ins.offset == decoded@[k as int].offset);
            assert(ins.length == decoded@[k as int].length);
            assert(ins.offset + ins.length <= bufv.len());
        }
        let add: u64 = extra_offset(f, ins.offset);
        let lead: u64 = add + off + ins.offset;
        proof {
            assert(lead as int == pe_lead(*f, ins.offset as int));
            assert(lead + ins.length <= n);
        }
        let ghost b_k = bytes@;
        let leadu: usize = lead as usize;
        passes::apply_instruction_marks(bytes, &ins, leadu);
        proof {
            assert(leadu as int == lead as int);
            assert(bytes@[leadu as int].same_cell(b_k[leadu as int]));
            assert(bytes@[leadu as int].has(FLAG::INSTRUCTION_START));
            assert forall|g: FLAG| #![trigger ins.flags@.contains(g)]
                ins.has(g) implies crate::disassembler::is_class_flag(g) by {
                assert(decoded@[k as int].has(g));
            }
            assert(!ins.has(FLAG::DATA) && !ins.has(FLAG::WRITEABLE) && !ins.has(
                FLAG::BLOCK_START,
            ) && !ins.has(FLAG::CODE) && !ins.has(FLAG::READABLE) && !ins.has(
                FLAG::EXECUTABLE,
            ) && !ins.has(FLAG::FUNCTION_START) && !ins.has(FLAG::FUNCTION_END));
            assert forall|i: int| 0 <= i < n implies {
                &&& (#[trigger] bytes@[i]).same_cell(b_k[i])
                &&& (b_k[i].dup_free() ==> bytes@[i].dup_free())
                &&& (forall|g: FLAG| b_k[i].has(g) ==> bytes@[i].has(g))
                &&& state_after_boundary(b0, *f, bytes@[i], i)
            } by {
                assert(state_after_boundary(b0, *f, b_k[i], i));
                assert forall|g: FLAG|
                    bytes@[i].has(g) <==> b_k[i].has(g) || (i == lead && (g
                        == FLAG::INSTRUCTION_START || ins.has(g))) || (i == lead
                        + ins.length - 1 && g == FLAG::INSTRUCTION_END) by {
                }
            }
            assert(passes::grown(b_k, bytes@));
            passes::lemma_grown_trans(b0, b_k, bytes@);
            assert(bytes@[lead as int].has(FLAG::INSTRUCTION_START));
            assert(bytes@[lead + ins.length - 1].has(FLAG::INSTRUCTION_END));
            assert(passes::marked_at(bytes@, ins, lead as int));
            assert(placed_in(bytes@, *f, ins));
            assert forall|t: int| ins0 <= t < instructions@.len() implies placed_in(
                bytes@,
                *f,
                #[trigger] instructions@[t],
            ) by {
                passes::lemma_marked_at_grown(
                    b_k,
                    bytes@,
                    instructions@[t],
                    pe_lead(*f, instructions@[t].offset as int),
                );
            }
        }
        let ghost apre = instructions@.subrange(ins0, instructions@.len() as int);
        instructions.push(ins);
        proof {
            assert(instructions@.subrange(ins0, instructions@.len() as int) =~= apre.push(
                ins,
            ));
            assert(dl.take(k + 1) =~= dl.take(k as int).push(dl[k as int]));
            assert(crate::disassembler::decoded_entry_ok(decoded@, dl, k as int));
            assert forall|w: int|
                0 <= w < k + 1 implies #[trigger] crate::disassembler::decoded_entry_ok(
                    apre.push(ins),
                    dl.take(k + 1),
                    w,
                ) by {
                if w < k {
                    assert(crate::disassembler::decoded_entry_ok(apre, dl.take(k as int), w));
                    assert(apre.push(ins)[w] == apre[w]);
                    assert(dl.take(k + 1)[w] == dl.take(k as int)[w]);
                } else {
                    assert(apre.push(ins)[w] == ins);
                    assert(dl.take(k + 1)[w] == dl[k as int]);
                }
            }
        }
        k = k + 1;
    }
    proof {
        assert(dl.take(ni as int) =~= dl);
    }
    Ok(())
}

/// The flag state one byte has after a function's code collection and
/// boundary marking, before and independent of instruction marks.
pub open spec fn state_after_boundary(b0: Seq<Byte>, f: Function, b: Byte, i: int) -> bool {
    &&& b.same_cell(b0[i])
    &&& (b0[i].dup_free() ==> b.dup_free())
    &&& forall|g: FLAG|
        g == FLAG::DATA || g == FLAG::WRITEABLE || g == FLAG::BLOCK_START ==> (b.has(g)
            <==> b0[i].has(g))
    &&& forall|g: FLAG|
        g == FLAG::CODE || g == FLAG::READABLE || g == FLAG::EXECUTABLE ==> (b.has(g)
            <==> b0[i].has(g) || (f.offset <= i < f.offset + f.size && !b0[i].has(
            FLAG::DATA,
        )))
    &&& (b.has(FLAG::FUNCTION_START) <==> b0[i].has(FLAG::FUNCTION_START) || i == f.offset)
    &&& (b.has(FLAG::FUNCTION_END) <==> b0[i].has(FLAG::FUNCTION_END) || i == f.offset
        + f.size - 1)
}

/// The index of the first section named `.text`, or a negative value if
/// there is none.
pub open spec fn find_text(sections: Seq<Section>, k: int) -> int
    decreases sections.len() - k,
{
    if k < 0 || k >= sections.len() {
        -1
    } else if strutil::is_text_name(sections[k].name@) {
        k
    } else {
        find_text(sections, k + 1)
    }
}

/// A function's labels after the relationship pass.
pub open spec fn relate_labels(pdb0: PDB, f: Function) -> Seq<Label> {
    f.labels@ + attached_labels(
        pdb0.labels@,
        f.segment,
        f.offset as int,
        f.offset + f.size,
        pdb0.labels@.len() as int,
    )
}

/// A function's data list after the relationship pass.
pub open spec fn relate_data(pdb0: PDB, f: Function) -> Seq<Data> {
    f.data@ + attached_data(
        pdb0.data@,
        f.segment,
        f.offset as int,
        f.offset + f.size,
        pdb0.data@.len() as int,
    )
}

/// A function's data list and size after the in-line-data-end pass.
pub open spec fn after_cut_end(pdb0: PDB, f: Function) -> (Seq<Data>, int) {
    cut_end_state(relate_data(pdb0, f), f.offset as int, f.size as int, relate_data(pdb0, f).len() as int)
}

/// A function's size at the end of the symbol passes.
pub open spec fn pipe_size(pdb0: PDB, f: Function) -> int {
    after_cut_end(pdb0, f).1
}

/// A function's data list at the end of the symbol passes.
pub open spec fn pipe_data(pdb0: PDB, f: Function) -> Seq<Data> {
    after_cut_end(pdb0, f).0.map_values(
        |d: Data|
            Data {
                name: d.name,
                offset: d.offset,
                segment: d.segment,
                size: cut_mid_size(d, relate_labels(pdb0, f)) as u64,
            },
    )
}

/// A function record's own layout fits a buffer of `m` bytes: each child
/// data region lies inside it, and the range plus the sum of the data
/// sizes does too.
pub open spec fn fn_fits(f: Function, m: int) -> bool {
    &&& forall|d: int|
        0 <= d < f.data@.len() ==> (#[trigger] f.data@[d]).offset + f.data@[d].size <= m
    &&& f.offset + f.size + sum_data_sizes(f.data@) <= m
}

/// The layout the symbol passes compute for one pruned function fits the
/// trimmed buffer.
pub open spec fn layout_fn_fits(pdb0: PDB, f0: Function, m: int) -> bool {
    &&& forall|d: int|
        0 <= d < pipe_data(pdb0, f0).len() ==> (#[trigger] pipe_data(pdb0, f0)[d]).offset
            + pipe_data(pdb0, f0)[d].size <= m
    &&& f0.offset + pipe_size(pdb0, f0) + sum_data_sizes(pipe_data(pdb0, f0)) <= m
}

/// The computed layout fits the trimmed buffer for every pruned function.
pub open spec fn pe_layout_fits(pdb0: PDB, text_len: int) -> bool {
    let pruned = passes::positive_functions(pdb0.functions@);
    forall|j: int|
        0 <= j < pruned.len() ==> layout_fn_fits(pdb0, #[trigger] pruned[j], text_len)
}

/// The state a PE pipeline accepts: a fresh byte buffer without flags, no
/// instructions yet, and, if there is a text section, sane bounds for it
/// and machine limits for the symbols.
pub open spec fn pe_ready(s: PE) -> bool {
    &&& forall|i: int| 0 <= i < s.bytes@.len() ==> (#[trigger] s.bytes@[i]).unflagged()
    &&& s.instructions@.len() == 0
    &&& (find_text(s.sections@, 0) >= 0 ==> {
        let t = s.sections@[find_text(s.sections@, 0)];
        &&& t.raw_data_offset + t.raw_data_size <= s.bytes@.len()
        &&& 0x1000 + t.raw_data_size <= u64::MAX
        &&& forall|j: int|
            0 <= j < s.pdb.functions@.len() ==> (#[trigger] s.pdb.functions@[j]).offset
                + s.pdb.functions@[j].size <= u64::MAX
        &&& forall|j: int|
            0 <= j < s.pdb.functions@.len() ==> (#[trigger] s.pdb.functions@[j]).labels@.len()
                + s.pdb.labels@.len() <= 0x3fffffffffffffff
    })
}

pub proof fn lemma_attached_labels_len(labels: Seq<Label>, seg: u8, off: int, end: int, k: int)
    requires
        k >= 0,
    ensures
        attached_labels(labels, seg, off, end, k).len() <= k,
    decreases k,
{
    if k > 0 {
        lemma_attached_labels_len(labels, seg, off, end, k - 1);
    }
}

pub proof fn lemma_cut_end_size_pos(data: Seq<Data>, off: int, size0: int, k: int)
    requires
        0 <= k <= data.len(),
        size0 >= 1,
    ensures
        cut_end_state(data, off, size0, k).1 >= 1,
    decreases k,
{
    if k > 0 {
        lemma_cut_end_size_pos(data, off, size0, k - 1);
    }
}

/// One function's record at the end of the symbol passes, in terms of its
/// pruned original.
pub open spec fn fn_done(pdb0: PDB, f0: Function, f1: Function) -> bool {
    &&& f1.name == f0.name
    &&& f1.offset == f0.offset
    &&& f1.segment == f0.segment
    &&& f1.size as int == pipe_size(pdb0, f0)
    &&& f1.labels@ == relate_labels(pdb0, f0)
    &&& f1.data@ == pipe_data(pdb0, f0)
}

/// What holds of a PE pipeline when processing succeeds: symbol records
/// are exactly the pruned, related and cut originals; every byte kept
/// carries its original text-section value at its rebased offset; and the
/// recovered instructions carry only well-formed class-flag sets.
pub open spec fn pe_done(s0: PE, s1: PE) -> bool {
    let ti = find_text(s0.sections@, 0);
    let t = s0.sections@[ti];
    let pruned = passes::positive_functions(s0.pdb.functions@);
    &&& s1.sections == s0.sections
    &&& s1.architecture == s0.architecture
    &&& s1.file_name == s0.file_name
    &&& s1.pdb.labels == s0.pdb.labels
    &&& s1.pdb.data == s0.pdb.data
    &&& s1.pdb.thunks == s0.pdb.thunks
    &&& s1.pdb.image_base == s0.pdb.image_base
    &&& s1.pdb.architecture == s0.pdb.architecture
    &&& s1.pdb.functions@.len() == pruned.len()
    &&& forall|j: int|
        0 <= j < pruned.len() ==> fn_done(s0.pdb, pruned[j], #[trigger] s1.pdb.functions@[j])
    &&& s1.bytes@.len() <= t.raw_data_size
    &&& forall|i: int|
        0 <= i < s1.bytes@.len() ==> {
            &&& (#[trigger] s1.bytes@[i]).value == s0.bytes@[t.raw_data_offset + i].value
            &&& s1.bytes@[i].offset == 0x1000 + i
            &&& s1.bytes@[i].dup_free()
        }
    &&& forall|k: int|
        0 <= k < s1.instructions@.len() ==> (#[trigger] s1.instructions@[k]).dup_free() && (
        forall|g: FLAG|
            s1.instructions@[k].has(g) ==> crate::disassembler::is_class_flag(g))
}

/// The largest end of the data regions in a list, or zero.
pub open spec fn data_max_end(data: Seq<Data>) -> int
    decreases data.len(),
{
    if data.len() == 0 {
        0
    } else if data.last().offset + data.last().size > data_max_end(data.drop_last()) {
        data.last().offset + data.last().size
    } else {
        data_max_end(data.drop_last())
    }
}

/// Where a function's reach ends: the end of its range or of its farthest
/// child data region, whichever is larger.
pub open spec fn span_end(f: Function) -> int {
    if f.offset + f.size > data_max_end(f.data@) {
        f.offset + f.size
    } else {
        data_max_end(f.data@)
    }
}

/// The functions' reaches are pairwise disjoint and every child data
/// region starts inside its own function's reach.
pub open spec fn laid_out(funcs: Seq<Function>) -> bool {
    &&& forall|j: int, d: int|
        0 <= j < funcs.len() && 0 <= d < (#[trigger] funcs[j]).data@.len() ==> (
        #[trigger] funcs[j].data@[d]).offset >= funcs[j].offset
    &&& forall|j1: int, j2: int|
        0 <= j1 < funcs.len() && 0 <= j2 < funcs.len() && j1 != j2 ==> ((
        #[trigger] funcs[j1]).offset >= span_end(#[trigger] funcs[j2]) || funcs[j2].offset
            >= span_end(funcs[j1]))
}

pub proof fn lemma_data_max_end(data: Seq<Data>, d: int)
    requires
        0 <= d < data.len(),
    ensures
        data[d].offset + data[d].size <= data_max_end(data),
    decreases data.len(),
{
    if d < data.len() - 1 {
        lemma_data_max_end(data.drop_last(), d);
        assert(data.drop_last()[d] == data[d]);
    } else {
        assert(data[d] == data.last());
    }
}

/// Under a disjoint layout on a fresh buffer, no byte is covered both by
/// a data region and by a code range whose function saw it as free.
pub proof fn lemma_no_code_data(bytes0: Seq<Byte>, funcs: Seq<Function>, i: int)
    requires
        laid_out(funcs),
        forall|t: int| 0 <= t < bytes0.len() ==> (#[trigger] bytes0[t]).unflagged(),
    ensures
        !(passes::code_covers(bytes0, funcs, i) && passes::data_covers(funcs, i)),
{
    if passes::code_covers(bytes0, funcs, i) && passes::data_covers(funcs, i) {
        let j1 = choose|j: int|
            0 <= j < funcs.len() && passes::in_code_range(
                #[trigger] funcs[j],
                i,
                bytes0.len() as int,
            ) && !bytes0[i].has(FLAG::DATA) && !passes::data_covers(funcs.take(j + 1), i);
        let j2 = choose|j: int| 0 <= j < funcs.len() && passes::in_data_of(#[trigger] funcs[j], i);
        if j2 <= j1 {
            assert(funcs.take(j1 + 1)[j2] == funcs[j2]);
            assert(passes::in_data_of(funcs.take(j1 + 1)[j2], i));
            assert(passes::data_covers(funcs.take(j1 + 1), i));
        } else {
            let d = choose|d: int|
                0 <= d < funcs[j2].data@.len() && (#[trigger] funcs[j2].data@[d]).offset
                    <= i < funcs[j2].data@[d].offset + funcs[j2].data@[d].size;
            lemma_data_max_end(funcs[j2].data@, d);
            assert(funcs[j2].offset <= i < span_end(funcs[j2]));
            assert(funcs[j1].offset <= i < span_end(funcs[j1]));
        }
    }
}

/// Under a disjoint layout, only the function that starts at a byte puts
/// a boundary mark there: a start mark inside another function's range is
/// impossible, and so is an end mark.
pub proof fn lemma_fs_unique(funcs: Seq<Function>, j: int, i: int)
    requires
        laid_out(funcs),
        forall|t: int| 0 <= t < funcs.len() ==> (#[trigger] funcs[t]).size >= 1,
        0 <= j < funcs.len(),
        funcs[j].offset <= i < funcs[j].offset + funcs[j].size,
    ensures
        fs_at(funcs, i) <==> i == funcs[j].offset,
        fe_at(funcs, i) <==> i == funcs[j].offset + funcs[j].size - 1,
{
    if fs_at(funcs, i) {
        let j2 = choose|t: int| 0 <= t < funcs.len() && i == (#[trigger] funcs[t]).offset;
        if j2 != j {
            assert(funcs[j].offset <= i < span_end(funcs[j]));
            assert(funcs[j2].offset <= i < span_end(funcs[j2]));
        }
    }
    if i == funcs[j].offset {
        assert(fs_at(funcs, i));
    }
    if fe_at(funcs, i) {
        let j2 = choose|t: int|
            0 <= t < funcs.len() && i == (#[trigger] funcs[t]).offset + funcs[t].size - 1;
        if j2 != j {
            assert(funcs[j].offset <= i < span_end(funcs[j]));
            assert(funcs[j2].offset <= i < span_end(funcs[j2]));
        }
    }
    if i == funcs[j].offset + funcs[j].size - 1 {
        assert(fe_at(funcs, i));
    }
}

/// Somewhere in the buffer, the instruction's leading byte carries the
/// instruction-start mark and its trailing byte the instruction-end mark.
pub open spec fn instr_marked(bytes: Seq<Byte>, ins: Instruction) -> bool {
    exists|l: int|
        0 <= l && l + ins.length <= bytes.len() && (#[trigger] bytes[l]).has(
            FLAG::INSTRUCTION_START,
        ) && bytes[l + ins.length - 1].has(FLAG::INSTRUCTION_END) && (forall|g: FLAG|
            ins.has(g) ==> bytes[l].has(g))
}

/// The relations the pipeline tail leaves between its intermediate byte
/// states: `b2` fresh, `b3` after flag setting, `b4` after disassembly,
/// `b5` after alignment detection, `bf` after tail truncation.
pub open spec fn tail_states(
    b2: Seq<Byte>,
    funcs: Seq<Function>,
    b3: Seq<Byte>,
    b4: Seq<Byte>,
    b5: Seq<Byte>,
    bf: Seq<Byte>,
) -> bool {
    &&& b3.len() == b2.len()
    &&& b4.len() == b2.len()
    &&& b5.len() == b2.len()
    &&& forall|i: int| 0 <= i < b2.len() ==> (#[trigger] b2[i]).unflagged()
    &&& forall|i: int|
        0 <= i < b2.len() ==> {
            &&& ((#[trigger] b3[i]).has(FLAG::DATA) <==> passes::data_covers(funcs, i))
            &&& (b3[i].has(FLAG::CODE) <==> passes::code_covers(b2, funcs, i))
            &&& forall|g: FLAG|
                g != FLAG::CODE && g != FLAG::DATA ==> (b3[i].has(g) <==> b2[i].has(g))
        }
    &&& dis_state(b3, funcs, b4)
    &&& forall|i: int|
        0 <= i < b2.len() ==> forall|g: FLAG|
            g != FLAG::INSTRUCTION_ALIGNMENT ==> ((#[trigger] b5[i]).has(g) <==> b4[i].has(
                g,
            ))
    &&& forall|i: int|
        0 <= i < b2.len() && (#[trigger] b4[i]).has(FLAG::INSTRUCTION_ALIGNMENT)
            ==> b5[i].has(FLAG::INSTRUCTION_ALIGNMENT)
    &&& bf == b5.subrange(0, passes::keep_len(b5))
    &&& forall|j: int|
        0 <= j < funcs.len() ==> (#[trigger] funcs[j]).size >= 1 && funcs[j].offset
            + funcs[j].size + sum_data_sizes(funcs[j].data@) <= b2.len()
}

proof fn proof_sum_nonneg_all(funcs: Seq<Function>)
    ensures
        forall|j: int|
            0 <= j < funcs.len() ==> sum_data_sizes((#[trigger] funcs[j]).data@) >= 0,
{
    assert forall|j: int|
        0 <= j < funcs.len() implies sum_data_sizes((#[trigger] funcs[j]).data@)
            >= 0 by {
        lemma_sum_data_nonneg(funcs[j].data@);
    }
}

/// Under a disjoint layout, no byte of the final buffer is both code and
/// data.
#[verifier::rlimit(60)]
pub proof fn lemma_pe_code_data(
    b2: Seq<Byte>,
    funcs: Seq<Function>,
    b3: Seq<Byte>,
    b4: Seq<Byte>,
    b5: Seq<Byte>,
    bf: Seq<Byte>,
)
    requires
        tail_states(b2, funcs, b3, b4, b5, bf),
        laid_out(funcs),
    ensures
        forall|i: int|
            0 <= i < bf.len() ==> !((#[trigger] bf[i]).has(FLAG::CODE) && bf[i].has(
                FLAG::DATA,
            )),
{
    passes::lemma_keep_len_bounds(b5);
    proof_sum_nonneg_all(funcs);
    assert forall|i: int| 0 <= i < bf.len() implies !((#[trigger] bf[i]).has(FLAG::CODE)
        && bf[i].has(FLAG::DATA)) by {
        assert(bf[i] == b5[i]);
        if bf[i].has(FLAG::CODE) && bf[i].has(FLAG::DATA) {
            assert(b4[i].has(FLAG::CODE) && b4[i].has(FLAG::DATA));
            assert(b4[i].has(FLAG::DATA) <==> b3[i].has(FLAG::DATA));
            assert(b4[i].has(FLAG::CODE) <==> b3[i].has(FLAG::CODE) || range_code_covers(
                b3,
                funcs,
                i,
            ));
            assert(passes::data_covers(funcs, i));
            if b3[i].has(FLAG::CODE) {
                lemma_no_code_data(b2, funcs, i);
            } else {
                assert(range_code_covers(b3, funcs, i));
                assert(!b3[i].has(FLAG::DATA));
            }
        }
    }
}

/// Under a disjoint layout, every byte of a function's region carries
/// code or data in the pre-truncation state, so the region survives
/// truncation whole.
#[verifier::rlimit(60)]
pub proof fn lemma_pe_region_survives(
    b2: Seq<Byte>,
    funcs: Seq<Function>,
    b3: Seq<Byte>,
    b4: Seq<Byte>,
    b5: Seq<Byte>,
    bf: Seq<Byte>,
    j: int,
)
    requires
        tail_states(b2, funcs, b3, b4, b5, bf),
        0 <= j < funcs.len(),
    ensures
        funcs[j].offset + funcs[j].size <= bf.len(),
{
    passes::lemma_keep_len_bounds(b5);
    passes::lemma_keep_len_pad(b5);
    lemma_sum_data_nonneg(funcs[j].data@);
    let e = funcs[j].offset + funcs[j].size - 1;
    assert(b4[e].has(FLAG::DATA) <==> b3[e].has(FLAG::DATA));
    if b3[e].has(FLAG::DATA) {
        assert(b5[e].has(FLAG::DATA));
    } else {
        assert(range_code_covers(b3, funcs, e)) by {
            assert(passes::in_code_range(funcs[j], e, b2.len() as int));
            assert(!b3[e].has(FLAG::DATA));
        }
        assert(b4[e].has(FLAG::CODE));
        assert(b5[e].has(FLAG::CODE));
    }
    if e >= passes::keep_len(b5) {
        assert(passes::is_zero_pad(b5[e]));
    }
}

/// Under a disjoint layout, the function boundary marks of the final
/// buffer sit exactly at the function boundaries.
#[verifier::rlimit(60)]
pub proof fn lemma_pe_boundaries(
    b2: Seq<Byte>,
    funcs: Seq<Function>,
    b3: Seq<Byte>,
    b4: Seq<Byte>,
    b5: Seq<Byte>,
    bf: Seq<Byte>,
    j: int,
)
    requires
        tail_states(b2, funcs, b3, b4, b5, bf),
        laid_out(funcs),
        0 <= j < funcs.len(),
    ensures
        funcs[j].offset + funcs[j].size <= bf.len(),
        bf[funcs[j].offset as int].has(FLAG::FUNCTION_START),
        bf[funcs[j].offset + funcs[j].size - 1].has(FLAG::FUNCTION_END),
        forall|i: int|
            funcs[j].offset <= i < funcs[j].offset + funcs[j].size ==> {
                &&& ((#[trigger] bf[i]).has(FLAG::FUNCTION_START) <==> i == funcs[j].offset)
                &&& (bf[i].has(FLAG::FUNCTION_END) <==> i == funcs[j].offset + funcs[j].size
                    - 1)
            },
{
    lemma_pe_region_survives(b2, funcs, b3, b4, b5, bf, j);
    proof_sum_nonneg_all(funcs);
    passes::lemma_keep_len_bounds(b5);
    assert forall|i: int|
        funcs[j].offset <= i < funcs[j].offset + funcs[j].size implies {
        &&& ((#[trigger] bf[i]).has(FLAG::FUNCTION_START) <==> i == funcs[j].offset)
        &&& (bf[i].has(FLAG::FUNCTION_END) <==> i == funcs[j].offset + funcs[j].size - 1)
    } by {
        assert(bf[i] == b5[i]);
        assert(b5[i].has(FLAG::FUNCTION_START) <==> b4[i].has(FLAG::FUNCTION_START));
        assert(b5[i].has(FLAG::FUNCTION_END) <==> b4[i].has(FLAG::FUNCTION_END));
        assert(b3[i].has(FLAG::FUNCTION_START) <==> b2[i].has(FLAG::FUNCTION_START));
        assert(b3[i].has(FLAG::FUNCTION_END) <==> b2[i].has(FLAG::FUNCTION_END));
        assert(b4[i].has(FLAG::FUNCTION_START) <==> b3[i].has(FLAG::FUNCTION_START)
            || fs_at(funcs, i));
        assert(b4[i].has(FLAG::FUNCTION_END) <==> b3[i].has(FLAG::FUNCTION_END) || fe_at(
            funcs,
            i,
        ));
        lemma_fs_unique(funcs, j, i);
    }
    assert(bf[funcs[j].offset as int].has(FLAG::FUNCTION_START));
    assert(bf[funcs[j].offset + funcs[j].size - 1].has(FLAG::FUNCTION_END));
}

/// Without in-line data, every recovered instruction keeps its boundary
/// marks in the final buffer.
#[verifier::rlimit(60)]
pub proof fn lemma_pe_marks(
    b2: Seq<Byte>,
    funcs: Seq<Function>,
    b3: Seq<Byte>,
    b4: Seq<Byte>,
    b5: Seq<Byte>,
    bf: Seq<Byte>,
    ins: Instruction,
)
    requires
        tail_states(b2, funcs, b3, b4, b5, bf),
        laid_out(funcs),
        forall|j: int|
            0 <= j < funcs.len() ==> sum_data_sizes((#[trigger] funcs[j]).data@) == 0,
        placed_from(b4, funcs, ins),
    ensures
        instr_marked(bf, ins),
{
    let j = choose|j: int| 0 <= j < funcs.len() && placed_in(b4, #[trigger] funcs[j], ins);
    let l = pe_lead(funcs[j], ins.offset as int);
    lemma_pe_region_survives(b2, funcs, b3, b4, b5, bf, j);
    lemma_sum_data_nonneg(funcs[j].data@);
    passes::lemma_keep_len_bounds(b5);
    assert(sum_data_sizes(funcs[j].data@) == 0);
    assert(l + ins.length <= funcs[j].offset + funcs[j].size);
    assert(b4[l].has(FLAG::INSTRUCTION_START));
    assert(b4[l + ins.length - 1].has(FLAG::INSTRUCTION_END));
    assert(b5[l].has(FLAG::INSTRUCTION_START));
    assert(b5[l + ins.length - 1].has(FLAG::INSTRUCTION_END));
    assert(bf[l] == b5[l]);
    assert(bf[l + ins.length - 1] == b5[l + ins.length - 1]);
    assert forall|g: FLAG| ins.has(g) implies bf[l].has(g) by {
        assert(b4[l].has(g));
        assert(b5[l].has(g));
    }
    assert(0 <= l && l + ins.length <= bf.len() && bf[l].has(FLAG::INSTRUCTION_START)
        && bf[l + ins.length - 1].has(FLAG::INSTRUCTION_END) && (forall|g: FLAG|
        ins.has(g) ==> bf[l].has(g)));
    assert(instr_marked(bf, ins));
}

/// A PE binary under labeling: its architecture, the symbols of its PDB,
/// its sections, the byte buffer and the instructions recovered so far.
pub struct PE {
    pub architecture: crate::groundtruth::ARCHITECTURE,
    pub file_name: String,
    pub pdb: PDB,
    pub sections: Vec<Section>,
    pub bytes: Vec<Byte>,
    pub instructions: Vec<Instruction>,
}

impl PE {
    /// Keep only the bytes whose index falls in `[start, end)`.
    pub fn trim_byte_vector(&mut self, start: u64, end: u64)
        requires
            start <= end,
            end <= old(self).bytes@.len(),
        ensures
            final(self).bytes@.len() == end - start,
            forall|i: int|
                0 <= i < final(self).bytes@.len() ==> (#[trigger] final(self).bytes@[i]).like(old(self).bytes@[start + i]),
            final(self).pdb == old(self).pdb,
            final(self).sections == old(self).sections,
            final(self).instructions == old(self).instructions,
            final(self).architecture == old(self).architecture,
            final(self).file_name == old(self).file_name,
    {
        passes::trim_bytes(&mut self.bytes, start, end);
    }

    /// Set every byte's offset to `base` plus its index.
    pub fn rebase_byte_vector(&mut self, base: u64)
        requires
            base + old(self).bytes@.len() <= u64::MAX + 1,
        ensures
            final(self).bytes@.len() == old(self).bytes@.len(),
            forall|i: int|
                0 <= i < final(self).bytes@.len() ==> {
                    &&& (#[trigger] final(self).bytes@[i]).offset == base + i
                    &&& final(self).bytes@[i].value == old(self).bytes@[i].value
                    &&& final(self).bytes@[i].flags@ == old(self).bytes@[i].flags@
                },
            final(self).pdb == old(self).pdb,
            final(self).sections == old(self).sections,
            final(self).instructions == old(self).instructions,
            final(self).architecture == old(self).architecture,
            final(self).file_name == old(self).file_name,
    {
        passes::rebase_bytes(&mut self.bytes, base);
    }

    /// Drop the functions whose size is zero.
    pub fn preprocess_functions(&mut self)
        ensures
            final(self).pdb.functions@ == passes::positive_functions(
                old(self).pdb.functions@,
            ),
            final(self).pdb.labels == old(self).pdb.labels,
            final(self).pdb.data == old(self).pdb.data,
            final(self).pdb.thunks == old(self).pdb.thunks,
            final(self).pdb.image_base == old(self).pdb.image_base,
            final(self).pdb.architecture == old(self).pdb.architecture,
            final(self).bytes == old(self).bytes,
            final(self).sections == old(self).sections,
            final(self).instructions == old(self).instructions,
            final(self).architecture == old(self).architecture,
            final(self).file_name == old(self).file_name,
    {
        passes::retain_positive(&mut self.pdb.functions);
    }

    /// Scan the buffer for its maximal runs of bytes without any flag.
    pub fn detect_holes(&self) -> (holes: Vec<Hole>)
        ensures
            forall|k: int|
                0 <= k < holes@.len() ==> passes::hole_ok(
                    self.bytes@,
                    #[trigger] holes@[k],
                ),
            forall|i: int|
                0 <= i < self.bytes@.len() && self.bytes@[i].unflagged()
                    ==> exists|k: int|
                    0 <= k < holes@.len() && (#[trigger] holes@[k]).start <= i
                        <= holes@[k].end,
            forall|k1: int, k2: int|
                0 <= k1 < k2 < holes@.len() ==> (#[trigger] holes@[k1]).end < (
                #[trigger] holes@[k2]).start,
    {
        passes::detect_holes_in(&self.bytes)
    }

    /// Truncate the buffer at the start of its trailing run of zero-valued
    /// bytes that carry neither code nor data.
    pub fn detect_end_of_section(&mut self)
        ensures
            final(self).bytes@ == old(self).bytes@.subrange(
                0,
                passes::keep_len(old(self).bytes@),
            ),
            final(self).pdb == old(self).pdb,
            final(self).sections == old(self).sections,
            final(self).instructions == old(self).instructions,
            final(self).architecture == old(self).architecture,
            final(self).file_name == old(self).file_name,
    {
        passes::truncate_zero_tail(&mut self.bytes);
    }

    /// Mark every function's child data regions as data, then its range as
    /// code, where data wins.
    pub fn set_byte_flags(&mut self)
        requires
            forall|j: int, d: int|
                0 <= j < old(self).pdb.functions@.len() && 0 <= d < (#[trigger] old(self).pdb.functions@[j]).data@.len() ==> (#[trigger] old(self).pdb.functions@[j].data@[d]).offset + old(self).pdb.functions@[
                    j
                ].data@[d].size <= old(self).bytes@.len(),
            forall|j: int|
                0 <= j < old(self).pdb.functions@.len() ==> (#[trigger] old(self).pdb.functions@[j]).offset + old(self).pdb.functions@[j].size
                    <= u64::MAX,
        ensures
            final(self).bytes@.len() == old(self).bytes@.len(),
            forall|i: int|
                0 <= i < old(self).bytes@.len() ==> {
                    &&& (#[trigger] final(self).bytes@[i]).same_cell(old(self).bytes@[i])
                    &&& (old(self).bytes@[i].dup_free() ==> final(self).bytes@[i].dup_free())
                    &&& (final(self).bytes@[i].has(FLAG::DATA) <==> old(self).bytes@[i].has(FLAG::DATA) || passes::data_covers(
                        old(self).pdb.functions@,
                        i,
                    ))
                    &&& (final(self).bytes@[i].has(FLAG::CODE) <==> old(self).bytes@[i].has(FLAG::CODE) || passes::code_covers(
                        old(self).bytes@,
                        old(self).pdb.functions@,
                        i,
                    ))
                    &&& forall|g: FLAG|
                        g != FLAG::CODE && g != FLAG::DATA ==> (final(self).bytes@[i].has(g) <==> old(self).bytes@[i].has(g))
                },
            final(self).pdb == old(self).pdb,
            final(self).sections == old(self).sections,
            final(self).instructions == old(self).instructions,
            final(self).architecture == old(self).architecture,
            final(self).file_name == old(self).file_name,
    {
        passes::set_flags_from_functions(&mut self.bytes, &self.pdb.functions);
    }

    /// Attach to every function the global labels and data symbols that lie
    /// strictly inside its range on its segment, in their global order.
    #[verifier::loop_isolation(false)]
    pub fn create_relationships(&mut self)
        requires
            forall|j: int|
                0 <= j < old(self).pdb.functions@.len() ==> (#[trigger] old(self).pdb.functions@[j]).offset + old(self).pdb.functions@[j].size
                    <= u64::MAX,
        ensures
            final(self).pdb.functions@.len() == old(self).pdb.functions@.len(),
            forall|j: int|
                0 <= j < old(self).pdb.functions@.len() ==> {
                    &&& (#[trigger] final(self).pdb.functions@[j]).name == old(self).pdb.functions@[j].name
                    &&& final(self).pdb.functions@[j].offset == old(self).pdb.functions@[j].offset
                    &&& final(self).pdb.functions@[j].segment == old(self).pdb.functions@[j].segment
                    &&& final(self).pdb.functions@[j].size == old(self).pdb.functions@[j].size
                    &&& final(self).pdb.functions@[j].labels@ == old(self).pdb.functions@[j].labels@ + attached_labels(
                        old(self).pdb.labels@,
                        old(self).pdb.functions@[j].segment,
                        old(self).pdb.functions@[j].offset as int,
                        old(self).pdb.functions@[j].offset + old(self).pdb.functions@[j].size,
                        old(self).pdb.labels@.len() as int,
                    )
                    &&& final(self).pdb.functions@[j].data@ == old(self).pdb.functions@[j].data@ + attached_data(
                        old(self).pdb.data@,
                        old(self).pdb.functions@[j].segment,
                        old(self).pdb.functions@[j].offset as int,
                        old(self).pdb.functions@[j].offset + old(self).pdb.functions@[j].size,
                        old(self).pdb.data@.len() as int,
                    )
                },
            final(self).pdb.labels == old(self).pdb.labels,
            final(self).pdb.data == old(self).pdb.data,
            final(self).pdb.thunks == old(self).pdb.thunks,
            final(self).pdb.image_base == old(self).pdb.image_base,
            final(self).pdb.architecture == old(self).pdb.architecture,
            final(self).bytes == old(self).bytes,
            final(self).sections == old(self).sections,
            final(self).instructions == old(self).instructions,
            final(self).architecture == old(self).architecture,
            final(self).file_name == old(self).file_name,
    {
        let nf: usize = self.pdb.functions.len();
        let mut j: usize = 0;
        while j < nf
            invariant
                j <= nf,
                self.pdb.functions@.len() == nf,
                forall|t: int|
                    j <= t < nf ==> #[trigger] self.pdb.functions@[t] == old(self).pdb.functions@[t],
                forall|t: int|
                    0 <= t < j ==> {
                        &&& (#[trigger] self.pdb.functions@[t]).name == old(self).pdb.functions@[t].name
                        &&& self.pdb.functions@[t].offset == old(self).pdb.functions@[t].offset
                        &&& self.pdb.functions@[t].segment == old(self).pdb.functions@[t].segment
                        &&& self.pdb.functions@[t].size == old(self).pdb.functions@[t].size
                        &&& self.pdb.functions@[t].labels@ == old(self).pdb.functions@[t].labels@ + attached_labels(
                            old(self).pdb.labels@,
                            old(self).pdb.functions@[t].segment,
                            old(self).pdb.functions@[t].offset as int,
                            old(self).pdb.functions@[t].offset + old(self).pdb.functions@[t].size,
                            old(self).pdb.labels@.len() as int,
                        )
                        &&& self.pdb.functions@[t].data@ == old(self).pdb.functions@[t].data@ + attached_data(
                            old(self).pdb.data@,
                            old(self).pdb.functions@[t].segment,
                            old(self).pdb.functions@[t].offset as int,
                            old(self).pdb.functions@[t].offset + old(self).pdb.functions@[t].size,
                            old(self).pdb.data@.len() as int,
                        )
                    },
                self.pdb.labels == old(self).pdb.labels,
                self.pdb.data == old(self).pdb.data,
                self.pdb.thunks == old(self).pdb.thunks,
                self.pdb.image_base == old(self).pdb.image_base,
                self.pdb.architecture == old(self).pdb.architecture,
                self.bytes == old(self).bytes,
                self.sections == old(self).sections,
                self.instructions == old(self).instructions,
                self.architecture == old(self).architecture,
                self.file_name == old(self).file_name,
            decreases nf - j,
        {
            let mut f = self.pdb.functions[j].clone();
            let ghost f0 = old(self).pdb.functions@[j as int];
            let seg: u8 = f.segment;
            let off: u64 = f.offset;
            let fend: u64 = f.offset + f.size;
            let nl: usize = self.pdb.labels.len();
            let mut l: usize = 0;
            while l < nl
                invariant
                    l <= nl,
                    nl == old(self).pdb.labels@.len(),
                    self.pdb.labels == old(self).pdb.labels,
                    seg == f0.segment,
                    off == f0.offset,
                    fend == f0.offset + f0.size,
                    f.labels@ == f0.labels@ + attached_labels(
                        old(self).pdb.labels@,
                        seg,
                        off as int,
                        fend as int,
                        l as int,
                    ),
                    f.name == f0.name,
                    f.offset == f0.offset,
                    f.segment == f0.segment,
                    f.size == f0.size,
                    f.data@ == f0.data@,
                decreases nl - l,
            {
                let lab = &self.pdb.labels[l];
                if lab.segment == seg && lab.offset > off && lab.offset < fend {
                    f.labels.push(self.pdb.labels[l].clone());
                }
                proof {
                    assert(f.labels@ =~= f0.labels@ + attached_labels(
                        old(self).pdb.labels@,
                        seg,
                        off as int,
                        fend as int,
                        l + 1,
                    ));
                }
                l = l + 1;
            }
            let ndt: usize = self.pdb.data.len();
            let mut dx: usize = 0;
            while dx < ndt
                invariant
                    dx <= ndt,
                    ndt == old(self).pdb.data@.len(),
                    self.pdb.data == old(self).pdb.data,
                    seg == f0.segment,
                    off == f0.offset,
                    fend == f0.offset + f0.size,
                    f.data@ == f0.data@ + attached_data(
                        old(self).pdb.data@,
                        seg,
                        off as int,
                        fend as int,
                        dx as int,
                    ),
                    f.name == f0.name,
                    f.offset == f0.offset,
                    f.segment == f0.segment,
                    f.size == f0.size,
                    f.labels@ == f0.labels@ + attached_labels(
                        old(self).pdb.labels@,
                        seg,
                        off as int,
                        fend as int,
                        old(self).pdb.labels@.len() as int,
                    ),
                decreases ndt - dx,
            {
                let dat = &self.pdb.data[dx];
                if dat.segment == seg && dat.offset > off && dat.offset < fend {
                    f.data.push(self.pdb.data[dx].clone());
                }
                proof {
                    assert(f.data@ =~= f0.data@ + attached_data(
                        old(self).pdb.data@,
                        seg,
                        off as int,
                        fend as int,
                        dx + 1,
                    ));
                }
                dx = dx + 1;
            }
            self.pdb.functions.set(j, f);
            j = j + 1;
        }
    }

    /// Give every empty-named data entry that lies strictly inside its
    /// function's current range the tail of that range as its size, and
    /// shrink the function to end where the entry starts.
    #[verifier::loop_isolation(false)]
    pub fn cut_in_line_data_end(&mut self)
        requires
            forall|j: int|
                0 <= j < old(self).pdb.functions@.len() ==> (#[trigger] old(self).pdb.functions@[j]).offset + old(self).pdb.functions@[j].size <= u64::MAX,
        ensures
            final(self).pdb.functions@.len() == old(self).pdb.functions@.len(),
            forall|j: int|
                0 <= j < old(self).pdb.functions@.len() ==> {
                    &&& (#[trigger] final(self).pdb.functions@[j]).name == old(self).pdb.functions@[j].name
                    &&& final(self).pdb.functions@[j].offset == old(self).pdb.functions@[j].offset
                    &&& final(self).pdb.functions@[j].segment == old(self).pdb.functions@[j].segment
                    &&& final(self).pdb.functions@[j].labels@ == old(self).pdb.functions@[j].labels@
                    &&& final(self).pdb.functions@[j].data@ == cut_end_state(
                        old(self).pdb.functions@[j].data@,
                        old(self).pdb.functions@[j].offset as int,
                        old(self).pdb.functions@[j].size as int,
                        old(self).pdb.functions@[j].data@.len() as int,
                    ).0
                    &&& final(self).pdb.functions@[j].size == cut_end_state(
                        old(self).pdb.functions@[j].data@,
                        old(self).pdb.functions@[j].offset as int,
                        old(self).pdb.functions@[j].size as int,
                        old(self).pdb.functions@[j].data@.len() as int,
                    ).1
                },
            final(self).pdb.labels == old(self).pdb.labels,
            final(self).pdb.data == old(self).pdb.data,
            final(self).pdb.thunks == old(self).pdb.thunks,
            final(self).pdb.image_base == old(self).pdb.image_base,
            final(self).pdb.architecture == old(self).pdb.architecture,
            final(self).bytes == old(self).bytes,
            final(self).sections == old(self).sections,
            final(self).instructions == old(self).instructions,
            final(self).architecture == old(self).architecture,
            final(self).file_name == old(self).file_name,
    {
        let nf: usize = self.pdb.functions.len();
        let mut j: usize = 0;
        while j < nf
            invariant
                j <= nf,
                self.pdb.functions@.len() == nf,
                forall|t: int|
                    j <= t < nf ==> #[trigger] self.pdb.functions@[t] == old(self).pdb.functions@[t],
                forall|t: int|
                    0 <= t < j ==> {
                        &&& (#[trigger] self.pdb.functions@[t]).name == old(self).pdb.functions@[t].name
                        &&& self.pdb.functions@[t].offset == old(self).pdb.functions@[t].offset
                        &&& self.pdb.functions@[t].segment == old(self).pdb.functions@[t].segment
                        &&& self.pdb.functions@[t].labels@ == old(self).pdb.functions@[t].labels@
                        &&& self.pdb.functions@[t].data@ == cut_end_state(
                            old(self).pdb.functions@[t].data@,
                            old(self).pdb.functions@[t].offset as int,
                            old(self).pdb.functions@[t].size as int,
                            old(self).pdb.functions@[t].data@.len() as int,
                        ).0
                        &&& self.pdb.functions@[t].size == cut_end_state(
                            old(self).pdb.functions@[t].data@,
                            old(self).pdb.functions@[t].offset as int,
                            old(self).pdb.functions@[t].size as int,
                            old(self).pdb.functions@[t].data@.len() as int,
                        ).1
                    },
                self.pdb.labels == old(self).pdb.labels,
                self.pdb.data == old(self).pdb.data,
                self.pdb.thunks == old(self).pdb.thunks,
                self.pdb.image_base == old(self).pdb.image_base,
                self.pdb.architecture == old(self).pdb.architecture,
                self.bytes == old(self).bytes,
                self.sections == old(self).sections,
                self.instructions == old(self).instructions,
                self.architecture == old(self).architecture,
                self.file_name == old(self).file_name,
            decreases nf - j,
        {
            let mut f = self.pdb.functions[j].clone();
            let ghost f0 = old(self).pdb.functions@[j as int];
            let ghost d0 = f0.data@;
            let ghost s0 = f0.size as int;
            let off: u64 = f.offset;
            let ndt: usize = f.data.len();
            let mut k: usize = 0;
            while k < ndt
                invariant
                    k <= ndt,
                    ndt == d0.len(),
                    off == f0.offset,
                    f.name == f0.name,
                    f.offset == f0.offset,
                    f.segment == f0.segment,
                    f.labels@ == f0.labels@,
                    f.data@ == cut_end_state(d0, off as int, s0, k as int).0,
                    f.size as int == cut_end_state(d0, off as int, s0, k as int).1,
                    f.data@.len() == ndt,
                    f.size <= f0.size,
                    f0.offset + f0.size <= u64::MAX,
                decreases ndt - k,
            {
                proof {
                    lemma_cut_end_props(d0, off as int, s0, k as int);
                    lemma_cut_end_props(d0, off as int, s0, k + 1);
                }
                let ghost prevd = f.data@;
                let ghost prevs = f.size as int;
                if f.data[k].name.as_str().is_empty() {
                    let doff: u64 = f.data[k].offset;
                    if doff > f.offset && doff < f.offset + f.size {
                        let nsize: u64 = (f.size + f.offset) - doff;
                        let mut dd = f.data[k].clone();
                        dd.size = nsize;
                        proof {
                            assert(dd == Data {
                                name: prevd[k as int].name,
                                offset: prevd[k as int].offset,
                                segment: prevd[k as int].segment,
                                size: (prevs + off - prevd[k as int].offset) as u64,
                            });
                        }
                        f.data.set(k, dd);
                        f.size = doff - f.offset;
                    }
                }
                proof {
                    assert(cut_end_state(d0, off as int, s0, k + 1).0 == f.data@);
                    assert(cut_end_state(d0, off as int, s0, k + 1).1 == f.size as int);
                }
                k = k + 1;
            }
            self.pdb.functions.set(j, f);
            j = j + 1;
        }
    }

    /// Size every named data entry as a jump table: four bytes for each
    /// label of the same function whose lower-cased name carries the
    /// entry's lower-cased name with every `vec` removed.
    #[verifier::loop_isolation(false)]
    pub fn cut_in_line_data_mid(&mut self)
        requires
            forall|j: int|
                0 <= j < old(self).pdb.functions@.len() ==> (#[trigger] old(self).pdb.functions@[j]).labels@.len() <= 0x3fffffffffffffff,
        ensures
            final(self).pdb.functions@.len() == old(self).pdb.functions@.len(),
            forall|j: int|
                0 <= j < old(self).pdb.functions@.len() ==> {
                    &&& (#[trigger] final(self).pdb.functions@[j]).name == old(self).pdb.functions@[j].name
                    &&& final(self).pdb.functions@[j].offset == old(self).pdb.functions@[j].offset
                    &&& final(self).pdb.functions@[j].segment == old(self).pdb.functions@[j].segment
                    &&& final(self).pdb.functions@[j].size == old(self).pdb.functions@[j].size
                    &&& final(self).pdb.functions@[j].labels@ == old(self).pdb.functions@[j].labels@
                    &&& final(self).pdb.functions@[j].data@.len() == old(self).pdb.functions@[j].data@.len()
                    &&& forall|k: int|
                        0 <= k < old(self).pdb.functions@[j].data@.len() ==> {
                            &&& (#[trigger] final(self).pdb.functions@[j].data@[k]).name == old(self).pdb.functions@[j].data@[k].name
                            &&& final(self).pdb.functions@[j].data@[k].offset == old(self).pdb.functions@[j].data@[k].offset
                            &&& final(self).pdb.functions@[j].data@[k].segment == old(self).pdb.functions@[j].data@[k].segment
                            &&& final(self).pdb.functions@[j].data@[k].size as int == cut_mid_size(
                                old(self).pdb.functions@[j].data@[k],
                                old(self).pdb.functions@[j].labels@,
                            )
                        }
                },
            final(self).pdb.labels == old(self).pdb.labels,
            final(self).pdb.data == old(self).pdb.data,
            final(self).pdb.thunks == old(self).pdb.thunks,
            final(self).pdb.image_base == old(self).pdb.image_base,
            final(self).pdb.architecture == old(self).pdb.architecture,
            final(self).bytes == old(self).bytes,
            final(self).sections == old(self).sections,
            final(self).instructions == old(self).instructions,
            final(self).architecture == old(self).architecture,
            final(self).file_name == old(self).file_name,
    {
        let nf: usize = self.pdb.functions.len();
        let mut j: usize = 0;
        while j < nf
            invariant
                j <= nf,
                self.pdb.functions@.len() == nf,
                forall|t: int|
                    j <= t < nf ==> #[trigger] self.pdb.functions@[t] == old(self).pdb.functions@[t],
                forall|t: int|
                    0 <= t < j ==> {
                        &&& (#[trigger] self.pdb.functions@[t]).name == old(self).pdb.functions@[t].name
                        &&& self.pdb.functions@[t].offset == old(self).pdb.functions@[t].offset
                        &&& self.pdb.functions@[t].segment == old(self).pdb.functions@[t].segment
                        &&& self.pdb.functions@[t].size == old(self).pdb.functions@[t].size
                        &&& self.pdb.functions@[t].labels@ == old(self).pdb.functions@[t].labels@
                        &&& self.pdb.functions@[t].data@.len() == old(self).pdb.functions@[t].data@.len()
                        &&& forall|k: int|
                            0 <= k < old(self).pdb.functions@[t].data@.len() ==> {
                                &&& (#[trigger] self.pdb.functions@[t].data@[k]).name == old(self).pdb.functions@[t].data@[k].name
                                &&& self.pdb.functions@[t].data@[k].offset == old(self).pdb.functions@[t].data@[k].offset
                                &&& self.pdb.functions@[t].data@[k].segment == old(self).pdb.functions@[t].data@[k].segment
                                &&& self.pdb.functions@[t].data@[k].size as int == cut_mid_size(
                                    old(self).pdb.functions@[t].data@[k],
                                    old(self).pdb.functions@[t].labels@,
                                )
                            }
                    },
                self.pdb.labels == old(self).pdb.labels,
                self.pdb.data == old(self).pdb.data,
                self.pdb.thunks == old(self).pdb.thunks,
                self.pdb.image_base == old(self).pdb.image_base,
                self.pdb.architecture == old(self).pdb.architecture,
                self.bytes == old(self).bytes,
                self.sections == old(self).sections,
                self.instructions == old(self).instructions,
                self.architecture == old(self).architecture,
                self.file_name == old(self).file_name,
            decreases nf - j,
        {
            let mut f = self.pdb.functions[j].clone();
            let ghost f0 = old(self).pdb.functions@[j as int];
            let ndt: usize = f.data.len();
            let mut k: usize = 0;
            while k < ndt
                invariant
                    k <= ndt,
                    ndt == f0.data@.len(),
                    f.name == f0.name,
                    f.offset == f0.offset,
                    f.segment == f0.segment,
                    f.size == f0.size,
                    f.labels@ == f0.labels@,
                    f.data@.len() == ndt,
                    forall|t: int|
                        k <= t < ndt ==> #[trigger] f.data@[t] == f0.data@[t],
                    forall|t: int|
                        0 <= t < k ==> {
                            &&& (#[trigger] f.data@[t]).name == f0.data@[t].name
                            &&& f.data@[t].offset == f0.data@[t].offset
                            &&& f.data@[t].segment == f0.data@[t].segment
                            &&& f.data@[t].size as int == cut_mid_size(f0.data@[t], f0.labels@)
                        },
                decreases ndt - k,
            {
                if !f.data[k].name.as_str().is_empty() {
                    let low = strutil::lowercase(f.data[k].name.as_str());
                    let lowc = strutil::chars_of(low.as_str());
                    let base = strutil::remove_vec(&lowc);
                    proof {
                        assert(base@ == jt_base_name(f0.data@[k as int].name@));
                    }
                    let nl: usize = f.labels.len();
                    let mut counter: u64 = 0;
                    let mut t: usize = 0;
                    while t < nl
                        invariant
                            t <= nl,
                            nl == f0.labels@.len(),
                            f.labels@ == f0.labels@,
                            base@ == jt_base_name(f0.data@[k as int].name@),
                            counter as int == label_match_count(
                                f0.labels@,
                                base@,
                                t as int,
                            ),
                            counter <= t,
                        decreases nl - t,
                    {
                        let ll = strutil::lowercase(f.labels[t].name.as_str());
                        let llc = strutil::chars_of(ll.as_str());
                        if strutil::contains_chars(&llc, &base) {
                            counter = counter + 1;
                        }
                        t = t + 1;
                    }
                    let nsize: u64 = counter * 0x4;
                    let mut dd = f.data[k].clone();
                    dd.size = nsize;
                    f.data.set(k, dd);
                }
                k = k + 1;
            }
            self.pdb.functions.set(j, f);
            j = j + 1;
        }
    }

    /// Disassemble every function: collect its non-data bytes, mark its
    /// boundaries, decode the collected bytes, and mark every decoded
    /// instruction at its re-expanded position.  Reports an error if the
    /// decoder cannot be set up.
    #[verifier::loop_isolation(false)]
    pub fn disassemble(&mut self) -> (r: Result<(), &'static str>)
        requires
            forall|j: int|
                0 <= j < old(self).pdb.functions@.len() ==> (#[trigger] old(self).pdb.functions@[j]).size >= 1,
            forall|j: int|
                0 <= j < old(self).pdb.functions@.len() ==> (#[trigger] old(self).pdb.functions@[j]).offset + old(self).pdb.functions@[j].size + sum_data_sizes(old(self).pdb.functions@[j].data@) <= old(self).bytes@.len(),
        ensures
            old(self).pdb.functions@.len() == 0 ==> r is Ok,
            final(self).bytes@.len() == old(self).bytes@.len(),
            passes::grown(old(self).bytes@, final(self).bytes@),
            forall|i: int|
                0 <= i < old(self).bytes@.len() ==> forall|g: FLAG|
                    g == FLAG::DATA || g == FLAG::WRITEABLE || g == FLAG::BLOCK_START
                        ==> ((#[trigger] final(self).bytes@[i]).has(g) <==> old(self).bytes@[i].has(g)),
            r is Ok ==> dis_state(old(self).bytes@, old(self).pdb.functions@, final(self).bytes@),
            final(self).instructions@.len() >= old(self).instructions@.len(),
            forall|k: int|
                0 <= k < old(self).instructions@.len() ==> #[trigger] final(self).instructions@[k] == old(self).instructions@[k],
            forall|k: int|
                old(self).instructions@.len() <= k < final(self).instructions@.len()
                    ==> placed_from(
                    final(self).bytes@,
                    old(self).pdb.functions@,
                    #[trigger] final(self).instructions@[k],
                ) && final(self).instructions@[k].dup_free() && (forall|g: FLAG|
                    final(self).instructions@[k].has(g)
                        ==> crate::disassembler::is_class_flag(g)),
            r is Ok ==> crate::disassembler::decoded_matches(
                final(self).instructions@.subrange(
                    old(self).instructions@.len() as int,
                    final(self).instructions@.len() as int,
                ),
                fn_decodes_concat(
                    old(self).bytes@,
                    old(self).pdb.functions@,
                    crate::disassembler::mode64_of(old(self).pdb.architecture),
                ),
            ),
            final(self).pdb == old(self).pdb,
            final(self).sections == old(self).sections,
            final(self).architecture == old(self).architecture,
            final(self).file_name == old(self).file_name,
    {
        let n: usize = self.bytes.len();
        let ghost bytes0 = self.bytes@;
        let ghost funcs = self.pdb.functions@;
        let ghost ins0 = self.instructions@.len() as int;
        let ghost m = crate::disassembler::mode64_of(self.pdb.architecture);
        proof {
            assert(self.instructions@.subrange(ins0, self.instructions@.len() as int)
                =~= Seq::<Instruction>::empty());
            assert(fn_decodes_concat(bytes0, funcs.take(0), m) =~= Seq::<
                (int, (Seq<char>, Seq<char>, Seq<u8>, Seq<u8>)),
            >::empty()) by {
                assert(funcs.take(0).len() == 0);
            }
        }
        let nf: usize = self.pdb.functions.len();
        let mut j: usize = 0;
        while j < nf
            invariant
                j <= nf,
                nf == funcs.len(),
                self.pdb.functions@ == funcs,
                self.bytes@.len() == n,
                n == bytes0.len(),
                m == crate::disassembler::mode64_of(self.pdb.architecture),
                passes::grown(bytes0, self.bytes@),
                crate::disassembler::decoded_matches(
                    self.instructions@.subrange(ins0, self.instructions@.len() as int),
                    fn_decodes_concat(bytes0, funcs.take(j as int), m),
                ),
                dis_state(bytes0, funcs.take(j as int), self.bytes@),
                self.instructions@.len() >= ins0,
                forall|k: int|
                    0 <= k < ins0 ==> #[trigger] self.instructions@[k] == old(self).instructions@[k],
                forall|k: int|
                    ins0 <= k < self.instructions@.len() ==> placed_from(
                        self.bytes@,
                        funcs,
                        #[trigger] self.instructions@[k],
                    ) && self.instructions@[k].dup_free() && (forall|g: FLAG|
                        self.instructions@[k].has(g)
                            ==> crate::disassembler::is_class_flag(g)),
                self.pdb == old(self).pdb,
                self.sections == old(self).sections,
                self.architecture == old(self).architecture,
                self.file_name == old(self).file_name,
            decreases nf - j,
        {
            let ghost fj = funcs[j as int];
            let ghost b_in = self.bytes@;
            let ghost insb = self.instructions@.len() as int;
            let ghost ipre = self.instructions@;
            let f = self.pdb.functions[j].clone();
            let arch = self.pdb.architecture;
            proof {
                assert(f.offset == fj.offset && f.size == fj.size && f.data@ == fj.data@);
            }
            let res = dis_function(&mut self.bytes, &f, &arch, &mut self.instructions);
            proof {
                passes::lemma_grown_trans(bytes0, b_in, self.bytes@);
                assert(funcs.take(j + 1) =~= funcs.take(j as int).push(fj));
                if res is Ok {
                    assert forall|i: int|
                        0 <= i < n implies (#[trigger] b_in[i]).value == bytes0[i].value
                            && (b_in[i].has(FLAG::DATA) <==> bytes0[i].has(FLAG::DATA)) by {
                        assert(b_in[i].same_cell(bytes0[i]));
                    }
                    lemma_sum_data_nonneg(fj.data@);
                    assert(fj.offset + fj.size <= n);
                    passes::lemma_code_values_congruent(
                        b_in,
                        bytes0,
                        fj.offset as int,
                        passes::clip_len(fj.offset as int, fj.size as int, n as int),
                    );
                    assert(fn_decode(b_in, f, m) == fn_decode(bytes0, fj, m));
                    assert(fn_decodes_concat(bytes0, funcs.take(j + 1), m)
                        == fn_decodes_concat(bytes0, funcs.take(j as int), m) + fn_decode(
                        bytes0,
                        fj,
                        m,
                    )) by {
                        assert(funcs.take(j + 1).drop_last() =~= funcs.take(j as int));
                        assert(funcs.take(j + 1).last() == fj);
                    }
                    assert(self.instructions@.subrange(ins0, self.instructions@.len() as int)
                        =~= self.instructions@.subrange(ins0, insb)
                        + self.instructions@.subrange(insb, self.instructions@.len() as int));
                    assert(self.instructions@.subrange(ins0, insb) =~= ipre.subrange(
                        ins0,
                        insb,
                    ));
                    lemma_decoded_matches_append(
                        self.instructions@.subrange(ins0, insb),
                        fn_decodes_concat(bytes0, funcs.take(j as int), m),
                        self.instructions@.subrange(insb, self.instructions@.len() as int),
                        fn_decode(bytes0, fj, m),
                    );
                }
                assert forall|i: int| 0 <= i < n implies {
                    &&& (range_code_covers(bytes0, funcs.take(j + 1), i)
                        <==> range_code_covers(bytes0, funcs.take(j as int), i) || (
                    fj.offset <= i < fj.offset + fj.size && i < n && !bytes0[i].has(
                        FLAG::DATA,
                    )))
                    &&& (fs_at(funcs.take(j + 1), i) <==> fs_at(funcs.take(j as int), i)
                        || i == fj.offset)
                    &&& (fe_at(funcs.take(j + 1), i) <==> fe_at(funcs.take(j as int), i)
                        || i == fj.offset + fj.size - 1)
                } by {
                    lemma_range_code_covers_push(bytes0, funcs.take(j as int), fj, i);
                    lemma_fs_at_push(funcs.take(j as int), fj, i);
                }
                assert(dis_state(bytes0, funcs.take(j + 1), self.bytes@));
                assert forall|k: int|
                    ins0 <= k < self.instructions@.len() implies placed_from(
                        self.bytes@,
                        funcs,
                        #[trigger] self.instructions@[k],
                    ) by {
                    if k < insb {
                        lemma_placed_grown(b_in, self.bytes@, funcs, self.instructions@[k]);
                    } else {
                        assert(placed_in(self.bytes@, f, self.instructions@[k]));
                        assert(pe_lead(f, self.instructions@[k].offset as int) == pe_lead(
                            fj,
                            self.instructions@[k].offset as int,
                        ));
                        assert(placed_in(self.bytes@, fj, self.instructions@[k]));
                        assert(0 <= j < funcs.len() && funcs[j as int] == fj);
                    }
                }
            }
            match res {
                Ok(()) => {},
                Err(e) => {
                    return Err(e);
                },
            }
            j = j + 1;
        }
        proof {
            assert(funcs.take(nf as int) =~= funcs);
        }
        Ok(())
    }

    /// Flag the `0xCC` filler bytes, then decode each hole of unclassified
    /// bytes and flag the bytes of the alignment instructions found there.
    pub fn detect_alignment_bytes(&mut self) -> (r: Result<(), &'static str>)
        ensures
            final(self).bytes@.len() == old(self).bytes@.len(),
            forall|i: int|
                0 <= i < old(self).bytes@.len() ==> {
                    &&& (#[trigger] final(self).bytes@[i]).same_cell(old(self).bytes@[i])
                    &&& (old(self).bytes@[i].dup_free() ==> final(self).bytes@[i].dup_free())
                    &&& forall|g: FLAG|
                        g != FLAG::INSTRUCTION_ALIGNMENT ==> (final(self).bytes@[i].has(g)
                            <==> old(self).bytes@[i].has(g))
                    &&& (old(self).bytes@[i].has(FLAG::INSTRUCTION_ALIGNMENT)
                        ==> final(self).bytes@[i].has(FLAG::INSTRUCTION_ALIGNMENT))
                    &&& (final(self).bytes@[i].has(FLAG::INSTRUCTION_ALIGNMENT)
                        ==> old(self).bytes@[i].has(FLAG::INSTRUCTION_ALIGNMENT) || (!old(self).bytes@[i].has(FLAG::CODE) && !old(self).bytes@[i].has(FLAG::DATA)))
                    &&& (!old(self).bytes@[i].has(FLAG::CODE) && !old(self).bytes@[i].has(FLAG::DATA) && old(self).bytes@[i].value == 0xCC ==> final(self).bytes@[i].has(FLAG::INSTRUCTION_ALIGNMENT))
                },
            (forall|i: int|
                0 <= i < old(self).bytes@.len() && (#[trigger] old(self).bytes@[i]).unflagged() ==> old(self).bytes@[i].value == 0xCC) ==> r is Ok,
            r is Ok ==> forall|s: int, e: int|
                #[trigger] passes::pad_hole(old(self).bytes@, s, e) ==> passes::hole_aligned(
                    final(self).bytes@,
                    crate::disassembler::mode64_of(old(self).pdb.architecture),
                    old(self).bytes@,
                    s,
                    e,
                ),
            final(self).pdb == old(self).pdb,
            final(self).sections == old(self).sections,
            final(self).instructions == old(self).instructions,
            final(self).architecture == old(self).architecture,
            final(self).file_name == old(self).file_name,
    {
        let arch = self.pdb.architecture;
        passes::detect_alignment_in(&mut self.bytes, &arch)
    }

    /// Whether the function record at index `j` fits a section of
    /// `t_size` bytes: each data region inside it, and the range plus the
    /// sum of the data sizes inside it.
    #[verifier::loop_isolation(false)]
    fn layout_check(&self, j: usize, t_size: u64) -> (r: bool)
        requires
            j < self.pdb.functions@.len(),
            self.pdb.functions@[j as int].offset + self.pdb.functions@[j as int].size
                <= u64::MAX,
    ensures
            r == fn_fits(self.pdb.functions@[j as int], t_size as int),
    {
        let f = &self.pdb.functions[j];
        let ghost m = t_size as int;
        let nd: usize = f.data.len();
        let mut rok = true;
        let mut d: usize = 0;
        while d < nd
            invariant
                d <= nd,
                nd == f.data@.len(),
                rok <==> (forall|t: int|
                    0 <= t < d ==> (#[trigger] f.data@[t]).offset + f.data@[t].size
                        <= m),
            decreases nd - d,
        {
            let dof: u64 = f.data[d].offset;
            let dsz: u64 = f.data[d].size;
            rok = rok && dof <= t_size && dsz <= t_size - dof;
            d = d + 1;
        }
        let mut acc: u64 = 0;
        let mut ovf = false;
        let mut d2: usize = 0;
        proof {
            assert(f.data@.take(0).len() == 0);
        }
        while d2 < nd
            invariant
                d2 <= nd,
                nd == f.data@.len(),
                !ovf ==> acc as int == sum_data_sizes(f.data@.take(d2 as int)),
                ovf ==> sum_data_sizes(f.data@) > u64::MAX,
            decreases nd - d2,
        {
            proof {
                assert(f.data@.take(d2 + 1).drop_last() =~= f.data@.take(d2 as int));
                assert(f.data@.take(d2 + 1).last() == f.data@[d2 as int]);
                lemma_sum_take_le(f.data@, d2 + 1);
            }
            if !ovf {
                if f.data[d2].size > u64::MAX - acc {
                    ovf = true;
                } else {
                    acc = acc + f.data[d2].size;
                }
            }
            d2 = d2 + 1;
        }
        proof {
            assert(f.data@.take(nd as int) =~= f.data@);
            lemma_sum_data_nonneg(f.data@);
        }
        let os: u64 = f.offset + f.size;
        rok && !ovf && os <= t_size && acc <= t_size - os
    }

    /// Run the nine passes in the PE order: select the text section, trim,
    /// rebase, prune, relate, cut trailing and mid-function in-line data,
    /// check that the computed layout fits the section, set byte flags,
    /// disassemble, detect alignment and the section end.  A layout that
    /// leaves the section is reported as an error instead of letting the
    /// flag passes run off the end of the buffer.
    #[verifier::loop_isolation(false)]
    #[verifier::rlimit(100)]
    pub fn process(&mut self) -> (r: Result<(), &'static str>)
        requires
            pe_ready(*old(self)),
        ensures
            find_text(old(self).sections@, 0) < 0 ==> r is Err && *final(self) == *old(self),
            r is Ok ==> find_text(old(self).sections@, 0) >= 0,
            r is Ok ==> pe_layout_fits(
                old(self).pdb,
                old(self).sections@[find_text(old(self).sections@, 0)].raw_data_size as int,
            ),
            find_text(old(self).sections@, 0) >= 0 && !pe_layout_fits(
                old(self).pdb,
                old(self).sections@[find_text(old(self).sections@, 0)].raw_data_size as int,
            ) ==> r is Err,
            find_text(old(self).sections@, 0) >= 0 && old(self).sections@[find_text(
                old(self).sections@,
                0,
            )].raw_data_size == 0 && pe_layout_fits(old(self).pdb, 0) ==> r is Ok,
            r is Ok ==> pe_done(*old(self), *final(self)),
            r is Ok && laid_out(final(self).pdb.functions@) ==> forall|i: int|
                0 <= i < final(self).bytes@.len() ==> !((#[trigger] final(self).bytes@[i]).has(FLAG::CODE) && final(self).bytes@[i].has(FLAG::DATA)),
            r is Ok && laid_out(final(self).pdb.functions@) ==> forall|j: int|
                0 <= j < final(self).pdb.functions@.len() ==> {
                    &&& (#[trigger] final(self).pdb.functions@[j]).offset + final(self).pdb.functions@[j].size <= final(self).bytes@.len()
                    &&& final(self).bytes@[final(self).pdb.functions@[j].offset as int].has(FLAG::FUNCTION_START)
                    &&& final(self).bytes@[final(self).pdb.functions@[j].offset + final(self).pdb.functions@[j].size - 1].has(FLAG::FUNCTION_END)
                    &&& forall|i: int|
                        final(self).pdb.functions@[j].offset <= i < final(self).pdb.functions@[j].offset + final(self).pdb.functions@[j].size ==> {
                            &&& ((#[trigger] final(self).bytes@[i]).has(FLAG::FUNCTION_START) <==> i == final(self).pdb.functions@[j].offset)
                            &&& (final(self).bytes@[i].has(FLAG::FUNCTION_END) <==> i == final(self).pdb.functions@[j].offset + final(self).pdb.functions@[j].size - 1)
                        }
                },
            r is Ok && laid_out(final(self).pdb.functions@) && (forall|j: int|
                0 <= j < final(self).pdb.functions@.len() ==> sum_data_sizes(
                    (#[trigger] final(self).pdb.functions@[j]).data@,
                ) == 0) ==> forall|k: int|
                0 <= k < final(self).instructions@.len() ==> instr_marked(
                    final(self).bytes@,
                    #[trigger] final(self).instructions@[k],
                ),
    {
        let ns: usize = self.sections.len();
        let mut k: usize = 0;
        let mut ti: usize = 0;
        let mut found = false;
        while k < ns && !found
            invariant
                k <= ns,
                ns == self.sections@.len(),
                !found ==> find_text(self.sections@, 0) == find_text(self.sections@, k as int),
                found ==> ti < ns && find_text(self.sections@, 0) == ti,
                *self == *old(self),
            decreases ns - k + (if found { 0int } else { 1int }),
        {
            if strutil::name_is_text(&self.sections[k].name) {
                ti = k;
                found = true;
            } else {
                k = k + 1;
            }
        }
        if !found {
            proof {
                assert(find_text(self.sections@, ns as int) == -1);
            }
            return Err("Binary does not have a text section!");
        }
        let ghost s0 = *old(self);
        let ghost tsec = s0.sections@[find_text(s0.sections@, 0)];
        let t_off: u64 = self.sections[ti].raw_data_offset;
        let t_size: u64 = self.sections[ti].raw_data_size;
        let ghost m = t_size as int;
        let ghost pruned = passes::positive_functions(s0.pdb.functions@);
        let nb: usize = self.bytes.len();
        proof {
            assert(ti as int == find_text(s0.sections@, 0));
            assert(tsec == s0.sections@[ti as int]);
            assert(t_off == tsec.raw_data_offset && t_size == tsec.raw_data_size);
            assert(s0.bytes@.len() == nb);
            assert(t_off + t_size <= nb);
            passes::lemma_positive_sub(s0.pdb.functions@);
            passes::lemma_positive_all(s0.pdb.functions@);
            if t_size == 0 && pe_layout_fits(s0.pdb, 0) {
                assert(pruned.len() == 0) by {
                    if pruned.len() > 0 {
                        let f = pruned[0];
                        assert(layout_fn_fits(s0.pdb, f, 0));
                        lemma_cut_end_size_pos(
                            relate_data(s0.pdb, f),
                            f.offset as int,
                            f.size as int,
                            relate_data(s0.pdb, f).len() as int,
                        );
                        lemma_sum_data_nonneg(pipe_data(s0.pdb, f));
                    }
                }
            }
        }
        self.trim_byte_vector(t_off, t_off + t_size);
        self.rebase_byte_vector(0x1000);
        let ghost b2 = self.bytes@;
        proof {
            assert forall|i: int| 0 <= i < m implies {
                &&& (#[trigger] b2[i]).value == s0.bytes@[t_off + i].value
                &&& b2[i].offset == 0x1000 + i
                &&& b2[i].unflagged()
                &&& b2[i].dup_free()
                &&& !b2[i].has(FLAG::CODE)
                &&& !b2[i].has(FLAG::DATA)
            } by {
                assert(s0.bytes@[t_off + i].unflagged());
            }
        }
        self.preprocess_functions();
        proof {
            assert forall|j: int| 0 <= j < pruned.len() implies (
            #[trigger] self.pdb.functions@[j]).offset + self.pdb.functions@[j].size
                <= u64::MAX && self.pdb.functions@[j].labels@.len()
                + self.pdb.labels@.len() <= 0x3fffffffffffffff by {
                let j0 = choose|j0: int|
                    0 <= j0 < s0.pdb.functions@.len() && #[trigger] pruned[j] == s0.pdb.functions@[j0];
                assert(s0.pdb.functions@[j0].offset + s0.pdb.functions@[j0].size
                    <= u64::MAX);
            }
        }
        self.create_relationships();
        proof {
            assert forall|j: int| 0 <= j < pruned.len() implies {
                &&& (#[trigger] self.pdb.functions@[j]).offset == pruned[j].offset
                &&& self.pdb.functions@[j].size == pruned[j].size
                &&& self.pdb.functions@[j].offset + self.pdb.functions@[j].size <= u64::MAX
                &&& self.pdb.functions@[j].labels@ == relate_labels(s0.pdb, pruned[j])
                &&& self.pdb.functions@[j].data@ == relate_data(s0.pdb, pruned[j])
                &&& self.pdb.functions@[j].name == pruned[j].name
                &&& self.pdb.functions@[j].segment == pruned[j].segment
                &&& self.pdb.functions@[j].labels@.len() <= 0x3fffffffffffffff
            } by {
                lemma_attached_labels_len(
                    s0.pdb.labels@,
                    pruned[j].segment,
                    pruned[j].offset as int,
                    pruned[j].offset + pruned[j].size,
                    s0.pdb.labels@.len() as int,
                );
            }
        }
        self.cut_in_line_data_end();
        proof {
            assert forall|j: int| 0 <= j < pruned.len() implies {
                &&& (#[trigger] self.pdb.functions@[j]).data@ == after_cut_end(s0.pdb, pruned[j]).0
                &&& self.pdb.functions@[j].size as int == pipe_size(s0.pdb, pruned[j])
                &&& self.pdb.functions@[j].labels@ == relate_labels(s0.pdb, pruned[j])
                &&& self.pdb.functions@[j].labels@.len() <= 0x3fffffffffffffff
            } by {
            }
        }
        self.cut_in_line_data_mid();
        proof {
            assert forall|j: int| 0 <= j < pruned.len() implies fn_done(
                s0.pdb,
                pruned[j],
                #[trigger] self.pdb.functions@[j],
            ) by {
                let pd = pipe_data(s0.pdb, pruned[j]);
                let ad = after_cut_end(s0.pdb, pruned[j]).0;
                assert(self.pdb.functions@[j].data@.len() == ad.len());
                assert forall|t: int| 0 <= t < ad.len() implies #[trigger] self.pdb.functions@[j].data@[t] == pd[t] by {
                    assert(pd[t] == Data {
                        name: ad[t].name,
                        offset: ad[t].offset,
                        segment: ad[t].segment,
                        size: cut_mid_size(ad[t], relate_labels(s0.pdb, pruned[j])) as u64,
                    });
                }
                assert(self.pdb.functions@[j].data@ =~= pd);
            }
            assert forall|j: int| 0 <= j < pruned.len() implies {
                &&& (#[trigger] self.pdb.functions@[j]).size >= 1
                &&& self.pdb.functions@[j].offset + self.pdb.functions@[j].size <= u64::MAX
            } by {
                lemma_cut_end_size_pos(
                    relate_data(s0.pdb, pruned[j]),
                    pruned[j].offset as int,
                    pruned[j].size as int,
                    relate_data(s0.pdb, pruned[j]).len() as int,
                );
                lemma_cut_end_props(
                    relate_data(s0.pdb, pruned[j]),
                    pruned[j].offset as int,
                    pruned[j].size as int,
                    relate_data(s0.pdb, pruned[j]).len() as int,
                );
            }
        }
        let nf: usize = self.pdb.functions.len();
        let mut ok = true;
        let mut jj: usize = 0;
        while jj < nf
            invariant
                jj <= nf,
                nf == pruned.len(),
                self.pdb.functions@.len() == nf,
                forall|j: int|
                    0 <= j < pruned.len() ==> fn_done(
                        s0.pdb,
                        pruned[j],
                        #[trigger] self.pdb.functions@[j],
                    ),
                ok <==> (forall|j: int|
                    0 <= j < jj ==> layout_fn_fits(s0.pdb, #[trigger] pruned[j], m)),
            decreases nf - jj,
        {
            let okj = self.layout_check(jj, t_size);
            proof {
                assert(okj == layout_fn_fits(s0.pdb, pruned[jj as int], m));
            }
            ok = ok && okj;
            jj = jj + 1;
        }
        if !ok {
            proof {
                assert(!pe_layout_fits(s0.pdb, m));
            }
            return Err("In-line data exceeds the text section!");
        }
        proof {
            assert(pe_layout_fits(s0.pdb, m));
            assert forall|j: int| 0 <= j < pruned.len() implies {
                &&& (#[trigger] self.pdb.functions@[j]).offset + self.pdb.functions@[j].size
                    + sum_data_sizes(self.pdb.functions@[j].data@) <= b2.len()
                &&& forall|d: int|
                    0 <= d < self.pdb.functions@[j].data@.len() ==> (
                    #[trigger] self.pdb.functions@[j].data@[d]).offset
                        + self.pdb.functions@[j].data@[d].size <= b2.len()
            } by {
                assert(layout_fn_fits(s0.pdb, pruned[j], m));
            }
        }
        self.set_byte_flags();
        let ghost b3 = self.bytes@;
        let r_dis = self.disassemble();
        match r_dis {
            Ok(()) => {},
            Err(e) => {
                return Err(e);
            },
        }
        let ghost b4 = self.bytes@;
        let r_al = self.detect_alignment_bytes();
        match r_al {
            Ok(()) => {},
            Err(e) => {
                return Err(e);
            },
        }
        let ghost b5 = self.bytes@;
        self.detect_end_of_section();
        proof {
            passes::lemma_keep_len_bounds(b5);
            assert forall|i: int| 0 <= i < self.bytes@.len() implies {
                &&& (#[trigger] self.bytes@[i]).value == s0.bytes@[t_off + i].value
                &&& self.bytes@[i].offset == 0x1000 + i
                &&& self.bytes@[i].dup_free()
            } by {
                assert(self.bytes@[i] == b5[i]);
                assert(b5[i].same_cell(b4[i]));
                assert(b4[i].same_cell(b3[i]));
                assert(b3[i].same_cell(b2[i]));
            }
            let fc = self.pdb.functions@;
            let b3s = b3;
            assert forall|i: int| 0 <= i < b2.len() implies {
                &&& ((#[trigger] b3s[i]).has(FLAG::DATA) <==> passes::data_covers(fc, i))
                &&& (b3s[i].has(FLAG::CODE) <==> passes::code_covers(b2, fc, i))
                &&& forall|g: FLAG|
                    g != FLAG::CODE && g != FLAG::DATA ==> (b3s[i].has(g) <==> b2[i].has(
                        g,
                    ))
            } by {
            }
            assert(tail_states(b2, fc, b3, b4, b5, self.bytes@));
            if laid_out(fc) {
                lemma_pe_code_data(b2, fc, b3, b4, b5, self.bytes@);
                assert forall|j: int| 0 <= j < fc.len() implies {
                    &&& (#[trigger] fc[j]).offset + fc[j].size <= self.bytes@.len()
                    &&& self.bytes@[fc[j].offset as int].has(FLAG::FUNCTION_START)
                    &&& self.bytes@[fc[j].offset + fc[j].size - 1].has(FLAG::FUNCTION_END)
                    &&& forall|i: int|
                        fc[j].offset <= i < fc[j].offset + fc[j].size ==> {
                            &&& ((#[trigger] self.bytes@[i]).has(FLAG::FUNCTION_START)
                                <==> i == fc[j].offset)
                            &&& (self.bytes@[i].has(FLAG::FUNCTION_END) <==> i == fc[j].offset + fc[j].size - 1)
                        }
                } by {
                    lemma_pe_boundaries(b2, fc, b3, b4, b5, self.bytes@, j);
                }
                if forall|j: int|
                    0 <= j < fc.len() ==> sum_data_sizes((#[trigger] fc[j]).data@) == 0 {
                    assert forall|k: int|
                        0 <= k < self.instructions@.len() implies instr_marked(
                            self.bytes@,
                            #[trigger] self.instructions@[k],
                        ) by {
                        lemma_pe_marks(
                            b2,
                            fc,
                            b3,
                            b4,
                            b5,
                            self.bytes@,
                            self.instructions@[k],
                        );
                    }
                }
            }
        }
        Ok(())
    }
}

} // verus!
