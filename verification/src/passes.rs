//! The primitive buffer passes shared by the PE and the ELF pipelines:
//! trimming, rebasing, function pruning, hole detection, flag assignment and
//! tail truncation.

use vstd::prelude::*;

use crate::disassembler::disassemble;
use crate::disassembler::instrs_wf;
use crate::disassembler::DISASSEMBLER;
use crate::groundtruth::ARCHITECTURE;
use crate::groundtruth::Byte;
use crate::groundtruth::FLAG;
use crate::groundtruth::Function;
use crate::groundtruth::Hole;
use crate::groundtruth::Instruction;

verus! {

broadcast use vstd::prelude::Seq::lemma_take_succ_push, vstd::prelude::Seq::lemma_filter_push;

/// Keep only the bytes whose index falls in `[start, end)`.
#[verifier::loop_isolation(false)]
pub fn trim_bytes(bytes: &mut Vec<Byte>, start: u64, end: u64)
    requires
        start <= end,
        end <= old(bytes)@.len(),
    ensures
        final(bytes)@.len() == end - start,
        forall|i: int|
            0 <= i < final(bytes)@.len() ==> (#[trigger] final(bytes)@[i]).like(
                old(bytes)@[start + i],
            ),
{
    let n: usize = bytes.len();
    let s: usize = start as usize;
    let count: usize = (end - start) as usize;
    let mut out: Vec<Byte> = Vec::new();
    let mut j: usize = 0;
    while j < count
        invariant
            start <= end <= old(bytes)@.len(),
            n == old(bytes)@.len(),
            s == start,
            count == end - start,
            j <= count,
            bytes@ == old(bytes)@,
            out@.len() == j,
            forall|k: int|
                0 <= k < out@.len() ==> (#[trigger] out@[k]).like(
                    old(bytes)@[start + k],
                ),
        decreases count - j,
    {
        out.push(bytes[s + j].clone());
        j = j + 1;
    }
    *bytes = out;
}

/// Set every byte's offset to `base` plus its index.
#[verifier::loop_isolation(false)]
pub fn rebase_bytes(bytes: &mut Vec<Byte>, base: u64)
    requires
        base + old(bytes)@.len() <= u64::MAX + 1,
    ensures
        final(bytes)@.len() == old(bytes)@.len(),
        forall|i: int|
            0 <= i < final(bytes)@.len() ==> {
                &&& (#[trigger] final(bytes)@[i]).offset == base + i
                &&& final(bytes)@[i].value == old(bytes)@[i].value
                &&& final(bytes)@[i].flags@ == old(bytes)@[i].flags@
            },
{
    let mut i: usize = 0;
    while i < bytes.len()
        invariant
            base + old(bytes)@.len() <= u64::MAX + 1,
            i <= bytes@.len(),
            bytes@.len() == old(bytes)@.len(),
            forall|j: int|
                i <= j < bytes@.len() ==> #[trigger] bytes@[j].like(old(bytes)@[j]),
            forall|j: int|
                0 <= j < i ==> {
                    &&& (#[trigger] bytes@[j]).offset == base + j
                    &&& bytes@[j].value == old(bytes)@[j].value
                    &&& bytes@[j].flags@ == old(bytes)@[j].flags@
                },
        decreases bytes@.len() - i,
    {
        let ghost prev = bytes@;
        let mut b = bytes[i].clone();
        b.offset = base + i as u64;
        bytes.set(i, b);
        proof {
            assert(bytes@ == prev.update(i as int, b));
            assert(forall|j: int|
                0 <= j < prev.len() && j != i ==> #[trigger] bytes@[j] == prev[j]);
            assert(bytes@[i as int] == b);
            assert(prev[i as int].like(old(bytes)@[i as int]));
        }
        i = i + 1;
    }
}

/// The subsequence of functions whose size is positive, in order.
pub open spec fn positive_functions(s: Seq<Function>) -> Seq<Function>
    decreases s.len(),
{
    if s.len() == 0 {
        s
    } else if s.last().size > 0 {
        positive_functions(s.drop_last()).push(s.last())
    } else {
        positive_functions(s.drop_last())
    }
}

/// Drop the functions whose size is zero, keeping the order of the rest.
pub fn retain_positive(functions: &mut Vec<Function>)
    ensures
        final(functions)@ == positive_functions(old(functions)@),
{
    let ghost orig = old(functions)@;
    let ghost n = orig.len() as int;
    let mut rev: Vec<Function> = Vec::new();
    proof {
        assert(functions@ =~= orig.take(functions@.len() as int));
    }
    while functions.len() > 0
        invariant
            n == orig.len(),
            functions@.len() + rev@.len() == n,
            functions@ == orig.take(functions@.len() as int),
            forall|k: int| 0 <= k < rev@.len() ==> #[trigger] rev@[k] == orig[n - 1 - k],
        decreases functions@.len(),
    {
        let ghost m = functions@.len() as int;
        if let Some(f) = functions.pop() {
            proof {
                assert(orig.take(m).last() == orig[m - 1]);
                assert(orig.take(m).drop_last() =~= orig.take(m - 1));
            }
            rev.push(f);
        }
    }
    while rev.len() > 0
        invariant
            n == orig.len(),
            rev@.len() <= n,
            forall|k: int| 0 <= k < rev@.len() ==> #[trigger] rev@[k] == orig[n - 1 - k],
            functions@ == positive_functions(orig.take(n - rev@.len())),
        decreases rev@.len(),
    {
        let ghost j = n - rev@.len();
        if let Some(f) = rev.pop() {
            proof {
                assert(f == orig[j]);
                assert(orig.take(j + 1).last() == orig[j]);
                assert(orig.take(j + 1).drop_last() =~= orig.take(j));
            }
            if f.size > 0 {
                functions.push(f);
            }
        }
    }
    proof {
        assert(orig.take(n) =~= orig);
    }
}

/// A byte that the end-of-section pass may drop: value zero and neither code
/// nor data.
pub open spec fn is_zero_pad(b: Byte) -> bool {
    !b.has(FLAG::CODE) && !b.has(FLAG::DATA) && b.value == 0
}

/// The length the buffer keeps after dropping its zero, unclassified tail.
pub open spec fn keep_len(s: Seq<Byte>) -> int
    decreases s.len(),
{
    if s.len() == 0 {
        0
    } else if is_zero_pad(s.last()) {
        keep_len(s.drop_last())
    } else {
        s.len() as int
    }
}

fn pad_at(bytes: &Vec<Byte>, i: usize) -> (r: bool)
    requires
        i < bytes@.len(),
    ensures
        r == is_zero_pad(bytes@[i as int]),
{
    !bytes[i].is_code() && !bytes[i].is_data() && bytes[i].value == 0
}

/// Truncate the buffer at the start of its trailing run of zero-valued
/// bytes that carry neither code nor data.
#[verifier::loop_isolation(false)]
pub fn truncate_zero_tail(bytes: &mut Vec<Byte>)
    ensures
        final(bytes)@ == old(bytes)@.subrange(0, keep_len(old(bytes)@)),
        final(bytes)@.len() == keep_len(old(bytes)@),
{
    let mut n: usize = bytes.len();
    proof {
        assert(old(bytes)@.take(n as int) =~= old(bytes)@);
    }
    while n > 0 && pad_at(bytes, n - 1)
        invariant
            n <= bytes@.len(),
            bytes@ == old(bytes)@,
            keep_len(old(bytes)@) == keep_len(old(bytes)@.take(n as int)),
        decreases n,
    {
        proof {
            let t = old(bytes)@.take(n as int);
            assert(t.last() == old(bytes)@[n - 1]);
            assert(t.drop_last() =~= old(bytes)@.take(n - 1));
        }
        n = n - 1;
    }
    proof {
        let t = old(bytes)@.take(n as int);
        if n == 0 {
            assert(keep_len(t) == 0);
        } else {
            assert(t.last() == old(bytes)@[n - 1]);
            assert(!is_zero_pad(t.last()));
            assert(keep_len(t) == n);
        }
    }
    bytes.truncate(n);
    proof {
        assert(bytes@ =~= old(bytes)@.subrange(0, keep_len(old(bytes)@)));
    }
}

/// `h` is a maximal run of unflagged bytes of `bytes`, both ends inclusive.
pub open spec fn hole_ok(bytes: Seq<Byte>, h: Hole) -> bool {
    &&& 0 <= h.start <= h.end < bytes.len()
    &&& h.size == h.end - h.start + 1
    &&& forall|i: int| h.start <= i <= h.end ==> (#[trigger] bytes[i]).unflagged()
    &&& (h.start == 0 || !bytes[h.start - 1].unflagged())
    &&& (h.end + 1 == bytes.len() || !bytes[h.end + 1].unflagged())
}

/// Scan the buffer for its maximal runs of bytes whose flag set is empty.
#[verifier::loop_isolation(false)]
pub fn detect_holes_in(bytes: &Vec<Byte>) -> (holes: Vec<Hole>)
    ensures
        forall|k: int| 0 <= k < holes@.len() ==> hole_ok(bytes@, #[trigger] holes@[k]),
        forall|i: int|
            0 <= i < bytes@.len() && bytes@[i].unflagged() ==> exists|k: int|
                0 <= k < holes@.len() && (#[trigger] holes@[k]).start <= i <= holes@[
                    k
                ].end,
        forall|k1: int, k2: int|
            0 <= k1 < k2 < holes@.len() ==> (#[trigger] holes@[k1]).end < (
            #[trigger] holes@[k2]).start,
{
    let mut holes: Vec<Hole> = Vec::new();
    let mut run: usize = 0;
    let mut off: usize = 0;
    while off < bytes.len()
        invariant
            run <= off <= bytes@.len(),
            forall|i: int| off - run <= i < off ==> (#[trigger] bytes@[i]).unflagged(),
            run > 0 ==> (off - run == 0 || !bytes@[off - run - 1].unflagged()),
            run == 0 ==> (off == 0 || !bytes@[off - 1].unflagged()),
            forall|k: int|
                0 <= k < holes@.len() ==> hole_ok(bytes@, #[trigger] holes@[k])
                    && holes@[k].end < off - run,
            forall|i: int|
                0 <= i < off - run && bytes@[i].unflagged() ==> exists|k: int|
                    0 <= k < holes@.len() && (#[trigger] holes@[k]).start <= i
                        <= holes@[k].end,
            forall|k1: int, k2: int|
                0 <= k1 < k2 < holes@.len() ==> (#[trigger] holes@[k1]).end < (
                #[trigger] holes@[k2]).start,
        decreases bytes@.len() - off,
    {
        if bytes[off].flags.len() == 0 {
            run = run + 1;
        } else {
            if run > 0 {
                let h = Hole {
                    start: (off - run) as u64,
                    end: (off - 1) as u64,
                    size: run as u64,
                };
                proof {
                    assert(hole_ok(bytes@, h));
                }
                let ghost oldholes = holes@;
                holes.push(h);
                proof {
                    assert(forall|k: int|
                        0 <= k < oldholes.len() ==> #[trigger] holes@[k] == oldholes[k]);
                    assert(holes@[holes@.len() - 1] == h);
                    assert forall|i: int|
                        0 <= i < off + 1 && bytes@[i].unflagged() implies exists|k: int|
                            0 <= k < holes@.len() && (#[trigger] holes@[k]).start <= i
                                <= holes@[k].end by {
                        if i < off - run {
                            let k0 = choose|k: int|
                                0 <= k < oldholes.len() && (#[trigger] oldholes[k]).start
                                    <= i <= oldholes[k].end;
                            assert(holes@[k0].start <= i <= holes@[k0].end);
                        } else if i < off {
                            let ghost kl = holes@.len() - 1;
                            assert(holes@[kl].start <= i <= holes@[kl].end);
                        }
                    }
                }
            }
            run = 0;
        }
        off = off + 1;
    }
    if run > 0 {
        let h = Hole {
            start: (bytes.len() - run) as u64,
            end: (bytes.len() - 1) as u64,
            size: run as u64,
        };
        proof {
            assert(hole_ok(bytes@, h));
        }
        let ghost oldholes = holes@;
        holes.push(h);
        proof {
            assert(forall|k: int|
                0 <= k < oldholes.len() ==> #[trigger] holes@[k] == oldholes[k]);
            assert(holes@[holes@.len() - 1] == h);
            assert forall|i: int|
                0 <= i < bytes@.len() && bytes@[i].unflagged() implies exists|k: int|
                    0 <= k < holes@.len() && (#[trigger] holes@[k]).start <= i
                        <= holes@[k].end by {
                if i < off - run {
                    let k0 = choose|k: int|
                        0 <= k < oldholes.len() && (#[trigger] oldholes[k]).start <= i
                            <= oldholes[k].end;
                    assert(holes@[k0].start <= i <= holes@[k0].end);
                } else {
                    let ghost kl = holes@.len() - 1;
                    assert(holes@[kl].start <= i <= holes@[kl].end);
                }
            }
        }
    }
    holes
}


/// Byte `i` lies in one of the child data regions of `f`.
pub open spec fn in_data_of(f: Function, i: int) -> bool {
    exists|d: int|
        0 <= d < f.data@.len() && (#[trigger] f.data@[d]).offset <= i < f.data@[
            d
        ].offset + f.data@[d].size
}

/// Byte `i` lies in a child data region of one of the functions.
pub open spec fn data_covers(funcs: Seq<Function>, i: int) -> bool {
    exists|j: int| 0 <= j < funcs.len() && in_data_of(#[trigger] funcs[j], i)
}

/// Byte `i` lies in the code range of `f`, clipped to a buffer of `n` bytes.
pub open spec fn in_code_range(f: Function, i: int, n: int) -> bool {
    f.offset <= i < f.offset + f.size && i < n
}

/// Byte `i` receives the code flag: it lies in the range of some function
/// and was not data when that function's code loop ran, data of earlier
/// functions and of the function itself included.
pub open spec fn code_covers(bytes0: Seq<Byte>, funcs: Seq<Function>, i: int) -> bool {
    exists|j: int|
        0 <= j < funcs.len() && in_code_range(#[trigger] funcs[j], i, bytes0.len() as int)
            && !bytes0[i].has(FLAG::DATA) && !data_covers(funcs.take(j + 1), i)
}

proof fn lemma_data_covers_push(funcs: Seq<Function>, f: Function, i: int)
    ensures
        data_covers(funcs.push(f), i) <==> data_covers(funcs, i) || in_data_of(f, i),
{
    let s2 = funcs.push(f);
    if data_covers(s2, i) {
        let j = choose|j: int| 0 <= j < s2.len() && in_data_of(#[trigger] s2[j], i);
        if j < funcs.len() {
            assert(s2[j] == funcs[j]);
            assert(data_covers(funcs, i));
        } else {
            assert(s2[j] == f);
        }
    }
    if data_covers(funcs, i) {
        let j = choose|j: int| 0 <= j < funcs.len() && in_data_of(#[trigger] funcs[j], i);
        assert(s2[j] == funcs[j]);
        assert(in_data_of(s2[j], i));
    }
    if in_data_of(f, i) {
        assert(s2[s2.len() - 1] == f);
        assert(in_data_of(s2[s2.len() - 1], i));
    }
}

proof fn lemma_code_covers_push(bytes0: Seq<Byte>, funcs: Seq<Function>, f: Function, i: int)
    ensures
        code_covers(bytes0, funcs.push(f), i) <==> code_covers(bytes0, funcs, i) || (
        in_code_range(f, i, bytes0.len() as int) && !bytes0[i].has(FLAG::DATA)
            && !data_covers(funcs.push(f), i)),
{
    let s2 = funcs.push(f);
    assert(s2.take(s2.len() as int) =~= s2);
    assert forall|j: int| 0 <= j < funcs.len() implies #[trigger] s2.take(j + 1)
        == funcs.take(j + 1) by {
        assert(s2.take(j + 1) =~= funcs.take(j + 1));
    }
    if code_covers(bytes0, s2, i) {
        let j = choose|j: int|
            0 <= j < s2.len() && in_code_range(#[trigger] s2[j], i, bytes0.len() as int)
                && !bytes0[i].has(FLAG::DATA) && !data_covers(s2.take(j + 1), i);
        if j < funcs.len() {
            assert(s2[j] == funcs[j]);
            assert(code_covers(bytes0, funcs, i));
        } else {
            assert(s2[j] == f);
        }
    }
    if code_covers(bytes0, funcs, i) {
        let j = choose|j: int|
            0 <= j < funcs.len() && in_code_range(#[trigger] funcs[j], i, bytes0.len() as int)
                && !bytes0[i].has(FLAG::DATA) && !data_covers(funcs.take(j + 1), i);
        assert(s2[j] == funcs[j]);
        assert(in_code_range(s2[j], i, bytes0.len() as int));
    }
    if in_code_range(f, i, bytes0.len() as int) && !bytes0[i].has(FLAG::DATA)
        && !data_covers(s2, i) {
        let j = s2.len() - 1;
        assert(s2[j] == f);
        assert(in_code_range(s2[j], i, bytes0.len() as int));
        assert(s2.take(j + 1) == s2);
    }
}

/// Add one flag to the byte at index `i`.
pub fn mark_byte(bytes: &mut Vec<Byte>, i: usize, f: FLAG)
    requires
        i < old(bytes)@.len(),
    ensures
        final(bytes)@.len() == old(bytes)@.len(),
        forall|j: int|
            0 <= j < old(bytes)@.len() && j != i ==> #[trigger] final(bytes)@[j]
                == old(bytes)@[j],
        final(bytes)@[i as int].same_cell(old(bytes)@[i as int]),
        old(bytes)@[i as int].dup_free() ==> final(bytes)@[i as int].dup_free(),
        forall|g: FLAG| #![trigger final(bytes)@[i as int].flags@.contains(g)]
            final(bytes)@[i as int].has(g) <==> old(bytes)@[i as int].has(g) || g == f,
{
    let mut b = bytes[i].clone();
    let mut v: Vec<FLAG> = Vec::new();
    v.push(f);
    proof {
        crate::groundtruth::lemma_seq1_contains(v@, f);
    }
    let ghost b0 = b;
    b.set_flags(v);
    proof {
        assert forall|g: FLAG| b.has(g) <==> b0.has(g) || g == f by {
            assert(v@.contains(g) <==> g == f);
        }
    }
    bytes.set(i, b);
}

/// Add the code, readable and executable flags to the byte at index `i`.
pub fn mark_byte_code(bytes: &mut Vec<Byte>, i: usize)
    requires
        i < old(bytes)@.len(),
    ensures
        final(bytes)@.len() == old(bytes)@.len(),
        forall|j: int|
            0 <= j < old(bytes)@.len() && j != i ==> #[trigger] final(bytes)@[j]
                == old(bytes)@[j],
        final(bytes)@[i as int].same_cell(old(bytes)@[i as int]),
        old(bytes)@[i as int].dup_free() ==> final(bytes)@[i as int].dup_free(),
        forall|g: FLAG| #![trigger final(bytes)@[i as int].flags@.contains(g)]
            final(bytes)@[i as int].has(g) <==> old(bytes)@[i as int].has(g) || g
                == FLAG::CODE || g == FLAG::READABLE || g == FLAG::EXECUTABLE,
{
    let mut b = bytes[i].clone();
    let mut v: Vec<FLAG> = Vec::new();
    v.push(FLAG::CODE);
    v.push(FLAG::READABLE);
    v.push(FLAG::EXECUTABLE);
    proof {
        crate::groundtruth::lemma_seq3_contains(
            v@,
            FLAG::CODE,
            FLAG::READABLE,
            FLAG::EXECUTABLE,
        );
    }
    let ghost b0 = b;
    b.set_flags(v);
    proof {
        assert forall|g: FLAG|
            b.has(g) <==> b0.has(g) || g == FLAG::CODE || g == FLAG::READABLE || g
                == FLAG::EXECUTABLE by {
            assert(v@.contains(g) <==> g == FLAG::CODE || g == FLAG::READABLE || g
                == FLAG::EXECUTABLE);
        }
    }
    bytes.set(i, b);
}


/// Byte `i` lies in one of the first `d` child data regions of `f`.
pub open spec fn in_data_prefix(f: Function, d: int, i: int) -> bool {
    exists|dd: int|
        0 <= dd < d && (#[trigger] f.data@[dd]).offset <= i < f.data@[dd].offset
            + f.data@[dd].size
}

/// The byte at `i` counts as data while function `j` is processed: initial
/// data, data of the functions before `j`, or data of `j` itself.
pub open spec fn data_at_step(bytes0: Seq<Byte>, funcs: Seq<Function>, j: int, i: int) -> bool {
    bytes0[i].has(FLAG::DATA) || data_covers(funcs.take(j), i) || in_data_of(funcs[j], i)
}

/// Mark the child data regions of every function with the data flag, then
/// every function range with the code flag, skipping bytes that are data by
/// the time the function's code loop runs.  Function ranges are clipped at
/// the end of the buffer; child data regions must lie inside it.
#[verifier::loop_isolation(false)]
pub fn set_flags_from_functions(bytes: &mut Vec<Byte>, functions: &Vec<Function>)
    requires
        forall|j: int, d: int|
            0 <= j < functions@.len() && 0 <= d < (#[trigger] functions@[j]).data@.len()
                ==> (#[trigger] functions@[j].data@[d]).offset + functions@[j].data@[
                d
            ].size <= old(bytes)@.len(),
        forall|j: int|
            0 <= j < functions@.len() ==> (#[trigger] functions@[j]).offset
                + functions@[j].size <= u64::MAX,
    ensures
        final(bytes)@.len() == old(bytes)@.len(),
        forall|i: int|
            0 <= i < old(bytes)@.len() ==> {
                &&& (#[trigger] final(bytes)@[i]).same_cell(old(bytes)@[i])
                &&& (old(bytes)@[i].dup_free() ==> final(bytes)@[i].dup_free())
                &&& (final(bytes)@[i].has(FLAG::DATA) <==> old(bytes)@[i].has(FLAG::DATA)
                    || data_covers(functions@, i))
                &&& (final(bytes)@[i].has(FLAG::CODE) <==> old(bytes)@[i].has(FLAG::CODE)
                    || code_covers(old(bytes)@, functions@, i))
                &&& forall|g: FLAG|
                    g != FLAG::CODE && g != FLAG::DATA ==> (final(bytes)@[i].has(g)
                        <==> old(bytes)@[i].has(g))
            },
{
    let n: usize = bytes.len();
    let ghost bytes0 = bytes@;
    let mut j: usize = 0;
    while j < functions.len()
        invariant
            j <= functions@.len(),
            bytes@.len() == n,
            forall|i: int|
                0 <= i < n ==> {
                    &&& (#[trigger] bytes@[i]).same_cell(bytes0[i])
                    &&& (bytes0[i].dup_free() ==> bytes@[i].dup_free())
                    &&& (bytes@[i].has(FLAG::DATA) <==> bytes0[i].has(FLAG::DATA)
                        || data_covers(functions@.take(j as int), i))
                    &&& (bytes@[i].has(FLAG::CODE) <==> bytes0[i].has(FLAG::CODE)
                        || code_covers(bytes0, functions@.take(j as int), i))
                    &&& forall|g: FLAG|
                        g != FLAG::CODE && g != FLAG::DATA ==> (bytes@[i].has(g)
                            <==> bytes0[i].has(g))
                },
        decreases functions@.len() - j,
    {
        let ghost fj = functions@[j as int];
        let ghost prevdata = |i: int|
            bytes0[i].has(FLAG::DATA) || data_covers(functions@.take(j as int), i);
        let nd: usize = functions[j].data.len();
        let mut d: usize = 0;
        while d < nd
            invariant
                d <= nd,
                nd == fj.data@.len(),
                fj == functions@[j as int],
                bytes@.len() == n,
                forall|i: int|
                    0 <= i < n ==> {
                        &&& (#[trigger] bytes@[i]).same_cell(bytes0[i])
                        &&& (bytes0[i].dup_free() ==> bytes@[i].dup_free())
                        &&& (bytes@[i].has(FLAG::DATA) <==> bytes0[i].has(FLAG::DATA)
                            || data_covers(functions@.take(j as int), i)
                            || in_data_prefix(fj, d as int, i))
                        &&& (bytes@[i].has(FLAG::CODE) <==> bytes0[i].has(FLAG::CODE)
                            || code_covers(bytes0, functions@.take(j as int), i))
                        &&& forall|g: FLAG|
                            g != FLAG::CODE && g != FLAG::DATA ==> (bytes@[i].has(g)
                                <==> bytes0[i].has(g))
                    },
            decreases nd - d,
        {
            let off: u64 = functions[j].data[d].offset;
            let sz: u64 = functions[j].data[d].size;
            proof {
                assert(fj.data@[d as int].offset + fj.data@[d as int].size <= n);
            }
            let mut k: u64 = 0;
            while k < sz
                invariant
                    k <= sz,
                    off == fj.data@[d as int].offset,
                    sz == fj.data@[d as int].size,
                    off + sz <= n,
                    bytes@.len() == n,
                    forall|i: int|
                        0 <= i < n ==> {
                            &&& (#[trigger] bytes@[i]).same_cell(bytes0[i])
                            &&& (bytes0[i].dup_free() ==> bytes@[i].dup_free())
                            &&& (bytes@[i].has(FLAG::DATA) <==> bytes0[i].has(FLAG::DATA)
                                || data_covers(functions@.take(j as int), i)
                                || in_data_prefix(fj, d as int, i) || (off <= i < off
                                + k))
                            &&& (bytes@[i].has(FLAG::CODE) <==> bytes0[i].has(FLAG::CODE)
                                || code_covers(bytes0, functions@.take(j as int), i))
                            &&& forall|g: FLAG|
                                g != FLAG::CODE && g != FLAG::DATA ==> (bytes@[i].has(g)
                                    <==> bytes0[i].has(g))
                        },
                decreases sz - k,
            {
                mark_byte(bytes, (off + k) as usize, FLAG::DATA);
                k = k + 1;
            }
            proof {
                assert forall|i: int|
                    in_data_prefix(fj, d as int, i) || (off <= i < off + sz)
                        implies in_data_prefix(fj, d + 1, i) by {
                    if off <= i < off + sz {
                        assert(fj.data@[d as int].offset <= i < fj.data@[d as int].offset
                            + fj.data@[d as int].size);
                    }
                }
                assert forall|i: int|
                    in_data_prefix(fj, d + 1, i) implies in_data_prefix(fj, d as int, i)
                        || (off <= i < off + sz) by {
                    let dd = choose|dd: int|
                        0 <= dd < d + 1 && (#[trigger] fj.data@[dd]).offset <= i
                            < fj.data@[dd].offset + fj.data@[dd].size;
                    if dd < d {
                        assert(in_data_prefix(fj, d as int, i));
                    }
                }
            }
            d = d + 1;
        }
        proof {
            assert forall|i: int| in_data_prefix(fj, nd as int, i) <==> in_data_of(fj, i) by {
            }
        }
        let off: u64 = functions[j].offset;
        let sz: u64 = functions[j].size;
        let mut k: u64 = 0;
        let mut clipped = false;
        while k < sz && !clipped
            invariant
                k <= sz,
                off == fj.offset,
                sz == fj.size,
                fj == functions@[j as int],
                clipped ==> off + k >= n,
                bytes@.len() == n,
                forall|i: int|
                    0 <= i < n ==> {
                        &&& (#[trigger] bytes@[i]).same_cell(bytes0[i])
                        &&& (bytes0[i].dup_free() ==> bytes@[i].dup_free())
                        &&& (bytes@[i].has(FLAG::DATA) <==> data_at_step(
                            bytes0,
                            functions@,
                            j as int,
                            i,
                        ))
                        &&& (bytes@[i].has(FLAG::CODE) <==> bytes0[i].has(FLAG::CODE)
                            || code_covers(bytes0, functions@.take(j as int), i) || (off
                            <= i < off + k && i < n && !data_at_step(
                            bytes0,
                            functions@,
                            j as int,
                            i,
                        )))
                        &&& forall|g: FLAG|
                            g != FLAG::CODE && g != FLAG::DATA ==> (bytes@[i].has(g)
                                <==> bytes0[i].has(g))
                    },
            decreases sz - k + (if clipped { 0int } else { 1int }),
        {
            let p: u64 = off + k;
            if p >= n as u64 {
                clipped = true;
            } else {
                if !bytes[p as usize].is_data() {
                    mark_byte(bytes, p as usize, FLAG::CODE);
                }
                k = k + 1;
            }
        }
        proof {
            assert(functions@.take(j + 1) =~= functions@.take(j as int).push(fj));
            assert forall|i: int| 0 <= i < n implies {
                &&& (data_covers(functions@.take(j + 1), i) <==> data_covers(
                    functions@.take(j as int),
                    i,
                ) || in_data_of(fj, i))
                &&& (code_covers(bytes0, functions@.take(j + 1), i) <==> code_covers(
                    bytes0,
                    functions@.take(j as int),
                    i,
                ) || (in_code_range(fj, i, n as int) && !bytes0[i].has(FLAG::DATA)
                    && !data_covers(functions@.take(j + 1), i)))
            } by {
                lemma_data_covers_push(functions@.take(j as int), fj, i);
                lemma_code_covers_push(bytes0, functions@.take(j as int), fj, i);
            }
        }
        j = j + 1;
    }
    proof {
        assert(functions@.take(functions@.len() as int) =~= functions@);
    }
}


/// How many of the `size` bytes at `off` exist in a buffer of `n` bytes.
pub open spec fn clip_len(off: int, size: int, n: int) -> int {
    if off + size <= n {
        size
    } else if off <= n {
        n - off
    } else {
        0
    }
}

/// The values of the non-data bytes among the first `k` bytes at `off`, in
/// order.
pub open spec fn code_values(s: Seq<Byte>, off: int, k: int) -> Seq<u8>
    decreases k,
{
    if k <= 0 {
        Seq::empty()
    } else {
        code_values(s, off, k - 1) + (if s[off + k - 1].has(FLAG::DATA) {
            Seq::empty()
        } else {
            seq![s[off + k - 1].value]
        })
    }
}

/// The collected code values depend only on each byte's value and data
/// flag: two states that agree on those collect the same values.
pub proof fn lemma_code_values_congruent(s1: Seq<Byte>, s2: Seq<Byte>, off: int, k: int)
    requires
        s1.len() == s2.len(),
        forall|i: int|
            0 <= i < s1.len() ==> (#[trigger] s1[i]).value == s2[i].value && (s1[i].has(
                FLAG::DATA,
            ) <==> s2[i].has(FLAG::DATA)),
        off >= 0,
        off + k <= s1.len(),
    ensures
        code_values(s1, off, k) == code_values(s2, off, k),
    decreases k,
{
    if k > 0 {
        lemma_code_values_congruent(s1, s2, off, k - 1);
    }
}

pub proof fn lemma_code_values_len(s: Seq<Byte>, off: int, k: int)
    ensures
        code_values(s, off, k).len() <= (if k >= 0 {
            k
        } else {
            0
        }),
    decreases k,
{
    if k > 0 {
        lemma_code_values_len(s, off, k - 1);
    }
}

/// Walk the function range, skip the bytes already flagged as data, give
/// every other byte the code, readable and executable flags, and collect
/// those bytes' values.  The walk stops at the end of the buffer.
#[verifier::loop_isolation(false)]
pub fn collect_function_code(bytes: &mut Vec<Byte>, off: u64, size: u64) -> (buf: Vec<u8>)
    requires
        off + size <= u64::MAX,
    ensures
        final(bytes)@.len() == old(bytes)@.len(),
        forall|i: int|
            0 <= i < old(bytes)@.len() ==> {
                &&& (#[trigger] final(bytes)@[i]).same_cell(old(bytes)@[i])
                &&& (old(bytes)@[i].dup_free() ==> final(bytes)@[i].dup_free())
                &&& forall|g: FLAG| #![trigger final(bytes)@[i].flags@.contains(g)]
                    final(bytes)@[i].has(g) <==> old(bytes)@[i].has(g) || ((g
                        == FLAG::CODE || g == FLAG::READABLE || g == FLAG::EXECUTABLE)
                        && off <= i < off + size && i < old(bytes)@.len()
                        && !old(bytes)@[i].has(FLAG::DATA))
            },
        buf@ == code_values(
            old(bytes)@,
            off as int,
            clip_len(off as int, size as int, old(bytes)@.len() as int),
        ),
        buf@.len() <= size,
{
    let n: usize = bytes.len();
    let ghost bytes0 = bytes@;
    let ghost cl = clip_len(off as int, size as int, n as int);
    let mut buf: Vec<u8> = Vec::new();
    let mut k: u64 = 0;
    let mut clipped = false;
    while k < size && !clipped
        invariant
            k <= size,
            clipped ==> off + k >= n && k == cl,
            !clipped ==> k <= cl || cl < 0,
            bytes@.len() == n,
            forall|i: int|
                0 <= i < n ==> {
                    &&& (#[trigger] bytes@[i]).same_cell(bytes0[i])
                    &&& (bytes0[i].dup_free() ==> bytes@[i].dup_free())
                    &&& forall|g: FLAG|
                        bytes@[i].has(g) <==> bytes0[i].has(g) || ((g == FLAG::CODE || g
                            == FLAG::READABLE || g == FLAG::EXECUTABLE) && off <= i < off
                            + k && i < n && !bytes0[i].has(FLAG::DATA))
                },
            buf@ == code_values(bytes0, off as int, k as int),
        decreases size - k + (if clipped { 0int } else { 1int }),
    {
        let p: u64 = off + k;
        if p >= n as u64 {
            clipped = true;
        } else {
            if !bytes[p as usize].is_data() {
                mark_byte_code(bytes, p as usize);
                buf.push(bytes[p as usize].value);
                proof {
                    assert(buf@ =~= code_values(bytes0, off as int, k + 1));
                }
            } else {
                proof {
                    assert(buf@ =~= code_values(bytes0, off as int, k + 1));
                }
            }
            k = k + 1;
        }
    }
    proof {
        assert(k == cl);
        lemma_code_values_len(bytes0, off as int, cl);
    }
    buf
}

/// Mark one decoded instruction on the buffer: the instruction-start flag
/// and the instruction's own class flags on its leading byte, and the
/// instruction-end flag on its trailing byte.
#[verifier::loop_isolation(false)]
pub fn apply_instruction_marks(bytes: &mut Vec<Byte>, ins: &Instruction, lead: usize)
    requires
        1 <= ins.length,
        lead + ins.length <= old(bytes)@.len(),
    ensures
        final(bytes)@.len() == old(bytes)@.len(),
        forall|i: int|
            0 <= i < old(bytes)@.len() ==> {
                &&& (#[trigger] final(bytes)@[i]).same_cell(old(bytes)@[i])
                &&& (old(bytes)@[i].dup_free() ==> final(bytes)@[i].dup_free())
                &&& forall|g: FLAG| #![trigger final(bytes)@[i].flags@.contains(g)]
                    final(bytes)@[i].has(g) <==> old(bytes)@[i].has(g) || (i == lead && (
                    g == FLAG::INSTRUCTION_START || ins.has(g))) || (i == lead
                        + ins.length - 1 && g == FLAG::INSTRUCTION_END)
            },
{
    let n: usize = bytes.len();
    let ghost bytes0 = bytes@;
    let trail: usize = lead + (ins.length - 1) as usize;
    mark_byte(bytes, lead, FLAG::INSTRUCTION_START);
    let ghost m1 = bytes@;
    mark_byte(bytes, trail, FLAG::INSTRUCTION_END);
    let ghost mid = bytes@;
    let mut b = bytes[lead].clone();
    let ghost b0 = b;
    let fl = ins.get_flags();
    let ghost flv = fl@;
    b.set_flags(fl);
    proof {
        assert(forall|g: FLAG| b0.has(g) == mid[lead as int].has(g));
        assert forall|g: FLAG| b.has(g) <==> mid[lead as int].has(g) || ins.has(g) by {
            assert(flv.contains(g) == ins.flags@.contains(g));
        }
    }
    bytes.set(lead, b);
    proof {
        assert(bytes@ == mid.update(lead as int, b));
        assert forall|i: int| 0 <= i < n implies {
            &&& (#[trigger] bytes@[i]).same_cell(bytes0[i])
            &&& (bytes0[i].dup_free() ==> bytes@[i].dup_free())
            &&& forall|g: FLAG|
                bytes@[i].has(g) <==> bytes0[i].has(g) || (i == lead && (g
                    == FLAG::INSTRUCTION_START || ins.has(g))) || (i == lead + ins.length
                    - 1 && g == FLAG::INSTRUCTION_END)
        } by {
            if i != lead {
                assert(m1[i] == bytes0[i]);
            }
            if i != trail {
                assert(mid[i] == m1[i]);
            }
            if i == lead {
                assert(mid.update(lead as int, b)[i] == b);
                assert(bytes@[i] == b);
            } else {
                assert(mid.update(lead as int, b)[i] == mid[i]);
                assert(bytes@[i] == mid[i]);
            }
        }
    }
}

/// A maximal run of bytes that reaches the hole-decoding step: every byte
/// carries no flags and is not a lone `0xCC` filler (those are flagged
/// before holes are collected), and the run can be extended on neither
/// side.
pub open spec fn pad_hole(b0: Seq<Byte>, s: int, e: int) -> bool {
    &&& 0 <= s <= e < b0.len()
    &&& forall|i: int|
        s <= i <= e ==> (#[trigger] b0[i]).unflagged() && b0[i].value != 0xCC
    &&& (s == 0 || !(b0[s - 1].unflagged() && b0[s - 1].value != 0xCC))
    &&& (e + 1 == b0.len() || !(b0[e + 1].unflagged() && b0[e + 1].value != 0xCC))
}

/// The values of the bytes from `s` to `e`, both inclusive.
pub open spec fn hole_values(b: Seq<Byte>, s: int, e: int) -> Seq<u8> {
    Seq::new((e + 1 - s) as nat, |q: int| b[s + q].value)
}

/// Every byte covered by an alignment-form instruction of the hole's
/// decode carries the alignment flag.
pub open spec fn hole_aligned(bf: Seq<Byte>, mode64: bool, b0: Seq<Byte>, s: int, e: int) -> bool {
    let dl = crate::disassembler::decode_list(mode64, hole_values(b0, s, e), 0);
    forall|k: int|
        0 <= k < dl.len() && crate::disassembler::is_alignment_text(
            (#[trigger] dl[k]).1.0,
            dl[k].1.1,
        ) ==> forall|w: int|
            0 <= w < dl[k].1.2.len() ==> (#[trigger] bf[s + dl[k].0 + w]).has(
                FLAG::INSTRUCTION_ALIGNMENT,
            )
}

/// The two alignment steps compose: what the whole-buffer scan
/// established about the intermediate state carries to the final state.
proof fn lemma_alignment_bridge(b0: Seq<Byte>, b1: Seq<Byte>, b2: Seq<Byte>)
    requires
        b0.len() == b1.len() == b2.len(),
        forall|j: int|
            0 <= j < b0.len() ==> {
                &&& (#[trigger] b1[j]).same_cell(b0[j])
                &&& (b0[j].dup_free() ==> b1[j].dup_free())
                &&& forall|g: FLAG|
                    g != FLAG::INSTRUCTION_ALIGNMENT ==> (b1[j].has(g) <==> b0[j].has(g))
                &&& (b1[j].has(FLAG::INSTRUCTION_ALIGNMENT) ==> b0[j].has(
                    FLAG::INSTRUCTION_ALIGNMENT,
                ) || (!b0[j].has(FLAG::CODE) && !b0[j].has(FLAG::DATA)))
                &&& (!b0[j].has(FLAG::CODE) && !b0[j].has(FLAG::DATA) && b0[j].value
                    == 0xCC ==> b1[j].has(FLAG::INSTRUCTION_ALIGNMENT))
                &&& (b0[j].has(FLAG::INSTRUCTION_ALIGNMENT) ==> b1[j].has(
                    FLAG::INSTRUCTION_ALIGNMENT,
                ))
            },
        forall|j: int|
            0 <= j < b0.len() ==> {
                &&& (#[trigger] b2[j]).same_cell(b1[j])
                &&& (b1[j].dup_free() ==> b2[j].dup_free())
                &&& forall|g: FLAG|
                    g != FLAG::INSTRUCTION_ALIGNMENT ==> (b2[j].has(g) <==> b1[j].has(g))
                &&& (b2[j].has(FLAG::INSTRUCTION_ALIGNMENT) ==> b1[j].has(
                    FLAG::INSTRUCTION_ALIGNMENT,
                ) || b1[j].unflagged())
                &&& (b1[j].has(FLAG::INSTRUCTION_ALIGNMENT) ==> b2[j].has(
                    FLAG::INSTRUCTION_ALIGNMENT,
                ))
            },
    ensures
        forall|j: int|
            0 <= j < b0.len() ==> {
                &&& (#[trigger] b2[j]).same_cell(b0[j])
                &&& (b0[j].dup_free() ==> b2[j].dup_free())
                &&& forall|g: FLAG|
                    g != FLAG::INSTRUCTION_ALIGNMENT ==> (b2[j].has(g) <==> b0[j].has(g))
                &&& (b2[j].has(FLAG::INSTRUCTION_ALIGNMENT) ==> b0[j].has(
                    FLAG::INSTRUCTION_ALIGNMENT,
                ) || (!b0[j].has(FLAG::CODE) && !b0[j].has(FLAG::DATA)))
                &&& (!b0[j].has(FLAG::CODE) && !b0[j].has(FLAG::DATA) && b0[j].value
                    == 0xCC ==> b2[j].has(FLAG::INSTRUCTION_ALIGNMENT))
                &&& (b0[j].has(FLAG::INSTRUCTION_ALIGNMENT) ==> b2[j].has(
                    FLAG::INSTRUCTION_ALIGNMENT,
                ))
            },
{
    assert forall|j: int| 0 <= j < b0.len() implies {
        &&& (#[trigger] b2[j]).same_cell(b0[j])
        &&& (b0[j].dup_free() ==> b2[j].dup_free())
        &&& forall|g: FLAG|
            g != FLAG::INSTRUCTION_ALIGNMENT ==> (b2[j].has(g) <==> b0[j].has(g))
        &&& (b2[j].has(FLAG::INSTRUCTION_ALIGNMENT) ==> b0[j].has(
            FLAG::INSTRUCTION_ALIGNMENT,
        ) || (!b0[j].has(FLAG::CODE) && !b0[j].has(FLAG::DATA)))
        &&& (!b0[j].has(FLAG::CODE) && !b0[j].has(FLAG::DATA) && b0[j].value == 0xCC
            ==> b2[j].has(FLAG::INSTRUCTION_ALIGNMENT))
        &&& (b0[j].has(FLAG::INSTRUCTION_ALIGNMENT) ==> b2[j].has(
            FLAG::INSTRUCTION_ALIGNMENT,
        ))
    } by {
        assert(b1[j].same_cell(b0[j]));
        assert(b2[j].same_cell(b1[j]));
        if b1[j].unflagged() {
            assert(!b1[j].has(FLAG::CODE) && !b1[j].has(FLAG::DATA));
            assert(!b0[j].has(FLAG::CODE) && !b0[j].has(FLAG::DATA));
        }
    }
}

/// The alignment passes: flag the lone `0xCC` filler bytes, then decode
/// each hole of unclassified bytes and flag the bytes of every instruction
/// the decoder reports as an alignment form.  Reports an error if the
/// decoder cannot be set up.
#[verifier::loop_isolation(false)]
#[verifier::rlimit(100)]
pub fn detect_alignment_in(bytes: &mut Vec<Byte>, architecture: &ARCHITECTURE) -> (r: Result<
    (),
    &'static str,
>)
    ensures
        final(bytes)@.len() == old(bytes)@.len(),
        forall|i: int|
            0 <= i < old(bytes)@.len() ==> {
                &&& (#[trigger] final(bytes)@[i]).same_cell(old(bytes)@[i])
                &&& (old(bytes)@[i].dup_free() ==> final(bytes)@[i].dup_free())
                &&& forall|g: FLAG|
                    g != FLAG::INSTRUCTION_ALIGNMENT ==> (final(bytes)@[i].has(g)
                        <==> old(bytes)@[i].has(g))
                &&& (old(bytes)@[i].has(FLAG::INSTRUCTION_ALIGNMENT)
                    ==> final(bytes)@[i].has(FLAG::INSTRUCTION_ALIGNMENT))
                &&& (final(bytes)@[i].has(FLAG::INSTRUCTION_ALIGNMENT)
                    ==> old(bytes)@[i].has(FLAG::INSTRUCTION_ALIGNMENT) || (!old(
                    bytes,
                )@[i].has(FLAG::CODE) && !old(bytes)@[i].has(FLAG::DATA)))
                &&& (!old(bytes)@[i].has(FLAG::CODE) && !old(bytes)@[i].has(FLAG::DATA)
                    && old(bytes)@[i].value == 0xCC ==> final(bytes)@[i].has(
                    FLAG::INSTRUCTION_ALIGNMENT,
                ))
            },
        (forall|i: int|
            0 <= i < old(bytes)@.len() && (#[trigger] old(bytes)@[i]).unflagged()
                ==> old(bytes)@[i].value == 0xCC) ==> r is Ok,
        r is Ok ==> forall|s: int, e: int|
            #[trigger] pad_hole(old(bytes)@, s, e) ==> hole_aligned(
                final(bytes)@,
                crate::disassembler::mode64_of(*architecture),
                old(bytes)@,
                s,
                e,
            ),
{
    let n: usize = bytes.len();
    let ghost bytes0 = bytes@;
    let mut i: usize = 0;
    while i < n
        invariant
            i <= n,
            bytes@.len() == n,
            forall|j: int|
                0 <= j < n ==> {
                    &&& (#[trigger] bytes@[j]).same_cell(bytes0[j])
                    &&& (bytes0[j].dup_free() ==> bytes@[j].dup_free())
                    &&& forall|g: FLAG|
                        g != FLAG::INSTRUCTION_ALIGNMENT ==> (bytes@[j].has(g)
                            <==> bytes0[j].has(g))
                    &&& (bytes@[j].has(FLAG::INSTRUCTION_ALIGNMENT) ==> bytes0[j].has(
                        FLAG::INSTRUCTION_ALIGNMENT,
                    ) || (!bytes0[j].has(FLAG::CODE) && !bytes0[j].has(FLAG::DATA)
                        && bytes0[j].value == 0xCC))
                    &&& (j < i && !bytes0[j].has(FLAG::CODE) && !bytes0[j].has(FLAG::DATA)
                        && bytes0[j].value == 0xCC ==> bytes@[j].has(
                        FLAG::INSTRUCTION_ALIGNMENT,
                    ))
                    &&& (bytes0[j].has(FLAG::INSTRUCTION_ALIGNMENT) ==> bytes@[j].has(
                        FLAG::INSTRUCTION_ALIGNMENT,
                    ))
                },
        decreases n - i,
    {
        if !bytes[i].is_code() && !bytes[i].is_data() && bytes[i].value == 0xCC {
            mark_byte(bytes, i, FLAG::INSTRUCTION_ALIGNMENT);
        }
        i = i + 1;
    }
    let ghost bytes1 = bytes@;
    proof {
        assert forall|j: int| 0 <= j < n implies (bytes1[j].unflagged() <==> (
        #[trigger] bytes0[j].unflagged() && bytes0[j].value != 0xCC)) by {
            if bytes1[j].unflagged() {
                if !bytes0[j].unflagged() {
                    let g = bytes0[j].flags@[0];
                    assert(bytes0[j].has(g)) by {
                        assert(bytes0[j].flags@.contains(g));
                    }
                    assert(bytes1[j].has(g));
                }
                if bytes0[j].value == 0xCC {
                    assert(bytes1[j].has(FLAG::INSTRUCTION_ALIGNMENT));
                }
            }
            if bytes0[j].unflagged() && bytes0[j].value != 0xCC {
                if !bytes1[j].unflagged() {
                    let g = bytes1[j].flags@[0];
                    assert(bytes1[j].has(g)) by {
                        assert(bytes1[j].flags@.contains(g));
                    }
                    if g != FLAG::INSTRUCTION_ALIGNMENT {
                        assert(bytes0[j].has(g));
                    }
                }
            }
        }
    }
    let holes = detect_holes_in(bytes);
    let mut h: usize = 0;
    while h < holes.len()
        invariant
            h <= holes@.len(),
            forall|k: int| 0 <= k < holes@.len() ==> hole_ok(bytes1, #[trigger] holes@[k]),
            forall|k: int|
                0 <= k < h ==> hole_aligned(
                    bytes@,
                    crate::disassembler::mode64_of(*architecture),
                    bytes0,
                    (#[trigger] holes@[k]).start as int,
                    holes@[k].end as int,
                ),
            bytes@.len() == n,
            bytes1.len() == n,
            forall|j: int|
                0 <= j < n ==> {
                    &&& (#[trigger] bytes@[j]).same_cell(bytes1[j])
                    &&& (bytes1[j].dup_free() ==> bytes@[j].dup_free())
                    &&& forall|g: FLAG|
                        g != FLAG::INSTRUCTION_ALIGNMENT ==> (bytes@[j].has(g)
                            <==> bytes1[j].has(g))
                    &&& (bytes@[j].has(FLAG::INSTRUCTION_ALIGNMENT) ==> bytes1[j].has(
                        FLAG::INSTRUCTION_ALIGNMENT,
                    ) || bytes1[j].unflagged())
                    &&& (bytes1[j].has(FLAG::INSTRUCTION_ALIGNMENT) ==> bytes@[j].has(
                        FLAG::INSTRUCTION_ALIGNMENT,
                    ))
                },
        decreases holes@.len() - h,
    {
        let ghost bh = bytes@;
        let start: usize = holes[h].start as usize;
        let end: usize = holes[h].end as usize;
        proof {
            assert(hole_ok(bytes1, holes@[h as int]));
        }
        let mut hole_buffer: Vec<u8> = Vec::new();
        let mut q: usize = start;
        while q <= end
            invariant
                start <= q <= end + 1,
                end < n,
                bytes@.len() == n,
                hole_buffer@.len() == q - start,
                forall|t: int|
                    0 <= t < hole_buffer@.len() ==> #[trigger] hole_buffer@[t]
                        == bytes@[start + t].value,
            decreases end + 1 - q,
        {
            hole_buffer.push(bytes[q].value);
            q = q + 1;
        }
        let ghost hb = hole_buffer@;
        proof {
            assert forall|t: int|
                0 <= t < hb.len() implies #[trigger] hb[t] == bytes0[start + t].value by {
                assert(hb[t] == bh[start + t].value);
                assert(bh[start + t].same_cell(bytes1[start + t]));
                assert(bytes1[start + t].same_cell(bytes0[start + t]));
            }
            assert(hb =~= hole_values(bytes0, start as int, end as int));
        }
        let ghost m64 = crate::disassembler::mode64_of(*architecture);
        let instructions = match disassemble(
            hole_buffer,
            architecture,
            DISASSEMBLER::CAPSTONE,
        ) {
            Ok(instructions) => instructions,
            Err(e) => {
                proof {
                    lemma_alignment_bridge(bytes0, bytes1, bytes@);
                    if forall|i: int|
                        0 <= i < bytes0.len() && (#[trigger] bytes0[i]).unflagged()
                            ==> bytes0[i].value == 0xCC {
                        let s = holes@[h as int].start as int;
                        assert(hole_ok(bytes1, holes@[h as int]));
                        assert(bytes1[s].unflagged());
                        assert(!bytes1[s].has(FLAG::CODE) && !bytes1[s].has(FLAG::DATA)
                            && !bytes1[s].has(FLAG::INSTRUCTION_ALIGNMENT));
                        assert(bytes0[s].unflagged()) by {
                            if !bytes0[s].unflagged() {
                                let g = bytes0[s].flags@[0];
                                assert(bytes0[s].has(g)) by {
                                    assert(bytes0[s].flags@.contains(g));
                                }
                                assert(bytes1[s].has(g));
                            }
                        }
                        assert(bytes0[s].value == 0xCC);
                        assert(bytes1[s].has(FLAG::INSTRUCTION_ALIGNMENT));
                        assert(false);
                    }
                }
                return Err(e);
            },
        };
        let ghost dlh = crate::disassembler::decode_list(m64, hb, 0);
        proof {
            crate::disassembler::lemma_decode_list_shape(m64, hb, 0);
        }
        let mut t: usize = 0;
        while t < instructions.len()
            invariant
                t <= instructions@.len(),
                instrs_wf(instructions@, hb),
                crate::disassembler::decoded_matches(instructions@, dlh),
                dlh == crate::disassembler::decode_list(m64, hb, 0),
                hb.len() == end + 1 - start,
                start <= end < n,
                bytes@.len() == n,
                forall|j: int|
                    0 <= j < n && bh[j].has(FLAG::INSTRUCTION_ALIGNMENT)
                        ==> (#[trigger] bytes@[j]).has(FLAG::INSTRUCTION_ALIGNMENT),
                forall|k: int|
                    0 <= k < t && crate::disassembler::is_alignment_text(
                        (#[trigger] dlh[k]).1.0,
                        dlh[k].1.1,
                    ) ==> forall|w: int|
                        0 <= w < dlh[k].1.2.len() ==> (#[trigger] bytes@[start + dlh[k].0
                            + w]).has(FLAG::INSTRUCTION_ALIGNMENT),
                forall|j: int|
                    0 <= j < n ==> {
                        &&& (#[trigger] bytes@[j]).same_cell(bytes1[j])
                        &&& (bytes1[j].dup_free() ==> bytes@[j].dup_free())
                        &&& forall|g: FLAG|
                            g != FLAG::INSTRUCTION_ALIGNMENT ==> (bytes@[j].has(g)
                                <==> bytes1[j].has(g))
                        &&& (bytes@[j].has(FLAG::INSTRUCTION_ALIGNMENT) ==> bytes1[
                            j
                        ].has(FLAG::INSTRUCTION_ALIGNMENT) || bytes1[j].unflagged())
                        &&& (bytes1[j].has(FLAG::INSTRUCTION_ALIGNMENT) ==> bytes@[
                            j
                        ].has(FLAG::INSTRUCTION_ALIGNMENT))
                    },
            decreases instructions@.len() - t,
        {
            proof {
                assert(crate::disassembler::decoded_entry_ok(
                    instructions@,
                    dlh,
                    t as int,
                ));
            }
            if instructions[t].is_alignment() {
                let ioff: u64 = instructions[t].offset;
                let ilen: u64 = instructions[t].length;
                let mut w: u64 = 0;
                while w < ilen
                    invariant
                        w <= ilen,
                        t < instructions@.len(),
                        ioff == instructions@[t as int].offset,
                        ilen == instructions@[t as int].length,
                        ioff + ilen <= hb.len(),
                        hb.len() == end + 1 - start,
                        start <= end < n,
                        bytes@.len() == n,
                        crate::disassembler::decoded_matches(instructions@, dlh),
                        dlh == crate::disassembler::decode_list(m64, hb, 0),
                        ioff as int == dlh[t as int].0,
                        ilen as int == dlh[t as int].1.2.len(),
                        forall|j: int|
                            0 <= j < n && bh[j].has(FLAG::INSTRUCTION_ALIGNMENT)
                                ==> (#[trigger] bytes@[j]).has(
                                FLAG::INSTRUCTION_ALIGNMENT,
                            ),
                        forall|k: int|
                            0 <= k < t && crate::disassembler::is_alignment_text(
                                (#[trigger] dlh[k]).1.0,
                                dlh[k].1.1,
                            ) ==> forall|v: int|
                                0 <= v < dlh[k].1.2.len() ==> (#[trigger] bytes@[start
                                    + dlh[k].0 + v]).has(FLAG::INSTRUCTION_ALIGNMENT),
                        forall|v: int|
                            0 <= v < w ==> (#[trigger] bytes@[start + ioff + v]).has(
                                FLAG::INSTRUCTION_ALIGNMENT,
                            ),
                        forall|j: int|
                            0 <= j < n ==> {
                                &&& (#[trigger] bytes@[j]).same_cell(bytes1[j])
                                &&& (bytes1[j].dup_free() ==> bytes@[j].dup_free())
                                &&& forall|g: FLAG|
                                    g != FLAG::INSTRUCTION_ALIGNMENT ==> (bytes@[j].has(
                                        g,
                                    ) <==> bytes1[j].has(g))
                                &&& (bytes@[j].has(FLAG::INSTRUCTION_ALIGNMENT)
                                    ==> bytes1[j].has(FLAG::INSTRUCTION_ALIGNMENT)
                                    || bytes1[j].unflagged())
                                &&& (bytes1[j].has(FLAG::INSTRUCTION_ALIGNMENT)
                                    ==> bytes@[j].has(FLAG::INSTRUCTION_ALIGNMENT))
                            },
                    decreases ilen - w,
                {
                    let pos: usize = start + (ioff + w) as usize;
                    proof {
                        assert(bytes1[pos as int].unflagged());
                    }
                    let ghost bw = bytes@;
                    mark_byte(bytes, pos, FLAG::INSTRUCTION_ALIGNMENT);
                    proof {
                        assert(forall|j: int|
                            0 <= j < n && j != pos ==> #[trigger] bytes@[j] == bw[j]);
                        assert forall|j: int|
                            0 <= j < n && bw[j].has(FLAG::INSTRUCTION_ALIGNMENT)
                                implies (#[trigger] bytes@[j]).has(
                                FLAG::INSTRUCTION_ALIGNMENT,
                            ) by {
                            if j != pos {
                                assert(bytes@[j] == bw[j]);
                            }
                        }
                    }
                    w = w + 1;
                }
                proof {
                    assert forall|v: int|
                        0 <= v < dlh[t as int].1.2.len() implies (#[trigger] bytes@[start
                            + dlh[t as int].0 + v]).has(FLAG::INSTRUCTION_ALIGNMENT) by {
                        assert(bytes@[start + ioff + v].has(FLAG::INSTRUCTION_ALIGNMENT));
                    }
                }
            } else {
                proof {
                    assert(crate::disassembler::decoded_entry_ok(instructions@, dlh, t as int));
                    assert(!instructions@[t as int].has(FLAG::INSTRUCTION_ALIGNMENT));
                    assert(!crate::disassembler::insn_flag_set(
                        dlh[t as int].1.3,
                        dlh[t as int].1.0,
                        dlh[t as int].1.1,
                        FLAG::INSTRUCTION_ALIGNMENT,
                    ));
                    assert(!crate::disassembler::is_alignment_text(
                        dlh[t as int].1.0,
                        dlh[t as int].1.1,
                    ));
                }
            }
            t = t + 1;
        }
        proof {
            assert(hole_aligned(
                bytes@,
                m64,
                bytes0,
                holes@[h as int].start as int,
                holes@[h as int].end as int,
            )) by {
                assert(dlh == crate::disassembler::decode_list(
                    m64,
                    hole_values(bytes0, holes@[h as int].start as int, holes@[h as int].end as int),
                    0,
                ));
            }
            assert forall|k: int| 0 <= k < h + 1 implies hole_aligned(
                bytes@,
                m64,
                bytes0,
                (#[trigger] holes@[k]).start as int,
                holes@[k].end as int,
            ) by {
                if k < h {
                    let s2 = holes@[k].start as int;
                    let e2 = holes@[k].end as int;
                    let dl2 = crate::disassembler::decode_list(
                        m64,
                        hole_values(bytes0, s2, e2),
                        0,
                    );
                    crate::disassembler::lemma_decode_list_shape(
                        m64,
                        hole_values(bytes0, s2, e2),
                        0,
                    );
                    assert(hole_ok(bytes1, holes@[k]));
                    assert(hole_aligned(bh, m64, bytes0, s2, e2));
                    assert forall|kk: int|
                        0 <= kk < dl2.len() && crate::disassembler::is_alignment_text(
                            (#[trigger] dl2[kk]).1.0,
                            dl2[kk].1.1,
                        ) implies forall|v: int|
                            0 <= v < dl2[kk].1.2.len() ==> (#[trigger] bytes@[s2
                                + dl2[kk].0 + v]).has(FLAG::INSTRUCTION_ALIGNMENT) by {
                        assert forall|v: int|
                            0 <= v < dl2[kk].1.2.len() implies (#[trigger] bytes@[s2
                                + dl2[kk].0 + v]).has(FLAG::INSTRUCTION_ALIGNMENT) by {
                            assert(bh[s2 + dl2[kk].0 + v].has(
                                FLAG::INSTRUCTION_ALIGNMENT,
                            ));
                        }
                    }
                }
            }
        }
        h = h + 1;
    }
    proof {
        lemma_alignment_bridge(bytes0, bytes1, bytes@);
        assert forall|s2: int, e2: int|
            #[trigger] pad_hole(bytes0, s2, e2) implies hole_aligned(
                bytes@,
                crate::disassembler::mode64_of(*architecture),
                bytes0,
                s2,
                e2,
            ) by {
            assert(bytes1[s2].unflagged());
            let k = choose|k: int|
                0 <= k < holes@.len() && (#[trigger] holes@[k]).start <= s2
                    <= holes@[k].end;
            assert(hole_ok(bytes1, holes@[k]));
            let hs = holes@[k].start as int;
            let he = holes@[k].end as int;
            assert(hs == s2) by {
                if hs < s2 {
                    assert(bytes1[s2 - 1].unflagged());
                    assert(bytes0[s2 - 1].unflagged() && bytes0[s2 - 1].value != 0xCC);
                }
            }
            assert(he == e2) by {
                if he < e2 {
                    assert(he + 1 <= e2 < n);
                    assert(!bytes1[he + 1].unflagged());
                    assert(bytes0[he + 1].unflagged() && bytes0[he + 1].value != 0xCC);
                    assert(bytes1[he + 1].unflagged());
                } else if he > e2 {
                    assert(bytes1[e2 + 1].unflagged());
                    assert(bytes0[e2 + 1].unflagged() && bytes0[e2 + 1].value != 0xCC);
                }
            }
            assert(hole_aligned(bytes@, crate::disassembler::mode64_of(*architecture), bytes0, hs, he));
        }
    }
    Ok(())
}


/// `b1` is `b0` with flags only added: same cells, grown flag sets.
pub open spec fn grown(b0: Seq<Byte>, b1: Seq<Byte>) -> bool {
    b1.len() == b0.len() && forall|i: int|
        0 <= i < b0.len() ==> {
            &&& (#[trigger] b1[i]).same_cell(b0[i])
            &&& (b0[i].dup_free() ==> b1[i].dup_free())
            &&& forall|g: FLAG| b0[i].has(g) ==> b1[i].has(g)
        }
}

pub proof fn lemma_grown_trans(b0: Seq<Byte>, b1: Seq<Byte>, b2: Seq<Byte>)
    requires
        grown(b0, b1),
        grown(b1, b2),
    ensures
        grown(b0, b2),
{
    assert forall|i: int| 0 <= i < b0.len() implies {
        &&& (#[trigger] b2[i]).same_cell(b0[i])
        &&& (b0[i].dup_free() ==> b2[i].dup_free())
        &&& forall|g: FLAG| b0[i].has(g) ==> b2[i].has(g)
    } by {
        assert(b1[i].same_cell(b0[i]));
        assert(b2[i].same_cell(b1[i]));
    }
}

/// The instruction's leading byte carries the instruction-start flag and
/// its trailing byte the instruction-end flag, at position `lead` of the
/// buffer.
pub open spec fn marked_at(bytes: Seq<Byte>, ins: Instruction, lead: int) -> bool {
    &&& 0 <= lead
    &&& 1 <= ins.length
    &&& lead + ins.length <= bytes.len()
    &&& bytes[lead].has(FLAG::INSTRUCTION_START)
    &&& bytes[lead + ins.length - 1].has(FLAG::INSTRUCTION_END)
}

pub proof fn lemma_marked_at_grown(b1: Seq<Byte>, b2: Seq<Byte>, ins: Instruction, lead: int)
    requires
        marked_at(b1, ins, lead),
        grown(b1, b2),
    ensures
        marked_at(b2, ins, lead),
{
}


pub proof fn lemma_keep_len_bounds(s: Seq<Byte>)
    ensures
        0 <= keep_len(s) <= s.len(),
    decreases s.len(),
{
    if s.len() > 0 && is_zero_pad(s.last()) {
        lemma_keep_len_bounds(s.drop_last());
    }
}

/// Every function the pruning pass keeps has a positive size.
pub proof fn lemma_positive_all(s: Seq<Function>)
    ensures
        forall|j: int|
            0 <= j < positive_functions(s).len() ==> (#[trigger] positive_functions(
                s,
            )[j]).size > 0,
    decreases s.len(),
{
    if s.len() > 0 {
        lemma_positive_all(s.drop_last());
        let p = positive_functions(s);
        let q = positive_functions(s.drop_last());
        assert forall|j: int| 0 <= j < p.len() implies (#[trigger] p[j]).size > 0 by {
            if s.last().size > 0 {
                assert(p == q.push(s.last()));
                if j < q.len() {
                    assert(p[j] == q[j]);
                }
            }
        }
    }
}


/// Every function the pruning pass keeps is one of the originals.
pub proof fn lemma_positive_sub(s: Seq<Function>)
    ensures
        forall|j: int|
            0 <= j < positive_functions(s).len() ==> exists|j0: int|
                0 <= j0 < s.len() && #[trigger] positive_functions(s)[j] == s[j0],
    decreases s.len(),
{
    if s.len() > 0 {
        lemma_positive_sub(s.drop_last());
        let p = positive_functions(s);
        let q = positive_functions(s.drop_last());
        assert forall|j: int| 0 <= j < p.len() implies exists|j0: int|
            0 <= j0 < s.len() && #[trigger] p[j] == s[j0] by {
            if s.last().size > 0 && j == p.len() - 1 {
                assert(p[j] == s[s.len() - 1]);
            } else {
                assert(p[j] == q[j]);
                let j0 = choose|j0: int| 0 <= j0 < s.drop_last().len() && q[j] == s.drop_last()[j0];
                assert(s.drop_last()[j0] == s[j0]);
            }
        }
    }
}


/// Everything past the kept length is zero padding.
pub proof fn lemma_keep_len_pad(s: Seq<Byte>)
    ensures
        forall|i: int| keep_len(s) <= i < s.len() ==> is_zero_pad(#[trigger] s[i]),
    decreases s.len(),
{
    if s.len() > 0 && is_zero_pad(s.last()) {
        lemma_keep_len_pad(s.drop_last());
        lemma_keep_len_bounds(s.drop_last());
        assert forall|i: int| keep_len(s) <= i < s.len() implies is_zero_pad(
            #[trigger] s[i],
        ) by {
            if i < s.len() - 1 {
                assert(s.drop_last()[i] == s[i]);
            } else {
                assert(s[i] == s.last());
            }
        }
    }
}

} // verus!
