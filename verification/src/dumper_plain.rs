//! The plain emitter: one line per run of equally classified bytes of the
//! text section, with one character per byte.

use vstd::prelude::*;

use crate::groundtruth::Byte;
use crate::groundtruth::FLAG;
use crate::groundtruth::Section;
use crate::strutil;

verus! {

/// The class a byte is printed under: code, data, alignment or unknown,
/// in that order of precedence.
pub open spec fn class_of(b: Byte) -> int {
    if b.has(FLAG::CODE) {
        0
    } else if b.has(FLAG::DATA) {
        1
    } else if b.has(FLAG::INSTRUCTION_ALIGNMENT) {
        2
    } else {
        3
    }
}

/// The byte continues a run of the given class: it carries the class flag,
/// does not start an instruction, and carries none of the other class
/// flags.
pub open spec fn cont_ok(cl: int, b: Byte) -> bool {
    if cl == 0 {
        b.has(FLAG::CODE) && !b.has(FLAG::INSTRUCTION_START) && !b.has(FLAG::DATA)
            && !b.has(FLAG::INSTRUCTION_ALIGNMENT)
    } else if cl == 1 {
        b.has(FLAG::DATA) && !b.has(FLAG::INSTRUCTION_START) && !b.has(FLAG::CODE)
            && !b.has(FLAG::INSTRUCTION_ALIGNMENT)
    } else if cl == 2 {
        b.has(FLAG::INSTRUCTION_ALIGNMENT) && !b.has(FLAG::INSTRUCTION_START) && !b.has(
            FLAG::CODE,
        ) && !b.has(FLAG::DATA)
    } else {
        !b.has(FLAG::INSTRUCTION_ALIGNMENT) && !b.has(FLAG::INSTRUCTION_START) && !b.has(
            FLAG::CODE,
        ) && !b.has(FLAG::DATA)
    }
}

/// The run list `runs` covers the first `end` bytes exactly once with no
/// gap: the first run starts at zero, every run is non-empty, each run
/// ends where the next begins, the last ends at `end`, the bytes inside a
/// run continue their first byte's class, and no run could be extended
/// into the next.
pub open spec fn runs_wf(bytes: Seq<Byte>, runs: Seq<(usize, usize)>, end: int) -> bool {
    if end == 0 {
        runs.len() == 0
    } else {
        &&& runs.len() >= 1
        &&& runs[0].0 == 0
        &&& forall|k: int| 0 <= k < runs.len() ==> (#[trigger] runs[k]).1 >= 1
        &&& forall|k: int|
            0 <= k < runs.len() ==> (#[trigger] runs[k]).0 + runs[k].1 == (if k + 1
                < runs.len() {
                runs[k + 1].0 as int
            } else {
                end
            })
        &&& forall|k: int, p: int|
            #![trigger runs[k], bytes[p]]
            0 <= k < runs.len() && runs[k].0 < p < runs[k].0 + runs[k].1 ==> cont_ok(
                class_of(bytes[runs[k].0 as int]),
                bytes[p],
            )
        &&& forall|k: int|
            0 <= k < runs.len() - 1 ==> !cont_ok(
                class_of(bytes[(#[trigger] runs[k]).0 as int]),
                bytes[runs[k].0 + runs[k].1],
            )
    }
}

fn class_exec(b: &Byte) -> (r: u8)
    ensures
        r as int == class_of(*b),
{
    if b.is_code() {
        0
    } else if b.is_data() {
        1
    } else if b.is_alignment() {
        2
    } else {
        3
    }
}

fn cont_exec(cl: u8, b: &Byte) -> (r: bool)
    ensures
        r == cont_ok(cl as int, *b),
{
    if cl == 0 {
        b.is_code() && !b.is_instruction_start() && !b.is_data() && !b.is_alignment()
    } else if cl == 1 {
        b.is_data() && !b.is_instruction_start() && !b.is_code() && !b.is_alignment()
    } else if cl == 2 {
        b.is_alignment() && !b.is_instruction_start() && !b.is_code() && !b.is_data()
    } else {
        !b.is_alignment() && !b.is_instruction_start() && !b.is_code() && !b.is_data()
    }
}

/// Split the buffer into the emitter's runs: maximal stretches whose
/// bytes continue the class of the stretch's first byte.  The runs cover
/// the buffer exactly once with no gap.
#[verifier::loop_isolation(false)]
pub fn class_runs(bytes: &Vec<Byte>) -> (runs: Vec<(usize, usize)>)
    ensures
        runs_wf(bytes@, runs@, bytes@.len() as int),
{
    let n: usize = bytes.len();
    let mut runs: Vec<(usize, usize)> = Vec::new();
    let mut i: usize = 0;
    while i < n
        invariant
            i <= n,
            n == bytes@.len(),
            i == 0 ==> runs@.len() == 0,
            i > 0 ==> runs_wf(bytes@, runs@, i as int),
            i > 0 && i < n ==> !cont_ok(
                class_of(bytes@[runs@[runs@.len() - 1].0 as int]),
                bytes@[i as int],
            ),
        decreases n - i,
    {
        let start: usize = i;
        let cl = class_exec(&bytes[i]);
        i = i + 1;
        while i < n && cont_exec(cl, &bytes[i])
            invariant
                start < i <= n,
                n == bytes@.len(),
                cl as int == class_of(bytes@[start as int]),
                forall|p: int|
                    start < p < i ==> cont_ok(cl as int, bytes@[p]),
            decreases n - i,
        {
            i = i + 1;
        }
        let ghost oldruns = runs@;
        runs.push((start, i - start));
        proof {
            assert(forall|k: int|
                0 <= k < oldruns.len() ==> #[trigger] runs@[k] == oldruns[k]);
            assert(runs@[runs@.len() - 1] == (start, (i - start) as usize));
            assert forall|k: int| 0 <= k < runs@.len() implies (#[trigger] runs@[k]).0
                + runs@[k].1 == (if k + 1 < runs@.len() {
                runs@[k + 1].0 as int
            } else {
                i as int
            }) by {
                if k < oldruns.len() {
                    assert(oldruns[k].0 + oldruns[k].1 == (if k + 1 < oldruns.len() {
                        oldruns[k + 1].0 as int
                    } else {
                        start as int
                    }));
                }
            }
            assert(runs_wf(bytes@, runs@, i as int));
        }
    }
    runs
}

/// One hexadecimal digit, upper case.
pub open spec fn hex_digit(v: int) -> char {
    if v < 10 {
        ((v + 0x30) as u8) as char
    } else {
        ((v + 55) as u8) as char
    }
}

/// `v` in upper-case hexadecimal, zero-padded to at least `width` digits.
pub open spec fn hex_seq(v: nat, width: nat) -> Seq<char>
    decreases v + width,
{
    if v < 16 && width <= 1 {
        seq![hex_digit(v as int)]
    } else {
        hex_seq(v / 16, (if width <= 1 {
            0
        } else {
            (width - 1) as nat
        })).push(hex_digit((v % 16) as int))
    }
}

/// Append `v` in upper-case hexadecimal, zero-padded to `width` digits.
fn push_hex(out: &mut Vec<char>, v: u64, width: usize)
    ensures
        final(out)@ == old(out)@ + hex_seq(v as nat, width as nat),
    decreases v, width,
{
    let d: u64 = v % 16;
    let c: char = if d < 10 {
        (d as u8 + 0x30) as char
    } else {
        (d as u8 + 55) as char
    };
    if v < 16 && width <= 1 {
        out.push(c);
        proof {
            assert(final(out)@ =~= old(out)@ + hex_seq(v as nat, width as nat));
        }
    } else {
        push_hex(out, v / 16, if width <= 1 {
            0
        } else {
            width - 1
        });
        out.push(c);
        proof {
            assert(out@ =~= old(out)@ + hex_seq(v as nat, width as nat));
        }
    }
}

/// Append the characters of `s`.
fn push_str_chars(out: &mut Vec<char>, s: &str)
    ensures
        final(out)@ == old(out)@ + s@,
{
    let n = s.unicode_len();
    let mut k: usize = 0;
    while k < n
        invariant
            k <= n,
            n == s@.len(),
            out@ == old(out)@ + s@.subrange(0, k as int),
        decreases n - k,
    {
        out.push(s.get_char(k));
        proof {
            assert(out@ =~= old(out)@ + s@.subrange(0, k + 1));
        }
        k = k + 1;
    }
    proof {
        assert(out@ =~= old(out)@ + s@);
    }
}

/// The characters the first byte of a run prints: for code, one letter
/// per boundary or class flag in a fixed order, always ending in `C`; a
/// single class letter otherwise.
pub open spec fn first_chars(b: Byte) -> Seq<char> {
    if class_of(b) == 0 {
        (if b.has(FLAG::FUNCTION_START) {
            seq!['F']
        } else {
            Seq::empty()
        }) + (if b.has(FLAG::INSTRUCTION_ALIGNMENT) {
            seq!['N']
        } else {
            Seq::empty()
        }) + (if b.has(FLAG::INSTRUCTION_JUMP) {
            seq!['J']
        } else {
            Seq::empty()
        }) + (if b.has(FLAG::INSTRUCTION_INT) {
            seq!['3']
        } else {
            Seq::empty()
        }) + (if b.has(FLAG::INSTRUCTION_RET) {
            seq!['R']
        } else {
            Seq::empty()
        }) + (if b.has(FLAG::INSTRUCTION_START) {
            seq!['I']
        } else {
            Seq::empty()
        }) + seq!['C']
    } else if class_of(b) == 1 {
        seq!['D']
    } else if class_of(b) == 2 {
        seq!['N']
    } else {
        seq!['U']
    }
}

/// The continuation character of a class.
pub open spec fn cont_char(cl: int) -> char {
    if cl == 0 {
        'C'
    } else if cl == 1 {
        'D'
    } else if cl == 2 {
        'N'
    } else {
        'U'
    }
}

/// The line one run prints: the rebased address of its first byte, the
/// first byte's characters in brackets, and one character for each further
/// byte.
pub open spec fn run_line(bytes: Seq<Byte>, base: int, start: int, len: int) -> Seq<char> {
    "@0x"@ + hex_seq((bytes[start].offset + base) as nat, 12) + ": ["@ + first_chars(
        bytes[start],
    ) + "]"@ + Seq::new((len - 1) as nat, |q: int| cont_char(class_of(bytes[start])))
        + "\n"@
}

/// The lines of the first `k` runs.
pub open spec fn text_chars(
    bytes: Seq<Byte>,
    base: int,
    runs: Seq<(usize, usize)>,
    k: int,
) -> Seq<char>
    decreases k,
{
    if k <= 0 {
        Seq::empty()
    } else {
        text_chars(bytes, base, runs, k - 1) + run_line(
            bytes,
            base,
            runs[k - 1].0 as int,
            runs[k - 1].1 as int,
        )
    }
}

/// The two header lines of a section, and for the text section its run
/// lines.
pub open spec fn section_chars(
    s: Section,
    bytes: Seq<Byte>,
    base: int,
    runs: Seq<(usize, usize)>,
) -> Seq<char> {
    "******* section "@ + s.name@ + " *******\n"@ + "<"@ + s.name@ + " va: 0x"@ + hex_seq(
        s.va as nat,
        8,
    ) + ", size:0x"@ + hex_seq(s.raw_data_size as nat, 8) + ", flags: []>\n"@ + (if
    strutil::is_text_name(s.name@) {
        text_chars(bytes, base, runs, runs.len() as int)
    } else {
        Seq::empty()
    })
}

/// The whole plain dump: every section's characters in order.
pub open spec fn dump_chars(
    sections: Seq<Section>,
    bytes: Seq<Byte>,
    base: int,
    runs: Seq<(usize, usize)>,
    k: int,
) -> Seq<char>
    decreases k,
{
    if k <= 0 {
        Seq::empty()
    } else {
        dump_chars(sections, bytes, base, runs, k - 1) + section_chars(
            sections[k - 1],
            bytes,
            base,
            runs,
        )
    }
}

/// Append one run's line.
#[verifier::loop_isolation(false)]
#[verifier::rlimit(60)]
fn push_run_line(out: &mut Vec<char>, bytes: &Vec<Byte>, base: u64, start: usize, len: usize)
    requires
        1 <= len,
        start + len <= bytes@.len(),
        bytes@[start as int].offset + base <= u64::MAX,
    ensures
        final(out)@ == old(out)@ + run_line(bytes@, base as int, start as int, len as int),
{
    let ghost fb = bytes@[start as int];
    let ghost p0 = old(out)@ + "@0x"@ + hex_seq((fb.offset + base) as nat, 12) + ": ["@
        + first_chars(fb);
    push_str_chars(out, "@0x");
    push_hex(out, bytes[start].offset + base, 12);
    push_str_chars(out, ": [");
    let b = &bytes[start];
    let cl = class_exec(b);
    if cl == 0 {
        if b.is_function_start() {
            out.push('F');
        }
        if b.is_alignment() {
            out.push('N');
        }
        if b.is_instruction_jump() {
            out.push('J');
        }
        if b.is_instruction_interrupt() {
            out.push('3');
        }
        if b.is_instruction_return() {
            out.push('R');
        }
        if b.is_instruction_start() {
            out.push('I');
        }
        out.push('C');
    } else if cl == 1 {
        out.push('D');
    } else if cl == 2 {
        out.push('N');
    } else {
        out.push('U');
    }
    proof {
        assert(out@ =~= p0);
    }
    push_str_chars(out, "]");
    let ghost p1 = p0 + "]"@;
    let cc: char = if cl == 0 {
        'C'
    } else if cl == 1 {
        'D'
    } else if cl == 2 {
        'N'
    } else {
        'U'
    };
    let mut q: usize = 1;
    while q < len
        invariant
            1 <= q <= len,
            cc == cont_char(class_of(fb)),
            out@ == p1 + Seq::new((q - 1) as nat, |t: int| cont_char(class_of(fb))),
        decreases len - q,
    {
        out.push(cc);
        proof {
            assert(out@ =~= p1 + Seq::new(q as nat, |t: int| cont_char(class_of(fb))));
        }
        q = q + 1;
    }
    push_str_chars(out, "\n");
    proof {
        assert(out@ =~= old(out)@ + run_line(bytes@, base as int, start as int, len as int));
    }
}

/// Relies on `String::from_iter` over characters: the resulting string's
/// characters are exactly the input characters.
#[verifier::external_body]
fn string_from_chars(v: Vec<char>) -> (r: String)
    ensures
        r@ == v@,
{
    v.into_iter().collect()
}

/// The two header lines of a section.
pub open spec fn header_chars(s: Section) -> Seq<char> {
    "******* section "@ + s.name@ + " *******\n"@ + "<"@ + s.name@ + " va: 0x"@ + hex_seq(
        s.va as nat,
        8,
    ) + ", size:0x"@ + hex_seq(s.raw_data_size as nat, 8) + ", flags: []>\n"@
}

/// Append one section's header lines.
#[verifier::loop_isolation(false)]
fn push_header(out: &mut Vec<char>, sec: &Section)
    ensures
        final(out)@ == old(out)@ + header_chars(*sec),
{
    push_str_chars(out, "******* section ");
    push_str_chars(out, sec.name.as_str());
    push_str_chars(out, " *******\n");
    push_str_chars(out, "<");
    push_str_chars(out, sec.name.as_str());
    push_str_chars(out, " va: 0x");
    push_hex(out, sec.va, 8);
    push_str_chars(out, ", size:0x");
    push_hex(out, sec.raw_data_size, 8);
    push_str_chars(out, ", flags: []>\n");
    proof {
        assert(out@ =~= old(out)@ + header_chars(*sec));
    }
}

/// Append one section's characters: its header lines and, for the text
/// section, its run lines.
#[verifier::loop_isolation(false)]
fn push_section(
    out: &mut Vec<char>,
    sec: &Section,
    bytes: &Vec<Byte>,
    base: u64,
    runs: &Vec<(usize, usize)>,
)
    requires
        runs_wf(bytes@, runs@, bytes@.len() as int),
        forall|i: int|
            0 <= i < bytes@.len() ==> (#[trigger] bytes@[i]).offset + base <= u64::MAX,
    ensures
        final(out)@ == old(out)@ + section_chars(*sec, bytes@, base as int, runs@),
{
    push_header(out, sec);
    let ghost mid = out@;
    if strutil::name_is_text(&sec.name) {
        let nr: usize = runs.len();
        let mut k: usize = 0;
        while k < nr
            invariant
                k <= nr,
                nr == runs@.len(),
                out@ == mid + text_chars(bytes@, base as int, runs@, k as int),
            decreases nr - k,
        {
            let (rs, rl) = (runs[k].0, runs[k].1);
            proof {
                assert(runs@[k as int].1 >= 1);
                lemma_run_in_bounds(bytes@, runs@, k as int);
            }
            push_run_line(out, bytes, base, rs, rl);
            proof {
                assert(out@ =~= mid + text_chars(bytes@, base as int, runs@, k + 1));
            }
            k = k + 1;
        }
    }
    proof {
        assert(out@ =~= old(out)@ + section_chars(*sec, bytes@, base as int, runs@));
    }
}

/// Build the plain dump: two header lines per section, and for the text
/// section one line per run of equally classified bytes, covering the
/// buffer exactly once.
#[verifier::loop_isolation(false)]
pub fn dump(image_base: u64, sections: &Vec<Section>, bytes: &Vec<Byte>) -> (r: String)
    requires
        forall|i: int|
            0 <= i < bytes@.len() ==> (#[trigger] bytes@[i]).offset + image_base
                <= u64::MAX,
    ensures
        exists|runs: Seq<(usize, usize)>|
            #![all_triggers]
            runs_wf(bytes@, runs, bytes@.len() as int) && r@ == dump_chars(
                sections@,
                bytes@,
                image_base as int,
                runs,
                sections@.len() as int,
            ),
{
    let runs = class_runs(bytes);
    let ghost runsv = runs@;
    let mut out: Vec<char> = Vec::new();
    let ns: usize = sections.len();
    let mut s: usize = 0;
    while s < ns
        invariant
            s <= ns,
            ns == sections@.len(),
            runs_wf(bytes@, runsv, bytes@.len() as int),
            runs@ == runsv,
            out@ == dump_chars(sections@, bytes@, image_base as int, runsv, s as int),
        decreases ns - s,
    {
        push_section(&mut out, &sections[s], bytes, image_base, &runs);
        proof {
            assert(out@ =~= dump_chars(
                sections@,
                bytes@,
                image_base as int,
                runsv,
                s + 1,
            ));
        }
        s = s + 1;
    }
    let r = string_from_chars(out);
    r
}

/// Every run of a well-formed run list lies inside the buffer.
proof fn lemma_run_in_bounds(bytes: Seq<Byte>, runs: Seq<(usize, usize)>, k: int)
    requires
        runs_wf(bytes, runs, bytes.len() as int),
        0 <= k < runs.len(),
    ensures
        runs[k].0 + runs[k].1 <= bytes.len(),
    decreases runs.len() - k,
{
    if k + 1 < runs.len() {
        lemma_run_in_bounds(bytes, runs, k + 1);
        assert(runs[k].0 + runs[k].1 == runs[k + 1].0 as int);
    }
}

/// Build the plain dump of a PE pipeline.
pub fn dump_pe(pe: &crate::pe::PE) -> (r: String)
    requires
        forall|i: int|
            0 <= i < pe.bytes@.len() ==> (#[trigger] pe.bytes@[i]).offset
                + pe.pdb.image_base <= u64::MAX,
    ensures
        exists|runs: Seq<(usize, usize)>|
            #![all_triggers]
            runs_wf(pe.bytes@, runs, pe.bytes@.len() as int) && r@ == dump_chars(
                pe.sections@,
                pe.bytes@,
                pe.pdb.image_base as int,
                runs,
                pe.sections@.len() as int,
            ),
{
    dump(pe.pdb.image_base, &pe.sections, &pe.bytes)
}

/// Build the plain dump of an ELF pipeline.
pub fn dump_elf(elf: &crate::elf::ELF) -> (r: String)
    requires
        forall|i: int|
            0 <= i < elf.bytes@.len() ==> (#[trigger] elf.bytes@[i]).offset
                + elf.dwarf.image_base <= u64::MAX,
    ensures
        exists|runs: Seq<(usize, usize)>|
            #![all_triggers]
            runs_wf(elf.bytes@, runs, elf.bytes@.len() as int) && r@ == dump_chars(
                elf.sections@,
                elf.bytes@,
                elf.dwarf.image_base as int,
                runs,
                elf.sections@.len() as int,
            ),
{
    dump(elf.dwarf.image_base, &elf.sections, &elf.bytes)
}

} // verus!
