//! The data model: flags, byte records, instructions and symbol records.

use vstd::prelude::*;

verus! {

broadcast use vstd::seq_lib::lemma_seq_contains_after_push;

proof fn lemma_push_contains_all(s: Seq<FLAG>, v: FLAG)
    ensures
        forall|x: FLAG| #[trigger] s.push(v).contains(x) <==> s.contains(x) || x == v,
{
}

/// What a one-element flag list contains.
pub(crate) proof fn lemma_seq1_contains(s: Seq<FLAG>, a: FLAG)
    requires
        s =~= seq![a],
    ensures
        forall|g: FLAG| #[trigger] s.contains(g) <==> g == a,
{
    assert forall|g: FLAG| #[trigger] s.contains(g) implies g == a by {
        let i = choose|i: int| 0 <= i < s.len() && s[i] == g;
        assert(s[0] == a);
    }
    assert(s[0] == a);
}

/// What a three-element flag list contains.
pub(crate) proof fn lemma_seq3_contains(s: Seq<FLAG>, a: FLAG, b: FLAG, c: FLAG)
    requires
        s =~= seq![a, b, c],
    ensures
        forall|g: FLAG| #[trigger] s.contains(g) <==> g == a || g == b || g == c,
{
    assert forall|g: FLAG| #[trigger] s.contains(g) implies g == a || g == b || g == c by {
        let i = choose|i: int| 0 <= i < s.len() && s[i] == g;
        assert(s[0] == a && s[1] == b && s[2] == c);
    }
    assert(s[0] == a && s[1] == b && s[2] == c);
}

/// Classification flags carried by instructions and bytes.
#[allow(non_camel_case_types)]
#[derive(Clone, Copy, Debug, PartialEq, Eq, Structural)]
pub enum FLAG {
    CODE,
    DATA,
    EXECUTABLE,
    WRITEABLE,
    READABLE,
    INSTRUCTION_START,
    INSTRUCTION_END,
    FUNCTION_START,
    FUNCTION_END,
    BLOCK_START,
    INSTRUCTION_ALIGNMENT,
    INSTRUCTION_JUMP,
    INSTRUCTION_CALL,
    INSTRUCTION_RET,
    INSTRUCTION_INT,
    INSTRUCTION_IRET,
}

/// The instruction-set architectures the pipeline distinguishes.
#[allow(non_camel_case_types)]
#[derive(Clone, Copy, Debug, PartialEq, Eq, Structural)]
pub enum ARCHITECTURE {
    X64,
    X86,
    UNKNOWN,
}

/// One byte of the buffer: its virtual offset, its raw value and the set of
/// flags assigned to it so far.  The flag list never holds a flag twice.
pub struct Byte {
    pub offset: u64,
    pub value: u8,
    pub flags: Vec<FLAG>,
}

impl Byte {
    /// The byte carries flag `f`.
    #[verifier::inline]
    pub open spec fn has(self, f: FLAG) -> bool {
        self.flags@.contains(f)
    }

    /// The flag list is duplicate-free.
    pub open spec fn dup_free(self) -> bool {
        forall|i: int, j: int|
            0 <= i < j < self.flags@.len() ==> self.flags@[i] != self.flags@[j]
    }

    /// Same offset and value as `other`; only the flags may differ.
    pub open spec fn same_cell(self, other: Byte) -> bool {
        self.offset == other.offset && self.value == other.value
    }

    /// Same offset, value and flag set as `other`.
    pub open spec fn like(self, other: Byte) -> bool {
        self.same_cell(other) && self.flags@ == other.flags@
    }

    /// The flag set is empty.
    pub open spec fn unflagged(self) -> bool {
        self.flags@.len() == 0
    }

    fn has_flag(&self, f: FLAG) -> (r: bool)
        ensures
            r == self.has(f),
    {
        let mut k: usize = 0;
        while k < self.flags.len()
            invariant
                k <= self.flags@.len(),
                forall|i: int| 0 <= i < k ==> self.flags@[i] != f,
            decreases self.flags@.len() - k,
        {
            if self.flags[k] == f {
                return true;
            }
            k = k + 1;
        }
        false
    }

    pub fn is_code(&self) -> (r: bool)
        ensures
            r == self.has(FLAG::CODE),
    {
        self.has_flag(FLAG::CODE)
    }

    pub fn is_data(&self) -> (r: bool)
        ensures
            r == self.has(FLAG::DATA),
    {
        self.has_flag(FLAG::DATA)
    }

    pub fn is_alignment(&self) -> (r: bool)
        ensures
            r == self.has(FLAG::INSTRUCTION_ALIGNMENT),
    {
        self.has_flag(FLAG::INSTRUCTION_ALIGNMENT)
    }

    pub fn is_instruction_jump(&self) -> (r: bool)
        ensures
            r == self.has(FLAG::INSTRUCTION_JUMP),
    {
        self.has_flag(FLAG::INSTRUCTION_JUMP)
    }

    pub fn is_instruction_return(&self) -> (r: bool)
        ensures
            r == self.has(FLAG::INSTRUCTION_RET),
    {
        self.has_flag(FLAG::INSTRUCTION_RET)
    }

    pub fn is_instruction_start(&self) -> (r: bool)
        ensures
            r == self.has(FLAG::INSTRUCTION_START),
    {
        self.has_flag(FLAG::INSTRUCTION_START)
    }

    pub fn is_instruction_interrupt(&self) -> (r: bool)
        ensures
            r == self.has(FLAG::INSTRUCTION_INT),
    {
        self.has_flag(FLAG::INSTRUCTION_INT)
    }

    pub fn is_function_start(&self) -> (r: bool)
        ensures
            r == self.has(FLAG::FUNCTION_START),
    {
        self.has_flag(FLAG::FUNCTION_START)
    }

    pub fn get_flags(&self) -> (r: Vec<FLAG>)
        ensures
            r@ == self.flags@,
    {
        let mut out: Vec<FLAG> = Vec::new();
        let mut k: usize = 0;
        while k < self.flags.len()
            invariant
                k <= self.flags@.len(),
                out@ == self.flags@.subrange(0, k as int),
            decreases self.flags@.len() - k,
        {
            out.push(self.flags[k]);
            proof {
                assert(out@ =~= self.flags@.subrange(0, k + 1));
            }
            k = k + 1;
        }
        proof {
            assert(out@ =~= self.flags@);
        }
        out
    }

    /// Insert the given flags.  Insertion is idempotent: a flag that is
    /// already present is not added again.
    pub fn set_flags(&mut self, flags: Vec<FLAG>)
        ensures
            final(self).same_cell(*old(self)),
            forall|f: FLAG| #![trigger final(self).flags@.contains(f)]
                final(self).has(f) <==> old(self).has(f) || flags@.contains(f),
            old(self).dup_free() ==> final(self).dup_free(),
    {
        let mut k: usize = 0;
        while k < flags.len()
            invariant
                k <= flags@.len(),
                self.same_cell(*old(self)),
                forall|f: FLAG|
                    self.has(f) <==> old(self).has(f)
                        || flags@.subrange(0, k as int).contains(f),
                old(self).dup_free() ==> self.dup_free(),
            decreases flags@.len() - k,
        {
            let f = flags[k];
            let ghost pre = self.flags@;
            if !self.has_flag(f) {
                self.flags.push(f);
                proof {
                    lemma_push_contains_all(pre, f);
                }
            }
            proof {
                lemma_push_contains_all(flags@.subrange(0, k as int), flags@[k as int]);
                assert(flags@.subrange(0, k + 1)
                    =~= flags@.subrange(0, k as int).push(flags@[k as int]));
            }
            k = k + 1;
        }
        proof {
            assert(flags@.subrange(0, flags@.len() as int) =~= flags@);
        }
    }
}

impl Clone for Byte {
    fn clone(&self) -> (r: Self)
        ensures
            r.like(*self),
    {
        Byte { offset: self.offset, value: self.value, flags: self.get_flags() }
    }
}

/// One decoded instruction, as the disassembler oracle reports it plus the
/// class flags derived from its groups, mnemonic and operand.
pub struct Instruction {
    pub mnemonic: String,
    pub operand: String,
    pub bytes: Vec<u8>,
    pub offset: u64,
    pub length: u64,
    pub flags: Vec<FLAG>,
}

impl Instruction {
    /// The instruction carries flag `f`.
    #[verifier::inline]
    pub open spec fn has(self, f: FLAG) -> bool {
        self.flags@.contains(f)
    }

    /// The flag list is duplicate-free.
    pub open spec fn dup_free(self) -> bool {
        forall|i: int, j: int|
            0 <= i < j < self.flags@.len() ==> self.flags@[i] != self.flags@[j]
    }

    fn has_flag(&self, f: FLAG) -> (r: bool)
        ensures
            r == self.has(f),
    {
        let mut k: usize = 0;
        while k < self.flags.len()
            invariant
                k <= self.flags@.len(),
                forall|i: int| 0 <= i < k ==> self.flags@[i] != f,
            decreases self.flags@.len() - k,
        {
            if self.flags[k] == f {
                return true;
            }
            k = k + 1;
        }
        false
    }

    pub fn get_flags(&self) -> (r: Vec<FLAG>)
        ensures
            r@ == self.flags@,
    {
        let mut out: Vec<FLAG> = Vec::new();
        let mut k: usize = 0;
        while k < self.flags.len()
            invariant
                k <= self.flags@.len(),
                out@ == self.flags@.subrange(0, k as int),
            decreases self.flags@.len() - k,
        {
            out.push(self.flags[k]);
            proof {
                assert(out@ =~= self.flags@.subrange(0, k + 1));
            }
            k = k + 1;
        }
        proof {
            assert(out@ =~= self.flags@);
        }
        out
    }

    pub fn is_alignment(&self) -> (r: bool)
        ensures
            r == self.has(FLAG::INSTRUCTION_ALIGNMENT),
    {
        self.has_flag(FLAG::INSTRUCTION_ALIGNMENT)
    }

    /// Insert the given flags.  Insertion is idempotent: a flag that is
    /// already present is not added again.
    pub fn set_flags(&mut self, flags: Vec<FLAG>)
        ensures
            final(self).mnemonic@ == old(self).mnemonic@,
            final(self).operand@ == old(self).operand@,
            final(self).bytes@ == old(self).bytes@,
            final(self).offset == old(self).offset,
            final(self).length == old(self).length,
            forall|f: FLAG| #![trigger final(self).flags@.contains(f)]
                final(self).has(f) <==> old(self).has(f) || flags@.contains(f),
            old(self).dup_free() ==> final(self).dup_free(),
    {
        let mut k: usize = 0;
        while k < flags.len()
            invariant
                k <= flags@.len(),
                self.mnemonic@ == old(self).mnemonic@,
                self.operand@ == old(self).operand@,
                self.bytes@ == old(self).bytes@,
                self.offset == old(self).offset,
                self.length == old(self).length,
                forall|f: FLAG|
                    self.has(f) <==> old(self).has(f)
                        || flags@.subrange(0, k as int).contains(f),
                old(self).dup_free() ==> self.dup_free(),
            decreases flags@.len() - k,
        {
            let f = flags[k];
            let ghost pre = self.flags@;
            if !self.has_flag(f) {
                self.flags.push(f);
                proof {
                    lemma_push_contains_all(pre, f);
                }
            }
            proof {
                lemma_push_contains_all(flags@.subrange(0, k as int), flags@[k as int]);
                assert(flags@.subrange(0, k + 1)
                    =~= flags@.subrange(0, k as int).push(flags@[k as int]));
            }
            k = k + 1;
        }
        proof {
            assert(flags@.subrange(0, flags@.len() as int) =~= flags@);
        }
    }
}

/// A section of the binary and its metadata.
pub struct Section {
    pub name: String,
    pub va: u64,
    pub raw_data_offset: u64,
    pub raw_data_size: u64,
}

/// A maximal contiguous run of bytes whose flag set is empty.  `start` and
/// `end` are both inclusive buffer indices.
pub struct Hole {
    pub start: u64,
    pub end: u64,
    pub size: u64,
}

/// A thunk symbol: a tiny compiler-generated trampoline, treated as an
/// anonymous function.
#[derive(Clone, Copy)]
pub struct Thunk {
    pub offset: u64,
    pub segment: u8,
    pub size: u64,
}

/// A data symbol.  Its size arrives as 0 from the symbol source and is
/// computed by the in-line-data passes.
pub struct Data {
    pub name: String,
    pub offset: u64,
    pub segment: u8,
    pub size: u64,
}

/// A label symbol: marks a code address inside a function.
pub struct Label {
    pub name: String,
    pub offset: u64,
    pub segment: u8,
}

/// A function symbol.  `labels` and `data` are filled by the relationship
/// pass; `size` may be trimmed by the in-line-data-end pass.
pub struct Function {
    pub name: String,
    pub offset: u64,
    pub segment: u8,
    pub size: u64,
    pub labels: Vec<Label>,
    pub data: Vec<Data>,
}

impl Clone for Label {
    fn clone(&self) -> (r: Self)
        ensures
            r == *self,
    {
        Label { name: self.name.clone(), offset: self.offset, segment: self.segment }
    }
}

impl Clone for Data {
    fn clone(&self) -> (r: Self)
        ensures
            r == *self,
    {
        Data {
            name: self.name.clone(),
            offset: self.offset,
            segment: self.segment,
            size: self.size,
        }
    }
}

impl Clone for Section {
    fn clone(&self) -> (r: Self)
        ensures
            r == *self,
    {
        Section {
            name: self.name.clone(),
            va: self.va,
            raw_data_offset: self.raw_data_offset,
            raw_data_size: self.raw_data_size,
        }
    }
}

fn clone_labels(v: &Vec<Label>) -> (r: Vec<Label>)
    ensures
        r@ == v@,
{
    let mut out: Vec<Label> = Vec::new();
    let mut k: usize = 0;
    while k < v.len()
        invariant
            k <= v@.len(),
            out@ == v@.subrange(0, k as int),
        decreases v@.len() - k,
    {
        out.push(v[k].clone());
        proof {
            assert(out@ =~= v@.subrange(0, k + 1));
        }
        k = k + 1;
    }
    proof {
        assert(out@ =~= v@);
    }
    out
}

fn clone_data(v: &Vec<Data>) -> (r: Vec<Data>)
    ensures
        r@ == v@,
{
    let mut out: Vec<Data> = Vec::new();
    let mut k: usize = 0;
    while k < v.len()
        invariant
            k <= v@.len(),
            out@ == v@.subrange(0, k as int),
        decreases v@.len() - k,
    {
        out.push(v[k].clone());
        proof {
            assert(out@ =~= v@.subrange(0, k + 1));
        }
        k = k + 1;
    }
    proof {
        assert(out@ =~= v@);
    }
    out
}

impl Clone for Function {
    fn clone(&self) -> (r: Self)
        ensures
            r.name == self.name,
            r.offset == self.offset,
            r.segment == self.segment,
            r.size == self.size,
            r.labels@ == self.labels@,
            r.data@ == self.data@,
    {
        Function {
            name: self.name.clone(),
            offset: self.offset,
            segment: self.segment,
            size: self.size,
            labels: clone_labels(&self.labels),
            data: clone_data(&self.data),
        }
    }
}

fn clone_u8s(v: &Vec<u8>) -> (r: Vec<u8>)
    ensures
        r@ == v@,
{
    let mut out: Vec<u8> = Vec::new();
    let mut k: usize = 0;
    while k < v.len()
        invariant
            k <= v@.len(),
            out@ == v@.subrange(0, k as int),
        decreases v@.len() - k,
    {
        out.push(v[k]);
        proof {
            assert(out@ =~= v@.subrange(0, k + 1));
        }
        k = k + 1;
    }
    proof {
        assert(out@ =~= v@);
    }
    out
}

impl Clone for Instruction {
    fn clone(&self) -> (r: Self)
        ensures
            r.mnemonic == self.mnemonic,
            r.operand == self.operand,
            r.bytes@ == self.bytes@,
            r.offset == self.offset,
            r.length == self.length,
            r.flags@ == self.flags@,
    {
        Instruction {
            mnemonic: self.mnemonic.clone(),
            operand: self.operand.clone(),
            bytes: clone_u8s(&self.bytes),
            offset: self.offset,
            length: self.length,
            flags: self.get_flags(),
        }
    }
}

/// All symbol information taken from a PDB dump.
pub struct PDB {
    pub image_base: u64,
    pub architecture: ARCHITECTURE,
    pub functions: Vec<Function>,
    pub data: Vec<Data>,
    pub thunks: Vec<Thunk>,
    pub labels: Vec<Label>,
}

/// All symbol information taken from a DWARF dump.
pub struct DWARF {
    pub image_base: u64,
    pub architecture: ARCHITECTURE,
    pub functions: Vec<Function>,
}

} // verus!
