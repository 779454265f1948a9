//! Byte-level ground-truth labeling of the `.text` section of a PE or ELF
//! binary, driven by debug-symbol metadata.
//!
//! The pipeline takes the raw bytes of a binary together with symbol records
//! (functions, data, labels, thunks) and tags every byte of the text section
//! as code, data, alignment padding or unknown, with boundary markers for
//! functions and instructions.  The surrounding binary parsing, symbol-dump
//! reading and file output live outside this crate; the labeling passes and
//! the emitters' computations are verified here.

pub mod disassembler;
pub mod dumper_plain;
pub mod dumper_yaml;
pub mod elf;
pub mod groundtruth;
pub mod passes;
pub mod pe;
pub mod strutil;

pub use groundtruth::ARCHITECTURE;
pub use groundtruth::Byte;
pub use groundtruth::Data;
pub use groundtruth::DWARF;
pub use groundtruth::FLAG;
pub use groundtruth::Function;
pub use groundtruth::Hole;
pub use groundtruth::Instruction;
pub use groundtruth::Label;
pub use groundtruth::PDB;
pub use groundtruth::Section;
pub use groundtruth::Thunk;
