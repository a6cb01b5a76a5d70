//! Loading of ELF64 programs.
pub mod accept_laws;
pub mod end_laws;
pub mod laws;
pub mod load;
pub mod memory_laws;
pub mod refusal_laws;
pub mod mmap;
pub mod types;
pub mod validate;

pub use load::load_elf;
pub use types::{
    ElfError, USER_INITIAL_RSP, USER_STACK_BASE, USER_STACK_GUARD, USER_STACK_SIZE, USER_STACK_TOP,
};
pub use validate::validate_elf;
