//! An assembler for the Uxn virtual machine's `uxntal` language, with its
//! behaviour stated as Verus contracts.

pub mod utils;
pub mod assembler;
