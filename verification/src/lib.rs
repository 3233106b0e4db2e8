//! A register-and-heap machine for first-order term unification.
//!
//! Terms are compiled to a small instruction set: a query term is built
//! bottom-up on the heap, a program term is then matched top-down against
//! what the query left there.  Successful matching binds the variables of
//! both terms, and the most general unifier can be read back from the heap.

pub mod ast;
pub mod functor;
pub mod interpret;
pub mod machine;
pub mod mem;
pub mod recorder;
