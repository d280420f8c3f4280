//! Proxy wrappers for the object model of a foreign, garbage-collected
//! interpreter, together with a verified model of the interpreter heap.
//!
//! Host code builds lightweight wrapper values (symbols, byte buffers,
//! call expressions, pair lists, generic lists, environments) purely in
//! native memory and materializes each one into a heap handle in a single
//! step; conversely a handle received from the interpreter is narrowed
//! back into a wrapper by read-only extraction.  The hard requirement is
//! the protection protocol: every intermediate allocation made while a
//! composite structure is under construction must be rooted on the
//! protection stack, and the stack must return to its prior depth when
//! the construction finishes.  The heap model makes that discipline a
//! proved postcondition of every materialization.
//!
//! The raw interpreter bindings themselves are unsafe foreign calls and
//! live outside this library; here the heap is an explicit value, so the
//! allocation, rooting and traversal primitives are ordinary verified
//! functions with exact contracts.

mod sexp;
mod model;
mod heap;
mod wrappers;
mod materialize;
mod extract;
mod laws;

pub use sexp::Node;
pub use sexp::SexpType;
pub use heap::Heap;
pub use heap::Robj;
pub use heap::new_owned;
pub use heap::new_sys;
pub use wrappers::Symbol;
pub use wrappers::Character;
pub use wrappers::Raw;
pub use wrappers::Lang;
pub use wrappers::Pairlist;
pub use wrappers::List;
pub use wrappers::Expr;
pub use wrappers::Env;
pub use wrappers::Func;
pub use wrappers::Promise;
pub use wrappers::Primitive;
pub use laws::lang_round_trip;
pub use laws::pairlist_round_trip;
pub use laws::list_round_trip;
pub use laws::expr_round_trip;
pub use laws::raw_round_trip;
pub use laws::symbol_round_trip;
pub use laws::character_round_trip;
pub use laws::closure_round_trip;
pub use laws::promise_round_trip;
pub use laws::env_round_trip;
pub use laws::symbol_interning_idempotent;
pub use laws::primitive_fallback;
pub use laws::empty_materializations;
