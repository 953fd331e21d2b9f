//! Value representation and memory management for a small dynamically-typed
//! language: tagged immediate and heap-resident values, a generation-checked
//! garbage-collected heap arena with explicit rooting, a canonical textual
//! renderer, and a string literal escape codec.

pub mod heap;
pub mod render;
pub mod string;
pub mod value;

pub use heap::VM;
pub use render::WrappedObject;
pub use value::GObj;
pub use value::HVal;
pub use value::Handle;
pub use value::Object;
pub use value::RootedObject;
pub use value::SVal;
