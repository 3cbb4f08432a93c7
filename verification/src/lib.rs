//! An operational-transformation algebra for plain text.
//!
//! Operations are sequences of skip, insert and delete components measured in
//! Unicode scalar values. The library offers the three primitives that make
//! collaborative editing converge: applying an operation to a document,
//! composing two sequential operations into one, and transforming an
//! operation across a concurrent one. Every public function carries a
//! contract relating it to the mathematical model in [`model`].

pub mod apply;
pub mod compose;
pub mod iter;
pub mod laws;
pub mod model;
pub mod op;
pub mod transform;

pub use apply::EditableText;
pub use apply::TextBuffer;
pub use apply::text_apply;
pub use compose::text_compose;
pub use iter::OpIter;
pub use model::Comp;
pub use op::Op;
pub use op::OpComponent;
pub use transform::Side;
pub use transform::text_transform;
