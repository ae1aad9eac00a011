//! An intrusive doubly linked list.
//!
//! The links of the list live inside the elements themselves, so putting an
//! element on a list or taking it off allocates nothing. The elements stay in
//! storage that the caller owns, a slice, and an element is named by its
//! position in that slice. A list is a head and a tail position; everything
//! between them is held by the [`Link`]s embedded in the elements, which an
//! [`Adapter`] finds.
//!
//! Every operation takes the storage that the elements live in. The list never
//! moves an element and writes nothing but the neighbour references inside
//! the embedded links. In turn, an element that is on a list has to stay at
//! its position, and only the list may write its link.
//!
//! The list does no checking of its own. What the caller has to see to is
//! the `requires` of each operation: that the list is sound on the storage
//! handed in ([`UnsafeList::wf`]), that an element pushed is not on the list
//! yet, that an element unlinked is on it.
//!
//! A list stands for the sequence of the positions of its elements, from
//! head to tail: its view. The contracts of the operations speak of that
//! sequence; [`laws`] holds what follows from them.

pub mod adapter;
pub mod chain;
pub mod inner;
pub mod laws;
pub mod link;
pub mod list;
pub mod retain;

pub use crate::adapter::Adapter;
pub use crate::inner::LinkInner;
pub use crate::link::Link;
pub use crate::list::UnsafeList;
