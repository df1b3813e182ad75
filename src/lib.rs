//! The leaf level of a disk-resident B+Tree: sorted key/value pairs held in
//! a slotted body behind a header of sibling links.

pub mod codec;
pub mod lex;
pub mod page_id;
pub mod slotted;
pub mod search;
pub mod leaf;
