//! A replicated text: replicas edit a sequence of characters on their own, exchange
//! what they have recorded, and are brought up to date with each other.
//!
//! Every character is placed twice, once in each of two trees over the same
//! characters. The text is read off the left-origin tree; siblings in it are ordered
//! by where their characters stand in the right-origin tree, then by identity.
//! A causal history records every operation together with the operations that its
//! replica knew before, and tells what one replica has that another lacks.

pub mod fixture;
pub mod handle_vec;
pub mod history;
pub mod lexical;
pub mod pcte;
pub mod rc_hashable;
