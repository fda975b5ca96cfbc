//! Checks that the variants of an enum, or the arms of a match, are written in
//! sorted order, and says where the first one out of place belongs.

pub mod case;
pub mod declaration;
pub mod matching;
pub mod order;
pub mod syntax;
pub mod validator;

pub use crate::declaration::sorted;
pub use crate::matching::check;
