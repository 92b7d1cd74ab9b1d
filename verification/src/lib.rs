use vstd::prelude::*;

pub mod bytes;
pub mod crypto;
pub mod decimal;
pub mod net;
pub mod order;
pub mod table;
pub mod text;

verus! {

}
