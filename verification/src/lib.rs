//! Game logic of a small Texas hold'em table: cards and hand ranking,
//! the dealer's state machine, the casino that keeps the tables, and
//! the text protocol spoken between the browser and the server.
use vstd::prelude::*;

pub mod card;
pub mod casino;
pub mod client;
pub mod common;
pub mod manager;
pub mod practice;
pub mod protocol;
pub mod table;
pub mod text;

verus! {

} // verus!
