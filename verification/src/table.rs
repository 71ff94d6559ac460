//! Descriptive table-model types: the game variant, the betting limits and
//! the table capacity.  They carry no behaviour of their own; the parsing
//! pipeline neither reads nor produces them.

use vstd::prelude::*;
use crate::player::Player;

verus! {

/// The poker variant a table plays.
#[derive(Debug)]
pub enum Variant {
    HoldEm,
}

/// The betting structure of the game.
#[derive(Debug)]
pub enum Limits {
    NoLimit,
}

/// The seat capacity of a table, with the seats it provides.
#[derive(Debug)]
pub enum MaxSize {
    Nine([Option<Player>; 9]),
    Six([Player; 6]),
}

/// A table's game description.
#[derive(Debug)]
pub struct Poker {
    pub variant: Variant,
    pub limits: Limits,
    pub table_size: MaxSize,
}

} // verus!
