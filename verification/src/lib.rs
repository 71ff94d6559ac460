//! A verified parser for plain-text poker hand histories.
//!
//! The library extracts, from one hand-history document, the declared table
//! capacity, the roster of seated players with their starting stacks, the
//! action lines that mention a given player, and finally each player's signed
//! net chip result for the hand.  Every function's behaviour is pinned down
//! by a contract over sequence models of the input text.

pub mod actions;
pub mod player;
pub mod scan;
pub mod table;
pub mod text;
pub mod winnings;

pub use actions::actions;
pub use player::Player;
pub use player::PlayerV;
pub use player::player_count;
pub use player::players;
pub use scan::ScanError;
pub use scan::scan_num;
pub use table::Limits;
pub use table::MaxSize;
pub use table::Poker;
pub use table::Variant;
pub use winnings::winnings;
