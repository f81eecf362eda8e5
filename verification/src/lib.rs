//! Exact evaluation of blackjack positions over a depleting shoe.
//!
//! Cards are known by their scoring class only. A position is the cards of the
//! player, the cards of the dealer, the stay flag and the shoe. The library
//! scores hands, moves from one position to the next, says of each position
//! whether it is settled or how it branches, defines the exact value of a
//! position, and writes the key and the bytes under which a computed value is
//! remembered.

pub mod cache;
pub mod distinct;
pub mod hand;
pub mod key;
pub mod opt_bj_game;
pub mod shoe;
pub mod value;
