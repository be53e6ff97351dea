//! Rules engine of a two-player, hidden-information card game: two
//! players secretly commit cards from a shared shuffled deck to seven
//! contested places until one of them takes enough points or places.
//!
//! The engine proper lives in [`mechanics`]; every card-moving
//! operation carries a contract, and the central one — that the
//! multiset of cards over deck, hands, commitment slots and discard
//! never changes — is stated and proved on each of them.  [`rng`]
//! holds the thin trusted boundary to the random-number generator,
//! and [`widgets`] the text shapes a terminal front end draws from.

pub mod mechanics;
pub mod rng;
pub mod widgets;

pub use crate::widgets::{draw_card, char_of_digit, CardsWidget, PlaceWidget};
