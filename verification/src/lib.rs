//! A verified rules engine for single-player blackjack: deck construction and
//! shuffling, dealing, player decisions (hit / stand / double down / split),
//! dealer policy, hand scoring with per-ace soft/hard resolution, and round
//! settlement against a running bankroll.

pub mod card;
pub mod engine;
