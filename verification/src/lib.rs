//! A small Texas-Hold'em-style poker library: card model and deck,
//! a totally ordered hand evaluator, and a betting/game engine that
//! drives automated players through a fixed-length session.

pub mod card;
pub mod game;
pub mod hand_utils;
pub mod poker;
