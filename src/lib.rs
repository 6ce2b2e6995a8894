//! A turn-based dominoes core: the tile set, the players' hands, the deal,
//! the rule that decides who opens, and the turn step.

pub mod components;
pub mod game;
