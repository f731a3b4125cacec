//! Team making and rating bookkeeping for in-house ten-player games.
pub mod text;
pub mod game;
pub mod balance;
pub mod balance_check;
mod outside;
pub mod store;
pub mod rating;
pub mod legacy;
pub mod lobby;
pub mod board;
pub mod message;
