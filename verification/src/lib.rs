//! Ranking engine for a "jump to directory" command: a history of visited
//! directories, the normalisation and scoring of a stored path against a
//! query, the choice of the best match, and the bookkeeping of visits.

pub mod db;
pub mod error;
pub mod jump;
pub mod score;
pub mod text;
pub mod visit;
