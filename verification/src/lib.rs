//! Move planning for a real-time arena game: circular players move under
//! bounded acceleration and speed on a bounded plane and collect circular
//! items. The crate holds the per-tick world model, a grid index over the
//! items, a table of opponent pressure on each item, the depth-bounded
//! search that picks the next steering target, and the text form of a
//! snapshot.
//!
//! All quantities are integers. Scores are counted in millionths of one
//! item.

pub mod consts;
pub mod decimal;
pub mod game_state;
pub mod numeric;
pub mod past_scores;
pub mod player_move;
pub mod point;
pub mod precompute;
pub mod strategy;
pub mod tokens;
pub mod wire;
