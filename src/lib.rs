//! Two-player, zero-sum game tree search: a depth-bounded minimax with alpha-beta pruning, backed by a persistent
//! transposition table whose entries are ranked by quality and aged out when unused.

pub mod game_state;
pub mod game_tree;
pub mod state;
pub mod static_evaluator;
pub mod transposition_table;

pub use game_state::{GameState, PlayerId};
pub use game_tree::GameTree;
pub use static_evaluator::StaticEvaluator;
pub use transposition_table::TranspositionTable;
