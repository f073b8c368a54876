pub mod board;
pub mod greedy;
pub mod feature;
pub mod scoring;
pub mod tile;
pub mod tile_set;
pub mod player;
pub mod random;
pub mod oracle;
pub mod tally;
pub mod closure;
pub mod endgame;
pub mod game;
pub mod snapshot;
