pub mod dump_game;
pub mod eval_paired;
pub mod oracle_bound;
