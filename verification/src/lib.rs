//! Rules, value network and training farm of a 2048 player.

pub mod row;
pub mod board;
pub mod rng;
pub mod merges;
pub mod text;
pub mod floats;
pub mod learn;
pub mod ntuple;
pub mod le;
pub mod weights;
pub mod codec;
pub mod bundle;
pub mod vecs;
pub mod sort;
pub mod select;
pub mod pool;
pub mod episode;
pub mod train;
pub mod job;
pub mod http;
pub mod chunk;
pub mod deltas;
pub mod workers;
pub mod shares;
pub mod coord;
pub mod columns;
pub mod status;
pub mod colours;
pub mod worker;
pub mod load;
pub mod ai;
pub mod search;
pub mod cli;

pub mod net_laws;
pub mod move_laws;
pub mod text_laws;
pub mod weight_laws;
pub mod search_laws;
pub mod play_laws;
pub mod game_laws;
pub mod share_laws;
pub mod wire_laws;
pub mod service_laws;
pub mod report_laws;
pub mod step_laws;
pub mod call_laws;
pub mod outcome_laws;
pub mod keeping_laws;
pub mod guard_laws;
