pub mod text;
pub mod render_target;
pub mod trusted;
pub mod number;
pub mod error;
pub mod time;
pub mod metric;
pub mod exec;
pub mod render;
pub mod find;
pub mod storage;
pub mod rrd;
pub mod migrate;
