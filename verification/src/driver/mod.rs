//! What a run is asked to do, and where its results go.

pub mod artifacts;
pub mod config;
pub mod logging;
pub mod native;
pub mod output;
pub mod pipeline;
pub mod run;
