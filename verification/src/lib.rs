//! Round aggregation for a game server cluster: the crash-log parser, the
//! per-refresh enrichment context, the decisions of the persistent cache and
//! of its janitor, and the shared round cache with its refresh protocol.

pub mod context;
pub mod file_cache;
pub mod loading;
pub mod rounds;
pub mod runtimes;
pub mod servers;
pub mod state;
pub mod text;
pub mod text_map;
