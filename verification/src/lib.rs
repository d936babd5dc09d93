//! Branch switching for Satisfactory installations: the verified core of
//! the `ficswitch` tool (manifest parsing and rewriting, profile mapping,
//! cache and backup bookkeeping).

pub mod text;
pub mod str_map;
pub mod steam;
pub mod profiles;
pub mod order;
pub mod saves;
pub mod backup;
pub mod branch_cache;
pub mod mod_deploy;
pub mod switch;
pub mod readback;
