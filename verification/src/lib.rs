//! SkillBasin core: versioned skill pools, per-machine pins and the sync
//! planner, agent registries, secret resolution and search helpers.

mod text;
pub mod strmap;
pub mod paths;
pub mod pins;
pub mod plan;
pub mod desired;
pub mod basin;
pub mod machine;
pub mod export;
pub mod secrets;
pub mod search;
pub mod cache;
pub mod agents;
pub mod fleet;
pub mod hub;
pub mod plugins;
pub mod content_hash;
