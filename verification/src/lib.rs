use vstd::prelude::*;

pub mod text;
pub mod clock;
pub mod sort;
pub mod types;
pub mod orchestrator;
pub mod dynamic;
pub mod conversation;
pub mod llm_cache;
pub mod session;
pub mod skill;
pub mod memory;
pub mod subagent;
pub mod outline;
pub mod plugins;
pub mod agent_pool;
pub mod cluster;
pub mod secure_env;
pub mod harness;
pub mod checkpoint;
pub mod jsonl;
pub mod tool_loop;
pub mod image;

verus! {
} // verus!
