//! Memory systems for agents: short-term, long-term and episodic memory,
//! a tag index, and consolidation between them.

pub mod consolidation;
pub mod episodic;
pub mod index;
pub mod long_term;
pub mod ranking;
pub mod score;
pub mod seq_facts;
pub mod short_term;

pub use consolidation::{ConsolidationConfig, ConsolidationResult, MemoryConsolidation};
pub use episodic::{Episode, EpisodeKind, EpisodicMemory};
pub use index::{ContextTag, IndexedMemory, MemoryIndex};
pub use long_term::{ExperienceSummary, LongTermMemory};
pub use score::Score;
pub use short_term::{Decision, MemoryEntry, ShortTermMemory};
