//! A verified task lifecycle and progression engine for a gamified quest
//! board.
//!
//! The crate models the board's persistent state — tasks, users, and the
//! append-only completion facts — as one [`store::Store`] value, and verifies
//! the transitions on it: claiming and releasing a task under exclusive
//! ownership, the atomic multi-effect completion step, the periodic skill
//! calibration it triggers, and the interpretation of an external
//! recommendation scorer's ranked response.
//!
//! Every operation carries a contract over the mathematical view of the
//! store, and the engine's invariants — availability, exclusive ownership,
//! completion uniqueness, tag monotonicity, calibration cadence — are stated
//! and proved as lemmas beside the operations they govern.

pub mod assignment;
pub mod class;
pub mod completion;
pub mod error;
pub mod recommend;
pub mod store;
pub mod task;
pub mod task_store;
pub mod user;
pub mod user_store;
