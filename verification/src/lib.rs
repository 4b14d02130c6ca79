//! A strict-schema, bio-inspired graph memory engine for AI agents.
//!
//! The engine stores three kinds of memory nodes (episodes, concepts,
//! affective states), connects them with weighted directed edges, and
//! simulates memory dynamics over a logical clock:
//!
//! - **Forgetting curve**: activation decays lazily with elapsed ticks,
//!   dampened by a node's long-term stability.
//! - **Spread activation**: a stimulus boosts a node asymptotically and
//!   ripples through outgoing edges with per-hop damping; negative weights
//!   inhibit instead of exciting.
//! - **Dream consolidation**: a sleep cycle advances time, rewards highly
//!   active nodes with extra stability, compresses activation toward a
//!   stability-derived baseline, and prunes weak nodes.
//!
//! All scalar quantities (activation, stability, decay rate, edge weights,
//! valence, arousal) are fixed-point numbers in micro-units: the integer
//! `1_000_000` stands for the real value `1.0`. Every update law is defined
//! exactly over these integers, so the whole engine is deterministic and its
//! behaviour is stated and proved here.

pub mod fixed;
pub mod text;
pub mod numfmt;
pub mod node;
pub mod graph;
pub mod search;
pub mod context;
pub mod codec;
pub mod laws;
