//! Model-based testing support: parsing of model checker output, a
//! write-once cache, and incremental exploration of a model's state space.

pub mod apalache;
pub mod artifact;
pub mod cache;
pub mod checker;
pub mod counterexample;
pub mod digest;
pub mod error;
pub mod explorer;
pub mod graph;
pub mod history;
pub mod manifest;
pub mod order;
pub mod output;
pub mod paths;
pub mod report;
pub mod session;
pub mod state_graph;
pub mod suite;
pub mod text;
pub mod tlc;
pub mod trace;
pub mod trace_log;

pub use checker::{ModelChecker, ModelCheckerRuntime, ModelCheckerWorkers, ModelatorRuntime};
pub use error::Error;
pub use report::{TestError, TestReport};
pub use manifest::{Artifact, ArtifactManifest, MethodManifest, Module, ModuleManifest};
pub use trace::{TlaState, Trace};
