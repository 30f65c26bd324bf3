//! A cache of compiled render pipelines, keyed by shader identity, render
//! state and a set of specialization constants.

pub mod cache;
pub mod key;
pub mod names;
pub mod overrides;
pub mod state;

pub use cache::{PipelineCache, ShaderBackend};
pub use key::ShaderKey;
pub use overrides::Overrides;
pub use state::{RenderState, Topology, WgslSource};
