//! Node selection for a cluster's control plane: a lease registry that
//! tracks which workers are alive and how loaded they are, and pluggable
//! strategies that pick workers from it.

pub mod error;
pub mod http;
pub mod lease_based;
pub mod liveness;
pub mod load_based;
pub mod peer;
pub mod registry;
pub mod selector;
pub mod selector_type;

pub use error::Error;
pub use http::{ColumnSchema, HttpOptions, Schema};
pub use lease_based::LeaseBasedSelector;
pub use load_based::LoadBasedSelector;
pub use peer::{load_score, Lease, LeaseEntry, Peer};
pub use registry::LeaseRegistry;
pub use selector::{Allocation, AnySelector, Namespace, Selector, SelectorContext};
pub use selector_type::SelectorType;
