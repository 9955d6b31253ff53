//! The verified core of a declarative, incremental dataflow query engine.
//!
//! Clients hand in queries as plans over attributes and named rules. This crate holds
//! what the engine decides and what it does to tuples: which rules a relation is defined
//! by and in which order they are lowered, what every plan reads, how a join over
//! bindings is laid out, which tuples a filter keeps and what transforms and aggregates
//! give, what an attribute with at most one value per entity emits, where the domain's
//! sessions and traces stand after an advance, and who is interested in what. The
//! dataflow itself is built around it with timely and differential dataflow; every
//! function here takes and gives plain values.
//!
//! The contracts are stated over mathematical views of the data: texts as sequences of
//! characters, tables as maps, tuples as sequences of values.

pub mod aggregate;
pub mod cardinality;
pub mod domain;
pub mod error;
pub mod extent;
pub mod filter;
pub mod graphql;
pub mod hector;
pub mod implement;
pub mod lowering;
pub mod names;
pub mod nested;
pub mod plan;
pub mod pull;
pub mod relation;
pub mod rules;
pub mod server;
pub mod shutdown;
pub mod sources;
pub mod table;
pub mod time;
pub mod transform;
pub mod value;

pub use crate::domain::CollectionIndex;
pub use crate::error::Error;
pub use crate::lowering::{implement, implement_neu};
pub use crate::plan::{q, Binding, Hector, Implementable, Plan, Rule};
pub use crate::relation::CollectionRelation;
pub use crate::rules::{collect_dependencies, ImplContext};
pub use crate::shutdown::ShutdownHandle;
pub use crate::value::{Aid, AttributeSemantics, Datom, Eid, TxData, Value, Var};
