//! The decision logic of a small reactive runtime, with its contracts.

pub mod collections;
pub mod text;
pub mod textlaws;
pub mod expr;
pub mod exprlaws;
pub mod lock;
pub mod message;
pub mod transaction;
pub mod varworker;
pub mod varlaws;
pub mod defworker;
pub mod batch;
pub mod deflaws;
pub mod changelaws;
pub mod graph;
pub mod manager;
pub mod session;
