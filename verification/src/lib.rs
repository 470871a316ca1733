//! A pluggable application framework: events and their subscribers, scopes, plugins,
//! disposal, and the deferred bindings of component imports.
pub mod derive;
pub mod disposable;
pub mod event;
pub mod later;
pub mod query;
pub mod text;
pub mod scope;
pub mod thread;
pub mod schedule;
pub mod context;
pub mod manager;
