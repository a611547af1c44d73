//! The decision-making core of a clustered MQTT broker with its own user
//! directory, access rules, credential caches and offline message queue.

pub mod acl;
pub mod api;
pub mod auth;
pub mod cache;
pub mod cluster;
pub mod config;
pub mod db;
pub mod fanout;
pub mod msgstore;
pub mod perf;
pub mod sort;
pub mod startup;
pub mod text;
pub mod topic;
pub mod vault;
