//! Request parts that the server collects.

pub mod body;
