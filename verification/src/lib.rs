//! The verified core of a fraud-scoring service: the request parser, the connection state
//! machine, the cell index with its file format, and the offline index builder.

pub mod bytes;
pub mod builder;
pub mod connection;
pub mod heads;
pub mod http;
pub mod index;
pub mod members;
pub mod pairs;
pub mod parse;
pub mod payload;
pub mod references;
pub mod service;
pub mod timestamp;
pub mod top5;
pub mod vector;
pub mod warmup;
