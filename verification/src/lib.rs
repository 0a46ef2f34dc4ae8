//! Verified core of a hardware bus metrics exporter: register decoding,
//! configuration rules, Modbus batch planning, wire encodings and the
//! decisions of the polling and export loops.

pub mod decoder;
pub mod text;
pub mod config;
pub mod validate;
pub mod batch;
pub mod labels;
pub mod store;
pub mod otlp;
pub mod number;
pub mod collector;
pub mod poll;
pub mod mqtt;
pub mod prometheus;
pub mod devices;
pub mod enumeration;
pub mod metrics_file;
pub mod filter;
pub mod service;
pub mod logging;
pub mod internal;
