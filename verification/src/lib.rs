//! Passive network fingerprinting: frames are decoded into observations,
//! observations are correlated into sessions, and sessions are handed to
//! fingerprinting methods whose claims are collected and rendered.

pub mod adapters;
pub mod address;
pub mod banner;
pub mod classifier;
pub mod config;
pub mod consumer;
pub mod correlator;
pub mod db;
pub mod decode;
pub mod engine;
pub mod error;
pub mod evidence;
pub mod f0p;
pub mod fusion;
pub mod http;
pub mod ja4;
pub mod manifest;
pub mod memory;
pub mod method;
pub mod observation;
pub mod order;
pub mod pick;
pub mod pipeline;
pub mod profile;
pub mod registry;
pub mod render;
pub mod report;
pub mod result;
pub mod session;
pub mod source;
pub mod table;
pub mod tcp_syn;
pub mod text;
pub mod time;
pub mod trigger;
pub mod update;
pub mod wire;
