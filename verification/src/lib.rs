//! Synchronisation core for cooperative control of aerodrome stopbar lighting.
//!
//! Many controllers and observers share the state of an aerodrome: which
//! nodes are lit, which blocks are clear, relaxed or routed. This crate holds
//! the data model, the algebra of patches, the derivation of node and edge
//! illumination, the assignment of routes, and the decisions of the three
//! parties: the client (`client`), the broker that serves the clients of one
//! machine (`manager`), and the session server (`session`). It also holds
//! the formats in which values travel: frames (`ipc`), packages (`config`)
//! and JSON messages (`wire`).
//!
//! Everything here is pure. The program around the crate reads clocks,
//! files and sockets and hands plain values in and out; time is a number of
//! milliseconds.
//!
//! State is described twice: as the data the program holds, and as a
//! mathematical model (`model`, `mutation`, `inbound`, `routing`). Every
//! operation is proved to do to the data what its model says, and the laws
//! of the models are proved in `laws`, `routing`, `protocol`, `ipc`,
//! `config` and `wire`.

pub mod client;
pub mod compiler;
pub mod config;
pub mod context;
pub mod inbound;
pub mod ipc;
pub mod json;
pub mod laws;
pub mod manager;
pub mod model;
pub mod mutation;
pub mod protocol;
pub mod reach;
pub mod routing;
pub mod screen;
pub mod session;
pub mod settings;
pub mod strmap;
pub mod text;
pub mod topology;
pub mod wire;
