//! The recording core of a peer-to-peer traffic inspector: it cuts a captured
//! byte stream into chunks, decrypts them under a strictly ordered nonce, runs
//! the plaintext through the staged message parser, and keeps what was decoded
//! in an indexed store that answers filtered, cursor-paginated queries.
//!
//! The connection side: [`orchestrator`] decides to which connection a packet
//! goes; [`decrypter`] holds the state of one direction of a connection, with
//! its [`framer`], its [`nonce`] and its [`parser`].
//!
//! The store side: [`db`] holds the tables of [`tables`] and answers the
//! queries of [`query`], which it reads through the scans of [`index`] and the
//! walk of [`sorted_intersect`]; [`text`] reads the lists and numbers of a query.
//!
//! Beside them, [`events`] reads the records of a memory trace of the kernel,
//! and [`consumer`] decides on them.

pub mod common;
pub mod consumer;
pub mod db;
pub mod decrypter;
pub mod events;
pub mod framer;
pub mod index;
pub mod nonce;
pub mod orchestrator;
pub mod parser;
pub mod query;
pub mod sorted_intersect;
pub mod tables;
pub mod text;
