//! A live competition tracker: teams join, submit puzzle solutions and are
//! ranked, an administrator defines the puzzles, and the whole state is kept
//! in memory and snapshotted to an encrypted file.
//!
//! The store ([`store`]) is the source of truth. What it stands for, and
//! what each operation makes of it, is written down as mathematics in
//! [`state`]; what follows when operations are made one after the other is
//! proved in [`behaviour`]. [`endpoints`] offers the operations to a
//! transport that knows sessions by their cookie ([`session`]), and
//! [`ranking`] puts teams and puzzles into their order of presentation.
//!
//! A snapshot ([`snapshot`]) is written as bytes by a fixed schema
//! ([`schema`], [`wire`]), sealed with a key derived from the
//! administrator's password ([`kdf`], [`cipher`]), and loaded again at
//! startup ([`persist`]).
//!
//! [`client`] and [`import`] hold what a client decides before and after
//! it talks to the server.

pub mod assoc;
pub mod behaviour;
pub mod cipher;
pub mod client;
pub mod endpoints;
pub mod entropy;
pub mod error;
pub mod import;
pub mod kdf;
pub mod models;
pub mod persist;
pub mod ranking;
pub mod schema;
pub mod session;
pub mod snapshot;
pub mod state;
pub mod store;
pub mod tables;
pub mod text;
pub mod wire;
