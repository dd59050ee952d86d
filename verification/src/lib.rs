//! Deferred, time-triggered execution of on-chain transactions.
//!
//! A trigger is an object on chain that asks for a call to be made once a
//! time has come. This library keeps the index of the triggers that are
//! pending, by the time at which each is due, and turns a trigger into the
//! transaction it asks for by reading the objects it names.
//!
//! - [`autonomous_execution_store`]: the index: buckets of triggers by time,
//!   the time of each trigger, and the watermark up to which the index was
//!   asked. [`schedule`] holds its mathematics and the laws of it.
//! - [`materialize`]: the rules by which a trigger becomes a transaction.
//! - [`auto_executable_transaction`]: triggers, their bytes on chain, and the
//!   transactions made from them.
//! - [`auto_execution`]: the log of the transactions that were made.
//! - [`execution_cache`]: the object store as the index reads it.
//! - [`object`], [`transaction`], [`language_storage`], [`base_types`]: the
//!   objects, transactions, types and identifiers that all of this is about.
//! - [`wire`]: the canonical encoding of integers and byte strings.
//! - [`crypto`]: the hash function under every digest.
//! - [`grouping`]: entries grouped by time, and buckets in an ordered map.
//! - [`ev_struct_mod`], [`object_authenticator`], [`utils`]: the index of
//!   modules that emitted events, the authenticator of transactions that an
//!   object sends, and the steps of waiting for a server.
pub mod auto_executable_transaction;
pub mod auto_execution;
pub mod autonomous_execution_store;
pub mod base_types;
pub mod crypto;
pub mod error;
pub mod ev_struct_mod;
pub mod execution_cache;
pub mod grouping;
pub mod language_storage;
pub mod materialize;
pub mod object;
pub mod object_authenticator;
pub mod schedule;
pub mod transaction;
pub mod utils;
pub mod wire;
