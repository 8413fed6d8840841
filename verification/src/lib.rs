//! Storing the JSON messages of a publish/subscribe broker as rows of a
//! relational store, with tables that grow as the messages do.
//!
//! A message arrives on a topic. The topic names the table ([`db::MQTable`]),
//! and the payload, a JSON object, becomes a row ([`mapper`]): one cell for
//! each member, and the payload itself and the time of arrival beside them.
//! The rows of one cycle are grouped by table ([`batcher`]). Before a group
//! is inserted, the [`manager`] says which columns the table still lacks;
//! the statements that create the table, add the columns and insert the rows
//! are built in [`db`].
//!
//! The library decides and builds; it neither listens to a broker nor talks
//! to a store. Whoever runs it carries out what it asks for, in the order in
//! which it asks.

pub mod batcher;
pub mod db;
pub mod manager;
pub mod mapper;
pub mod text;
pub mod utils;
