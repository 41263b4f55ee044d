//! Kaboodle keeps track of the peers of a local network with an approximation of the SWIM
//! membership gossip protocol.
pub mod action;
pub mod addr;
pub mod broadcast;
pub mod client;
pub mod crc;
pub mod discovery;
pub mod errors;
pub mod events;
pub mod fingerprint;
pub mod gossip;
pub mod gossip_laws;
pub mod gossip_steps;
pub mod hosts;
pub mod identity;
pub mod kaboodle;
pub mod laws;
pub mod listing;
pub mod map;
pub mod mdns;
pub mod messages;
pub mod networking;
pub mod observable_hashmap;
pub mod random;
pub mod records;
pub mod report;
pub mod round;
pub mod runs;
pub mod steps;
pub mod structs;
pub mod suspicion;
pub mod table;
pub mod text;
pub mod time;
pub mod trimming;
pub mod wording;

pub use client::Kaboodle;
