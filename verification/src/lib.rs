//! Verified core of the Mininet economy, erasure-coding and desktop helpers.
pub mod gf256;
pub mod poly;
pub mod matrix;
pub mod erasure;
pub mod health;
pub mod economy_error;
pub mod amount;
pub mod issuance;
pub mod cadence;
pub mod lexorder;
pub mod ledger;
pub mod snapshot;
pub mod scalable_epoch_wire;
pub mod econ_sim;
pub mod commitment;
pub mod engagement;
pub mod genesis;
pub mod privacy;
pub mod video;
pub mod text;
pub mod timeline;
pub mod player;
pub mod library;
pub mod catalog;
pub mod discussion;
pub mod network_session;
pub mod conversation_state;
pub mod credit;
pub mod records;
pub mod did;
pub mod mute_list;
pub mod connectivity;
pub mod peer_link;
pub mod netsearch;
pub mod profile_fields;
pub mod theme;
pub mod bundle;
pub mod app_service;
