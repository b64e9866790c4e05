//! lan_mesh: the networking engine of a small self-hosted peer-to-peer
//! virtual LAN, with its wire formats, peer table and policy rules stated
//! as contracts and proved.

pub mod text;
pub mod net;
pub mod proto;
pub mod gossip;
pub mod dns;
pub mod stun;
pub mod config;
pub mod peer;
pub mod mesh;
pub mod hosts;
pub mod registry;
pub mod crypto;
pub mod share;
pub mod updater;
pub mod gui;
pub mod cli;
pub mod browser;
pub mod autostart;
pub mod probe;
pub mod logsink;
