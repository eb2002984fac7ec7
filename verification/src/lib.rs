//! NTRIP caster and rover logic: RTCM 3 framing and decoding, the NTRIP v1
//! handshake on both sides, and the state machines that the network and serial
//! loops run on.
pub mod advertising;
pub mod bits;
pub mod caster;
pub mod crc;
pub mod credentials;
pub mod decoding;
pub mod framing;
pub mod gnss;
pub mod handshake;
pub mod listing;
pub mod protocol;
pub mod rover;
pub mod rtcm;
pub mod selftest;
pub mod serial;
pub mod text;
pub mod tracking;
pub mod writing;
