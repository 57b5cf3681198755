//! Core of an SSN IoT gateway: a length-prefixed, checksum-protected text
//! framing protocol over an arbitrary byte transport, with its CRC16 codec,
//! topic parsing, device-reference extraction and configuration data model.

pub mod crc16;
pub mod actions;
pub mod config;
pub mod database;
pub mod pdu;
pub mod topic;
