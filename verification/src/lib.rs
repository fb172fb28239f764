//! Verified core of a CAN-to-TCP gateway speaking the Yacht Devices RAW text protocol.
pub mod text;
pub mod number;
pub mod raw;
pub mod frame;
pub mod gateway;
