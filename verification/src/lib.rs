//! Acoustic modem protocol logic: frame layout, Reed-Solomon block
//! interleaving, OFDM bit layout, transfer packets and the transfer receiver.

pub mod protocol;
pub mod rs;
pub mod frame;
pub mod ofdm;
pub mod hybrid;
pub mod crypto;
pub mod app_state;
pub mod cli;
pub mod mobile;
pub mod output;
pub mod bytes;
pub mod text;
pub mod transfer;
