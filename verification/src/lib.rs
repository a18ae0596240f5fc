//! Keys of the Avalanche network that are held in memory: how they are made, written down as text
//! and read back, which addresses they have, and which outputs they can spend.

pub mod base58;
pub mod constants;
pub mod curve;
pub mod eip55;
pub mod error;
pub mod formatting;
pub mod hashing;
pub mod hexadecimal;
pub mod ids;
pub mod keychain;
pub mod numeral;
pub mod prefix;
pub mod secp256k1fx;
pub mod soft_key;
pub mod text;
