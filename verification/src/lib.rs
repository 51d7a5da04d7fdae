//! Rateless file transfer: fountain codec, wire protocol, symbol encryption,
//! relay routing and the sender/receiver session logic.
//!
//! The crate holds the decisions and computations of a transfer. Sockets,
//! timers and floating-point tables are the caller's: they come in as plain
//! values and events, and what is to be done about them goes out the same way.
pub mod address;
pub mod bindings;
pub mod blocks;
pub mod buffers;
pub mod checksum;
pub mod coding;
pub mod conduct;
pub mod crypto;
pub mod decoder;
pub mod encoder;
pub mod endian;
pub mod framing;
pub mod layout;
pub mod peel;
pub mod precode;
pub mod progress;
pub mod receiver;
pub mod recovery;
pub mod relay;
pub mod routing;
pub mod sampling;
pub mod scheduler;
pub mod sender;
pub mod simd;
pub mod soliton;
pub mod stream;
pub mod transfer;
pub mod wire;

pub use crypto::{CryptoError, SessionCipher};
pub use decoder::{DecoderError, FountainDecoder};
pub use encoder::{EncodedSymbol, FountainEncoder};
pub use receiver::ReceiverSession;
pub use relay::RelayCore;
pub use scheduler::MultiPathScheduler;
pub use sender::SenderSession;
pub use wire::{OrbitMessage, ProtocolError};
