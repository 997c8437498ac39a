//! Reconstructs SIP conversations from a SIP stack's wire-level trace dumps.
//!
//! A dump interleaves every byte read from or written to a socket, each
//! operation framed by an ASCII header line and a sentinel byte pair. Three
//! layers recover the traffic: the frame decoder cuts the byte stream into
//! per-operation records, the message reassembler stitches stream-transport
//! records back into whole SIP messages, and the SIP parser breaks a message
//! into start line, headers, body, and multipart body parts.

pub mod ascii;
pub mod frame;
pub mod grep;
pub mod message;
pub mod search;
pub mod sip;
pub mod types;

pub use frame::FrameIterator;
pub use frame::ParseError;
pub use grep::GrepFilter;
pub use message::MessageIterator;
pub use sip::ParsedMessageIterator;
pub use types::Direction;
pub use types::Frame;
pub use types::MimePart;
pub use types::ParsedSipMessage;
pub use types::SipMessage;
pub use types::SipMessageType;
pub use types::Timestamp;
pub use types::Transport;
