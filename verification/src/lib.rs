//! A minimal authoritative DNS responder: the wire-format codec for the
//! message subset it speaks, and the resolution of questions against a
//! loaded set of zone records.
//!
//! A datagram comes in as bytes, is decoded into a header and its questions
//! (`message`, `header`, `question`, `name`), each question is matched
//! against the records of the zone and answered from one of them (`resolver`,
//! `record`), and the response is encoded into the bytes that go back. The
//! records are loaded from lines of text (`zone`).
//!
//! Bytes are read and written through the reader and the buffer of the
//! `bytebuffer` crate. What is believed of them is stated in `cursor`; what
//! follows from it is proved in `bits`. `roundtrip` proves that what is
//! written is read back.

pub mod answer;
pub mod bits;
pub mod cursor;
pub mod error;
pub mod header;
pub mod message;
pub mod name;
pub mod question;
pub mod record;
pub mod resolver;
pub mod roundtrip;
pub mod types;
pub mod zone;

pub use answer::Answer;
pub use error::DnsError;
pub use header::DnsHeader;
pub use header::Flags;
pub use message::DnsQuery;
pub use name::none_if_zero;
pub use question::Question;
pub use record::DnsRecord;
pub use types::QClass;
pub use types::QType;
