//! The DNS wire codec: packets to and from a window of at most 512 bytes.

pub mod buf;
pub mod fit_law;
pub mod header;
pub mod name;
pub mod packet;
pub mod question;
pub mod record;
pub mod round_trip;
pub mod window_law;

pub use buf::{eof_err, Buf, BUF_LEN};
pub use header::{Header, ResultCode, HEADER_LEN};
pub use name::{label_len_check, MAX_JUMPS, MAX_LABEL};
pub use question::{Query, Question};
pub use record::{Answer, Record};
pub use packet::Packet;
