//! A small multi-user chat hub: the wire codec, rate limiting, admission
//! lists, identity and history bookkeeping, the hub registry and the
//! per-connection session rules.
pub mod allowlist;
pub mod history;
pub mod hub;
pub mod identities;
pub mod net;
pub mod protocol;
pub mod rate;
pub mod roundtrip;
pub mod session;
pub mod text;

pub use allowlist::{AllowedList, PendingEntry, PendingList};
pub use history::{HistoryItem, HistoryLog};
pub use identities::IdentityRecord;
pub use protocol::{ClientMsg, ServerMsg, MAX_LINE, MAX_NICK};
pub use rate::{RateLimiter, RateWindow};
