use vstd::prelude::*;

verus! {

/// One immutable chat entry. The four opaque fields (`user`, `user_iv`,
/// `content`, `iv`) are client ciphertext material and are stored and
/// returned verbatim; `id` and `timestamp` are assigned by the store.
#[derive(Debug, Clone)]
pub struct Message {
    pub id: usize,
    pub room: String,
    pub user: String,
    pub user_iv: String,
    pub content: String,
    pub iv: String,
    pub timestamp: String,
}

/// The caller-supplied part of a message, before the store assigns
/// an id and a timestamp.
#[derive(Debug)]
pub struct NewMessage {
    pub user: String,
    pub user_iv: String,
    pub content: String,
    pub iv: String,
}

/// Query parameters for reading a room: filter, sort and paginate.
#[derive(Debug)]
pub struct MsgQuery {
    pub sort: Option<String>,
    pub order: Option<String>,
    pub since_id: Option<usize>,
    pub since_ts: Option<String>,
    pub limit: Option<usize>,
}

/// Per-field maximum lengths, loaded once at process start and handed
/// to the store as opaque bounds to enforce at acceptance time.
#[derive(Debug, Clone, Copy)]
pub struct Limits {
    pub max_user_len: usize,
    pub max_iv_len: usize,
    pub max_content_len: usize,
}

/// Why a write request was rejected before anything was persisted.
#[derive(Debug, PartialEq, Eq, Structural)]
pub enum ApiError {
    /// The room identifier is not 16 lowercase hex digits.
    InvalidRoom,
    /// A field exceeds its configured maximum length.
    PayloadRejected,
}

/// The mathematical content of a message: its id and the views of its
/// string fields.
pub open spec fn msg_tuple(m: Message) -> (
    usize,
    Seq<char>,
    Seq<char>,
    Seq<char>,
    Seq<char>,
    Seq<char>,
    Seq<char>,
) {
    (m.id, m.room@, m.user@, m.user_iv@, m.content@, m.iv@, m.timestamp@)
}

} // verus!
