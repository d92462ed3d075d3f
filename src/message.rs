use vstd::prelude::*;

verus! {

/// The latest instant, in seconds, that the engine accepts as "now".
pub const MAX_TIMESTAMP: i64 = 1_000_000_000_000_000;

/// One message of a queue, as stored in its table.
#[derive(Debug, Clone, PartialEq, Eq)]
pub struct Message {
    /// Identifier, strictly increasing in enqueue order within its queue.
    pub msg_id: i64,
    /// How many times the message has been claimed.
    pub read_ct: i32,
    /// The instant, in seconds, from which the message can be claimed again.
    pub vt: i64,
    /// The instant, in seconds, at which the message was enqueued.
    pub enqueued_at: i64,
    /// The payload, as JSON text.
    pub message: String,
}

/// A message can be claimed at `now` when its visible time has come.
pub open spec fn visible(m: Message, now: int) -> bool {
    m.vt <= now
}

/// The read count after one more claim; it stays at the largest `i32`.
pub open spec fn bumped_read_ct(c: i32) -> i32 {
    if c < i32::MAX {
        (c + 1) as i32
    } else {
        c
    }
}

/// The message as a claim leaves it: hidden until `vt`, read once more.
pub open spec fn claimed(m: Message, vt: i64) -> Message {
    Message { vt, read_ct: bumped_read_ct(m.read_ct), ..m }
}

/// A timestamp that the engine accepts as the current time.
pub open spec fn valid_now(now: i64) -> bool {
    0 <= now <= MAX_TIMESTAMP
}

/// The visible time that a claim at `now` with offset `offset` sets.
pub open spec fn hidden_until(now: i64, offset: i32) -> i64 {
    (now + offset) as i64
}

/// The message as enqueue writes it: visible at once and never read.
pub open spec fn is_fresh(m: Message, msg_id: i64, payload: Seq<char>, now: i64) -> bool {
    &&& m.msg_id == msg_id
    &&& m.read_ct == 0
    &&& m.vt == now
    &&& m.enqueued_at == now
    &&& m.message@ == payload
}

/// An independent copy of a message.
pub fn copy_message(m: &Message) -> (r: Message)
    ensures
        r == *m,
{
    Message {
        msg_id: m.msg_id,
        read_ct: m.read_ct,
        vt: m.vt,
        enqueued_at: m.enqueued_at,
        message: m.message.clone(),
    }
}

} // verus!
