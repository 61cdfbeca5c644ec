//! Framed binary messages of the order-entry protocol: a tag byte followed by the
//! fields of the message in little-endian order.
use vstd::prelude::*;
use crate::wire::{
    from_le32, from_le64, le32, le64, lemma_le32_canonical, lemma_le32_roundtrip,
    lemma_le64_canonical, lemma_le64_roundtrip, push_le32, push_le64, read_le32, read_le64,
};

verus! {

/// Tag byte of a new-order frame.
pub const NEW_ORDER_TAG: u8 = 0;

/// Tag byte of a cancel frame.
pub const CANCEL_TAG: u8 = 1;

/// Length in bytes of a new-order frame.
pub const NEW_ORDER_FRAME_LEN: usize = 38;

/// Length in bytes of a cancel frame.
pub const CANCEL_FRAME_LEN: usize = 21;

#[derive(Debug, Clone, Copy, PartialEq, Eq, Structural)]
pub enum Side {
    Buy,
    Sell,
}

#[derive(Debug, Clone, Copy, PartialEq, Eq, Structural)]
pub struct NewOrder {
    pub order_id: u64,
    pub instrument: u32,
    pub side: Side,
    pub price: u64,
    pub qty: u64,
    pub ts_ns: u64,
}

#[derive(Debug, Clone, Copy, PartialEq, Eq, Structural)]
pub struct Cancel {
    pub order_id: u64,
    pub instrument: u32,
    pub ts_ns: u64,
}

#[derive(Debug, Clone, Copy, PartialEq, Eq, Structural)]
pub enum Message {
    NewOrder(NewOrder),
    Cancel(Cancel),
}

/// The byte that encodes a side: 0 for buy, 1 for sell.
pub open spec fn side_byte(s: Side) -> u8 {
    match s {
        Side::Buy => 0,
        Side::Sell => 1,
    }
}

/// The frame of a message: its tag, then its fields in declaration order.
pub open spec fn encode(m: Message) -> Seq<u8> {
    match m {
        Message::NewOrder(o) => seq![NEW_ORDER_TAG] + le64(o.order_id) + le32(o.instrument) + seq![
            side_byte(o.side)] + le64(o.price) + le64(o.qty) + le64(o.ts_ns),
        Message::Cancel(c) => seq![CANCEL_TAG] + le64(c.order_id) + le32(c.instrument) + le64(
            c.ts_ns),
    }
}

/// The message a frame holds: `None` unless the frame has the exact length its tag
/// calls for and, for a new order, a side byte of 0 or 1.
pub open spec fn decode(b: Seq<u8>) -> Option<Message> {
    if b.len() == NEW_ORDER_FRAME_LEN && b[0] == NEW_ORDER_TAG && (b[13] == 0 || b[13] == 1) {
        Some(
            Message::NewOrder(
                NewOrder {
                    order_id: from_le64(b.subrange(1, 9)),
                    instrument: from_le32(b.subrange(9, 13)),
                    side: if b[13] == 0 {
                        Side::Buy
                    } else {
                        Side::Sell
                    },
                    price: from_le64(b.subrange(14, 22)),
                    qty: from_le64(b.subrange(22, 30)),
                    ts_ns: from_le64(b.subrange(30, 38)),
                },
            ),
        )
    } else if b.len() == CANCEL_FRAME_LEN && b[0] == CANCEL_TAG {
        Some(
            Message::Cancel(
                Cancel {
                    order_id: from_le64(b.subrange(1, 9)),
                    instrument: from_le32(b.subrange(9, 13)),
                    ts_ns: from_le64(b.subrange(13, 21)),
                },
            ),
        )
    } else {
        None
    }
}

impl Message {
    /// The frame of this message.
    pub fn to_binary(&self) -> (r: Vec<u8>)
        ensures
            r@ == encode(*self),
    {
        let mut v: Vec<u8> = Vec::new();
        match self {
            Message::NewOrder(o) => {
                v.push(NEW_ORDER_TAG);
                push_le64(&mut v, o.order_id);
                push_le32(&mut v, o.instrument);
                let sb: u8 = match o.side {
                    Side::Buy => 0,
                    Side::Sell => 1,
                };
                v.push(sb);
                push_le64(&mut v, o.price);
                push_le64(&mut v, o.qty);
                push_le64(&mut v, o.ts_ns);
            },
            Message::Cancel(c) => {
                v.push(CANCEL_TAG);
                push_le64(&mut v, c.order_id);
                push_le32(&mut v, c.instrument);
                push_le64(&mut v, c.ts_ns);
            },
        }
        v
    }

    /// The message that `bytes` frames, or `None` when it is not a well-formed frame.
    pub fn try_from_binary(bytes: &[u8]) -> (r: Option<Message>)
        ensures
            r == decode(bytes@),
    {
        let n = bytes.len();
        if n == NEW_ORDER_FRAME_LEN && bytes[0] == NEW_ORDER_TAG && (bytes[13] == 0 || bytes[13]
            == 1) {
            let side = if bytes[13] == 0 {
                Side::Buy
            } else {
                Side::Sell
            };
            Some(
                Message::NewOrder(
                    NewOrder {
                        order_id: read_le64(bytes, 1),
                        instrument: read_le32(bytes, 9),
                        side,
                        price: read_le64(bytes, 14),
                        qty: read_le64(bytes, 22),
                        ts_ns: read_le64(bytes, 30),
                    },
                ),
            )
        } else if n == CANCEL_FRAME_LEN && bytes[0] == CANCEL_TAG {
            Some(
                Message::Cancel(
                    Cancel {
                        order_id: read_le64(bytes, 1),
                        instrument: read_le32(bytes, 9),
                        ts_ns: read_le64(bytes, 13),
                    },
                ),
            )
        } else {
            None
        }
    }

    /// The message that a well-formed frame holds.
    pub fn from_binary(bytes: &[u8]) -> (r: Message)
        requires
            decode(bytes@) is Some,
        ensures
            decode(bytes@) == Some(r),
    {
        match Self::try_from_binary(bytes) {
            Some(m) => m,
            None => {
                proof {
                    assert(false);
                }
                Message::Cancel(Cancel { order_id: 0, instrument: 0, ts_ns: 0 })
            },
        }
    }
}

/// Decoding the frame of a message gives that message back.
pub proof fn lemma_decode_encode(m: Message)
    ensures
        decode(encode(m)) == Some(m),
{
    let b = encode(m);
    match m {
        Message::NewOrder(o) => {
            lemma_le64_roundtrip(o.order_id);
            lemma_le32_roundtrip(o.instrument);
            lemma_le64_roundtrip(o.price);
            lemma_le64_roundtrip(o.qty);
            lemma_le64_roundtrip(o.ts_ns);
            assert(b.subrange(1, 9) =~= le64(o.order_id));
            assert(b.subrange(9, 13) =~= le32(o.instrument));
            assert(b.subrange(14, 22) =~= le64(o.price));
            assert(b.subrange(22, 30) =~= le64(o.qty));
            assert(b.subrange(30, 38) =~= le64(o.ts_ns));
            assert(b[13] == side_byte(o.side));
        },
        Message::Cancel(c) => {
            lemma_le64_roundtrip(c.order_id);
            lemma_le32_roundtrip(c.instrument);
            lemma_le64_roundtrip(c.ts_ns);
            assert(b.subrange(1, 9) =~= le64(c.order_id));
            assert(b.subrange(9, 13) =~= le32(c.instrument));
            assert(b.subrange(13, 21) =~= le64(c.ts_ns));
        },
    }
}

/// A frame is the only one that decodes to its message: encoding what was decoded
/// gives the same bytes back.
pub proof fn lemma_encode_decode(b: Seq<u8>)
    requires
        decode(b) is Some,
    ensures
        encode(decode(b)->0) == b,
{
    let m = decode(b)->0;
    if b.len() == NEW_ORDER_FRAME_LEN && b[0] == NEW_ORDER_TAG && (b[13] == 0 || b[13] == 1) {
        lemma_le64_canonical(b.subrange(1, 9));
        lemma_le32_canonical(b.subrange(9, 13));
        lemma_le64_canonical(b.subrange(14, 22));
        lemma_le64_canonical(b.subrange(22, 30));
        lemma_le64_canonical(b.subrange(30, 38));
        let e = encode(m);
        assert(e.len() == b.len());
        assert forall|i: int| 0 <= i < b.len() implies e[i] == b[i] by {
            if 1 <= i < 9 {
                assert(e[i] == b.subrange(1, 9)[i - 1]);
            } else if 9 <= i < 13 {
                assert(e[i] == b.subrange(9, 13)[i - 9]);
            } else if 14 <= i < 22 {
                assert(e[i] == b.subrange(14, 22)[i - 14]);
            } else if 22 <= i < 30 {
                assert(e[i] == b.subrange(22, 30)[i - 22]);
            } else if 30 <= i < 38 {
                assert(e[i] == b.subrange(30, 38)[i - 30]);
            }
        }
        assert(e =~= b);
    } else {
        lemma_le64_canonical(b.subrange(1, 9));
        lemma_le32_canonical(b.subrange(9, 13));
        lemma_le64_canonical(b.subrange(13, 21));
        let e = encode(m);
        assert(e.len() == b.len());
        assert forall|i: int| 0 <= i < b.len() implies e[i] == b[i] by {
            if 1 <= i < 9 {
                assert(e[i] == b.subrange(1, 9)[i - 1]);
            } else if 9 <= i < 13 {
                assert(e[i] == b.subrange(9, 13)[i - 9]);
            } else if 13 <= i < 21 {
                assert(e[i] == b.subrange(13, 21)[i - 13]);
            }
        }
        assert(e =~= b);
    }
}

} // verus!
