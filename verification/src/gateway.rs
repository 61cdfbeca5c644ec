//! Messages between the network gateway and the matching pipeline, and the checks the
//! gateway applies to each inbound order.
use vstd::prelude::*;
use std::time::Instant;
use crate::types::{Order, OrderType, ServerMessage, ORDER_MAGIC};

verus! {

#[verifier::external_type_specification]
#[verifier::external_body]
pub struct ExInstant(Instant);

#[derive(Debug, Clone, Copy)]
pub struct InboundMessage {
    pub order: Order,
    pub ingress_instant: Instant,
    pub client_id: u64,
}

#[derive(Debug, Clone)]
pub enum OutboundEvent {
    ClientAck { client_id: u64, msg: ServerMessage },
    ClientReject { client_id: u64, msg: ServerMessage },
    ClientCancelOk { client_id: u64, msg: ServerMessage },
    TradeFill {
        taker_client_id: u64,
        maker_client_id: u64,
        taker_msg: ServerMessage,
        maker_msg: ServerMessage,
    },
    BboBroadcast { msg: ServerMessage },
}

/// What the gateway forwards of an inbound order (already in native byte order):
/// nothing when its magic is wrong, which ends the connection; otherwise the order,
/// where anything but a cancel has its id cleared for the engine to assign, the
/// client's id being kept as its client order id (the id itself when none was
/// given).
pub open spec fn spec_admit(order: Order) -> Option<Order> {
    if order.magic != ORDER_MAGIC {
        None
    } else if order.spec_kind() == OrderType::Cancel {
        Some(order)
    } else {
        Some(
            Order {
                client_order_id: if order.client_order_id == 0 {
                    order.id
                } else {
                    order.client_order_id
                },
                id: 0,
                ..order
            },
        )
    }
}

pub fn admit_inbound(order: Order) -> (r: Option<Order>)
    ensures
        r == spec_admit(order),
{
    if order.magic != ORDER_MAGIC {
        return None;
    }
    let mut order = order;
    let kind = order.kind();
    if !matches!(kind, OrderType::Cancel) {
        if order.client_order_id == 0 {
            order.client_order_id = order.id;
        }
        order.id = 0;
    }
    Some(order)
}


/// The gateway changes only ids: a frame with the wrong magic is dropped; anything
/// admitted keeps its user, side, kind, symbol, price and quantity; a cancel passes
/// unchanged; any other order reaches the engine without an exchange id but with a
/// client order id, the client's own or else the id it sent, so no id it carried is
/// lost.
pub proof fn lemma_admit_keeps_terms(order: Order)
    ensures
        (spec_admit(order) is None) == (order.magic != ORDER_MAGIC),
        spec_admit(order) matches Some(a) ==> {
            &&& a.user_id == order.user_id && a.side == order.side && a.order_type == order.order_type
            &&& a.symbol_id == order.symbol_id && a.price == order.price && a.qty == order.qty
            &&& a.magic == order.magic
            &&& order.spec_kind() == OrderType::Cancel ==> a == order
            &&& order.spec_kind() != OrderType::Cancel ==> {
                &&& a.id == 0
                &&& order.client_order_id != 0 ==> a.client_order_id == order.client_order_id
                &&& order.client_order_id == 0 ==> a.client_order_id == order.id
            }
        },
{
}
} // verus!
