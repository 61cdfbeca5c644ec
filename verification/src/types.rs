//! Wire-level types shared by the gateway, the matching engine and the risk engine:
//! sides, order types, symbols, the fixed 48-byte `Order` and the fixed 64-byte
//! `ServerMessage`, together with their little-endian byte framing.
use vstd::prelude::*;
use vstd::std_specs::convert::TryFromSpecImpl;
use crate::wire::{
    from_le16, from_le64, is_le_image16, is_le_image64, le16, le64, lemma_le16_canonical,
    lemma_le16_roundtrip, lemma_le64_canonical, lemma_le64_roundtrip, push_le16, push_le64, read_le16,
    read_le64, u16_from_le, u16_to_le, u64_from_le, u64_to_le,
};

verus! {

/// Number of tradable symbols (BTC/USD, ETH/USD, SOL/USD).
pub const NUM_SYMBOLS: usize = 3;

/// Protocol framing magic carried by every order and server message ("OB").
pub const ORDER_MAGIC: u16 = 0x4F42;

/// Size in bytes of an `Order` on the wire.
pub const ORDER_WIRE_LEN: usize = 48;

/// Size in bytes of a `ServerMessage` on the wire.
pub const SERVER_MESSAGE_WIRE_LEN: usize = 64;

#[derive(Debug, Clone, Copy, PartialEq, Eq, Structural)]
pub enum Side {
    Buy,
    Sell,
}

impl Side {
    /// Wire code of the side: 0 for buy, 1 for sell.
    pub open spec fn spec_code(self) -> u8 {
        match self {
            Side::Buy => 0,
            Side::Sell => 1,
        }
    }

    pub open spec fn spec_from_code(v: u8) -> Option<Side> {
        if v == 0 {
            Some(Side::Buy)
        } else if v == 1 {
            Some(Side::Sell)
        } else {
            None
        }
    }

    pub fn code(self) -> (r: u8)
        ensures
            r == self.spec_code(),
    {
        match self {
            Side::Buy => 0,
            Side::Sell => 1,
        }
    }

    pub fn from_code(v: u8) -> (r: Option<Side>)
        ensures
            r == Side::spec_from_code(v),
    {
        if v == 0 {
            Some(Side::Buy)
        } else if v == 1 {
            Some(Side::Sell)
        } else {
            None
        }
    }
}

#[derive(Debug, Clone, Copy, PartialEq, Eq, Structural)]
pub enum OrderType {
    Limit,
    Market,
    Cancel,
    Deposit,
}

impl OrderType {
    /// Wire code of the order type: 0 limit, 1 market, 2 cancel, 3 deposit.
    pub open spec fn spec_code(self) -> u8 {
        match self {
            OrderType::Limit => 0,
            OrderType::Market => 1,
            OrderType::Cancel => 2,
            OrderType::Deposit => 3,
        }
    }

    pub open spec fn spec_from_code(v: u8) -> Option<OrderType> {
        if v == 0 {
            Some(OrderType::Limit)
        } else if v == 1 {
            Some(OrderType::Market)
        } else if v == 2 {
            Some(OrderType::Cancel)
        } else if v == 3 {
            Some(OrderType::Deposit)
        } else {
            None
        }
    }

    pub fn code(self) -> (r: u8)
        ensures
            r == self.spec_code(),
    {
        match self {
            OrderType::Limit => 0,
            OrderType::Market => 1,
            OrderType::Cancel => 2,
            OrderType::Deposit => 3,
        }
    }

    pub fn from_code(v: u8) -> (r: Option<OrderType>)
        ensures
            r == OrderType::spec_from_code(v),
    {
        if v == 0 {
            Some(OrderType::Limit)
        } else if v == 1 {
            Some(OrderType::Market)
        } else if v == 2 {
            Some(OrderType::Cancel)
        } else if v == 3 {
            Some(OrderType::Deposit)
        } else {
            None
        }
    }
}

#[derive(Debug, Clone, Copy, PartialEq, Eq, Hash, Structural)]
pub enum Symbol {
    Btc,
    Eth,
    Sol,
}

impl Symbol {
    /// Wire code of the symbol: 0 BTC, 1 ETH, 2 SOL.
    pub open spec fn spec_code(self) -> u16 {
        match self {
            Symbol::Btc => 0,
            Symbol::Eth => 1,
            Symbol::Sol => 2,
        }
    }

    pub open spec fn spec_from_code(v: u16) -> Option<Symbol> {
        if v == 0 {
            Some(Symbol::Btc)
        } else if v == 1 {
            Some(Symbol::Eth)
        } else if v == 2 {
            Some(Symbol::Sol)
        } else {
            None
        }
    }

    pub fn code(self) -> (r: u16)
        ensures
            r == self.spec_code(),
    {
        match self {
            Symbol::Btc => 0,
            Symbol::Eth => 1,
            Symbol::Sol => 2,
        }
    }

    pub fn from_code(v: u16) -> (r: Option<Symbol>)
        ensures
            r == Symbol::spec_from_code(v),
    {
        if v == 0 {
            Some(Symbol::Btc)
        } else if v == 1 {
            Some(Symbol::Eth)
        } else if v == 2 {
            Some(Symbol::Sol)
        } else {
            None
        }
    }

    /// Same as `from_code`, for a one-byte symbol code.
    pub fn from_code_u8(v: u8) -> (r: Option<Symbol>)
        ensures
            r == Symbol::spec_from_code(v as u16),
    {
        Symbol::from_code(v as u16)
    }

    /// Human-readable trading pair of the symbol.
    pub fn as_str(&self) -> (r: &'static str)
        ensures
            *self == Symbol::Btc ==> r@ == "BTC/USD"@,
            *self == Symbol::Eth ==> r@ == "ETH/USD"@,
            *self == Symbol::Sol ==> r@ == "SOL/USD"@,
    {
        match self {
            Symbol::Btc => "BTC/USD",
            Symbol::Eth => "ETH/USD",
            Symbol::Sol => "SOL/USD",
        }
    }
}

impl TryFrom<u8> for Side {
    type Error = ();

    fn try_from(v: u8) -> (r: Result<Self, Self::Error>) {
        match Side::from_code(v) {
            Some(x) => Ok(x),
            None => Err(()),
        }
    }
}

impl TryFromSpecImpl<u8> for Side {
    open spec fn obeys_try_from_spec() -> bool {
        true
    }

    open spec fn try_from_spec(v: u8) -> Result<Self, Self::Error> {
        match Side::spec_from_code(v) {
            Some(x) => Ok(x),
            None => Err(()),
        }
    }
}

impl TryFrom<u8> for OrderType {
    type Error = ();

    fn try_from(v: u8) -> (r: Result<Self, Self::Error>) {
        match OrderType::from_code(v) {
            Some(x) => Ok(x),
            None => Err(()),
        }
    }
}

impl TryFromSpecImpl<u8> for OrderType {
    open spec fn obeys_try_from_spec() -> bool {
        true
    }

    open spec fn try_from_spec(v: u8) -> Result<Self, Self::Error> {
        match OrderType::spec_from_code(v) {
            Some(x) => Ok(x),
            None => Err(()),
        }
    }
}

impl TryFrom<u16> for Symbol {
    type Error = ();

    fn try_from(v: u16) -> (r: Result<Self, Self::Error>) {
        match Symbol::from_code(v) {
            Some(x) => Ok(x),
            None => Err(()),
        }
    }
}

impl TryFromSpecImpl<u16> for Symbol {
    open spec fn obeys_try_from_spec() -> bool {
        true
    }

    open spec fn try_from_spec(v: u16) -> Result<Self, Self::Error> {
        match Symbol::spec_from_code(v) {
            Some(x) => Ok(x),
            None => Err(()),
        }
    }
}

impl TryFrom<u8> for Symbol {
    type Error = ();

    fn try_from(v: u8) -> (r: Result<Self, Self::Error>) {
        match Symbol::from_code_u8(v) {
            Some(x) => Ok(x),
            None => Err(()),
        }
    }
}

impl TryFromSpecImpl<u8> for Symbol {
    open spec fn obeys_try_from_spec() -> bool {
        true
    }

    open spec fn try_from_spec(v: u8) -> Result<Self, Self::Error> {
        match Symbol::spec_from_code(v as u16) {
            Some(x) => Ok(x),
            None => Err(()),
        }
    }
}

/// Fixed 48-byte binary order message sent from client to exchange.
#[derive(Debug, Clone, Copy, PartialEq, Eq)]
pub struct Order {
    /// Exchange-assigned order id (or a caller-chosen id for local use).
    pub id: u64,
    /// Price in cents ($100.00 = 10000).
    pub price: u64,
    /// Quantity in base lots.
    pub qty: u64,
    pub user_id: u64,
    /// Client-assigned identifier.
    pub client_order_id: u64,
    /// 0 = buy, 1 = sell.
    pub side: u8,
    /// 0 = limit, 1 = market, 2 = cancel, 3 = deposit.
    pub order_type: u8,
    /// 0 = BTC, 1 = ETH, 2 = SOL.
    pub symbol_id: u16,
    /// Protocol framing magic (`ORDER_MAGIC`).
    pub magic: u16,
    pub _padding: [u8; 2],
}

impl Default for Order {
    fn default() -> (r: Self)
        ensures
            r == (Order {
                id: 0,
                price: 0,
                qty: 0,
                user_id: 0,
                client_order_id: 0,
                side: 0,
                order_type: 0,
                symbol_id: 0,
                magic: ORDER_MAGIC,
                _padding: [0u8, 0u8],
            }),
    {
        Order {
            id: 0,
            price: 0,
            qty: 0,
            user_id: 0,
            client_order_id: 0,
            side: 0,
            order_type: 0,
            symbol_id: 0,
            magic: ORDER_MAGIC,
            _padding: [0u8, 0u8],
        }
    }
}

/// Little-endian wire image of an order (48 bytes, `repr(C)` field order).
pub open spec fn order_wire(o: Order) -> Seq<u8> {
    le64(o.id) + le64(o.price) + le64(o.qty) + le64(o.user_id) + le64(o.client_order_id)
        + seq![o.side, o.order_type] + le16(o.symbol_id) + le16(o.magic)
        + seq![o._padding[0], o._padding[1]]
}

/// The order that a 48-byte little-endian wire image denotes.
pub open spec fn order_from_wire(b: Seq<u8>) -> Order {
    Order {
        id: from_le64(b.subrange(0, 8)),
        price: from_le64(b.subrange(8, 16)),
        qty: from_le64(b.subrange(16, 24)),
        user_id: from_le64(b.subrange(24, 32)),
        client_order_id: from_le64(b.subrange(32, 40)),
        side: b[40],
        order_type: b[41],
        symbol_id: from_le16(b.subrange(42, 44)),
        magic: from_le16(b.subrange(44, 46)),
        _padding: [b[46], b[47]],
    }
}

/// Decoding the wire image of an order gives the order back.
pub proof fn lemma_order_wire_roundtrip(o: Order)
    ensures
        order_wire(o).len() == ORDER_WIRE_LEN,
        order_from_wire(order_wire(o)) == o,
{
    let w = order_wire(o);
    lemma_le64_roundtrip(o.id);
    lemma_le64_roundtrip(o.price);
    lemma_le64_roundtrip(o.qty);
    lemma_le64_roundtrip(o.user_id);
    lemma_le64_roundtrip(o.client_order_id);
    lemma_le16_roundtrip(o.symbol_id);
    lemma_le16_roundtrip(o.magic);
    assert(w.subrange(0, 8) =~= le64(o.id));
    assert(w.subrange(8, 16) =~= le64(o.price));
    assert(w.subrange(16, 24) =~= le64(o.qty));
    assert(w.subrange(24, 32) =~= le64(o.user_id));
    assert(w.subrange(32, 40) =~= le64(o.client_order_id));
    assert(w.subrange(42, 44) =~= le16(o.symbol_id));
    assert(w.subrange(44, 46) =~= le16(o.magic));
    let d = order_from_wire(w);
    assert(d._padding =~= o._padding);
}

/// Every 48-byte frame is the wire image of the order that it decodes to.
pub proof fn lemma_order_wire_canonical(b: Seq<u8>)
    requires
        b.len() == ORDER_WIRE_LEN,
    ensures
        order_wire(order_from_wire(b)) == b,
{
    let o = order_from_wire(b);
    lemma_le64_canonical(b.subrange(0, 8));
    lemma_le64_canonical(b.subrange(8, 16));
    lemma_le64_canonical(b.subrange(16, 24));
    lemma_le64_canonical(b.subrange(24, 32));
    lemma_le64_canonical(b.subrange(32, 40));
    lemma_le16_canonical(b.subrange(42, 44));
    lemma_le16_canonical(b.subrange(44, 46));
    assert(order_wire(o) =~= b);
}

impl Order {
    pub open spec fn spec_limit(id: u64, user_id: u64, symbol: Symbol, side: Side, price: u64, qty: u64, client_order_id: u64) -> Order {
        Order {
            id,
            price,
            qty,
            user_id,
            client_order_id,
            side: side.spec_code(),
            order_type: OrderType::Limit.spec_code(),
            symbol_id: symbol.spec_code(),
            magic: ORDER_MAGIC,
            _padding: [0u8, 0u8],
        }
    }

    /// A limit order whose client order id equals its id.
    pub fn new_limit(id: u64, user_id: u64, symbol: Symbol, side: Side, price: u64, qty: u64) -> (r: Self)
        ensures
            r == Order::spec_limit(id, user_id, symbol, side, price, qty, id),
    {
        Order {
            id,
            price,
            qty,
            user_id,
            client_order_id: id,
            side: side.code(),
            order_type: OrderType::Limit.code(),
            symbol_id: symbol.code(),
            magic: ORDER_MAGIC,
            _padding: [0u8, 0u8],
        }
    }

    /// A client limit order: the exchange id is left 0 for the engine to assign.
    pub fn new_client_limit(
        client_order_id: u64,
        user_id: u64,
        symbol: Symbol,
        side: Side,
        price: u64,
        qty: u64,
    ) -> (r: Self)
        ensures
            r == Order::spec_limit(0, user_id, symbol, side, price, qty, client_order_id),
    {
        Order {
            id: 0,
            price,
            qty,
            user_id,
            client_order_id,
            side: side.code(),
            order_type: OrderType::Limit.code(),
            symbol_id: symbol.code(),
            magic: ORDER_MAGIC,
            _padding: [0u8, 0u8],
        }
    }

    /// A market order; `price` carries the budget (buy) or the slippage floor (sell).
    pub fn new_market(
        id: u64,
        user_id: u64,
        symbol: Symbol,
        side: Side,
        qty: u64,
        max_spend_or_slippage_price: u64,
    ) -> (r: Self)
        ensures
            r == (Order {
                order_type: OrderType::Market.spec_code(),
                ..Order::spec_limit(id, user_id, symbol, side, max_spend_or_slippage_price, qty, id)
            }),
    {
        Order {
            id,
            price: max_spend_or_slippage_price,
            qty,
            user_id,
            client_order_id: id,
            side: side.code(),
            order_type: OrderType::Market.code(),
            symbol_id: symbol.code(),
            magic: ORDER_MAGIC,
            _padding: [0u8, 0u8],
        }
    }

    /// A cancel request for `target_id` (exchange id or client order id).
    pub fn new_cancel(target_id: u64, user_id: u64, symbol: Symbol) -> (r: Self)
        ensures
            r == (Order {
                id: target_id,
                price: 0,
                qty: 0,
                user_id,
                client_order_id: target_id,
                side: 0,
                order_type: OrderType::Cancel.spec_code(),
                symbol_id: symbol.spec_code(),
                magic: ORDER_MAGIC,
                _padding: [0u8, 0u8],
            }),
    {
        Order {
            id: target_id,
            price: 0,
            qty: 0,
            user_id,
            client_order_id: target_id,
            side: 0,
            order_type: OrderType::Cancel.code(),
            symbol_id: symbol.code(),
            magic: ORDER_MAGIC,
            _padding: [0u8, 0u8],
        }
    }

    /// A deposit record: `price` carries the USD amount, `qty` the asset amount.
    pub fn new_deposit(user_id: u64, usd_amount: u64, symbol_id: u16, asset_amount: u64) -> (r: Self)
        ensures
            r == (Order {
                id: 0,
                price: usd_amount,
                qty: asset_amount,
                user_id,
                client_order_id: 0,
                side: 0,
                order_type: OrderType::Deposit.spec_code(),
                symbol_id,
                magic: ORDER_MAGIC,
                _padding: [0u8, 0u8],
            }),
    {
        Order {
            id: 0,
            price: usd_amount,
            qty: asset_amount,
            user_id,
            client_order_id: 0,
            side: 0,
            order_type: OrderType::Deposit.code(),
            symbol_id,
            magic: ORDER_MAGIC,
            _padding: [0u8, 0u8],
        }
    }

    /// Converts every multi-byte field to little-endian byte order.
    pub fn to_le(self) -> (r: Self)
        ensures
            is_le_image64(self.id, r.id),
            is_le_image64(self.price, r.price),
            is_le_image64(self.qty, r.qty),
            is_le_image64(self.user_id, r.user_id),
            is_le_image64(self.client_order_id, r.client_order_id),
            is_le_image16(self.symbol_id, r.symbol_id),
            is_le_image16(self.magic, r.magic),
            r.side == self.side,
            r.order_type == self.order_type,
            r._padding == self._padding,
    {
        Order {
            id: u64_to_le(self.id),
            price: u64_to_le(self.price),
            qty: u64_to_le(self.qty),
            user_id: u64_to_le(self.user_id),
            client_order_id: u64_to_le(self.client_order_id),
            side: self.side,
            order_type: self.order_type,
            symbol_id: u16_to_le(self.symbol_id),
            magic: u16_to_le(self.magic),
            _padding: self._padding,
        }
    }

    /// Converts every multi-byte field from little-endian byte order.
    pub fn from_le(self) -> (r: Self)
        ensures
            is_le_image64(self.id, r.id),
            is_le_image64(self.price, r.price),
            is_le_image64(self.qty, r.qty),
            is_le_image64(self.user_id, r.user_id),
            is_le_image64(self.client_order_id, r.client_order_id),
            is_le_image16(self.symbol_id, r.symbol_id),
            is_le_image16(self.magic, r.magic),
            r.side == self.side,
            r.order_type == self.order_type,
            r._padding == self._padding,
    {
        Order {
            id: u64_from_le(self.id),
            price: u64_from_le(self.price),
            qty: u64_from_le(self.qty),
            user_id: u64_from_le(self.user_id),
            client_order_id: u64_from_le(self.client_order_id),
            side: self.side,
            order_type: self.order_type,
            symbol_id: u16_from_le(self.symbol_id),
            magic: u16_from_le(self.magic),
            _padding: self._padding,
        }
    }

    /// The 48-byte little-endian wire image of the order.
    pub fn to_wire_bytes(&self) -> (r: Vec<u8>)
        ensures
            r@ == order_wire(*self),
            r@.len() == ORDER_WIRE_LEN,
    {
        let mut v: Vec<u8> = Vec::new();
        push_le64(&mut v, self.id);
        push_le64(&mut v, self.price);
        push_le64(&mut v, self.qty);
        push_le64(&mut v, self.user_id);
        push_le64(&mut v, self.client_order_id);
        v.push(self.side);
        v.push(self.order_type);
        push_le16(&mut v, self.symbol_id);
        push_le16(&mut v, self.magic);
        v.push(self._padding[0]);
        v.push(self._padding[1]);
        assert(v@ =~= order_wire(*self));
        v
    }

    /// Decodes a 48-byte little-endian wire frame.
    pub fn from_wire_bytes(b: &[u8]) -> (r: Order)
        requires
            b@.len() == ORDER_WIRE_LEN,
        ensures
            r == order_from_wire(b@),
    {
        Order {
            id: read_le64(b, 0),
            price: read_le64(b, 8),
            qty: read_le64(b, 16),
            user_id: read_le64(b, 24),
            client_order_id: read_le64(b, 32),
            side: b[40],
            order_type: b[41],
            symbol_id: read_le16(b, 42),
            magic: read_le16(b, 44),
            _padding: [b[46], b[47]],
        }
    }

    pub fn get_side(&self) -> (r: Option<Side>)
        ensures
            r == Side::spec_from_code(self.side),
    {
        Side::from_code(self.side)
    }

    pub fn get_order_type(&self) -> (r: Option<OrderType>)
        ensures
            r == OrderType::spec_from_code(self.order_type),
    {
        OrderType::from_code(self.order_type)
    }

    pub fn get_symbol(&self) -> (r: Option<Symbol>)
        ensures
            r == Symbol::spec_from_code(self.symbol_id),
    {
        Symbol::from_code(self.symbol_id)
    }

    /// The order type, with unknown codes read as a limit order (as the engine does).
    pub open spec fn spec_kind(self) -> OrderType {
        match OrderType::spec_from_code(self.order_type) {
            Some(t) => t,
            None => OrderType::Limit,
        }
    }

    pub fn kind(&self) -> (r: OrderType)
        ensures
            r == self.spec_kind(),
    {
        match self.get_order_type() {
            Some(t) => t,
            None => OrderType::Limit,
        }
    }
}

#[derive(Debug, Clone, Copy, PartialEq, Eq, Structural)]
pub enum ServerMsgType {
    Accepted,
    Rejected,
    Filled,
    Cancelled,
    Bbo,
}

impl ServerMsgType {
    /// Wire code: 0 accepted, 1 rejected, 2 filled, 3 cancelled, 4 BBO.
    pub open spec fn spec_code(self) -> u8 {
        match self {
            ServerMsgType::Accepted => 0,
            ServerMsgType::Rejected => 1,
            ServerMsgType::Filled => 2,
            ServerMsgType::Cancelled => 3,
            ServerMsgType::Bbo => 4,
        }
    }

    pub fn code(self) -> (r: u8)
        ensures
            r == self.spec_code(),
    {
        match self {
            ServerMsgType::Accepted => 0,
            ServerMsgType::Rejected => 1,
            ServerMsgType::Filled => 2,
            ServerMsgType::Cancelled => 3,
            ServerMsgType::Bbo => 4,
        }
    }
}

#[derive(Debug, Clone, Copy, PartialEq, Eq, Structural)]
pub enum RejectReason {
    Unspecified,
    InvalidOrder,
    InsufficientFunds,
    OrderNotFound,
    Unauthorized,
    EngineFull,
    NoLiquidity,
    SelfTradePrevented,
}

impl RejectReason {
    /// Wire code of the reason, in declaration order starting at 0.
    pub open spec fn spec_code(self) -> u8 {
        match self {
            RejectReason::Unspecified => 0,
            RejectReason::InvalidOrder => 1,
            RejectReason::InsufficientFunds => 2,
            RejectReason::OrderNotFound => 3,
            RejectReason::Unauthorized => 4,
            RejectReason::EngineFull => 5,
            RejectReason::NoLiquidity => 6,
            RejectReason::SelfTradePrevented => 7,
        }
    }

    pub fn code(self) -> (r: u8)
        ensures
            r == self.spec_code(),
    {
        match self {
            RejectReason::Unspecified => 0,
            RejectReason::InvalidOrder => 1,
            RejectReason::InsufficientFunds => 2,
            RejectReason::OrderNotFound => 3,
            RejectReason::Unauthorized => 4,
            RejectReason::EngineFull => 5,
            RejectReason::NoLiquidity => 6,
            RejectReason::SelfTradePrevented => 7,
        }
    }
}

/// Fixed 64-byte binary message sent from exchange to client.
#[derive(Debug, Clone, Copy, PartialEq, Eq)]
pub struct ServerMessage {
    pub msg_type: u8,
    pub symbol_id: u8,
    pub reject_code: u8,
    pub is_maker: u8,
    /// Protocol framing magic (`ORDER_MAGIC`).
    pub magic: u16,
    pub _padding: [u8; 2],
    /// Exchange-assigned order id.
    pub order_id: u64,
    pub user_id: u64,
    pub match_id: u64,
    /// Executed price, or BBO bid price.
    pub price: u64,
    /// Executed quantity, or BBO bid quantity.
    pub qty: u64,
    /// BBO ask price, or client order id.
    pub extra_price: u64,
    /// BBO ask quantity.
    pub extra_qty: u64,
}

/// The server message with the given type and fields and all other fields zero.
pub open spec fn spec_server_message(
    msg_type: ServerMsgType,
    symbol_id: u8,
    reject_code: u8,
    is_maker: u8,
    order_id: u64,
    user_id: u64,
    match_id: u64,
    price: u64,
    qty: u64,
    extra_price: u64,
    extra_qty: u64,
) -> ServerMessage {
    ServerMessage {
        msg_type: msg_type.spec_code(),
        symbol_id,
        reject_code,
        is_maker,
        magic: ORDER_MAGIC,
        _padding: [0u8, 0u8],
        order_id,
        user_id,
        match_id,
        price,
        qty,
        extra_price,
        extra_qty,
    }
}

/// Little-endian wire image of a server message (64 bytes, `repr(C)` field order).
pub open spec fn server_message_wire(m: ServerMessage) -> Seq<u8> {
    seq![m.msg_type, m.symbol_id, m.reject_code, m.is_maker] + le16(m.magic) + seq![
        m._padding[0],
        m._padding[1],
    ] + le64(m.order_id) + le64(m.user_id) + le64(m.match_id) + le64(m.price) + le64(m.qty)
        + le64(m.extra_price) + le64(m.extra_qty)
}

/// The server message that a 64-byte little-endian wire image denotes.
pub open spec fn server_message_from_wire(b: Seq<u8>) -> ServerMessage {
    ServerMessage {
        msg_type: b[0],
        symbol_id: b[1],
        reject_code: b[2],
        is_maker: b[3],
        magic: from_le16(b.subrange(4, 6)),
        _padding: [b[6], b[7]],
        order_id: from_le64(b.subrange(8, 16)),
        user_id: from_le64(b.subrange(16, 24)),
        match_id: from_le64(b.subrange(24, 32)),
        price: from_le64(b.subrange(32, 40)),
        qty: from_le64(b.subrange(40, 48)),
        extra_price: from_le64(b.subrange(48, 56)),
        extra_qty: from_le64(b.subrange(56, 64)),
    }
}

/// Decoding the wire image of a server message gives the message back.
pub proof fn lemma_server_message_wire_roundtrip(m: ServerMessage)
    ensures
        server_message_wire(m).len() == SERVER_MESSAGE_WIRE_LEN,
        server_message_from_wire(server_message_wire(m)) == m,
{
    let w = server_message_wire(m);
    lemma_le16_roundtrip(m.magic);
    lemma_le64_roundtrip(m.order_id);
    lemma_le64_roundtrip(m.user_id);
    lemma_le64_roundtrip(m.match_id);
    lemma_le64_roundtrip(m.price);
    lemma_le64_roundtrip(m.qty);
    lemma_le64_roundtrip(m.extra_price);
    lemma_le64_roundtrip(m.extra_qty);
    assert(w.subrange(4, 6) =~= le16(m.magic));
    assert(w.subrange(8, 16) =~= le64(m.order_id));
    assert(w.subrange(16, 24) =~= le64(m.user_id));
    assert(w.subrange(24, 32) =~= le64(m.match_id));
    assert(w.subrange(32, 40) =~= le64(m.price));
    assert(w.subrange(40, 48) =~= le64(m.qty));
    assert(w.subrange(48, 56) =~= le64(m.extra_price));
    assert(w.subrange(56, 64) =~= le64(m.extra_qty));
    let d = server_message_from_wire(w);
    assert(d._padding =~= m._padding);
}

impl ServerMessage {
    pub fn client_order_id(&self) -> (r: u64)
        ensures
            r == self.extra_price,
    {
        self.extra_price
    }

    pub fn ask_price(&self) -> (r: u64)
        ensures
            r == self.extra_price,
    {
        self.extra_price
    }

    pub fn ask_qty(&self) -> (r: u64)
        ensures
            r == self.extra_qty,
    {
        self.extra_qty
    }

    /// Order accepted.
    pub fn ack(order_id: u64, client_order_id: u64, user_id: u64, symbol_id: u8) -> (r: Self)
        ensures
            r == spec_server_message(ServerMsgType::Accepted, symbol_id, 0, 0, order_id, user_id, 0, 0, 0, client_order_id, 0),
    {
        ServerMessage {
            msg_type: ServerMsgType::Accepted.code(),
            symbol_id,
            reject_code: 0,
            is_maker: 0,
            magic: ORDER_MAGIC,
            _padding: [0u8, 0u8],
            order_id,
            user_id,
            match_id: 0,
            price: 0,
            qty: 0,
            extra_price: client_order_id,
            extra_qty: 0,
        }
    }

    /// Order rejected for `reason`.
    pub fn reject(order_id: u64, client_order_id: u64, user_id: u64, symbol_id: u8, reason: RejectReason) -> (r: Self)
        ensures
            r == spec_server_message(ServerMsgType::Rejected, symbol_id, reason.spec_code(), 0, order_id, user_id, 0, 0, 0, client_order_id, 0),
    {
        ServerMessage {
            msg_type: ServerMsgType::Rejected.code(),
            symbol_id,
            reject_code: reason.code(),
            is_maker: 0,
            magic: ORDER_MAGIC,
            _padding: [0u8, 0u8],
            order_id,
            user_id,
            match_id: 0,
            price: 0,
            qty: 0,
            extra_price: client_order_id,
            extra_qty: 0,
        }
    }

    /// Execution report for one side of a trade.
    pub fn fill(
        order_id: u64,
        client_order_id: u64,
        user_id: u64,
        symbol_id: u8,
        match_id: u64,
        price: u64,
        qty: u64,
        is_maker: bool,
    ) -> (r: Self)
        ensures
            r == spec_server_message(ServerMsgType::Filled, symbol_id, 0, if is_maker { 1 } else { 0 }, order_id, user_id, match_id, price, qty, client_order_id, 0),
    {
        ServerMessage {
            msg_type: ServerMsgType::Filled.code(),
            symbol_id,
            reject_code: 0,
            is_maker: if is_maker { 1 } else { 0 },
            magic: ORDER_MAGIC,
            _padding: [0u8, 0u8],
            order_id,
            user_id,
            match_id,
            price,
            qty,
            extra_price: client_order_id,
            extra_qty: 0,
        }
    }

    /// Cancel confirmation with the quantity that was still unexecuted.
    pub fn cancel_ok(order_id: u64, client_order_id: u64, user_id: u64, symbol_id: u8, unexecuted_qty: u64) -> (r: Self)
        ensures
            r == spec_server_message(ServerMsgType::Cancelled, symbol_id, 0, 0, order_id, user_id, 0, 0, unexecuted_qty, client_order_id, 0),
    {
        ServerMessage {
            msg_type: ServerMsgType::Cancelled.code(),
            symbol_id,
            reject_code: 0,
            is_maker: 0,
            magic: ORDER_MAGIC,
            _padding: [0u8, 0u8],
            order_id,
            user_id,
            match_id: 0,
            price: 0,
            qty: unexecuted_qty,
            extra_price: client_order_id,
            extra_qty: 0,
        }
    }

    /// Best bid and offer broadcast.
    pub fn bbo(symbol_id: u8, bid_price: u64, bid_qty: u64, ask_price: u64, ask_qty: u64) -> (r: Self)
        ensures
            r == spec_server_message(ServerMsgType::Bbo, symbol_id, 0, 0, 0, 0, 0, bid_price, bid_qty, ask_price, ask_qty),
    {
        ServerMessage {
            msg_type: ServerMsgType::Bbo.code(),
            symbol_id,
            reject_code: 0,
            is_maker: 0,
            magic: ORDER_MAGIC,
            _padding: [0u8, 0u8],
            order_id: 0,
            user_id: 0,
            match_id: 0,
            price: bid_price,
            qty: bid_qty,
            extra_price: ask_price,
            extra_qty: ask_qty,
        }
    }

    /// Converts every multi-byte field to little-endian byte order.
    pub fn to_le(self) -> (r: Self)
        ensures
            is_le_image16(self.magic, r.magic),
            is_le_image64(self.order_id, r.order_id),
            is_le_image64(self.user_id, r.user_id),
            is_le_image64(self.match_id, r.match_id),
            is_le_image64(self.price, r.price),
            is_le_image64(self.qty, r.qty),
            is_le_image64(self.extra_price, r.extra_price),
            is_le_image64(self.extra_qty, r.extra_qty),
            r.msg_type == self.msg_type,
            r.symbol_id == self.symbol_id,
            r.reject_code == self.reject_code,
            r.is_maker == self.is_maker,
            r._padding == self._padding,
    {
        ServerMessage {
            msg_type: self.msg_type,
            symbol_id: self.symbol_id,
            reject_code: self.reject_code,
            is_maker: self.is_maker,
            magic: u16_to_le(self.magic),
            _padding: self._padding,
            order_id: u64_to_le(self.order_id),
            user_id: u64_to_le(self.user_id),
            match_id: u64_to_le(self.match_id),
            price: u64_to_le(self.price),
            qty: u64_to_le(self.qty),
            extra_price: u64_to_le(self.extra_price),
            extra_qty: u64_to_le(self.extra_qty),
        }
    }

    /// Converts every multi-byte field from little-endian byte order.
    pub fn from_le(self) -> (r: Self)
        ensures
            is_le_image16(self.magic, r.magic),
            is_le_image64(self.order_id, r.order_id),
            is_le_image64(self.user_id, r.user_id),
            is_le_image64(self.match_id, r.match_id),
            is_le_image64(self.price, r.price),
            is_le_image64(self.qty, r.qty),
            is_le_image64(self.extra_price, r.extra_price),
            is_le_image64(self.extra_qty, r.extra_qty),
            r.msg_type == self.msg_type,
            r.symbol_id == self.symbol_id,
            r.reject_code == self.reject_code,
            r.is_maker == self.is_maker,
            r._padding == self._padding,
    {
        ServerMessage {
            msg_type: self.msg_type,
            symbol_id: self.symbol_id,
            reject_code: self.reject_code,
            is_maker: self.is_maker,
            magic: u16_from_le(self.magic),
            _padding: self._padding,
            order_id: u64_from_le(self.order_id),
            user_id: u64_from_le(self.user_id),
            match_id: u64_from_le(self.match_id),
            price: u64_from_le(self.price),
            qty: u64_from_le(self.qty),
            extra_price: u64_from_le(self.extra_price),
            extra_qty: u64_from_le(self.extra_qty),
        }
    }

    /// The 64-byte little-endian wire image of the message.
    pub fn to_wire_bytes(&self) -> (r: Vec<u8>)
        ensures
            r@ == server_message_wire(*self),
            r@.len() == SERVER_MESSAGE_WIRE_LEN,
    {
        let mut v: Vec<u8> = Vec::new();
        v.push(self.msg_type);
        v.push(self.symbol_id);
        v.push(self.reject_code);
        v.push(self.is_maker);
        push_le16(&mut v, self.magic);
        v.push(self._padding[0]);
        v.push(self._padding[1]);
        push_le64(&mut v, self.order_id);
        push_le64(&mut v, self.user_id);
        push_le64(&mut v, self.match_id);
        push_le64(&mut v, self.price);
        push_le64(&mut v, self.qty);
        push_le64(&mut v, self.extra_price);
        push_le64(&mut v, self.extra_qty);
        assert(v@ =~= server_message_wire(*self));
        v
    }

    /// Decodes a 64-byte little-endian wire frame.
    pub fn from_wire_bytes(b: &[u8]) -> (r: ServerMessage)
        requires
            b@.len() == SERVER_MESSAGE_WIRE_LEN,
        ensures
            r == server_message_from_wire(b@),
    {
        ServerMessage {
            msg_type: b[0],
            symbol_id: b[1],
            reject_code: b[2],
            is_maker: b[3],
            magic: read_le16(b, 4),
            _padding: [b[6], b[7]],
            order_id: read_le64(b, 8),
            user_id: read_le64(b, 16),
            match_id: read_le64(b, 24),
            price: read_le64(b, 32),
            qty: read_le64(b, 40),
            extra_price: read_le64(b, 48),
            extra_qty: read_le64(b, 56),
        }
    }
}

#[derive(Debug, Clone, Copy, PartialEq, Eq)]
pub struct Trade {
    pub match_id: u64,
    pub maker_order_id: u64,
    pub taker_order_id: u64,
    pub maker_client_order_id: u64,
    pub taker_client_order_id: u64,
    pub maker_user_id: u64,
    pub taker_user_id: u64,
    pub maker_client_id: u64,
    pub taker_client_id: u64,
    pub buyer_id: u64,
    pub seller_id: u64,
    pub maker_side: u8,
    pub symbol_id: u16,
    pub price: u64,
    pub qty: u64,
}

#[derive(Debug, Clone, Copy, PartialEq, Eq)]
pub struct MarketDepthLevel {
    pub price: u64,
    pub total_qty: u64,
    pub order_count: u32,
}

} // verus!
