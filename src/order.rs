use vstd::bytes::*;
use vstd::prelude::*;
use vstd::slice::slice_subrange;

verus! {

/// Width of one encoded order: trader, amount, price and side.
pub const ORDER_LEN: usize = 49;

/// Width of a trader identity.
pub const TRADER_LEN: usize = 32;

/// The side of an order.
#[derive(Clone, Copy, Debug, PartialEq, Eq, Structural)]
pub enum OrderType {
    Buy,
    Sell,
}

/// A resting order.
#[derive(Clone, Copy, Debug, PartialEq, Eq)]
pub struct Order {
    pub trader: [u8; 32],
    pub amount: u64,
    pub price: u64,
    pub order_type: OrderType,
}

/// Mathematical model of an order: the trader identity as a byte sequence.
pub struct OrderView {
    pub trader: Seq<u8>,
    pub amount: u64,
    pub price: u64,
    pub order_type: OrderType,
}

impl View for Order {
    type V = OrderView;

    open spec fn view(&self) -> OrderView {
        OrderView {
            trader: self.trader@,
            amount: self.amount,
            price: self.price,
            order_type: self.order_type,
        }
    }
}

/// Why a byte buffer does not hold an order.
#[derive(Clone, Copy, Debug, PartialEq, Eq, Structural)]
pub enum OrderDecodeError {
    /// Fewer than `ORDER_LEN` bytes are available.
    TruncatedInput,
    /// The side byte is neither 0 nor 1.
    InvalidOrderType,
}

pub open spec fn valid_order(o: OrderView) -> bool {
    o.trader.len() == TRADER_LEN
}

pub open spec fn order_type_byte(t: OrderType) -> u8 {
    match t {
        OrderType::Buy => 0,
        OrderType::Sell => 1,
    }
}

/// The encoding of an order: trader bytes, amount and price little-endian,
/// then the side byte.
pub open spec fn order_bytes(o: OrderView) -> Seq<u8> {
    o.trader + spec_u64_to_le_bytes(o.amount) + spec_u64_to_le_bytes(o.price) + seq![
        order_type_byte(o.order_type),
    ]
}

/// What the first `ORDER_LEN` bytes of `s` decode to; later bytes are ignored.
pub open spec fn decode_order_spec(s: Seq<u8>) -> Result<OrderView, OrderDecodeError> {
    if s.len() < ORDER_LEN {
        Err(OrderDecodeError::TruncatedInput)
    } else if s[48] > 1 {
        Err(OrderDecodeError::InvalidOrderType)
    } else {
        Ok(
            OrderView {
                trader: s.subrange(0, 32),
                amount: spec_u64_from_le_bytes(s.subrange(32, 40)),
                price: spec_u64_from_le_bytes(s.subrange(40, 48)),
                order_type: if s[48] == 0 {
                    OrderType::Buy
                } else {
                    OrderType::Sell
                },
            },
        )
    }
}

pub open spec fn decoded_order_matches(
    r: Result<Order, OrderDecodeError>,
    s: Seq<u8>,
) -> bool {
    match r {
        Ok(o) => decode_order_spec(s) == Ok::<OrderView, OrderDecodeError>(o@),
        Err(e) => decode_order_spec(s) == Err::<OrderView, OrderDecodeError>(e),
    }
}

/// Appends every byte of `src` to `buf`.
pub fn push_bytes(buf: &mut Vec<u8>, src: &[u8])
    ensures
        final(buf)@ == old(buf)@ + src@,
{
    let mut i: usize = 0;
    while i < src.len()
        invariant
            i <= src@.len(),
            buf@ == old(buf)@ + src@.subrange(0, i as int),
        decreases src@.len() - i,
    {
        buf.push(src[i]);
        i = i + 1;
        assert(buf@ =~= old(buf)@ + src@.subrange(0, i as int));
    }
    assert(src@.subrange(0, src@.len() as int) =~= src@);
}

impl Order {
    /// Encodes the order into its `ORDER_LEN`-byte layout.
    pub fn pack(&self) -> (r: Vec<u8>)
        ensures
            r@ == order_bytes(self@),
            r@.len() == ORDER_LEN,
    {
        let mut buf: Vec<u8> = Vec::new();
        push_bytes(&mut buf, self.trader.as_slice());
        let amount = u64_to_le_bytes(self.amount);
        push_bytes(&mut buf, amount.as_slice());
        let price = u64_to_le_bytes(self.price);
        push_bytes(&mut buf, price.as_slice());
        let side: u8 = match self.order_type {
            OrderType::Buy => 0,
            OrderType::Sell => 1,
        };
        buf.push(side);
        proof {
            lemma_auto_spec_u64_to_from_le_bytes();
            assert(buf@ =~= order_bytes(self@));
        }
        buf
    }

    /// Decodes an order from the start of `data`.
    pub fn unpack(data: &[u8]) -> (r: Result<Order, OrderDecodeError>)
        ensures
            decoded_order_matches(r, data@),
    {
        assert(data@.subrange(0, data@.len() as int) =~= data@);
        Order::unpack_at(data, 0)
    }

    /// Decodes an order from the bytes of `data` that start at `offset`.
    pub fn unpack_at(data: &[u8], offset: usize) -> (r: Result<Order, OrderDecodeError>)
        requires
            offset <= data@.len(),
        ensures
            decoded_order_matches(r, data@.subrange(offset as int, data@.len() as int)),
    {
        let ghost s = data@.subrange(offset as int, data@.len() as int);
        if data.len() - offset < ORDER_LEN {
            return Err(OrderDecodeError::TruncatedInput);
        }
        let side = data[offset + 48];
        let order_type = if side == 0 {
            OrderType::Buy
        } else if side == 1 {
            OrderType::Sell
        } else {
            return Err(OrderDecodeError::InvalidOrderType);
        };
        let mut trader = [0u8; 32];
        let mut i: usize = 0;
        while i < TRADER_LEN
            invariant
                i <= TRADER_LEN,
                offset + ORDER_LEN <= data@.len() <= usize::MAX,
                trader@.len() == TRADER_LEN,
                forall|j: int| 0 <= j < i ==> trader@[j] == data@[offset + j],
            decreases TRADER_LEN - i,
        {
            trader[i] = data[offset + i];
            i = i + 1;
        }
        let amount = u64_from_le_bytes(slice_subrange(data, offset + 32, offset + 40));
        let price = u64_from_le_bytes(slice_subrange(data, offset + 40, offset + 48));
        let o = Order { trader, amount, price, order_type };
        assert(o@.trader =~= s.subrange(0, 32));
        assert(data@.subrange(offset + 32, offset + 40) =~= s.subrange(32, 40));
        assert(data@.subrange(offset + 40, offset + 48) =~= s.subrange(40, 48));
        Ok(o)
    }
}

pub proof fn lemma_order_bytes_len(o: OrderView)
    requires
        valid_order(o),
    ensures
        order_bytes(o).len() == ORDER_LEN,
{
    lemma_auto_spec_u64_to_from_le_bytes();
}

/// Decoding looks at the first `ORDER_LEN` bytes only.
pub proof fn lemma_decode_order_prefix(s: Seq<u8>)
    requires
        s.len() >= ORDER_LEN,
    ensures
        decode_order_spec(s) == decode_order_spec(s.subrange(0, ORDER_LEN as int)),
{
    let t = s.subrange(0, ORDER_LEN as int);
    assert(t.subrange(0, 32) =~= s.subrange(0, 32));
    assert(t.subrange(32, 40) =~= s.subrange(32, 40));
    assert(t.subrange(40, 48) =~= s.subrange(40, 48));
}

/// Decoding the encoding of a valid order gives that order back.
pub proof fn lemma_order_round_trip(o: OrderView)
    requires
        valid_order(o),
    ensures
        decode_order_spec(order_bytes(o)) == Ok::<OrderView, OrderDecodeError>(o),
{
    lemma_auto_spec_u64_to_from_le_bytes();
    let s = order_bytes(o);
    assert(s.subrange(0, 32) =~= o.trader);
    assert(s.subrange(32, 40) =~= spec_u64_to_le_bytes(o.amount));
    assert(s.subrange(40, 48) =~= spec_u64_to_le_bytes(o.price));
}

} // verus!
