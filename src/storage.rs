//! The state buffer layout: the number of buy orders and the number of sell
//! orders, each as a little-endian `u32`, then every buy order and every sell
//! order in the order layout, then zero bytes up to the buffer's capacity.
//! Bytes past the orders are ignored when decoding.
use crate::book::{order_views, well_formed, BookView, OrderBook};
use crate::order::{
    decode_order_spec, lemma_decode_order_prefix, lemma_order_bytes_len, lemma_order_round_trip, order_bytes, push_bytes,
    valid_order, Order, OrderType, OrderView, ORDER_LEN,
};
use vstd::bytes::*;
use vstd::prelude::*;
use vstd::slice::slice_subrange;

verus! {

/// Width of the two order counts at the start of the state buffer.
pub const HEADER_LEN: usize = 8;

/// The concatenated encodings of `s`.
pub open spec fn orders_bytes(s: Seq<OrderView>) -> Seq<u8>
    decreases s.len(),
{
    if s.len() == 0 {
        Seq::empty()
    } else {
        orders_bytes(s.drop_last()) + order_bytes(s.last())
    }
}

/// Counts and orders, without the padding.
pub open spec fn content_bytes(b: BookView) -> Seq<u8> {
    spec_u32_to_le_bytes(b.buys.len() as u32) + spec_u32_to_le_bytes(b.sells.len() as u32)
        + orders_bytes(b.buys) + orders_bytes(b.sells)
}

/// Whether the encoding of `b` fits in a buffer of `capacity` bytes.
pub open spec fn fits(b: BookView, capacity: int) -> bool {
    &&& b.buys.len() <= u32::MAX
    &&& b.sells.len() <= u32::MAX
    &&& HEADER_LEN + ORDER_LEN * (b.buys.len() + b.sells.len()) <= capacity
}

/// The state buffer of `capacity` bytes that holds `b`.
pub open spec fn book_bytes(b: BookView, capacity: nat) -> Seq<u8> {
    content_bytes(b) + Seq::new((capacity - content_bytes(b).len()) as nat, |i: int| 0u8)
}

/// The bytes of the `i`-th order record of a state buffer.
pub open spec fn record(s: Seq<u8>, i: int) -> Seq<u8> {
    s.subrange(HEADER_LEN + ORDER_LEN * i, HEADER_LEN + ORDER_LEN * i + ORDER_LEN)
}

/// Whether the `i`-th record holds an order of side `t`.
pub open spec fn record_holds(s: Seq<u8>, i: int, t: OrderType) -> bool {
    match decode_order_spec(record(s, i)) {
        Ok(o) => o.order_type == t,
        Err(_) => false,
    }
}

pub open spec fn record_order(s: Seq<u8>, i: int) -> OrderView {
    decode_order_spec(record(s, i))->Ok_0
}

pub open spec fn buy_count(s: Seq<u8>) -> int {
    spec_u32_from_le_bytes(s.subrange(0, 4)) as int
}

pub open spec fn sell_count(s: Seq<u8>) -> int {
    spec_u32_from_le_bytes(s.subrange(4, 8)) as int
}

/// The book that a state buffer holds, if it holds one.
pub open spec fn decode_book_spec(s: Seq<u8>) -> Option<BookView> {
    let nb = buy_count(s);
    let ns = sell_count(s);
    if s.len() < HEADER_LEN {
        None
    } else if HEADER_LEN + ORDER_LEN * (nb + ns) > s.len() {
        None
    } else if !(forall|i: int| 0 <= i < nb ==> #[trigger] record_holds(s, i, OrderType::Buy)) {
        None
    } else if !(forall|i: int|
        0 <= i < ns ==> #[trigger] record_holds(s, nb + i, OrderType::Sell)) {
        None
    } else {
        Some(
            BookView {
                buys: Seq::new(nb as nat, |i: int| record_order(s, i)),
                sells: Seq::new(ns as nat, |i: int| record_order(s, nb + i)),
            },
        )
    }
}

pub proof fn lemma_orders_bytes_len(s: Seq<OrderView>)
    requires
        forall|i: int| 0 <= i < s.len() ==> valid_order(#[trigger] s[i]),
    ensures
        orders_bytes(s).len() == ORDER_LEN * s.len(),
    decreases s.len(),
{
    if s.len() > 0 {
        let p = s.drop_last();
        assert forall|i: int| 0 <= i < p.len() implies valid_order(#[trigger] p[i]) by {
            assert(p[i] == s[i]);
        }
        lemma_orders_bytes_len(p);
        lemma_order_bytes_len(s[s.len() - 1]);
    }
}

pub proof fn lemma_orders_bytes_record(s: Seq<OrderView>, i: int)
    requires
        forall|j: int| 0 <= j < s.len() ==> valid_order(#[trigger] s[j]),
        0 <= i < s.len(),
    ensures
        orders_bytes(s).subrange(ORDER_LEN * i, ORDER_LEN * i + ORDER_LEN) == order_bytes(s[i]),
    decreases s.len(),
{
    let p = s.drop_last();
    assert forall|j: int| 0 <= j < p.len() implies valid_order(#[trigger] p[j]) by {
        assert(p[j] == s[j]);
    }
    lemma_orders_bytes_len(p);
    lemma_orders_bytes_len(s);
    lemma_order_bytes_len(s[s.len() - 1]);
    let whole = orders_bytes(s);
    if i == s.len() - 1 {
        assert(whole.subrange(ORDER_LEN * i, ORDER_LEN * i + ORDER_LEN) =~= order_bytes(s[i]));
    } else {
        lemma_orders_bytes_record(p, i);
        assert(p[i] == s[i]);
        assert(whole.subrange(ORDER_LEN * i, ORDER_LEN * i + ORDER_LEN) =~= orders_bytes(
            p,
        ).subrange(ORDER_LEN * i, ORDER_LEN * i + ORDER_LEN));
    }
}

/// Decoding the state buffer that holds a well-formed book gives that book back.
pub proof fn lemma_book_round_trip(b: BookView, capacity: nat)
    requires
        well_formed(b),
        fits(b, capacity as int),
    ensures
        decode_book_spec(book_bytes(b, capacity)) == Some(b),
{
    lemma_auto_spec_u32_to_from_le_bytes();
    lemma_orders_bytes_len(b.buys);
    lemma_orders_bytes_len(b.sells);
    let nb = b.buys.len() as int;
    let ns = b.sells.len() as int;
    let s = book_bytes(b, capacity);
    let h1 = spec_u32_to_le_bytes(nb as u32);
    let h2 = spec_u32_to_le_bytes(ns as u32);
    let ob = orders_bytes(b.buys);
    let os = orders_bytes(b.sells);
    assert(s.subrange(0, 4) =~= h1);
    assert(s.subrange(4, 8) =~= h2);
    assert(buy_count(s) == nb);
    assert(sell_count(s) == ns);
    assert forall|i: int| 0 <= i < nb implies #[trigger] record_holds(s, i, OrderType::Buy)
        && record_order(s, i) == b.buys[i] by {
        lemma_orders_bytes_record(b.buys, i);
        lemma_order_round_trip(b.buys[i]);
        assert(record(s, i) =~= ob.subrange(ORDER_LEN * i, ORDER_LEN * i + ORDER_LEN));
    }
    assert forall|i: int| 0 <= i < ns implies #[trigger] record_holds(s, nb + i, OrderType::Sell)
        && record_order(s, nb + i) == b.sells[i] by {
        lemma_orders_bytes_record(b.sells, i);
        lemma_order_round_trip(b.sells[i]);
        assert(record(s, nb + i) =~= os.subrange(ORDER_LEN * i, ORDER_LEN * i + ORDER_LEN));
    }
    let d = decode_book_spec(s)->Some_0;
    assert forall|i: int| 0 <= i < nb implies #[trigger] d.buys[i] == b.buys[i] by {
        assert(record_holds(s, i, OrderType::Buy));
    }
    assert forall|i: int| 0 <= i < ns implies #[trigger] d.sells[i] == b.sells[i] by {
        assert(record_holds(s, nb + i, OrderType::Sell));
    }
    assert(d.buys =~= b.buys);
    assert(d.sells =~= b.sells);
}

/// Every book that a state buffer holds is well-formed.
pub proof fn lemma_decoded_book_well_formed(s: Seq<u8>)
    requires
        decode_book_spec(s) is Some,
    ensures
        well_formed(decode_book_spec(s)->Some_0),
{
    let b = decode_book_spec(s)->Some_0;
    let nb = buy_count(s);
    assert forall|i: int| 0 <= i < b.buys.len() implies (#[trigger] b.buys[i]).order_type
        == OrderType::Buy && valid_order(b.buys[i]) by {
        assert(record_holds(s, i, OrderType::Buy));
    }
    assert forall|i: int| 0 <= i < b.sells.len() implies (#[trigger] b.sells[i]).order_type
        == OrderType::Sell && valid_order(b.sells[i]) by {
        assert(record_holds(s, nb + i, OrderType::Sell));
    }
}

/// Appends the encodings of `orders` to `buf`.
fn push_orders(buf: &mut Vec<u8>, orders: &Vec<Order>)
    ensures
        final(buf)@ == old(buf)@ + orders_bytes(order_views(orders@)),
{
    let ghost v = order_views(orders@);
    let mut i: usize = 0;
    while i < orders.len()
        invariant
            i <= orders@.len(),
            v == order_views(orders@),
            buf@ == old(buf)@ + orders_bytes(v.take(i as int)),
        decreases orders@.len() - i,
    {
        let bytes = orders[i].pack();
        push_bytes(buf, bytes.as_slice());
        proof {
            let t = v.take(i as int + 1);
            assert(t.drop_last() =~= v.take(i as int));
            assert(t.last() == orders@[i as int]@);
        }
        i = i + 1;
        assert(buf@ =~= old(buf)@ + orders_bytes(v.take(i as int)));
    }
    assert(v.take(i as int) =~= v);
}

/// Decodes `count` orders of side `side`, starting at record `first`.
fn unpack_side(data: &[u8], first: usize, count: usize, side: OrderType) -> (r: Option<Vec<Order>>)
    requires
        HEADER_LEN + ORDER_LEN * (first + count) <= data@.len(),
    ensures
        match r {
            None => exists|i: int| 0 <= i < count && !#[trigger] record_holds(data@, first + i, side),
            Some(v) => {
                &&& forall|i: int| 0 <= i < count ==> #[trigger] record_holds(data@, first + i, side)
                &&& order_views(v@) == Seq::new(count as nat, |i: int| record_order(data@, first + i))
            },
        },
{
    let ghost s = data@;
    let data_len = data.len();
    let mut out: Vec<Order> = Vec::new();
    let mut i: usize = 0;
    while i < count
        invariant
            i <= count,
            s == data@,
            HEADER_LEN + ORDER_LEN * (first + count) <= data_len,
            data_len == data@.len(),
            forall|j: int| 0 <= j < i ==> #[trigger] record_holds(s, first + j, side),
            order_views(out@) == Seq::new(i as nat, |j: int| record_order(s, first + j)),
        decreases count - i,
    {
        let offset = HEADER_LEN + ORDER_LEN * (first + i);
        proof {
            lemma_decode_order_prefix(s.subrange(offset as int, s.len() as int));
            assert(s.subrange(offset as int, s.len() as int).subrange(0, ORDER_LEN as int)
                =~= record(s, first + i));
        }
        match Order::unpack_at(data, offset) {
            Ok(o) => {
                if o.order_type != side {
                    assert(!record_holds(s, first + i, side));
                    return None;
                }
                let ghost prev = out@;
                out.push(o);
                i = i + 1;
                assert(order_views(out@) =~= Seq::new(
                    i as nat,
                    |j: int| record_order(s, first + j),
                )) by {
                    assert(order_views(out@) =~= order_views(prev).push(o@));
                }
            },
            Err(_) => {
                assert(!record_holds(s, first + i, side));
                return None;
            },
        }
    }
    Some(out)
}

/// `8 + 49 * n <= len` exactly when `n` is at most the number of whole records after the header.
proof fn lemma_room(len: int, n: int)
    requires
        len >= HEADER_LEN,
        n >= 0,
    ensures
        HEADER_LEN + ORDER_LEN * n <= len <==> n <= (len - HEADER_LEN) / (ORDER_LEN as int),
{
    assert(HEADER_LEN + ORDER_LEN * n <= len <==> n <= (len - HEADER_LEN) / (ORDER_LEN as int))
        by (nonlinear_arith)
        requires
            len >= 8,
            n >= 0,
    ;
}

impl OrderBook {
    /// Encodes the book into a state buffer of `capacity` bytes, or `None` when it does not fit.
    pub fn pack(&self, capacity: usize) -> (r: Option<Vec<u8>>)
        ensures
            r is Some <==> fits(self@, capacity as int),
            r matches Some(v) ==> v@ == book_bytes(self@, capacity as nat),
    {
        let nb = self.buy_orders.len();
        let ns = self.sell_orders.len();
        if nb > u32::MAX as usize || ns > u32::MAX as usize || capacity < HEADER_LEN {
            return None;
        }
        let room = (capacity - HEADER_LEN) / ORDER_LEN;
        proof {
            lemma_room(capacity as int, nb + ns);
        }
        if nb > room || ns > room - nb {
            return None;
        }
        let mut buf = u32_to_le_bytes(nb as u32);
        let counts = u32_to_le_bytes(ns as u32);
        push_bytes(&mut buf, counts.as_slice());
        push_orders(&mut buf, &self.buy_orders);
        push_orders(&mut buf, &self.sell_orders);
        let ghost content = content_bytes(self@);
        proof {
            assert(forall|i: int| 0 <= i < self@.buys.len() ==> valid_order(#[trigger] self@.buys[i]));
            assert(forall|i: int| 0 <= i < self@.sells.len() ==> valid_order(#[trigger] self@.sells[i]));
            lemma_orders_bytes_len(self@.buys);
            lemma_orders_bytes_len(self@.sells);
            assert(buf@ =~= content);
        }
        while buf.len() < capacity
            invariant
                content.len() <= buf@.len() <= capacity,
                buf@ == content + Seq::new((buf@.len() - content.len()) as nat, |i: int| 0u8),
            decreases capacity - buf@.len(),
        {
            buf.push(0);
            assert(buf@ =~= content + Seq::new((buf@.len() - content.len()) as nat, |i: int| 0u8));
        }
        Some(buf)
    }

    /// Decodes the book that a state buffer holds, or `None` when it holds none.
    pub fn unpack(data: &[u8]) -> (r: Option<OrderBook>)
        ensures
            match r {
                None => decode_book_spec(data@) is None,
                Some(b) => decode_book_spec(data@) == Some(b@) && b.wf(),
            },
    {
        if data.len() < HEADER_LEN {
            return None;
        }
        let nb = u32_from_le_bytes(slice_subrange(data, 0, 4)) as usize;
        let ns = u32_from_le_bytes(slice_subrange(data, 4, 8)) as usize;
        let room = (data.len() - HEADER_LEN) / ORDER_LEN;
        proof {
            lemma_room(data@.len() as int, nb + ns);
        }
        if nb > room || ns > room - nb {
            return None;
        }
        let ghost s = data@;
        assert(nb == buy_count(s) && ns == sell_count(s));
        let buy_orders = match unpack_side(data, 0, nb, OrderType::Buy) {
            Some(v) => v,
            None => {
                proof {
                    let i = choose|i: int| 0 <= i < nb && !#[trigger] record_holds(s, 0 + i, OrderType::Buy);
                    assert(!record_holds(s, i, OrderType::Buy));
                }
                return None;
            },
        };
        let sell_orders = match unpack_side(data, nb, ns, OrderType::Sell) {
            Some(v) => v,
            None => return None,
        };
        let b = OrderBook { buy_orders, sell_orders };
        assert(b@.buys =~= Seq::new(nb as nat, |i: int| record_order(s, i)));
        assert(b@.sells =~= Seq::new(ns as nat, |i: int| record_order(s, nb + i)));
        assert forall|i: int| 0 <= i < nb implies #[trigger] record_holds(s, i, OrderType::Buy) by {
            assert(record_holds(s, 0 + i, OrderType::Buy));
        }
        assert(decode_book_spec(s) == Some(b@));
        proof {
            lemma_decoded_book_well_formed(s);
        }
        Some(b)
    }
}

} // verus!
