use crate::order::{Order, OrderType, OrderView, valid_order};
use vstd::prelude::*;

verus! {

/// The resting orders, each side in insertion order.
pub struct OrderBook {
    pub buy_orders: Vec<Order>,
    pub sell_orders: Vec<Order>,
}

/// Mathematical model of a book.
pub struct BookView {
    pub buys: Seq<OrderView>,
    pub sells: Seq<OrderView>,
}

pub open spec fn order_views(s: Seq<Order>) -> Seq<OrderView> {
    s.map_values(|o: Order| o@)
}

impl View for OrderBook {
    type V = BookView;

    open spec fn view(&self) -> BookView {
        BookView { buys: order_views(self.buy_orders@), sells: order_views(self.sell_orders@) }
    }
}

/// Every buy order is a `Buy`, every sell order a `Sell`, every trader 32 bytes.
pub open spec fn well_formed(b: BookView) -> bool {
    &&& forall|i: int|
        0 <= i < b.buys.len() ==> (#[trigger] b.buys[i]).order_type == OrderType::Buy
            && valid_order(b.buys[i])
    &&& forall|i: int|
        0 <= i < b.sells.len() ==> (#[trigger] b.sells[i]).order_type == OrderType::Sell
            && valid_order(b.sells[i])
}

pub open spec fn add_order_spec(b: BookView, o: OrderView) -> BookView {
    match o.order_type {
        OrderType::Buy => BookView { buys: b.buys.push(o), sells: b.sells },
        OrderType::Sell => BookView { buys: b.buys, sells: b.sells.push(o) },
    }
}

/// Index of the first order with the highest price.
pub open spec fn best_buy_index(s: Seq<OrderView>) -> int
    decreases s.len(),
{
    if s.len() <= 1 {
        0
    } else {
        let k = best_buy_index(s.drop_last());
        if s.last().price > s[k].price {
            s.len() - 1
        } else {
            k
        }
    }
}

/// Index of the first order with the lowest price.
pub open spec fn best_sell_index(s: Seq<OrderView>) -> int
    decreases s.len(),
{
    if s.len() <= 1 {
        0
    } else {
        let k = best_sell_index(s.drop_last());
        if s.last().price < s[k].price {
            s.len() - 1
        } else {
            k
        }
    }
}

/// The best buy order is one of highest price, and no earlier order has that price.
pub proof fn lemma_best_buy_is_first_maximum(s: Seq<OrderView>)
    requires
        s.len() > 0,
    ensures
        0 <= best_buy_index(s) < s.len(),
        forall|j: int| 0 <= j < s.len() ==> #[trigger] s[j].price <= s[best_buy_index(s)].price,
        forall|j: int| 0 <= j < best_buy_index(s) ==> #[trigger] s[j].price < s[best_buy_index(s)].price,
    decreases s.len(),
{
    if s.len() > 1 {
        let p = s.drop_last();
        lemma_best_buy_is_first_maximum(p);
        assert forall|j: int| 0 <= j < p.len() implies #[trigger] s[j] == p[j] by {}
    }
}

/// The best sell order is one of lowest price, and no earlier order has that price.
pub proof fn lemma_best_sell_is_first_minimum(s: Seq<OrderView>)
    requires
        s.len() > 0,
    ensures
        0 <= best_sell_index(s) < s.len(),
        forall|j: int| 0 <= j < s.len() ==> #[trigger] s[j].price >= s[best_sell_index(s)].price,
        forall|j: int|
            0 <= j < best_sell_index(s) ==> #[trigger] s[j].price > s[best_sell_index(s)].price,
    decreases s.len(),
{
    if s.len() > 1 {
        let p = s.drop_last();
        lemma_best_sell_is_first_minimum(p);
        assert forall|j: int| 0 <= j < p.len() implies #[trigger] s[j] == p[j] by {}
    }
}

/// Adding an order to a well-formed book keeps it well-formed.
pub proof fn lemma_add_order_keeps_sides(b: BookView, o: OrderView)
    requires
        well_formed(b),
        valid_order(o),
    ensures
        well_formed(add_order_spec(b, o)),
{
    let nb = add_order_spec(b, o);
    assert forall|i: int| 0 <= i < nb.buys.len() implies (#[trigger] nb.buys[i]).order_type
        == OrderType::Buy && valid_order(nb.buys[i]) by {
        if i < b.buys.len() {
            assert(nb.buys[i] == b.buys[i]);
        }
    }
    assert forall|i: int| 0 <= i < nb.sells.len() implies (#[trigger] nb.sells[i]).order_type
        == OrderType::Sell && valid_order(nb.sells[i]) by {
        if i < b.sells.len() {
            assert(nb.sells[i] == b.sells[i]);
        }
    }
}

impl OrderBook {
    /// Each side holds only orders of its own type.
    pub open spec fn wf(&self) -> bool {
        well_formed(self@)
    }

    /// An empty book.
    pub fn new() -> (r: OrderBook)
        ensures
            r.wf(),
            r@.buys == Seq::<OrderView>::empty(),
            r@.sells == Seq::<OrderView>::empty(),
    {
        let r = OrderBook { buy_orders: Vec::new(), sell_orders: Vec::new() };
        assert(r@.buys =~= Seq::<OrderView>::empty());
        assert(r@.sells =~= Seq::<OrderView>::empty());
        r
    }

    /// Appends `order` to the side that its type names.
    pub fn add_order(&mut self, order: Order)
        ensures
            final(self)@ == add_order_spec(old(self)@, order@),
            old(self).wf() ==> final(self).wf(),
    {
        match order.order_type {
            OrderType::Buy => self.buy_orders.push(order),
            OrderType::Sell => self.sell_orders.push(order),
        }
        assert(final(self)@.buys =~= add_order_spec(old(self)@, order@).buys);
        assert(final(self)@.sells =~= add_order_spec(old(self)@, order@).sells);
        proof {
            if old(self).wf() {
                lemma_add_order_keeps_sides(old(self)@, order@);
            }
        }
    }

    /// The first buy order of highest price, or `None` when there are no buy orders.
    pub fn get_best_buy_order(&self) -> (r: Option<Order>)
        ensures
            r is None <==> self@.buys.len() == 0,
            r matches Some(o) ==> o@ == self@.buys[best_buy_index(self@.buys)],
            r matches Some(o) ==> forall|j: int|
                0 <= j < self@.buys.len() ==> #[trigger] self@.buys[j].price <= o.price,
            r matches Some(o) ==> forall|j: int|
                0 <= j < best_buy_index(self@.buys) ==> #[trigger] self@.buys[j].price < o.price,
    {
        let orders = &self.buy_orders;
        if orders.len() == 0 {
            return None;
        }
        let ghost s = self@.buys;
        let mut best: usize = 0;
        let mut i: usize = 1;
        assert(s.take(1).len() == 1);
        while i < orders.len()
            invariant
                1 <= i <= orders@.len(),
                s == order_views(orders@),
                best < i,
                best == best_buy_index(s.take(i as int)),
            decreases orders@.len() - i,
        {
            let ghost t = s.take(i as int + 1);
            assert(t.drop_last() =~= s.take(i as int));
            if orders[i].price > orders[best].price {
                best = i;
            }
            i = i + 1;
        }
        assert(s.take(i as int) =~= s);
        proof {
            lemma_best_buy_is_first_maximum(s);
        }
        Some(orders[best])
    }

    /// The first sell order of lowest price, or `None` when there are no sell orders.
    pub fn get_best_sell_order(&self) -> (r: Option<Order>)
        ensures
            r is None <==> self@.sells.len() == 0,
            r matches Some(o) ==> o@ == self@.sells[best_sell_index(self@.sells)],
            r matches Some(o) ==> forall|j: int|
                0 <= j < self@.sells.len() ==> #[trigger] self@.sells[j].price >= o.price,
            r matches Some(o) ==> forall|j: int|
                0 <= j < best_sell_index(self@.sells) ==> #[trigger] self@.sells[j].price > o.price,
    {
        let orders = &self.sell_orders;
        if orders.len() == 0 {
            return None;
        }
        let ghost s = self@.sells;
        let mut best: usize = 0;
        let mut i: usize = 1;
        assert(s.take(1).len() == 1);
        while i < orders.len()
            invariant
                1 <= i <= orders@.len(),
                s == order_views(orders@),
                best < i,
                best == best_sell_index(s.take(i as int)),
            decreases orders@.len() - i,
        {
            let ghost t = s.take(i as int + 1);
            assert(t.drop_last() =~= s.take(i as int));
            if orders[i].price < orders[best].price {
                best = i;
            }
            i = i + 1;
        }
        assert(s.take(i as int) =~= s);
        proof {
            lemma_best_sell_is_first_minimum(s);
        }
        Some(orders[best])
    }
}

} // verus!
