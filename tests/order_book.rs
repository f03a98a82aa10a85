use orderbook::book::OrderBook;
use orderbook::instruction::{InstructionDecodeError, OrderBookInstruction};
use orderbook::order::{Order, OrderDecodeError, OrderType, ORDER_LEN};
use orderbook::processor::{
    process_get_best_buy_order, process_get_best_sell_order, process_instruction,
    process_place_order, Outcome, ProcessError,
};
use orderbook::storage::HEADER_LEN;

fn trader(n: u8) -> [u8; 32] {
    let mut t = [0u8; 32];
    for (i, b) in t.iter_mut().enumerate() {
        *b = n.wrapping_add(i as u8);
    }
    t
}

fn order(n: u8, amount: u64, price: u64, order_type: OrderType) -> Order {
    Order { trader: trader(n), amount, price, order_type }
}

fn empty_state(records: usize) -> Vec<u8> {
    vec![0u8; HEADER_LEN + ORDER_LEN * records]
}

fn run(ins: &OrderBookInstruction, state: &[u8]) -> Result<Outcome, ProcessError> {
    process_instruction(&ins.pack(), state)
}

fn place(ins_order: Order, state: Vec<u8>) -> Vec<u8> {
    match run(&OrderBookInstruction::PlaceOrder(ins_order), &state) {
        Ok(Outcome::Stored(s)) => s,
        other => panic!("place failed: {:?}", other),
    }
}

fn reported(r: Result<Outcome, ProcessError>) -> Order {
    match r {
        Ok(Outcome::Reported(bytes)) => Order::unpack(&bytes).unwrap(),
        other => panic!("query failed: {:?}", other),
    }
}

#[test]
fn test_order_book() {
    let state = empty_state(10);
    let t1 = trader(1);
    let buy = Order { trader: t1, amount: 100, price: 500, order_type: OrderType::Buy };
    let state = place(buy, state);
    let best_buy = reported(run(&OrderBookInstruction::GetBestBuyOrder, &state));
    assert_eq!(best_buy, Order { trader: t1, amount: 100, price: 500, order_type: OrderType::Buy });

    let t2 = trader(2);
    let sell = Order { trader: t2, amount: 50, price: 600, order_type: OrderType::Sell };
    let state = place(sell, state);
    let best_sell = reported(run(&OrderBookInstruction::GetBestSellOrder, &state));
    assert_eq!(best_sell, Order { trader: t2, amount: 50, price: 600, order_type: OrderType::Sell });
    let best_buy = reported(run(&OrderBookInstruction::GetBestBuyOrder, &state));
    assert_eq!(best_buy, Order { trader: t1, amount: 100, price: 500, order_type: OrderType::Buy });
}

#[test]
fn order_encoding_layout() {
    let o = Order {
        trader: trader(7),
        amount: 0x0102030405060708,
        price: 500,
        order_type: OrderType::Sell,
    };
    let bytes = o.pack();
    assert_eq!(bytes.len(), 49);
    assert_eq!(&bytes[0..32], &trader(7)[..]);
    assert_eq!(&bytes[32..40], &[8, 7, 6, 5, 4, 3, 2, 1]);
    assert_eq!(&bytes[40..48], &[0xf4, 0x01, 0, 0, 0, 0, 0, 0]);
    assert_eq!(bytes[48], 1);
    let b = order(7, 0, 0, OrderType::Buy).pack();
    assert_eq!(b[48], 0);
}

#[test]
fn order_round_trip() {
    for o in [
        order(1, 100, 500, OrderType::Buy),
        order(9, u64::MAX, 0, OrderType::Sell),
        order(200, 0, u64::MAX, OrderType::Buy),
    ] {
        assert_eq!(Order::unpack(&o.pack()), Ok(o));
    }
}

#[test]
fn instruction_round_trip() {
    for i in [
        OrderBookInstruction::PlaceOrder(order(3, 42, 77, OrderType::Sell)),
        OrderBookInstruction::GetBestBuyOrder,
        OrderBookInstruction::GetBestSellOrder,
    ] {
        assert_eq!(OrderBookInstruction::unpack(&i.pack()), Ok(i));
    }
}

#[test]
fn instruction_encoding_lengths() {
    assert_eq!(OrderBookInstruction::GetBestBuyOrder.pack(), vec![1]);
    assert_eq!(OrderBookInstruction::GetBestSellOrder.pack(), vec![2]);
    let o = order(4, 1, 2, OrderType::Buy);
    let bytes = OrderBookInstruction::PlaceOrder(o).pack();
    assert_eq!(bytes.len(), 50);
    assert_eq!(bytes[0], 0);
    assert_eq!(&bytes[1..], &o.pack()[..]);
}

#[test]
fn decode_rejections() {
    assert_eq!(OrderBookInstruction::unpack(&[]), Err(InstructionDecodeError::EmptyInput));
    assert_eq!(OrderBookInstruction::unpack(&[3]), Err(InstructionDecodeError::UnknownTag));
    assert_eq!(OrderBookInstruction::unpack(&[255]), Err(InstructionDecodeError::UnknownTag));
    assert_eq!(Order::unpack(&[0u8; 48]), Err(OrderDecodeError::TruncatedInput));
    assert_eq!(Order::unpack(&[]), Err(OrderDecodeError::TruncatedInput));
    let mut bad = order(1, 1, 1, OrderType::Buy).pack();
    bad[48] = 2;
    assert_eq!(Order::unpack(&bad), Err(OrderDecodeError::InvalidOrderType));
    assert_eq!(
        OrderBookInstruction::unpack(&[0, 1, 2, 3]),
        Err(InstructionDecodeError::InvalidOrderPayload(OrderDecodeError::TruncatedInput))
    );
    let mut ins = vec![0u8];
    ins.extend_from_slice(&bad);
    assert_eq!(
        OrderBookInstruction::unpack(&ins),
        Err(InstructionDecodeError::InvalidOrderPayload(OrderDecodeError::InvalidOrderType))
    );
}

#[test]
fn decode_ignores_trailing_bytes() {
    let o = order(5, 10, 20, OrderType::Sell);
    let mut bytes = o.pack();
    bytes.extend_from_slice(&[9, 9, 9]);
    assert_eq!(Order::unpack(&bytes), Ok(o));
}

#[test]
fn best_buy_takes_first_of_equal_prices() {
    let mut book = OrderBook::new();
    for (n, p) in [(1u8, 500u64), (2, 700), (3, 700), (4, 300)] {
        book.add_order(order(n, 10, p, OrderType::Buy));
    }
    assert_eq!(book.get_best_buy_order(), Some(order(2, 10, 700, OrderType::Buy)));
    assert_eq!(book.get_best_sell_order(), None);
}

#[test]
fn best_sell_takes_first_of_equal_prices() {
    let mut book = OrderBook::new();
    for (n, p) in [(1u8, 500u64), (2, 300), (3, 300), (4, 700)] {
        book.add_order(order(n, 10, p, OrderType::Sell));
    }
    assert_eq!(book.get_best_sell_order(), Some(order(2, 10, 300, OrderType::Sell)));
    assert_eq!(book.get_best_buy_order(), None);
}

#[test]
fn selection_through_state_buffer() {
    let mut state = empty_state(8);
    for (n, p) in [(1u8, 500u64), (2, 700), (3, 700), (4, 300)] {
        state = place(order(n, 10, p, OrderType::Buy), state);
    }
    let best = process_get_best_buy_order(&state).unwrap();
    assert_eq!(best, order(2, 10, 700, OrderType::Buy).pack());
}

#[test]
fn empty_book_has_no_best() {
    let book = OrderBook::new();
    assert_eq!(book.get_best_buy_order(), None);
    assert_eq!(book.get_best_sell_order(), None);
    let state = empty_state(2);
    assert_eq!(process_get_best_buy_order(&state), Err(ProcessError::NoOrdersAvailable));
    assert_eq!(process_get_best_sell_order(&state), Err(ProcessError::NoOrdersAvailable));
    assert_eq!(
        run(&OrderBookInstruction::GetBestBuyOrder, &state),
        Err(ProcessError::NoOrdersAvailable)
    );
}

#[test]
fn add_order_sorts_by_side() {
    let mut book = OrderBook::new();
    book.add_order(order(1, 1, 1, OrderType::Buy));
    book.add_order(order(2, 2, 2, OrderType::Sell));
    book.add_order(order(3, 3, 3, OrderType::Buy));
    assert_eq!(book.buy_orders, vec![order(1, 1, 1, OrderType::Buy), order(3, 3, 3, OrderType::Buy)]);
    assert_eq!(book.sell_orders, vec![order(2, 2, 2, OrderType::Sell)]);
    assert!(book.buy_orders.iter().all(|o| o.order_type == OrderType::Buy));
    assert!(book.sell_orders.iter().all(|o| o.order_type == OrderType::Sell));
}

#[test]
fn sides_stay_separate_after_places() {
    let mut state = empty_state(6);
    for (n, side) in [(1u8, OrderType::Sell), (2, OrderType::Buy), (3, OrderType::Sell), (4, OrderType::Buy)] {
        state = place(order(n, 1, n as u64, side), state);
    }
    let book = OrderBook::unpack(&state).unwrap();
    assert_eq!(book.buy_orders.len(), 2);
    assert_eq!(book.sell_orders.len(), 2);
    assert!(book.buy_orders.iter().all(|o| o.order_type == OrderType::Buy));
    assert!(book.sell_orders.iter().all(|o| o.order_type == OrderType::Sell));
}

#[test]
fn query_twice_is_identical() {
    let state = place(order(1, 100, 500, OrderType::Buy), empty_state(3));
    let before = state.clone();
    let first = run(&OrderBookInstruction::GetBestBuyOrder, &state);
    let second = run(&OrderBookInstruction::GetBestBuyOrder, &state);
    assert_eq!(first, second);
    assert!(matches!(first, Ok(Outcome::Reported(_))));
    assert_eq!(state, before);
}

#[test]
fn book_storage_layout() {
    let mut book = OrderBook::new();
    book.add_order(order(1, 100, 500, OrderType::Buy));
    book.add_order(order(2, 50, 600, OrderType::Sell));
    let bytes = book.pack(HEADER_LEN + ORDER_LEN * 3).unwrap();
    assert_eq!(bytes.len(), 8 + 49 * 3);
    assert_eq!(&bytes[0..8], &[1, 0, 0, 0, 1, 0, 0, 0]);
    assert_eq!(&bytes[8..57], &order(1, 100, 500, OrderType::Buy).pack()[..]);
    assert_eq!(&bytes[57..106], &order(2, 50, 600, OrderType::Sell).pack()[..]);
    assert!(bytes[106..].iter().all(|b| *b == 0));
    let back = OrderBook::unpack(&bytes).unwrap();
    assert_eq!(back.buy_orders, book.buy_orders);
    assert_eq!(back.sell_orders, book.sell_orders);
    assert!(book.pack(HEADER_LEN + ORDER_LEN * 2 - 1).is_none());
    assert!(book.pack(HEADER_LEN + ORDER_LEN * 2).is_some());
}

#[test]
fn empty_buffer_decodes_as_empty_book() {
    let book = OrderBook::unpack(&empty_state(0)).unwrap();
    assert!(book.buy_orders.is_empty());
    assert!(book.sell_orders.is_empty());
}

#[test]
fn invalid_instruction_data() {
    let state = empty_state(1);
    assert_eq!(process_instruction(&[], &state), Err(ProcessError::InvalidInstructionData));
    assert_eq!(process_instruction(&[7], &state), Err(ProcessError::InvalidInstructionData));
    assert_eq!(process_instruction(&[0, 1], &state), Err(ProcessError::InvalidInstructionData));
}

#[test]
fn invalid_account_data() {
    let o = order(1, 1, 1, OrderType::Buy);
    assert_eq!(process_place_order(&[0u8; 7], o), Err(ProcessError::InvalidAccountData));
    let mut too_many = empty_state(1);
    too_many[0] = 2;
    assert_eq!(process_get_best_buy_order(&too_many), Err(ProcessError::InvalidAccountData));
    let mut wrong_side = vec![1u8, 0, 0, 0, 0, 0, 0, 0];
    wrong_side.extend_from_slice(&order(1, 1, 1, OrderType::Sell).pack());
    assert_eq!(process_get_best_buy_order(&wrong_side), Err(ProcessError::InvalidAccountData));
    let mut bad_type = vec![0u8, 0, 0, 0, 1, 0, 0, 0];
    let mut rec = order(1, 1, 1, OrderType::Sell).pack();
    rec[48] = 5;
    bad_type.extend_from_slice(&rec);
    assert_eq!(process_get_best_sell_order(&bad_type), Err(ProcessError::InvalidAccountData));
}

#[test]
fn insufficient_storage() {
    let state = place(order(1, 1, 1, OrderType::Buy), empty_state(1));
    assert_eq!(
        process_place_order(&state, order(2, 2, 2, OrderType::Sell)),
        Err(ProcessError::InsufficientStorage)
    );
    assert_eq!(
        run(&OrderBookInstruction::PlaceOrder(order(2, 2, 2, OrderType::Buy)), &state),
        Err(ProcessError::InsufficientStorage)
    );
}

#[test]
fn place_keeps_buffer_size() {
    let state = empty_state(4);
    let next = place(order(1, 100, 500, OrderType::Buy), state.clone());
    assert_eq!(next.len(), state.len());
    assert_eq!(&next[0..8], &[1, 0, 0, 0, 0, 0, 0, 0]);
}

#[test]
fn zero_price_and_amount_are_accepted() {
    let state = place(order(1, 0, 0, OrderType::Sell), empty_state(1));
    assert_eq!(
        reported(run(&OrderBookInstruction::GetBestSellOrder, &state)),
        order(1, 0, 0, OrderType::Sell)
    );
}
