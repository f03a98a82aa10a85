//! Runs one instruction against a state buffer. A `PlaceOrder` hands back the
//! new state buffer, of the same size; a query hands back the encoding of the
//! order it found and leaves the state alone.
use crate::book::{
    add_order_spec, best_buy_index, best_sell_index, lemma_add_order_keeps_sides, well_formed,
    OrderBook,
};
use crate::instruction::{
    decode_instruction_spec, InstructionDecodeError, InstructionView, OrderBookInstruction,
};
use crate::order::{order_bytes, valid_order, Order, OrderView};
use crate::storage::{
    book_bytes, decode_book_spec, fits, lemma_book_round_trip, lemma_decoded_book_well_formed,
};
use vstd::prelude::*;

verus! {

/// Why an instruction was rejected.
#[derive(Clone, Copy, Debug, PartialEq, Eq, Structural)]
pub enum ProcessError {
    /// The instruction data does not decode.
    InvalidInstructionData,
    /// The state buffer does not hold a book.
    InvalidAccountData,
    /// The queried side of the book is empty.
    NoOrdersAvailable,
    /// The book with the new order does not fit in the state buffer.
    InsufficientStorage,
}

/// What a successful instruction hands back.
#[derive(Debug, PartialEq, Eq)]
pub enum Outcome {
    /// The new contents of the state buffer.
    Stored(Vec<u8>),
    /// The encoding of the order a query found; the state is unchanged.
    Reported(Vec<u8>),
}

pub enum OutcomeView {
    Stored(Seq<u8>),
    Reported(Seq<u8>),
}

impl View for Outcome {
    type V = OutcomeView;

    open spec fn view(&self) -> OutcomeView {
        match self {
            Outcome::Stored(v) => OutcomeView::Stored(v@),
            Outcome::Reported(v) => OutcomeView::Reported(v@),
        }
    }
}

/// The new state buffer after placing `o`.
pub open spec fn place_order_spec(state: Seq<u8>, o: OrderView) -> Result<Seq<u8>, ProcessError> {
    match decode_book_spec(state) {
        None => Err(ProcessError::InvalidAccountData),
        Some(b) => {
            let nb = add_order_spec(b, o);
            if fits(nb, state.len() as int) {
                Ok(book_bytes(nb, state.len()))
            } else {
                Err(ProcessError::InsufficientStorage)
            }
        },
    }
}

/// The encoding of the best buy order that the state holds.
pub open spec fn best_buy_spec(state: Seq<u8>) -> Result<Seq<u8>, ProcessError> {
    match decode_book_spec(state) {
        None => Err(ProcessError::InvalidAccountData),
        Some(b) => if b.buys.len() == 0 {
            Err(ProcessError::NoOrdersAvailable)
        } else {
            Ok(order_bytes(b.buys[best_buy_index(b.buys)]))
        },
    }
}

/// The encoding of the best sell order that the state holds.
pub open spec fn best_sell_spec(state: Seq<u8>) -> Result<Seq<u8>, ProcessError> {
    match decode_book_spec(state) {
        None => Err(ProcessError::InvalidAccountData),
        Some(b) => if b.sells.len() == 0 {
            Err(ProcessError::NoOrdersAvailable)
        } else {
            Ok(order_bytes(b.sells[best_sell_index(b.sells)]))
        },
    }
}

/// What running instruction data `ins` against state buffer `state` gives.
pub open spec fn process_spec(ins: Seq<u8>, state: Seq<u8>) -> Result<OutcomeView, ProcessError> {
    match decode_instruction_spec(ins) {
        Err(_) => Err(ProcessError::InvalidInstructionData),
        Ok(InstructionView::PlaceOrder(o)) => match place_order_spec(state, o) {
            Ok(s) => Ok(OutcomeView::Stored(s)),
            Err(e) => Err(e),
        },
        Ok(InstructionView::GetBestBuyOrder) => match best_buy_spec(state) {
            Ok(s) => Ok(OutcomeView::Reported(s)),
            Err(e) => Err(e),
        },
        Ok(InstructionView::GetBestSellOrder) => match best_sell_spec(state) {
            Ok(s) => Ok(OutcomeView::Reported(s)),
            Err(e) => Err(e),
        },
    }
}

/// The state buffer once an outcome has been persisted.
pub open spec fn next_state(state: Seq<u8>, r: Result<OutcomeView, ProcessError>) -> Seq<u8> {
    match r {
        Ok(OutcomeView::Stored(s)) => s,
        _ => state,
    }
}

pub open spec fn bytes_result_matches(
    r: Result<Vec<u8>, ProcessError>,
    expected: Result<Seq<u8>, ProcessError>,
) -> bool {
    match r {
        Ok(v) => expected == Ok::<Seq<u8>, ProcessError>(v@),
        Err(e) => expected == Err::<Seq<u8>, ProcessError>(e),
    }
}

pub open spec fn outcome_matches(
    r: Result<Outcome, ProcessError>,
    expected: Result<OutcomeView, ProcessError>,
) -> bool {
    match r {
        Ok(v) => expected == Ok::<OutcomeView, ProcessError>(v@),
        Err(e) => expected == Err::<OutcomeView, ProcessError>(e),
    }
}

/// Places `order` in the book that `state` holds and encodes the result into
/// a buffer of the same size.
pub fn process_place_order(state: &[u8], order: Order) -> (r: Result<Vec<u8>, ProcessError>)
    ensures
        bytes_result_matches(r, place_order_spec(state@, order@)),
{
    let mut book = match OrderBook::unpack(state) {
        Some(b) => b,
        None => return Err(ProcessError::InvalidAccountData),
    };
    book.add_order(order);
    match book.pack(state.len()) {
        Some(v) => Ok(v),
        None => Err(ProcessError::InsufficientStorage),
    }
}

/// Encodes the best buy order of the book that `state` holds.
pub fn process_get_best_buy_order(state: &[u8]) -> (r: Result<Vec<u8>, ProcessError>)
    ensures
        bytes_result_matches(r, best_buy_spec(state@)),
{
    let book = match OrderBook::unpack(state) {
        Some(b) => b,
        None => return Err(ProcessError::InvalidAccountData),
    };
    match book.get_best_buy_order() {
        Some(o) => Ok(o.pack()),
        None => Err(ProcessError::NoOrdersAvailable),
    }
}

/// Encodes the best sell order of the book that `state` holds.
pub fn process_get_best_sell_order(state: &[u8]) -> (r: Result<Vec<u8>, ProcessError>)
    ensures
        bytes_result_matches(r, best_sell_spec(state@)),
{
    let book = match OrderBook::unpack(state) {
        Some(b) => b,
        None => return Err(ProcessError::InvalidAccountData),
    };
    match book.get_best_sell_order() {
        Some(o) => Ok(o.pack()),
        None => Err(ProcessError::NoOrdersAvailable),
    }
}

/// Decodes `instruction_data` and runs it against the state buffer `state`.
pub fn process_instruction(instruction_data: &[u8], state: &[u8]) -> (r: Result<
    Outcome,
    ProcessError,
>)
    ensures
        outcome_matches(r, process_spec(instruction_data@, state@)),
{
    let instruction = match OrderBookInstruction::unpack(instruction_data) {
        Ok(i) => i,
        Err(_) => return Err(ProcessError::InvalidInstructionData),
    };
    match instruction {
        OrderBookInstruction::PlaceOrder(order) => match process_place_order(state, order) {
            Ok(v) => Ok(Outcome::Stored(v)),
            Err(e) => Err(e),
        },
        OrderBookInstruction::GetBestBuyOrder => match process_get_best_buy_order(state) {
            Ok(v) => Ok(Outcome::Reported(v)),
            Err(e) => Err(e),
        },
        OrderBookInstruction::GetBestSellOrder => match process_get_best_sell_order(state) {
            Ok(v) => Ok(Outcome::Reported(v)),
            Err(e) => Err(e),
        },
    }
}

/// Placing an order keeps every buy order a `Buy` and every sell order a
/// `Sell`: the new state holds the old book with the order added, and that
/// book is well-formed.
pub proof fn lemma_place_order_keeps_sides(state: Seq<u8>, o: OrderView)
    requires
        valid_order(o),
        place_order_spec(state, o) is Ok,
    ensures
        decode_book_spec(place_order_spec(state, o)->Ok_0) == Some(
            add_order_spec(decode_book_spec(state)->Some_0, o),
        ),
        well_formed(add_order_spec(decode_book_spec(state)->Some_0, o)),
{
    let b = decode_book_spec(state)->Some_0;
    lemma_decoded_book_well_formed(state);
    lemma_add_order_keeps_sides(b, o);
    lemma_book_round_trip(add_order_spec(b, o), state.len());
}

/// The state buffer after placing each of `orders` in turn.
pub open spec fn place_orders_spec(state: Seq<u8>, orders: Seq<OrderView>) -> Result<
    Seq<u8>,
    ProcessError,
>
    decreases orders.len(),
{
    if orders.len() == 0 {
        Ok(state)
    } else {
        match place_orders_spec(state, orders.drop_last()) {
            Ok(s) => place_order_spec(s, orders.last()),
            Err(e) => Err(e),
        }
    }
}

/// After any sequence of placements that all succeed, the state holds a book
/// whose buy orders are all `Buy` and whose sell orders are all `Sell`.
pub proof fn lemma_place_orders_keep_sides(state: Seq<u8>, orders: Seq<OrderView>)
    requires
        decode_book_spec(state) is Some,
        forall|i: int| 0 <= i < orders.len() ==> valid_order(#[trigger] orders[i]),
        place_orders_spec(state, orders) is Ok,
    ensures
        decode_book_spec(place_orders_spec(state, orders)->Ok_0) is Some,
        well_formed(decode_book_spec(place_orders_spec(state, orders)->Ok_0)->Some_0),
    decreases orders.len(),
{
    if orders.len() == 0 {
        lemma_decoded_book_well_formed(state);
    } else {
        let p = orders.drop_last();
        assert forall|i: int| 0 <= i < p.len() implies valid_order(#[trigger] p[i]) by {
            assert(p[i] == orders[i]);
        }
        lemma_place_orders_keep_sides(state, p);
        lemma_place_order_keeps_sides(place_orders_spec(state, p)->Ok_0, orders.last());
    }
}

/// A query stores nothing, so asking it again against the persisted state
/// gives the same result, and the state stays byte for byte as it was.
pub proof fn lemma_query_is_idempotent(ins: Seq<u8>, state: Seq<u8>)
    requires
        decode_instruction_spec(ins) == Ok::<InstructionView, InstructionDecodeError>(
            InstructionView::GetBestBuyOrder,
        ) || decode_instruction_spec(ins) == Ok::<InstructionView, InstructionDecodeError>(
            InstructionView::GetBestSellOrder,
        ),
    ensures
        next_state(state, process_spec(ins, state)) == state,
        process_spec(ins, next_state(state, process_spec(ins, state))) == process_spec(ins, state),
{
}

} // verus!
