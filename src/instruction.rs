use crate::order::{
    decode_order_spec, order_bytes, push_bytes, valid_order, Order, OrderDecodeError, OrderView,
    lemma_order_round_trip,
};
use vstd::prelude::*;

verus! {

/// A command against the order book, as carried in instruction data.
#[derive(Clone, Copy, Debug, PartialEq, Eq)]
pub enum OrderBookInstruction {
    PlaceOrder(Order),
    GetBestBuyOrder,
    GetBestSellOrder,
}

/// Mathematical model of an instruction.
pub enum InstructionView {
    PlaceOrder(OrderView),
    GetBestBuyOrder,
    GetBestSellOrder,
}

impl View for OrderBookInstruction {
    type V = InstructionView;

    open spec fn view(&self) -> InstructionView {
        match self {
            OrderBookInstruction::PlaceOrder(o) => InstructionView::PlaceOrder(o@),
            OrderBookInstruction::GetBestBuyOrder => InstructionView::GetBestBuyOrder,
            OrderBookInstruction::GetBestSellOrder => InstructionView::GetBestSellOrder,
        }
    }
}

/// Why a byte buffer does not hold an instruction.
#[derive(Clone, Copy, Debug, PartialEq, Eq, Structural)]
pub enum InstructionDecodeError {
    /// The buffer is empty.
    EmptyInput,
    /// The tag byte is not 0, 1 or 2.
    UnknownTag,
    /// The tag is 0 and the bytes after it do not hold an order.
    InvalidOrderPayload(OrderDecodeError),
}

pub open spec fn valid_instruction(i: InstructionView) -> bool {
    match i {
        InstructionView::PlaceOrder(o) => valid_order(o),
        _ => true,
    }
}

/// The encoding of an instruction: a tag byte, then the order for tag 0.
pub open spec fn instruction_bytes(i: InstructionView) -> Seq<u8> {
    match i {
        InstructionView::PlaceOrder(o) => seq![0u8] + order_bytes(o),
        InstructionView::GetBestBuyOrder => seq![1u8],
        InstructionView::GetBestSellOrder => seq![2u8],
    }
}

pub open spec fn decode_instruction_spec(s: Seq<u8>) -> Result<
    InstructionView,
    InstructionDecodeError,
> {
    if s.len() == 0 {
        Err(InstructionDecodeError::EmptyInput)
    } else if s[0] == 0 {
        match decode_order_spec(s.drop_first()) {
            Ok(o) => Ok(InstructionView::PlaceOrder(o)),
            Err(e) => Err(InstructionDecodeError::InvalidOrderPayload(e)),
        }
    } else if s[0] == 1 {
        Ok(InstructionView::GetBestBuyOrder)
    } else if s[0] == 2 {
        Ok(InstructionView::GetBestSellOrder)
    } else {
        Err(InstructionDecodeError::UnknownTag)
    }
}

pub open spec fn decoded_instruction_matches(
    r: Result<OrderBookInstruction, InstructionDecodeError>,
    s: Seq<u8>,
) -> bool {
    match r {
        Ok(i) => decode_instruction_spec(s) == Ok::<InstructionView, InstructionDecodeError>(i@),
        Err(e) => decode_instruction_spec(s) == Err::<InstructionView, InstructionDecodeError>(e),
    }
}

impl OrderBookInstruction {
    /// Encodes the instruction: one byte, or fifty for `PlaceOrder`.
    pub fn pack(&self) -> (r: Vec<u8>)
        ensures
            r@ == instruction_bytes(self@),
    {
        let mut buf: Vec<u8> = Vec::new();
        match self {
            OrderBookInstruction::PlaceOrder(order) => {
                buf.push(0);
                let bytes = order.pack();
                push_bytes(&mut buf, bytes.as_slice());
            },
            OrderBookInstruction::GetBestBuyOrder => {
                buf.push(1);
            },
            OrderBookInstruction::GetBestSellOrder => {
                buf.push(2);
            },
        }
        proof {
            assert(buf@ =~= instruction_bytes(self@));
        }
        buf
    }

    /// Decodes an instruction from `data`.
    pub fn unpack(data: &[u8]) -> (r: Result<OrderBookInstruction, InstructionDecodeError>)
        ensures
            decoded_instruction_matches(r, data@),
    {
        if data.len() == 0 {
            return Err(InstructionDecodeError::EmptyInput);
        }
        let tag = data[0];
        if tag == 0 {
            assert(data@.subrange(1, data@.len() as int) =~= data@.drop_first());
            match Order::unpack_at(data, 1) {
                Ok(order) => Ok(OrderBookInstruction::PlaceOrder(order)),
                Err(e) => Err(InstructionDecodeError::InvalidOrderPayload(e)),
            }
        } else if tag == 1 {
            Ok(OrderBookInstruction::GetBestBuyOrder)
        } else if tag == 2 {
            Ok(OrderBookInstruction::GetBestSellOrder)
        } else {
            Err(InstructionDecodeError::UnknownTag)
        }
    }
}

/// Decoding the encoding of a valid instruction gives that instruction back.
pub proof fn lemma_instruction_round_trip(i: InstructionView)
    requires
        valid_instruction(i),
    ensures
        decode_instruction_spec(instruction_bytes(i)) == Ok::<
            InstructionView,
            InstructionDecodeError,
        >(i),
{
    if let InstructionView::PlaceOrder(o) = i {
        lemma_order_round_trip(o);
        assert(instruction_bytes(i).drop_first() =~= order_bytes(o));
    }
}

} // verus!
