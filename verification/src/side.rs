//! The two sides of a market: buying into a long and selling into a short position.
use crate::binary64::Binary64;
use crate::types::Order;
use crate::types::OrderType;
use crate::types::Position;
use crate::types::StateParams;
use vstd::prelude::*;

verus! {

/// The side on which positions are entered.
#[derive(Clone, Copy, Debug, PartialEq, Eq, Structural)]
pub enum Side {
    Long,
    Short,
}

/// The kinds of entry that both sides have.
#[derive(Clone, Copy, Debug, PartialEq, Eq, Structural)]
pub enum Kind {
    InitialNormal,
    InitialPartial,
    GridNormal,
    GridCropped,
    GridInflated,
    TrailingNormal,
    TrailingCropped,
}

impl Side {
    pub open spec fn spec_order_type(self, kind: Kind) -> OrderType {
        match (self, kind) {
            (Side::Long, Kind::InitialNormal) => OrderType::EntryInitialNormalLong,
            (Side::Long, Kind::InitialPartial) => OrderType::EntryInitialPartialLong,
            (Side::Long, Kind::GridNormal) => OrderType::EntryGridNormalLong,
            (Side::Long, Kind::GridCropped) => OrderType::EntryGridCroppedLong,
            (Side::Long, Kind::GridInflated) => OrderType::EntryGridInflatedLong,
            (Side::Long, Kind::TrailingNormal) => OrderType::EntryTrailingNormalLong,
            (Side::Long, Kind::TrailingCropped) => OrderType::EntryTrailingCroppedLong,
            (Side::Short, Kind::InitialNormal) => OrderType::EntryInitialNormalShort,
            (Side::Short, Kind::InitialPartial) => OrderType::EntryInitialPartialShort,
            (Side::Short, Kind::GridNormal) => OrderType::EntryGridNormalShort,
            (Side::Short, Kind::GridCropped) => OrderType::EntryGridCroppedShort,
            (Side::Short, Kind::GridInflated) => OrderType::EntryGridInflatedShort,
            (Side::Short, Kind::TrailingNormal) => OrderType::EntryTrailingNormalShort,
            (Side::Short, Kind::TrailingCropped) => OrderType::EntryTrailingCroppedShort,
        }
    }

    /// The order type of a kind of entry on this side.
    #[verifier::when_used_as_spec(spec_order_type)]
    pub fn order_type(self, kind: Kind) -> (r: OrderType)
        ensures
            r == self.spec_order_type(kind),
    {
        match self {
            Side::Long => match kind {
                Kind::InitialNormal => OrderType::EntryInitialNormalLong,
                Kind::InitialPartial => OrderType::EntryInitialPartialLong,
                Kind::GridNormal => OrderType::EntryGridNormalLong,
                Kind::GridCropped => OrderType::EntryGridCroppedLong,
                Kind::GridInflated => OrderType::EntryGridInflatedLong,
                Kind::TrailingNormal => OrderType::EntryTrailingNormalLong,
                Kind::TrailingCropped => OrderType::EntryTrailingCroppedLong,
            },
            Side::Short => match kind {
                Kind::InitialNormal => OrderType::EntryInitialNormalShort,
                Kind::InitialPartial => OrderType::EntryInitialPartialShort,
                Kind::GridNormal => OrderType::EntryGridNormalShort,
                Kind::GridCropped => OrderType::EntryGridCroppedShort,
                Kind::GridInflated => OrderType::EntryGridInflatedShort,
                Kind::TrailingNormal => OrderType::EntryTrailingNormalShort,
                Kind::TrailingCropped => OrderType::EntryTrailingCroppedShort,
            },
        }
    }

    pub open spec fn spec_order(self, kind: Kind, qty: Binary64, price: Binary64) -> Order {
        Order {
            qty: match self {
                Side::Long => qty,
                Side::Short => qty.negated(),
            },
            price,
            order_type: self.order_type(kind),
        }
    }

    /// The order that enters `qty` contracts: a buy if long, a sale if short.
    #[verifier::when_used_as_spec(spec_order)]
    pub fn order(self, kind: Kind, qty: Binary64, price: Binary64) -> (r: Order)
        ensures
            r == self.spec_order(kind, qty, price),
    {
        let signed_qty = match self {
            Side::Long => qty,
            Side::Short => qty.negated(),
        };
        Order { qty: signed_qty, price, order_type: self.order_type(kind) }
    }

    pub open spec fn spec_held(self, position: Position) -> Binary64 {
        match self {
            Side::Long => position.size,
            Side::Short => position.size.abs(),
        }
    }

    /// The number of contracts held.
    pub fn held(self, position: &Position) -> (r: Binary64)
        ensures
            r == self.spec_held(*position),
    {
        match self {
            Side::Long => position.size,
            Side::Short => position.size.abs(),
        }
    }

    pub open spec fn spec_book_price(self, state_params: StateParams) -> Binary64 {
        match self {
            Side::Long => state_params.order_book.bid,
            Side::Short => state_params.order_book.ask,
        }
    }

    /// The best price on the side of the book that entries join.
    pub fn book_price(self, state_params: &StateParams) -> (r: Binary64)
        ensures
            r == self.spec_book_price(*state_params),
    {
        match self {
            Side::Long => state_params.order_book.bid,
            Side::Short => state_params.order_book.ask,
        }
    }
}

} // verus!
