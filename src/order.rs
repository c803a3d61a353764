//! Order records and the plain values the book hands out.
use vstd::prelude::*;

verus! {

pub type Price = i32;

pub type Quantity = u32;

pub type OrderId = u32;

/// The price that marks a market order that has not been priced yet.
pub const MARKET_PRICE: i32 = i32::MIN;

#[derive(Clone, Copy, PartialEq, Eq, Debug, Structural)]
pub enum OrderType {
    GoodTillCancel,
    GoodForDay,
    FillAndKill,
    FillOrKill,
    Market,
}

#[derive(Clone, Copy, PartialEq, Eq, Debug, Structural)]
pub enum Side {
    Buy,
    Sell,
}

/// Why an operation on a single order was refused.
#[derive(Clone, Copy, PartialEq, Eq, Debug, Structural)]
pub enum OrderError {
    OverFill,
    NotMarket,
    InvalidPrice,
}

/// A live order with its quantity bookkeeping.
#[derive(Clone, Copy, Debug)]
pub struct Order {
    pub order_type: OrderType,
    pub order_id: OrderId,
    pub side: Side,
    pub price: Price,
    pub initial_quantity: Quantity,
    pub remaining_quantity: Quantity,
    pub filled_quantity: Quantity,
    pub filled: bool,
}

/// A fresh order: nothing filled yet.
pub open spec fn fresh_order(
    order_type: OrderType,
    order_id: OrderId,
    side: Side,
    price: Price,
    quantity: Quantity,
) -> Order {
    Order {
        order_type,
        order_id,
        side,
        price,
        initial_quantity: quantity,
        remaining_quantity: quantity,
        filled_quantity: 0,
        filled: quantity == 0,
    }
}

/// The order after `q` more of it has been filled.
pub open spec fn filled_by(o: Order, q: Quantity) -> Order {
    Order {
        remaining_quantity: (o.remaining_quantity - q) as u32,
        filled_quantity: (o.filled_quantity + q) as u32,
        filled: o.remaining_quantity - q == 0,
        ..o
    }
}

/// The order turned into a good-till-cancel order resting at `price`.
pub open spec fn repriced(o: Order, price: Price) -> Order {
    Order { price, order_type: OrderType::GoodTillCancel, ..o }
}

impl Order {
    /// The bookkeeping is consistent: initial = remaining + filled, and
    /// the filled flag is set exactly when nothing remains.
    pub open spec fn wf(self) -> bool {
        &&& self.initial_quantity == self.remaining_quantity + self.filled_quantity
        &&& self.filled == (self.remaining_quantity == 0)
    }

    pub fn new(
        order_type: OrderType,
        order_id: OrderId,
        side: Side,
        price: Price,
        quantity: Quantity,
    ) -> (r: Order)
        ensures
            r == fresh_order(order_type, order_id, side, price, quantity),
            r.wf(),
    {
        Order {
            order_type,
            order_id,
            side,
            price,
            initial_quantity: quantity,
            remaining_quantity: quantity,
            filled_quantity: 0,
            filled: quantity == 0,
        }
    }

    /// A market order: it carries the unpriced sentinel until the book prices it.
    pub fn new_market(order_id: OrderId, side: Side, quantity: Quantity) -> (r: Order)
        ensures
            r == fresh_order(OrderType::Market, order_id, side, MARKET_PRICE, quantity),
            r.wf(),
    {
        Order::new(OrderType::Market, order_id, side, MARKET_PRICE, quantity)
    }

    /// Turns a market order into a good-till-cancel order at a tradable price.
    pub fn to_good_till_cancel(&mut self, price: Price) -> (r: Result<(), OrderError>)
        ensures
            old(self).order_type != OrderType::Market ==> r == Err::<(), OrderError>(
                OrderError::NotMarket,
            ) && *final(self) == *old(self),
            old(self).order_type == OrderType::Market && price == MARKET_PRICE ==> r == Err::<
                (),
                OrderError,
            >(OrderError::InvalidPrice) && *final(self) == *old(self),
            old(self).order_type == OrderType::Market && price != MARKET_PRICE ==> r is Ok
                && *final(self) == repriced(*old(self), price),
    {
        if self.order_type != OrderType::Market {
            return Err(OrderError::NotMarket);
        }
        if price == MARKET_PRICE {
            return Err(OrderError::InvalidPrice);
        }
        self.price = price;
        self.order_type = OrderType::GoodTillCancel;
        Ok(())
    }

    pub fn get_order_id(&self) -> (r: OrderId)
        ensures
            r == self.order_id,
    {
        self.order_id
    }

    pub fn get_side(&self) -> (r: Side)
        ensures
            r == self.side,
    {
        self.side
    }

    pub fn get_price(&self) -> (r: Price)
        ensures
            r == self.price,
    {
        self.price
    }

    pub fn get_order_type(&self) -> (r: OrderType)
        ensures
            r == self.order_type,
    {
        self.order_type
    }

    pub fn get_initial_quantity(&self) -> (r: Quantity)
        ensures
            r == self.initial_quantity,
    {
        self.initial_quantity
    }

    pub fn get_remaining_quantity(&self) -> (r: Quantity)
        ensures
            r == self.remaining_quantity,
    {
        self.remaining_quantity
    }

    pub fn get_filled_quantity(&self) -> (r: Quantity)
        ensures
            r == self.filled_quantity,
    {
        self.filled_quantity
    }

    pub fn is_filled(&self) -> (r: bool)
        ensures
            r == self.filled,
    {
        self.filled
    }

    /// Fills `quantity` of the order; refuses to fill more than remains.
    pub fn fill(&mut self, quantity: Quantity) -> (r: Result<(), OrderError>)
        requires
            old(self).wf(),
        ensures
            quantity <= old(self).remaining_quantity ==> r is Ok && *final(self) == filled_by(
                *old(self),
                quantity,
            ),
            quantity > old(self).remaining_quantity ==> r == Err::<(), OrderError>(
                OrderError::OverFill,
            ) && *final(self) == *old(self),
            final(self).wf(),
    {
        if quantity <= self.remaining_quantity {
            self.remaining_quantity = self.remaining_quantity - quantity;
            self.filled_quantity = self.filled_quantity + quantity;
            self.filled = self.remaining_quantity == 0;
            Ok(())
        } else {
            Err(OrderError::OverFill)
        }
    }
}

/// A request to replace a resting order's side, price and quantity.
#[derive(Clone, Copy, Debug)]
pub struct OrderModify {
    pub order_id: OrderId,
    pub price: Price,
    pub side: Side,
    pub quantity: Quantity,
}

impl OrderModify {
    pub fn new(order_id: OrderId, side: Side, price: Price, quantity: Quantity) -> (r: OrderModify)
        ensures
            r == (OrderModify { order_id, price, side, quantity }),
    {
        OrderModify { order_id, side, price, quantity }
    }

    pub fn get_order_id(&self) -> (r: OrderId)
        ensures
            r == self.order_id,
    {
        self.order_id
    }

    pub fn get_side(&self) -> (r: Side)
        ensures
            r == self.side,
    {
        self.side
    }

    pub fn get_price(&self) -> (r: Price)
        ensures
            r == self.price,
    {
        self.price
    }

    pub fn get_quantity(&self) -> (r: Quantity)
        ensures
            r == self.quantity,
    {
        self.quantity
    }

    /// The fresh order of the given type that this modification describes.
    pub open spec fn as_order(self, order_type: OrderType) -> Order {
        fresh_order(order_type, self.order_id, self.side, self.price, self.quantity)
    }

    pub fn to_order_pointer(&self, order_type: OrderType) -> (r: Order)
        ensures
            r == self.as_order(order_type),
            r.wf(),
    {
        Order::new(order_type, self.order_id, self.side, self.price, self.quantity)
    }
}

/// One leg of a trade: which order, at its own price, for how much.
#[derive(Clone, Copy, Debug)]
pub struct TradeInfo {
    pub order_id: OrderId,
    pub price: Price,
    pub quantity: Quantity,
}

/// A match between a bid and an ask.
#[derive(Clone, Copy, Debug)]
pub struct Trade {
    pub bid_trade: TradeInfo,
    pub ask_trade: TradeInfo,
}

impl Trade {
    pub fn new(bid_trade: TradeInfo, ask_trade: TradeInfo) -> (r: Trade)
        ensures
            r == (Trade { bid_trade, ask_trade }),
    {
        Trade { bid_trade, ask_trade }
    }

    pub fn get_bid_trade(&self) -> (r: TradeInfo)
        ensures
            r == self.bid_trade,
    {
        self.bid_trade
    }

    pub fn get_ask_trade(&self) -> (r: TradeInfo)
        ensures
            r == self.ask_trade,
    {
        self.ask_trade
    }
}

/// The total remaining quantity resting at one price.
#[derive(Clone, Copy, Debug)]
pub struct LevelInfo {
    pub price: Price,
    pub quantity: u64,
}

/// Per-side level summaries, each side in ascending price order.
#[derive(Debug)]
pub struct OrderbookLevelInfos {
    pub bid_infos: Vec<LevelInfo>,
    pub ask_infos: Vec<LevelInfo>,
}

impl OrderbookLevelInfos {
    pub fn new(bids: Vec<LevelInfo>, asks: Vec<LevelInfo>) -> (r: OrderbookLevelInfos)
        ensures
            r.bid_infos@ == bids@,
            r.ask_infos@ == asks@,
    {
        OrderbookLevelInfos { bid_infos: bids, ask_infos: asks }
    }

    pub fn get_bids(&self) -> (r: &Vec<LevelInfo>)
        ensures
            r@ == self.bid_infos@,
    {
        &self.bid_infos
    }

    pub fn get_asks(&self) -> (r: &Vec<LevelInfo>)
        ensures
            r@ == self.ask_infos@,
    {
        &self.ask_infos
    }
}

} // verus!
