use vstd::prelude::*;

use crate::u256::U256;

verus! {

pub type OrderId = u64;

/// 32-byte opaque account identifier.
#[derive(Clone, Copy, Debug, PartialEq, Eq)]
pub struct ActorId {
    pub bytes: [u8; 32],
}

impl ActorId {
    pub open spec fn view(self) -> Seq<u8> {
        self.bytes@
    }

    /// The identifier with `x` little-endian in bytes 12 to 19 and zero elsewhere.
    pub fn from_u64(x: u64) -> (r: ActorId)
        ensures
            r@.len() == 32,
            forall|j: int| 0 <= j < 12 || 20 <= j < 32 ==> r@[j] == 0,
            r@[12] == x as u8,
            r@[13] == (x >> 8u64) as u8,
            r@[14] == (x >> 16u64) as u8,
            r@[15] == (x >> 24u64) as u8,
            r@[16] == (x >> 32u64) as u8,
            r@[17] == (x >> 40u64) as u8,
            r@[18] == (x >> 48u64) as u8,
            r@[19] == (x >> 56u64) as u8,
    {
        let mut bytes = [0u8; 32];
        bytes[12] = x as u8;
        bytes[13] = (x >> 8u64) as u8;
        bytes[14] = (x >> 16u64) as u8;
        bytes[15] = (x >> 24u64) as u8;
        bytes[16] = (x >> 32u64) as u8;
        bytes[17] = (x >> 40u64) as u8;
        bytes[18] = (x >> 48u64) as u8;
        bytes[19] = (x >> 56u64) as u8;
        ActorId { bytes }
    }

    /// Byte-wise equality.
    pub fn same_as(&self, other: &ActorId) -> (r: bool)
        ensures
            r == (self@ == other@),
    {
        let mut i: usize = 0;
        while i < 32
            invariant
                0 <= i <= 32,
                self.bytes@.len() == 32,
                other.bytes@.len() == 32,
                forall|j: int| 0 <= j < i ==> self.bytes@[j] == other.bytes@[j],
            decreases 32 - i,
        {
            if self.bytes[i] != other.bytes[i] {
                return false;
            }
            i = i + 1;
        }
        assert(self.bytes@ =~= other.bytes@);
        true
    }
}

#[derive(Clone, Copy, Debug, PartialEq, Eq, Structural)]
pub enum Side {
    Buy,
    Sell,
}

impl Side {
    pub open spec fn opposite_spec(self) -> Side {
        match self {
            Side::Buy => Side::Sell,
            Side::Sell => Side::Buy,
        }
    }

    pub fn opposite(self) -> (r: Side)
        ensures
            r == self.opposite_spec(),
    {
        match self {
            Side::Buy => Side::Sell,
            Side::Sell => Side::Buy,
        }
    }
}

#[derive(Clone, Copy, Debug, PartialEq, Eq, Structural)]
pub enum OrderKind {
    Limit,
    Market,
    FillOrKill,
    ImmediateOrCancel,
}

/// Incoming (taker) order. For Market orders `limit_price` is ignored.
#[derive(Clone, Copy, Debug)]
pub struct IncomingOrder {
    pub id: OrderId,
    pub side: Side,
    pub kind: OrderKind,
    pub limit_price: U256,
    pub amount_base: U256,
    pub owner: ActorId,
    /// Budget of a Market Buy; zero for every other order.
    pub max_quote: U256,
}

/// A resting (maker) order as the book stores it.
#[derive(Clone, Copy, Debug, PartialEq, Eq)]
pub struct MakerView {
    pub id: OrderId,
    pub owner: ActorId,
    pub side: Side,
    pub price: U256,
    pub remaining_base: U256,
    /// For a Buy maker the quote still held in escrow; zero for a Sell maker.
    pub reserved_quote: U256,
}

/// Limit remainder to be placed as a resting order.
#[derive(Clone, Copy, Debug, PartialEq, Eq)]
pub struct RestingOrder {
    pub id: OrderId,
    pub owner: ActorId,
    pub side: Side,
    pub price: U256,
    pub remaining_base: U256,
    pub remaining_quote: U256,
}

/// One fill produced by matching.
#[derive(Clone, Copy, Debug, PartialEq, Eq)]
pub struct Trade {
    pub maker_order_id: OrderId,
    pub taker_order_id: OrderId,
    pub maker: ActorId,
    pub taker: ActorId,
    pub price: U256,
    pub amount_base: U256,
    pub amount_quote: U256,
    /// Quote left in a Buy maker's escrow when this trade fills it completely (ceiling lock
    /// less floor fills), handed back to the maker; zero otherwise.
    pub maker_refund_quote: U256,
}

#[derive(Clone, Copy, Debug, Default)]
pub struct EngineLimits {
    pub max_trades: u32,
    pub max_preview_scans: u32,
}

#[derive(Clone, Copy, Debug, PartialEq, Eq, Structural)]
pub enum Completion {
    Filled,
    /// Fill-or-kill that could not fill: the book is untouched.
    Rejected,
    /// Market or IOC remainder dropped.
    Cancelled { remaining_base: U256 },
    /// Limit remainder placed as a resting order.
    Placed { remaining_base: U256, remaining_quote: U256 },
}

#[derive(Clone, Debug)]
pub struct ExecutionReport {
    pub trades: Vec<Trade>,
    pub completion: Completion,
}

#[derive(Clone, Copy, Debug, PartialEq, Eq, Structural)]
pub enum BookInvariant {
    BestPriceHasNoHead,
    LevelHeadMissingMaker,
    NextInLevelMissingMaker,
    MakerSideMismatch,
    MakerPriceMismatch,
    NextPriceDidNotAdvance,
    NextInLevelSelfLoop,
    MakerZeroRemaining,
}

#[derive(Clone, Copy, Debug, PartialEq, Eq, Structural)]
pub enum InvalidOrderReason {
    ZeroAmountBase,
    ZeroLimitPriceForNonMarket,
    PreviewOnlyForFok,
    FokRequiresLimitPrice,
    ZeroMaxQuoteForMarketBuy,
    MaxQuoteOnlyForMarketBuy,
    PreviewOnlyForMarketBuyBudget,
    MarketBuyMaxQuoteExceeded,
}

#[derive(Clone, Copy, Debug, PartialEq, Eq, Structural)]
pub enum MatchError {
    InvalidOrder(InvalidOrderReason),
    MulOverflow,
    AddOverflow,
    SubUnderflow,
    MarketBuyInsufficientLiquidity,
    MarketBuyBudgetCheckInconsistent,
    MarketBuyLiquidityCheckInconsistent,
    MarketBuyMaxQuoteExceeded,
    BrokenBook(BookInvariant),
    FokCheckInconsistent,
    TradeLimitReached { max_trades: u32 },
    ScanLimitReached { max_scanned: u32 },
}

/// The side a wire code stands for: 0 is Buy, 1 is Sell.
pub fn side_from_io(x: u16) -> (r: Side)
    requires
        x < 2,
    ensures
        r == (if x == 0 { Side::Buy } else { Side::Sell }),
{
    if x == 0 {
        Side::Buy
    } else {
        Side::Sell
    }
}

/// The kind a wire code stands for: 0 Limit, 1 Market, 2 FillOrKill, 3 ImmediateOrCancel.
pub fn kind_from_io(x: u16) -> (r: OrderKind)
    requires
        x < 4,
    ensures
        r == (if x == 0 {
            OrderKind::Limit
        } else if x == 1 {
            OrderKind::Market
        } else if x == 2 {
            OrderKind::FillOrKill
        } else {
            OrderKind::ImmediateOrCancel
        }),
{
    match x {
        0 => OrderKind::Limit,
        1 => OrderKind::Market,
        2 => OrderKind::FillOrKill,
        _ => OrderKind::ImmediateOrCancel,
    }
}

/// A 20-byte Ethereum address.
pub type EthAddress = [u8; 20];

/// The address an account projects to: its last 20 bytes.
pub fn actor_to_eth(actor: ActorId) -> (r: EthAddress)
    ensures
        r@ == actor@.subrange(12, 32),
{
    let mut out = [0u8; 20];
    let mut i: usize = 0;
    while i < 20
        invariant
            0 <= i <= 20,
            out@.len() == 20,
            actor@.len() == 32,
            forall|j: int| 0 <= j < i ==> out@[j] == actor@[j + 12],
        decreases 20 - i,
    {
        out[i] = actor.bytes[i + 12];
        i = i + 1;
    }
    assert(out@ =~= actor@.subrange(12, 32));
    out
}

/// The account of an address: twelve zero bytes, then the address.
pub fn eth_to_actor(addr: EthAddress) -> (r: ActorId)
    ensures
        r@.len() == 32,
        forall|j: int| 0 <= j < 12 ==> r@[j] == 0,
        r@.subrange(12, 32) == addr@,
{
    let mut bytes = [0u8; 32];
    let mut i: usize = 0;
    while i < 20
        invariant
            0 <= i <= 20,
            bytes@.len() == 32,
            addr@.len() == 20,
            forall|j: int| 0 <= j < 12 ==> bytes@[j] == 0,
            forall|j: int| 0 <= j < i ==> bytes@[j + 12] == addr@[j],
        decreases 20 - i,
    {
        bytes[i + 12] = addr[i];
        i = i + 1;
    }
    assert(bytes@.subrange(12, 32) =~= addr@);
    ActorId { bytes }
}

/// The account with its first twelve bytes cleared: the one its address stands for.
pub fn normalize_actor(actor: ActorId) -> (r: ActorId)
    ensures
        r@.len() == 32,
        forall|j: int| 0 <= j < 12 ==> r@[j] == 0,
        r@.subrange(12, 32) == actor@.subrange(12, 32),
{
    eth_to_actor(actor_to_eth(actor))
}

} // verus!
