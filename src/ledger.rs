use vstd::prelude::*;

use crate::book::Book;
use crate::engine::{sum, trade_quotes};
use crate::math::{calc_quote_ceil, product_fits, quote_ceil};
use crate::orderbook::OrderBook;
use crate::book::{at, remove_at};
use crate::engine::{exec_ok, execute, match_error};
use crate::types::{
    ActorId, Completion, EngineLimits, ExecutionReport, IncomingOrder, MakerView, MatchError, OrderId, OrderKind,
    Side, Trade,
};
use crate::u256::{fits_u256, U256};

verus! {

/// The two assets of a market.
#[derive(Clone, Copy, Debug, PartialEq, Eq, Structural)]
pub enum Asset {
    Base,
    Quote,
}

/// Balances of one account: free and locked, per asset.
#[derive(Clone, Copy, Debug, PartialEq, Eq, Structural)]
pub struct AccountBalances {
    pub base: U256,
    pub quote: U256,
    pub base_locked: U256,
    pub quote_locked: U256,
}

#[derive(Clone, Copy, Debug)]
pub struct Account {
    pub who: ActorId,
    pub balances: AccountBalances,
}

/// Why a submission is refused.
#[derive(Clone, Copy, Debug, PartialEq, Eq, Structural)]
pub enum SubmitError {
    /// The owner cannot lock what the order may pay; nothing changed.
    Ledger(LedgerError),
    /// The matching engine refused or failed the order; nothing changed.
    Match(MatchError),
    /// Settling the executed order would overflow a balance; the book and the balances are put
    /// back as they were.
    Settle(LedgerError),
    /// A Limit remainder could not be placed: the book has no free slot.
    BookFull,
}

/// Why a cancel request is refused.
#[derive(Clone, Copy, Debug, PartialEq, Eq, Structural)]
pub enum CancelError {
    /// No resting order has this id.
    NotFound,
    /// The resting order belongs to another account.
    NotOwner,
    /// Crediting the order's holdings back would overflow its owner's balance.
    Overflow,
}

#[derive(Clone, Copy, Debug, PartialEq, Eq, Structural)]
pub enum LedgerError {
    /// The free balance is below the amount.
    InsufficientBalance,
    /// The locked balance is below the amount.
    InsufficientLocked,
    /// A balance would exceed 2^256 - 1.
    Overflow,
}

/// `(free, locked)` of one asset of a balance record.
pub open spec fn pair_of(b: AccountBalances, asset: Asset) -> (nat, nat) {
    match asset {
        Asset::Base => (b.base.value(), b.base_locked.value()),
        Asset::Quote => (b.quote.value(), b.quote_locked.value()),
    }
}

/// The balance record of `who` in `accts`: the last entry for it, or all zero.
pub open spec fn lookup(accts: Seq<Account>, who: Seq<u8>, asset: Asset) -> (nat, nat)
    decreases accts.len(),
{
    if accts.len() == 0 {
        (0, 0)
    } else if accts.last().who@ == who {
        pair_of(accts.last().balances, asset)
    } else {
        lookup(accts.drop_last(), who, asset)
    }
}

pub open spec fn unique_accounts(accts: Seq<Account>) -> bool {
    forall|i: int, j: int| 0 <= i < j < accts.len() ==> accts[i].who@ != accts[j].who@
}

/// A ledger, as free and locked amounts per account and asset; an unknown account holds zero.
pub type LedgerView = Map<(Seq<u8>, Asset), (nat, nat)>;

/// `l` with `amount` added to the free balance of `who` in `asset`, if that fits.
pub open spec fn credit(l: LedgerView, who: Seq<u8>, asset: Asset, amount: nat) -> Option<LedgerView> {
    let (f, k) = l[(who, asset)];
    if fits_u256(f + amount) {
        Some(l.insert((who, asset), (f + amount, k)))
    } else {
        None
    }
}

/// `l` with `amount` moved from free to locked.
pub open spec fn lock_spec(l: LedgerView, who: Seq<u8>, asset: Asset, amount: nat) -> Option<LedgerView> {
    let (f, k) = l[(who, asset)];
    if f < amount || !fits_u256(k + amount) {
        None
    } else {
        Some(l.insert((who, asset), ((f - amount) as nat, k + amount)))
    }
}

/// `l` with `amount` moved from locked back to free.
pub open spec fn unlock_spec(l: LedgerView, who: Seq<u8>, asset: Asset, amount: nat) -> Option<LedgerView> {
    let (f, k) = l[(who, asset)];
    if k < amount || !fits_u256(f + amount) {
        None
    } else {
        Some(l.insert((who, asset), (f + amount, (k - amount) as nat)))
    }
}

/// `l` with `amount` taken out of the locked balance (spent, or handed to a resting order).
pub open spec fn spend_locked(l: LedgerView, who: Seq<u8>, asset: Asset, amount: nat) -> Option<LedgerView> {
    let (f, k) = l[(who, asset)];
    if k < amount {
        None
    } else {
        Some(l.insert((who, asset), (f, (k - amount) as nat)))
    }
}

/// `l` with `amount` taken out of the free balance.
pub open spec fn debit(l: LedgerView, who: Seq<u8>, asset: Asset, amount: nat) -> Option<LedgerView> {
    let (f, k) = l[(who, asset)];
    if f < amount {
        None
    } else {
        Some(l.insert((who, asset), ((f - amount) as nat, k)))
    }
}

pub open spec fn then(o: Option<LedgerView>, f: spec_fn(LedgerView) -> Option<LedgerView>) -> Option<LedgerView> {
    match o {
        Some(l) => f(l),
        None => None,
    }
}

/// The asset a taker on `side` pays with.
pub open spec fn paid_asset(side: Side) -> Asset {
    match side {
        Side::Buy => Asset::Quote,
        Side::Sell => Asset::Base,
    }
}

/// The ledger after one trade of a taker on `side`: the taker's locked payment is spent, the
/// taker is credited what it bought, and the maker is credited what it sold; a Buy maker the
/// trade filled completely also gets back what was left of its escrow.
pub open spec fn apply_trade(l: LedgerView, side: Side, t: Trade) -> Option<LedgerView> {
    match side {
        Side::Buy => then(
            spend_locked(l, t.taker@, Asset::Quote, t.amount_quote.value()),
            |l1: LedgerView|
                then(
                    credit(l1, t.taker@, Asset::Base, t.amount_base.value()),
                    |l2: LedgerView| credit(l2, t.maker@, Asset::Quote, t.amount_quote.value()),
                ),
        ),
        Side::Sell => then(
            spend_locked(l, t.taker@, Asset::Base, t.amount_base.value()),
            |l1: LedgerView|
                then(
                    credit(l1, t.taker@, Asset::Quote, t.amount_quote.value()),
                    |l2: LedgerView|
                        then(
                            credit(l2, t.maker@, Asset::Base, t.amount_base.value()),
                            |l3: LedgerView| credit(l3, t.maker@, Asset::Quote, t.maker_refund_quote.value()),
                        ),
                ),
        ),
    }
}

pub open spec fn apply_trades(l: LedgerView, side: Side, ts: Seq<Trade>) -> Option<LedgerView>
    decreases ts.len(),
{
    if ts.len() == 0 {
        Some(l)
    } else {
        then(apply_trades(l, side, ts.drop_last()), |l1: LedgerView| apply_trade(l1, side, ts.last()))
    }
}

/// The taker's leftovers once its trades are applied: released back to free, or handed to the
/// resting order it became.
pub open spec fn finish(l: LedgerView, o: IncomingOrder, c: Completion, ts: Seq<Trade>, locked_base: nat, locked_quote: nat) -> Option<LedgerView> {
    let who = o.owner@;
    let spent_quote = sum(trade_quotes(ts));
    match c {
        Completion::Rejected => then(
            unlock_spec(l, who, Asset::Base, locked_base),
            |l1: LedgerView| unlock_spec(l1, who, Asset::Quote, locked_quote),
        ),
        Completion::Cancelled { remaining_base } => match o.side {
            Side::Sell => unlock_spec(l, who, Asset::Base, remaining_base.value()),
            Side::Buy => if locked_quote < spent_quote {
                None
            } else {
                unlock_spec(l, who, Asset::Quote, (locked_quote - spent_quote) as nat)
            },
        },
        Completion::Filled => match o.side {
            Side::Sell => Some(l),
            Side::Buy => if locked_quote < spent_quote {
                None
            } else {
                unlock_spec(l, who, Asset::Quote, (locked_quote - spent_quote) as nat)
            },
        },
        Completion::Placed { remaining_base, remaining_quote } => match o.side {
            Side::Sell => spend_locked(l, who, Asset::Base, remaining_base.value()),
            Side::Buy => if locked_quote < spent_quote + remaining_quote.value() {
                None
            } else {
                then(
                    spend_locked(l, who, Asset::Quote, remaining_quote.value()),
                    |l1: LedgerView|
                        unlock_spec(
                            l1,
                            who,
                            Asset::Quote,
                            (locked_quote - spent_quote - remaining_quote.value()) as nat,
                        ),
                )
            },
        },
    }
}

pub open spec fn settle_spec(l: LedgerView, o: IncomingOrder, rep_trades: Seq<Trade>, c: Completion, locked_base: nat, locked_quote: nat) -> Option<LedgerView> {
    then(
        apply_trades(l, o.side, rep_trades),
        |l1: LedgerView| finish(l1, o, c, rep_trades, locked_base, locked_quote),
    )
}

/// What a taker locks before matching: its base for a Sell; for a Buy, its Market budget or
/// the ceiling quote of its whole amount at its limit.
pub open spec fn taker_lock(o: IncomingOrder) -> (nat, nat) {
    match o.side {
        Side::Sell => (o.amount_base.value(), 0),
        Side::Buy => match o.kind {
            OrderKind::Market => (0, o.max_quote.value()),
            _ => (0, quote_ceil(o.amount_base.value(), o.limit_price.value())),
        },
    }
}

proof fn lemma_lookup_at(accts: Seq<Account>, i: int, asset: Asset)
    requires
        unique_accounts(accts),
        0 <= i < accts.len(),
    ensures
        lookup(accts, accts[i].who@, asset) == pair_of(accts[i].balances, asset),
    decreases accts.len(),
{
    if i != accts.len() - 1 {
        assert(accts.drop_last()[i] == accts[i]);
        lemma_lookup_at(accts.drop_last(), i, asset);
    }
}

proof fn lemma_lookup_absent(accts: Seq<Account>, who: Seq<u8>, asset: Asset)
    requires
        forall|i: int| 0 <= i < accts.len() ==> #[trigger] accts[i].who@ != who,
    ensures
        lookup(accts, who, asset) == (0nat, 0nat),
    decreases accts.len(),
{
    if accts.len() > 0 {
        assert(accts.last() == accts[accts.len() - 1]);
        lemma_lookup_absent(accts.drop_last(), who, asset);
    }
}

proof fn lemma_lookup_update(accts: Seq<Account>, i: int, a: Account, who: Seq<u8>, asset: Asset)
    requires
        unique_accounts(accts),
        0 <= i < accts.len(),
        a.who@ == accts[i].who@,
    ensures
        lookup(accts.update(i, a), who, asset) == if who == a.who@ {
            pair_of(a.balances, asset)
        } else {
            lookup(accts, who, asset)
        },
    decreases accts.len(),
{
    let u = accts.update(i, a);
    if i == accts.len() - 1 {
        assert(u.drop_last() =~= accts.drop_last());
    } else {
        assert(u.drop_last() =~= accts.drop_last().update(i, a));
        lemma_lookup_update(accts.drop_last(), i, a, who, asset);
    }
}

proof fn lemma_lookup_push(accts: Seq<Account>, a: Account, who: Seq<u8>, asset: Asset)
    requires
        a.balances.base.value() == 0 && a.balances.quote.value() == 0 && a.balances.base_locked.value() == 0
            && a.balances.quote_locked.value() == 0,
        forall|i: int| 0 <= i < accts.len() ==> #[trigger] accts[i].who@ != a.who@,
    ensures
        lookup(accts.push(a), who, asset) == lookup(accts, who, asset),
{
    assert(accts.push(a).drop_last() =~= accts);
    if who == a.who@ {
        lemma_lookup_absent(accts, who, asset);
    }
}

proof fn lemma_lookup_fits(accts: Seq<Account>, who: Seq<u8>, asset: Asset)
    ensures
        fits_u256(lookup(accts, who, asset).0),
        fits_u256(lookup(accts, who, asset).1),
    decreases accts.len(),
{
    crate::u256::lemma_value_fits(U256 { w0: 0, w1: 0, w2: 0, w3: 0 });
    if accts.len() > 0 {
        let b = accts.last().balances;
        crate::u256::lemma_value_fits(b.base);
        crate::u256::lemma_value_fits(b.quote);
        crate::u256::lemma_value_fits(b.base_locked);
        crate::u256::lemma_value_fits(b.quote_locked);
        lemma_lookup_fits(accts.drop_last(), who, asset);
    }
}

/// One executed trade as kept in the recent-trade history, amounts projected to their low 128
/// bits.
#[derive(Clone, Copy, Debug)]
pub struct ExecutedTrade {
    pub seq: u64,
    pub maker_order_id: OrderId,
    pub taker_order_id: OrderId,
    pub maker: ActorId,
    pub taker: ActorId,
    pub price: u128,
    pub amount_base: u128,
    pub amount_quote: u128,
}

/// Most trades the history keeps.
pub const MAX_EXECUTED_TRADE_HISTORY: usize = 512;

/// Executions with more trades than this are left out of the history.
pub const MAX_RECORDED_TRADES_PER_EXECUTION: usize = 32;


/// The history record of trade `t` under sequence number `seq`.
pub open spec fn record_of(t: Trade, seq: u64) -> ExecutedTrade {
    ExecutedTrade {
        seq,
        maker_order_id: t.maker_order_id,
        taker_order_id: t.taker_order_id,
        maker: t.maker,
        taker: t.taker,
        price: (t.price.value() % 0x1_0000_0000_0000_0000_0000_0000_0000_0000nat) as u128,
        amount_base: (t.amount_base.value() % 0x1_0000_0000_0000_0000_0000_0000_0000_0000nat) as u128,
        amount_quote: (t.amount_quote.value() % 0x1_0000_0000_0000_0000_0000_0000_0000_0000nat) as u128,
    }
}

/// `start + i`, stopping at the largest `u64`.
pub open spec fn seq_after(start: u64, i: nat) -> u64 {
    if start + i <= u64::MAX {
        (start + i) as u64
    } else {
        u64::MAX
    }
}

/// The records of `ts`, numbered from `start`.
pub open spec fn records(ts: Seq<Trade>, start: u64) -> Seq<ExecutedTrade> {
    Seq::new(ts.len(), |i: int| record_of(ts[i], seq_after(start, i as nat)))
}

/// The last `n` entries of `s`.
pub open spec fn keep_last<A>(s: Seq<A>, n: nat) -> Seq<A> {
    if s.len() > n {
        s.skip(s.len() - n)
    } else {
        s
    }
}

/// The asset a resting order holds: quote in escrow for a Buy, base for a Sell.
pub open spec fn held_asset(side: Side) -> Asset {
    match side {
        Side::Buy => Asset::Quote,
        Side::Sell => Asset::Base,
    }
}

/// The amount a resting order holds.
pub open spec fn held_amount(m: MakerView) -> nat {
    match m.side {
        Side::Buy => m.reserved_quote.value(),
        Side::Sell => m.remaining_base.value(),
    }
}

/// The market: its book, its balance ledger, its limits and its counters.
pub struct State {
    pub admin: Option<ActorId>,
    pub next_order_id: OrderId,
    pub next_trade_seq: u64,
    pub limits: EngineLimits,
    pub book: OrderBook,
    pub accounts: Vec<Account>,
    pub executed_trades: Vec<ExecutedTrade>,
    pub base_token_id: [u8; 20],
    pub quote_token_id: [u8; 20],
    pub base_vault_id: ActorId,
    pub quote_vault_id: ActorId,
}

impl State {
    /// Free and locked amounts per account and asset.
    pub closed spec fn ledger(&self) -> LedgerView {
        Map::new(|k: (Seq<u8>, Asset)| true, |k: (Seq<u8>, Asset)| lookup(self.accounts@, k.0, k.1))
    }

    pub closed spec fn inv(&self) -> bool {
        &&& unique_accounts(self.accounts@)
        &&& self.executed_trades@.len() <= MAX_EXECUTED_TRADE_HISTORY
    }

    pub fn new(
        admin: ActorId,
        base_vault_id: ActorId,
        quote_vault_id: ActorId,
        base_token_id: [u8; 20],
        quote_token_id: [u8; 20],
        max_trades: u32,
        max_preview_scans: u32,
    ) -> (r: State)
        ensures
            r.inv(),
            r.book.wf(),
            r.next_order_id == 1,
            r.limits == (EngineLimits { max_trades, max_preview_scans }),
            forall|who: Seq<u8>, a: Asset| #[trigger] r.ledger()[(who, a)] == (0nat, 0nat),
    {
        let r = State {
            admin: Some(admin),
            next_order_id: 1,
            next_trade_seq: 1,
            limits: EngineLimits { max_trades, max_preview_scans },
            book: OrderBook::new(),
            accounts: Vec::new(),
            executed_trades: Vec::new(),
            base_token_id,
            quote_token_id,
            base_vault_id,
            quote_vault_id,
        };
        r
    }

    /// Hands out the next order id; the counter stops at its maximum.
    pub fn alloc_order_id(&mut self) -> (r: OrderId)
        ensures
            r == old(self).next_order_id,
            final(self).next_order_id == if old(self).next_order_id < u64::MAX {
                (old(self).next_order_id + 1) as u64
            } else {
                old(self).next_order_id
            },
            final(self).ledger() == old(self).ledger(),
            final(self).inv() == old(self).inv(),
            final(self).book == old(self).book,
    {
        let id = self.next_order_id;
        self.next_order_id = self.next_order_id.saturating_add(1);
        id
    }

    /// Free and locked amounts of `who`: `(base, quote, base_locked, quote_locked)`.
    pub fn balance_of(&self, who: &ActorId) -> (r: AccountBalances)
        requires
            self.inv(),
        ensures
            pair_of(r, Asset::Base) == self.ledger()[(who@, Asset::Base)],
            pair_of(r, Asset::Quote) == self.ledger()[(who@, Asset::Quote)],
    {
        let mut i: usize = 0;
        while i < self.accounts.len()
            invariant
                0 <= i <= self.accounts@.len(),
                unique_accounts(self.accounts@),
                forall|j: int| 0 <= j < i ==> #[trigger] self.accounts@[j].who@ != who@,
            decreases self.accounts.len() - i,
        {
            if self.accounts[i].who.same_as(who) {
                proof {
                    lemma_lookup_at(self.accounts@, i as int, Asset::Base);
                    lemma_lookup_at(self.accounts@, i as int, Asset::Quote);
                }
                return self.accounts[i].balances;
            }
            i = i + 1;
        }
        proof {
            lemma_lookup_absent(self.accounts@, who@, Asset::Base);
            lemma_lookup_absent(self.accounts@, who@, Asset::Quote);
        }
        AccountBalances { base: U256::zero(), quote: U256::zero(), base_locked: U256::zero(), quote_locked: U256::zero() }
    }

    /// Index of the record of `who`, added with zero balances if it has none.
    fn slot(&mut self, who: &ActorId) -> (r: usize)
        requires
            old(self).inv(),
        ensures
            final(self).inv(),
            r < final(self).accounts@.len(),
            final(self).accounts@[r as int].who@ == who@,
            final(self).ledger() == old(self).ledger(),
            final(self).book == old(self).book,
            final(self).next_order_id == old(self).next_order_id,
    {
        let mut i: usize = 0;
        while i < self.accounts.len()
            invariant
                0 <= i <= self.accounts@.len(),
                *self == *old(self),
                self.inv(),
                forall|j: int| 0 <= j < i ==> #[trigger] self.accounts@[j].who@ != who@,
            decreases self.accounts.len() - i,
        {
            if self.accounts[i].who.same_as(who) {
                return i;
            }
            i = i + 1;
        }
        let ghost old_accts = self.accounts@;
        let zero = AccountBalances { base: U256::zero(), quote: U256::zero(), base_locked: U256::zero(), quote_locked: U256::zero() };
        let a = Account { who: *who, balances: zero };
        self.accounts.push(a);
        proof {
            assert(self.accounts@ == old_accts.push(a));
            assert forall|k: (Seq<u8>, Asset)| #![auto] self.ledger()[k] == old(self).ledger()[k] by {
                lemma_lookup_push(old_accts, a, k.0, k.1);
            }
            assert(self.ledger() =~= old(self).ledger());
            assert forall|x: int, y: int| 0 <= x < y < self.accounts@.len() implies self.accounts@[x].who@ != self.accounts@[y].who@ by {
                if y == old_accts.len() {
                    assert(old_accts[x].who@ != who@);
                }
            }
        }
        (self.accounts.len() - 1) as usize
    }

    /// Sets `(free, locked)` of `asset` in record `i`.
    fn set_pair(&mut self, i: usize, asset: Asset, free: U256, locked: U256)
        requires
            old(self).inv(),
            i < old(self).accounts@.len(),
        ensures
            final(self).inv(),
            final(self).accounts@.len() == old(self).accounts@.len(),
            final(self).accounts@[i as int].who == old(self).accounts@[i as int].who,
            final(self).ledger() == old(self).ledger().insert(
                (old(self).accounts@[i as int].who@, asset),
                (free.value(), locked.value()),
            ),
            final(self).book == old(self).book,
            final(self).next_order_id == old(self).next_order_id,
    {
        let mut a = self.accounts[i];
        match asset {
            Asset::Base => {
                a.balances.base = free;
                a.balances.base_locked = locked;
            },
            Asset::Quote => {
                a.balances.quote = free;
                a.balances.quote_locked = locked;
            },
        }
        let ghost old_accts = self.accounts@;
        self.accounts.set(i, a);
        proof {
            assert(self.accounts@ == old_accts.update(i as int, a));
            assert forall|k: (Seq<u8>, Asset)| #![auto] self.ledger()[k] == old(self).ledger().insert(
                (old_accts[i as int].who@, asset),
                (free.value(), locked.value()),
            )[k] by {
                lemma_lookup_update(old_accts, i as int, a, k.0, k.1);
                lemma_lookup_at(old_accts, i as int, k.1);
            }
            assert(self.ledger() =~= old(self).ledger().insert((old_accts[i as int].who@, asset), (free.value(), locked.value())));
            assert forall|x: int, y: int| 0 <= x < y < self.accounts@.len() implies self.accounts@[x].who@ != self.accounts@[y].who@ by {
                assert(old_accts[x].who@ != old_accts[y].who@);
            }
        }
    }

    /// `(free, locked)` of `asset` in record `i`.
    fn pair_at(&self, i: usize, asset: Asset) -> (r: (U256, U256))
        requires
            self.inv(),
            i < self.accounts@.len(),
        ensures
            (r.0.value(), r.1.value()) == self.ledger()[(self.accounts@[i as int].who@, asset)],
    {
        proof {
            lemma_lookup_at(self.accounts@, i as int, asset);
        }
        let b = self.accounts[i].balances;
        match asset {
            Asset::Base => (b.base, b.base_locked),
            Asset::Quote => (b.quote, b.quote_locked),
        }
    }

    /// Moves `amount` of `asset` of `who` from free to locked.
    pub fn lock(&mut self, who: &ActorId, asset: Asset, amount: U256) -> (r: Result<(), LedgerError>)
        requires
            old(self).inv(),
        ensures
            final(self).inv(),
            final(self).book == old(self).book,
            final(self).next_order_id == old(self).next_order_id,
            r is Ok <==> lock_spec(old(self).ledger(), who@, asset, amount.value()) is Some,
            r is Ok ==> final(self).ledger() == lock_spec(old(self).ledger(), who@, asset, amount.value())->Some_0,
            r is Err ==> final(self).ledger() == old(self).ledger(),
    {
        let i = self.slot(who);
        let (f, k) = self.pair_at(i, asset);
        let nf = match f.checked_sub(amount) {
            Some(x) => x,
            None => {
                return Err(LedgerError::InsufficientBalance);
            },
        };
        let nk = match k.checked_add(amount) {
            Some(x) => x,
            None => {
                return Err(LedgerError::Overflow);
            },
        };
        self.set_pair(i, asset, nf, nk);
        Ok(())
    }

    /// Moves `amount` of `asset` of `who` from locked back to free.
    pub fn unlock(&mut self, who: &ActorId, asset: Asset, amount: U256) -> (r: Result<(), LedgerError>)
        requires
            old(self).inv(),
        ensures
            final(self).inv(),
            final(self).book == old(self).book,
            final(self).next_order_id == old(self).next_order_id,
            r is Ok <==> unlock_spec(old(self).ledger(), who@, asset, amount.value()) is Some,
            r is Ok ==> final(self).ledger() == unlock_spec(old(self).ledger(), who@, asset, amount.value())->Some_0,
            r is Err ==> final(self).ledger() == old(self).ledger(),
    {
        let i = self.slot(who);
        let (f, k) = self.pair_at(i, asset);
        let nk = match k.checked_sub(amount) {
            Some(x) => x,
            None => {
                return Err(LedgerError::InsufficientLocked);
            },
        };
        let nf = match f.checked_add(amount) {
            Some(x) => x,
            None => {
                return Err(LedgerError::Overflow);
            },
        };
        self.set_pair(i, asset, nf, nk);
        Ok(())
    }

    /// Adds `amount` of `asset` to the free balance of `who`.
    pub fn deposit(&mut self, who: &ActorId, asset: Asset, amount: U256) -> (r: Result<(), LedgerError>)
        requires
            old(self).inv(),
        ensures
            final(self).inv(),
            final(self).book == old(self).book,
            final(self).next_order_id == old(self).next_order_id,
            r is Ok <==> credit(old(self).ledger(), who@, asset, amount.value()) is Some,
            r is Ok ==> final(self).ledger() == credit(old(self).ledger(), who@, asset, amount.value())->Some_0,
            r is Err ==> final(self).ledger() == old(self).ledger(),
    {
        let i = self.slot(who);
        let (f, k) = self.pair_at(i, asset);
        let nf = match f.checked_add(amount) {
            Some(x) => x,
            None => {
                return Err(LedgerError::Overflow);
            },
        };
        self.set_pair(i, asset, nf, k);
        Ok(())
    }

    /// Takes `amount` of `asset` out of the free balance of `who`.
    pub fn withdraw(&mut self, who: &ActorId, asset: Asset, amount: U256) -> (r: Result<(), LedgerError>)
        requires
            old(self).inv(),
        ensures
            final(self).inv(),
            final(self).book == old(self).book,
            final(self).next_order_id == old(self).next_order_id,
            r is Ok <==> debit(old(self).ledger(), who@, asset, amount.value()) is Some,
            r is Ok ==> final(self).ledger() == debit(old(self).ledger(), who@, asset, amount.value())->Some_0,
            r is Err ==> final(self).ledger() == old(self).ledger(),
    {
        let i = self.slot(who);
        let (f, k) = self.pair_at(i, asset);
        let nf = match f.checked_sub(amount) {
            Some(x) => x,
            None => {
                return Err(LedgerError::InsufficientBalance);
            },
        };
        self.set_pair(i, asset, nf, k);
        Ok(())
    }

    /// Takes `amount` of `asset` out of the locked balance of `who`.
    fn spend(&mut self, who: &ActorId, asset: Asset, amount: U256) -> (r: Result<(), LedgerError>)
        requires
            old(self).inv(),
        ensures
            final(self).inv(),
            final(self).book == old(self).book,
            final(self).next_order_id == old(self).next_order_id,
            r is Ok <==> spend_locked(old(self).ledger(), who@, asset, amount.value()) is Some,
            r is Ok ==> final(self).ledger() == spend_locked(old(self).ledger(), who@, asset, amount.value())->Some_0,
            r is Err ==> final(self).ledger() == old(self).ledger(),
    {
        let i = self.slot(who);
        let (f, k) = self.pair_at(i, asset);
        let nk = match k.checked_sub(amount) {
            Some(x) => x,
            None => {
                return Err(LedgerError::InsufficientLocked);
            },
        };
        self.set_pair(i, asset, f, nk);
        Ok(())
    }

    /// Appends the trades of one execution to the history, oldest dropped beyond its bound;
    /// an execution with more trades than are recorded per execution is left out.
    pub fn append_executed_trades(&mut self, trades: &Vec<Trade>)
        requires
            old(self).inv(),
        ensures
            final(self).inv(),
            trades@.len() > MAX_RECORDED_TRADES_PER_EXECUTION ==> *final(self) == *old(self),
            trades@.len() <= MAX_RECORDED_TRADES_PER_EXECUTION ==> {
                &&& final(self).executed_trades@ == keep_last(
                    old(self).executed_trades@ + records(trades@, old(self).next_trade_seq),
                    MAX_EXECUTED_TRADE_HISTORY as nat,
                )
                &&& final(self).next_trade_seq == seq_after(old(self).next_trade_seq, trades@.len())
                &&& final(self).admin == old(self).admin
                &&& final(self).next_order_id == old(self).next_order_id
                &&& final(self).limits == old(self).limits
                &&& final(self).book == old(self).book
                &&& final(self).accounts == old(self).accounts
                &&& final(self).base_token_id == old(self).base_token_id
                &&& final(self).quote_token_id == old(self).quote_token_id
                &&& final(self).base_vault_id == old(self).base_vault_id
                &&& final(self).quote_vault_id == old(self).quote_vault_id
            },
    {
        if trades.len() > MAX_RECORDED_TRADES_PER_EXECUTION {
            return;
        }
        let ghost start = self.next_trade_seq;
        let ghost hist0 = self.executed_trades@;
        let ghost recs = records(trades@, start);
        let mut i: usize = 0;
        proof {
            assert(recs.take(0) =~= Seq::<ExecutedTrade>::empty());
            assert(hist0 + recs.take(0) =~= hist0);
        }
        while i < trades.len()
            invariant
                0 <= i <= trades@.len(),
                recs == records(trades@, start),
                self.next_trade_seq == seq_after(start, i as nat),
                self.executed_trades@ == keep_last(hist0 + recs.take(i as int), MAX_EXECUTED_TRADE_HISTORY as nat),
                self.executed_trades@.len() <= MAX_EXECUTED_TRADE_HISTORY,
                hist0.len() <= MAX_EXECUTED_TRADE_HISTORY,
                self.admin == old(self).admin,
                self.next_order_id == old(self).next_order_id,
                self.limits == old(self).limits,
                self.book == old(self).book,
                self.accounts == old(self).accounts,
                self.base_token_id == old(self).base_token_id,
                self.quote_token_id == old(self).quote_token_id,
                self.base_vault_id == old(self).base_vault_id,
                self.quote_vault_id == old(self).quote_vault_id,
            decreases trades.len() - i,
        {
            let tr = trades[i];
            let seq = self.next_trade_seq;
            self.next_trade_seq = self.next_trade_seq.saturating_add(1);
            let rec = ExecutedTrade {
                seq,
                maker_order_id: tr.maker_order_id,
                taker_order_id: tr.taker_order_id,
                maker: tr.maker,
                taker: tr.taker,
                price: tr.price.low_u128(),
                amount_base: tr.amount_base.low_u128(),
                amount_quote: tr.amount_quote.low_u128(),
            };
            let ghost before = self.executed_trades@;
            self.executed_trades.push(rec);
            if self.executed_trades.len() > MAX_EXECUTED_TRADE_HISTORY {
                let _ = self.executed_trades.remove(0);
            }
            proof {
                assert(rec == recs[i as int]);
                let full = hist0 + recs.take(i as int);
                let full2 = hist0 + recs.take(i + 1);
                assert(full2 =~= full.push(rec));
                let n = MAX_EXECUTED_TRADE_HISTORY as nat;
                if full.len() > n {
                    assert(before =~= full.skip(full.len() - n));
                    assert(self.executed_trades@ =~= full2.skip(full2.len() - n));
                } else if full2.len() > n {
                    assert(before == full);
                    assert(self.executed_trades@ =~= full2.skip(full2.len() - n));
                } else {
                    assert(self.executed_trades@ =~= full2);
                }
            }
            i = i + 1;
        }
        proof {
            assert(recs.take(i as int) =~= recs);
        }
    }

    /// Cancels the resting order `order_id` on behalf of `caller`, who must own it, and credits
    /// what it held back to the owner's free balance.
    pub fn cancel_order(&mut self, caller: &ActorId, order_id: OrderId) -> (r: Result<MakerView, CancelError>)
        requires
            old(self).inv(),
            old(self).book.wf(),
        ensures
            final(self).inv(),
            final(self).book.wf(),
            r is Err ==> final(self).ledger() == old(self).ledger() && final(self).book == old(self).book,
            r == Err::<MakerView, CancelError>(CancelError::NotFound) ==> forall|s: Side, li: int, k: int|
                at(old(self).book.handles(s), li, k) ==> #[trigger] old(self).book.levels(s)[li][k].id != order_id,
            r == Err::<MakerView, CancelError>(CancelError::NotOwner) ==> exists|s: Side, li: int, k: int|
                #![trigger old(self).book.levels(s)[li][k]]
                at(old(self).book.handles(s), li, k) && old(self).book.levels(s)[li][k].id == order_id
                    && old(self).book.levels(s)[li][k].owner@ != caller@,
            r == Err::<MakerView, CancelError>(CancelError::Overflow) ==> exists|s: Side, li: int, k: int|
                #![trigger old(self).book.levels(s)[li][k]]
                at(old(self).book.handles(s), li, k) && old(self).book.levels(s)[li][k].id == order_id
                    && old(self).book.levels(s)[li][k].owner@ == caller@ && credit(
                    old(self).ledger(),
                    caller@,
                    held_asset(old(self).book.levels(s)[li][k].side),
                    held_amount(old(self).book.levels(s)[li][k]),
                ) is None,
            r matches Ok(m) ==> {
                &&& m.id == order_id
                &&& m.owner@ == caller@
                &&& credit(old(self).ledger(), caller@, held_asset(m.side), held_amount(m)) == Some(final(self).ledger())
                &&& exists|s: Side, li: int, k: int|
                    #![trigger old(self).book.levels(s)[li][k]]
                    at(old(self).book.handles(s), li, k) && old(self).book.levels(s)[li][k] == m
                        && final(self).book.levels(s) == remove_at(old(self).book.levels(s), li, k)
                        && final(self).book.levels(s.opposite_spec()) == old(self).book.levels(s.opposite_spec())
            },
    {
        let m = match self.book.peek_order(order_id) {
            Some(m) => m,
            None => {
                return Err(CancelError::NotFound);
            },
        };
        if !m.owner.same_as(caller) {
            return Err(CancelError::NotOwner);
        }
        let (asset, amount) = match m.side {
            Side::Buy => (Asset::Quote, m.reserved_quote),
            Side::Sell => (Asset::Base, m.remaining_base),
        };
        let bal = self.balance_of(caller);
        let free = match asset {
            Asset::Base => bal.base,
            Asset::Quote => bal.quote,
        };
        if free.checked_add(amount).is_none() {
            return Err(CancelError::Overflow);
        }
        let removed = match self.book.cancel(order_id) {
            Some(x) => x,
            None => {
                return Err(CancelError::NotFound);
            },
        };
        proof {
            let s = choose|s: Side, li: int, k: int|
                #![trigger old(self).book.levels(s)[li][k]]
                at(old(self).book.handles(s), li, k) && old(self).book.levels(s)[li][k] == m && m.id == order_id;
            let t = choose|s: Side, li: int, k: int|
                #![trigger old(self).book.levels(s)[li][k]]
                at(old(self).book.handles(s), li, k) && old(self).book.levels(s)[li][k] == removed && removed.id
                    == order_id && self.book.levels(s) == remove_at(old(self).book.levels(s), li, k) && self.book.levels(
                    s.opposite_spec(),
                ) == old(self).book.levels(s.opposite_spec());
            old(self).book.lemma_ids_unique(s.0, s.1, s.2, t.0, t.1, t.2);
        }
        match self.deposit(caller, asset, amount) {
            Ok(()) => {},
            Err(_) => {
                proof {
                    assert(false);
                }
            },
        }
        Ok(removed)
    }

    /// Every balance of the ledger fits in 256 bits, and every account has one.
    pub proof fn lemma_ledger_fits(&self)
        ensures
            forall|k: (Seq<u8>, Asset)| #[trigger] self.ledger().contains_key(k),
            forall|k: (Seq<u8>, Asset)| fits_u256(#[trigger] self.ledger()[k].0) && fits_u256(self.ledger()[k].1),
    {
        assert forall|k: (Seq<u8>, Asset)| #[trigger] self.ledger().contains_key(k) by {}
        assert forall|k: (Seq<u8>, Asset)| fits_u256(#[trigger] self.ledger()[k].0) && fits_u256(self.ledger()[k].1) by {
            lemma_lookup_fits(self.accounts@, k.0, k.1);
        }
    }

    /// Takes a new order id, locks what the order may pay, matches it and settles the result.
    /// Where the lock or the matching fails nothing changes but the order id counter. Matching
    /// runs against the live book with a copy kept aside, which is put back if settlement fails.
    pub fn submit_order(
        &mut self,
        owner: &ActorId,
        side: Side,
        kind: OrderKind,
        limit_price: U256,
        amount_base: U256,
        max_quote: U256,
    ) -> (r: Result<(OrderId, ExecutionReport), SubmitError>)
        requires
            old(self).inv(),
            old(self).book.wf(),
        ensures
            final(self).inv(),
            final(self).book.wf(),
            ({
                let o = IncomingOrder {
                    id: old(self).next_order_id,
                    side,
                    kind,
                    limit_price,
                    amount_base,
                    owner: *owner,
                    max_quote,
                };
                let opp = side.opposite_spec();
                let (lb, lq) = taker_lock(o);
                let locked = lock_spec(old(self).ledger(), owner@, paid_asset(side), lb + lq);
                let unchanged = final(self).ledger() == old(self).ledger() && final(self).book == old(self).book;
                &&& r matches Ok((id, rep)) ==> {
                    &&& id == o.id
                    &&& taker_lock_ok(old(self).ledger(), o)
                    &&& exec_ok(
                        o,
                        old(self).limits,
                        old(self).book.levels(opp),
                        old(self).book.levels(side),
                        final(self).book.levels(opp),
                        final(self).book.levels(side),
                        rep.trades@,
                        rep.completion,
                    )
                    &&& settle_spec(locked->Some_0, o, rep.trades@, rep.completion, lb, lq) == Some(final(self).ledger())
                }
                &&& r == Err::<(OrderId, ExecutionReport), SubmitError>(SubmitError::BookFull) ==> kind == OrderKind::Limit
                    && !old(self).book.can_rest(o.id) && unchanged
                &&& r matches Err(SubmitError::Ledger(_)) ==> !taker_lock_ok(old(self).ledger(), o) && unchanged
                &&& r matches Err(SubmitError::Match(e)) ==> taker_lock_ok(old(self).ledger(), o) && match_error(
                    o,
                    old(self).limits,
                    old(self).book.levels(opp),
                    e,
                ) && unchanged
                &&& r matches Err(SubmitError::Settle(_)) ==> {
                    &&& taker_lock_ok(old(self).ledger(), o)
                    &&& final(self).ledger() == old(self).ledger()
                    &&& final(self).book.levels(Side::Buy) == old(self).book.levels(Side::Buy)
                    &&& final(self).book.levels(Side::Sell) == old(self).book.levels(Side::Sell)
                    &&& final(self).book.handles(Side::Buy) == old(self).book.handles(Side::Buy)
                    &&& final(self).book.handles(Side::Sell) == old(self).book.handles(Side::Sell)
                    &&& exists|ts: Seq<Trade>, c: Completion, n_opp: Seq<Seq<MakerView>>, n_own: Seq<Seq<MakerView>>|
                        #![trigger exec_ok(o, old(self).limits, old(self).book.levels(opp), old(self).book.levels(side), n_opp, n_own, ts, c)]
                        exec_ok(
                            o,
                            old(self).limits,
                            old(self).book.levels(opp),
                            old(self).book.levels(side),
                            n_opp,
                            n_own,
                            ts,
                            c,
                        ) && settle_spec(locked->Some_0, o, ts, c, lb, lq) is None
                }
            }),
    {
        let limits = self.limits;
        let id = self.alloc_order_id();
        let order = IncomingOrder { id, side, kind, limit_price, amount_base, owner: *owner, max_quote };
        if kind == OrderKind::Limit && !self.book.can_rest_id(id) {
            return Err(SubmitError::BookFull);
        }
        let ghost l0 = self.ledger();
        let (lb, lq) = match self.lock_taker_funds(&order) {
            Ok(x) => x,
            Err(e) => {
                return Err(SubmitError::Ledger(e));
            },
        };
        let saved = self.book.snapshot();
        let rep = match execute(&mut self.book, &order, limits) {
            Ok(rep) => rep,
            Err(e) => {
                let asset = match side {
                    Side::Buy => Asset::Quote,
                    Side::Sell => Asset::Base,
                };
                let amount = match side {
                    Side::Buy => lq,
                    Side::Sell => lb,
                };
                proof {
                    assert(l0 =~= old(self).ledger());
                    old(self).lemma_ledger_fits();
                    let k = (owner@, asset);
                    assert(l0.contains_key(k));
                    assert(unlock_spec(self.ledger(), owner@, asset, amount.value()) is Some);
                    assert(unlock_spec(self.ledger(), owner@, asset, amount.value())->Some_0 =~= l0);
                }
                let _ = self.unlock(owner, asset, amount);
                return Err(SubmitError::Match(e));
            },
        };
        let ghost executed = self.book;
        match self.settle_execution(&order, &rep, lb, lq) {
            Ok(()) => Ok((id, rep)),
            Err(e) => {
                self.book = saved;
                let asset = match side {
                    Side::Buy => Asset::Quote,
                    Side::Sell => Asset::Base,
                };
                let amount = match side {
                    Side::Buy => lq,
                    Side::Sell => lb,
                };
                proof {
                    assert(l0 =~= old(self).ledger());
                    old(self).lemma_ledger_fits();
                    let k = (owner@, asset);
                    assert(l0.contains_key(k));
                    assert(unlock_spec(self.ledger(), owner@, asset, amount.value()) is Some);
                    assert(unlock_spec(self.ledger(), owner@, asset, amount.value())->Some_0 =~= l0);
                    let opp = side.opposite_spec();
                    assert(exec_ok(
                        order,
                        old(self).limits,
                        old(self).book.levels(opp),
                        old(self).book.levels(side),
                        executed.levels(opp),
                        executed.levels(side),
                        rep.trades@,
                        rep.completion,
                    ));
                }
                let _ = self.unlock(owner, asset, amount);
                Err(SubmitError::Settle(e))
            },
        }
    }

    /// Locks what a taker order may pay before it is matched: `(locked_base, locked_quote)`.
    pub fn lock_taker_funds(&mut self, order: &IncomingOrder) -> (r: Result<(U256, U256), LedgerError>)
        requires
            old(self).inv(),
        ensures
            final(self).inv(),
            final(self).book == old(self).book,
            final(self).next_order_id == old(self).next_order_id,
            r is Ok <==> taker_lock_ok(old(self).ledger(), *order),
            r matches Ok((b, q)) ==> (b.value(), q.value()) == taker_lock(*order) && final(self).ledger() == lock_spec(
                old(self).ledger(),
                order.owner@,
                paid_asset(order.side),
                taker_lock(*order).0 + taker_lock(*order).1,
            )->Some_0,
            r is Err ==> final(self).ledger() == old(self).ledger(),
    {
        match order.side {
            Side::Sell => {
                match self.lock(&order.owner, Asset::Base, order.amount_base) {
                    Ok(()) => Ok((order.amount_base, U256::zero())),
                    Err(e) => Err(e),
                }
            },
            Side::Buy => {
                let lock_quote = match order.kind {
                    OrderKind::Market => order.max_quote,
                    _ => match calc_quote_ceil(order.amount_base, order.limit_price) {
                        Ok(q) => q,
                        Err(_) => {
                            return Err(LedgerError::Overflow);
                        },
                    },
                };
                match self.lock(&order.owner, Asset::Quote, lock_quote) {
                    Ok(()) => Ok((U256::zero(), lock_quote)),
                    Err(e) => Err(e),
                }
            },
        }
    }

    /// Sum of the quote amounts of `trades`, or `None` where it exceeds 2^256 - 1.
    fn quote_total(trades: &Vec<Trade>) -> (r: Option<U256>)
        ensures
            r is Some <==> fits_u256(sum(trade_quotes(trades@))),
            r matches Some(t) ==> t.value() == sum(trade_quotes(trades@)),
    {
        let mut total = U256::zero();
        let mut i: usize = 0;
        proof {
            assert(trade_quotes(trades@.take(0)) =~= Seq::<nat>::empty());
        }
        while i < trades.len()
            invariant
                0 <= i <= trades@.len(),
                total.value() == sum(trade_quotes(trades@.take(i as int))),
            decreases trades.len() - i,
        {
            proof {
                assert(trades@.take(i + 1).drop_last() =~= trades@.take(i as int));
                assert(trade_quotes(trades@.take(i + 1)) =~= trade_quotes(trades@.take(i as int)).push(
                    trades@[i as int].amount_quote.value(),
                ));
                crate::engine::lemma_sum_push(trade_quotes(trades@.take(i as int)), trades@[i as int].amount_quote.value());
                crate::engine::lemma_sum_prefix_mono(trade_quotes(trades@), trades@.len() as int, (i + 1) as int);
                assert(trade_quotes(trades@.take(i + 1)) =~= trade_quotes(trades@).take(i + 1));
                assert(trade_quotes(trades@).take(trades@.len() as int) =~= trade_quotes(trades@));
            }
            total = match total.checked_add(trades[i].amount_quote) {
                Some(x) => x,
                None => {
                    return None;
                },
            };
            i = i + 1;
        }
        proof {
            assert(trades@.take(i as int) =~= trades@);
        }
        Some(total)
    }

    /// Applies the trades of `rep` and releases or hands over what the taker has left locked;
    /// on an error nothing changes.
    pub fn settle_execution(&mut self, order: &IncomingOrder, rep: &ExecutionReport, locked_base: U256, locked_quote: U256) -> (r: Result<(), LedgerError>)
        requires
            old(self).inv(),
        ensures
            final(self).inv(),
            final(self).book == old(self).book,
            final(self).next_order_id == old(self).next_order_id,
            r is Ok <==> settle_spec(old(self).ledger(), *order, rep.trades@, rep.completion, locked_base.value(), locked_quote.value()) is Some,
            r is Ok ==> final(self).ledger() == settle_spec(
                old(self).ledger(),
                *order,
                rep.trades@,
                rep.completion,
                locked_base.value(),
                locked_quote.value(),
            )->Some_0,
            r is Err ==> final(self).ledger() == old(self).ledger(),
    {
        let mut saved: Vec<Account> = Vec::new();
        let mut i: usize = 0;
        while i < self.accounts.len()
            invariant
                0 <= i <= self.accounts@.len(),
                saved@ == self.accounts@.take(i as int),
            decreases self.accounts.len() - i,
        {
            saved.push(self.accounts[i]);
            proof {
                assert(self.accounts@.take(i + 1) =~= self.accounts@.take(i as int).push(self.accounts@[i as int]));
            }
            i = i + 1;
        }
        proof {
            assert(self.accounts@.take(i as int) =~= self.accounts@);
        }
        let r = self.settle_steps(order, rep, locked_base, locked_quote);
        if r.is_err() {
            self.accounts = saved;
        }
        r
    }

    fn settle_steps(&mut self, order: &IncomingOrder, rep: &ExecutionReport, locked_base: U256, locked_quote: U256) -> (r: Result<(), LedgerError>)
        requires
            old(self).inv(),
        ensures
            final(self).inv(),
            final(self).book == old(self).book,
            final(self).next_order_id == old(self).next_order_id,
            r is Ok <==> settle_spec(old(self).ledger(), *order, rep.trades@, rep.completion, locked_base.value(), locked_quote.value()) is Some,
            r is Ok ==> final(self).ledger() == settle_spec(
                old(self).ledger(),
                *order,
                rep.trades@,
                rep.completion,
                locked_base.value(),
                locked_quote.value(),
            )->Some_0,
    {
        let ghost l0 = self.ledger();
        let ghost ts = rep.trades@;
        let side = order.side;
        let mut i: usize = 0;
        proof {
            assert(ts.take(0) =~= Seq::<Trade>::empty());
        }
        while i < rep.trades.len()
            invariant
                0 <= i <= ts.len(),
                ts == rep.trades@,
                self.inv(),
                self.book == old(self).book,
                self.next_order_id == old(self).next_order_id,
                apply_trades(l0, side, ts.take(i as int)) == Some(self.ledger()),
                side == order.side,
                l0 == old(self).ledger(),
            decreases ts.len() - i,
        {
            let t = rep.trades[i];
            let ghost lp = self.ledger();
            proof {
                assert(ts.take(i + 1).drop_last() =~= ts.take(i as int));
                assert(ts.take(i + 1).last() == t);
            }
            let step = match side {
                Side::Buy => match self.spend(&t.taker, Asset::Quote, t.amount_quote) {
                    Ok(()) => match self.deposit(&t.taker, Asset::Base, t.amount_base) {
                        Ok(()) => self.deposit(&t.maker, Asset::Quote, t.amount_quote),
                        Err(e) => Err(e),
                    },
                    Err(e) => Err(e),
                },
                Side::Sell => match self.spend(&t.taker, Asset::Base, t.amount_base) {
                    Ok(()) => match self.deposit(&t.taker, Asset::Quote, t.amount_quote) {
                        Ok(()) => match self.deposit(&t.maker, Asset::Base, t.amount_base) {
                            Ok(()) => self.deposit(&t.maker, Asset::Quote, t.maker_refund_quote),
                            Err(e) => Err(e),
                        },
                        Err(e) => Err(e),
                    },
                    Err(e) => Err(e),
                },
            };
            if step.is_err() {
                proof {
                    assert(apply_trade(lp, side, t) is None);
                    assert(apply_trades(l0, side, ts.take(i + 1)) is None);
                    lemma_apply_none(l0, side, ts, i + 1);
                }
                return Err(step.unwrap_err());
            }
            proof {
                assert(apply_trade(lp, side, t) == Some(self.ledger()));
            }
            i = i + 1;
        }
        proof {
            assert(ts.take(i as int) =~= ts);
        }
        let ghost l1 = self.ledger();
        let who = order.owner;
        match rep.completion {
            Completion::Rejected => {
                match self.unlock(&who, Asset::Base, locked_base) {
                    Ok(()) => self.unlock(&who, Asset::Quote, locked_quote),
                    Err(e) => Err(e),
                }
            },
            Completion::Cancelled { remaining_base } => match side {
                Side::Sell => self.unlock(&who, Asset::Base, remaining_base),
                Side::Buy => {
                    let spent = match Self::quote_total(&rep.trades) {
                        Some(x) => x,
                        None => {
                            return Err(LedgerError::Overflow);
                        },
                    };
                    let refund = match locked_quote.checked_sub(spent) {
                        Some(x) => x,
                        None => {
                            return Err(LedgerError::InsufficientLocked);
                        },
                    };
                    self.unlock(&who, Asset::Quote, refund)
                },
            },
            Completion::Filled => match side {
                Side::Sell => Ok(()),
                Side::Buy => {
                    let spent = match Self::quote_total(&rep.trades) {
                        Some(x) => x,
                        None => {
                            return Err(LedgerError::Overflow);
                        },
                    };
                    let extra = match locked_quote.checked_sub(spent) {
                        Some(x) => x,
                        None => {
                            return Err(LedgerError::InsufficientLocked);
                        },
                    };
                    self.unlock(&who, Asset::Quote, extra)
                },
            },
            Completion::Placed { remaining_base, remaining_quote } => match side {
                Side::Sell => self.spend(&who, Asset::Base, remaining_base),
                Side::Buy => {
                    let spent = match Self::quote_total(&rep.trades) {
                        Some(x) => x,
                        None => {
                            return Err(LedgerError::Overflow);
                        },
                    };
                    let used = match spent.checked_add(remaining_quote) {
                        Some(x) => x,
                        None => {
                            return Err(LedgerError::Overflow);
                        },
                    };
                    let extra = match locked_quote.checked_sub(used) {
                        Some(x) => x,
                        None => {
                            return Err(LedgerError::InsufficientLocked);
                        },
                    };
                    match self.spend(&who, Asset::Quote, remaining_quote) {
                        Ok(()) => self.unlock(&who, Asset::Quote, extra),
                        Err(e) => Err(e),
                    }
                },
            },
        }
    }
}

proof fn lemma_apply_none(l: LedgerView, side: Side, ts: Seq<Trade>, i: int)
    requires
        0 <= i <= ts.len(),
        apply_trades(l, side, ts.take(i)) is None,
    ensures
        apply_trades(l, side, ts) is None,
    decreases ts.len() - i,
{
    if i < ts.len() {
        assert(ts.take(i + 1).drop_last() =~= ts.take(i));
        lemma_apply_none(l, side, ts, i + 1);
    } else {
        assert(ts.take(i) =~= ts);
    }
}

/// Whether `lock_taker_funds` succeeds: the ceiling lock of a Buy Limit can be computed and
/// the payer has the amount free.
pub open spec fn taker_lock_ok(l: LedgerView, o: IncomingOrder) -> bool {
    &&& (o.side == Side::Buy && o.kind != OrderKind::Market ==> product_fits(o.amount_base.value(), o.limit_price.value()))
    &&& lock_spec(l, o.owner@, paid_asset(o.side), taker_lock(o).0 + taker_lock(o).1) is Some
}

} // verus!
