//! The book of pending orders: placing an order freezes the tokens it offers
//! and files the order under its pair, side, price and block.
use vstd::prelude::*;
use std::collections::BTreeMap;
use crate::collections::CodecBTreeMap;
use crate::store::{StorageKey, StorageMap};
use crate::support::{AccountId, DispatchResult, Error, Origin, Symbol, ensure_signed, signed_by};
use crate::tokens;
use crate::tokens::{copy_symbol, seq_or_empty};

verus! {

broadcast use crate::support::lemma_symbol_deep_view;

/// The side of an order.
#[derive(PartialEq, Eq, Structural, Clone, Copy, Debug, PartialOrd, Ord, Hash)]
pub enum OrderType {
    Buy,
    Sell,
}

impl DeepView for OrderType {
    type V = OrderType;

    open spec fn deep_view(&self) -> OrderType {
        *self
    }
}

impl StorageKey for OrderType {
    fn key_eq(&self, other: &Self) -> (b: bool) {
        *self == *other
    }

    fn key_clone(&self) -> (c: Self) {
        *self
    }
}

/// A fill of an order: its price, amount and block.
#[derive(PartialEq, Eq, Structural, Clone, Copy, Debug, Default)]
pub struct Filled {
    pub price: u64,
    pub amount: u64,
    pub block_number: u32,
}

/// A pending order.
#[derive(Clone, Debug, PartialEq)]
pub struct Order {
    /// The order's id.
    pub id: u64,
    /// The account that placed it.
    pub acc: AccountId,
    /// The first token of the pair.
    pub sym0: Symbol,
    /// The second token of the pair, the one that the order offers.
    pub sym1: Symbol,
    /// Buy or sell.
    pub side: OrderType,
    /// The price asked.
    pub price: u64,
    /// The amount ordered.
    pub total: u64,
    /// The amount filled so far.
    pub total_filled: u32,
    /// The fills so far.
    pub fills: Vec<Filled>,
    /// The block in which the order was placed.
    pub block_number: u64,
}

impl View for Order {
    type V = Order;

    open spec fn view(&self) -> Order {
        *self
    }
}

/// What the order book reports.
#[derive(Clone, Debug, PartialEq)]
pub enum Event {
    /// An order was placed: the account, the pair, the price, the amount, the side.
    Ordered(AccountId, Symbol, Symbol, u64, u64, OrderType),
    /// An order was cancelled: the account, the order id.
    OrderCanceled(AccountId, u64),
}

/// The key of a price list: the pair and the side.
pub type PriceKey = (Seq<u8>, Seq<u8>, OrderType);

/// The key of an order id list: the pair, the side and the price.
pub type OrderIdKey = (Seq<u8>, Seq<u8>, OrderType, u64);

/// The book's storage.
pub struct Module {
    /// The id of the last order placed (0 before any).
    order_seq: u64,
    /// (pair, side) to the prices at which orders are pending, in order.
    price_list: StorageMap<(Symbol, Symbol, OrderType), CodecBTreeMap<u64, ()>>,
    /// (pair, side, price) to the ids of the orders pending at that price,
    /// by the block in which they were placed.
    order_id_map: StorageMap<(Symbol, Symbol, OrderType, u64), CodecBTreeMap<u64, Vec<u64>>>,
    /// Order id to order.
    order_map: StorageMap<u64, Order>,
    /// Order id to the account that placed it.
    order_of: StorageMap<u64, AccountId>,
    /// Account to the ids of its orders, oldest first.
    orders: StorageMap<AccountId, Vec<u64>>,
    /// The events reported so far, oldest first.
    events: Vec<Event>,
}

/// The value of `k` in `m`, or the empty map where `m` has none.
pub open spec fn map_or_empty<K, A, B>(m: Map<K, Map<A, B>>, k: K) -> Map<A, B> {
    if m.contains_key(k) {
        m[k]
    } else {
        Map::empty()
    }
}

/// `s` with every occurrence of `x` taken out, the rest in order.
pub open spec fn without(s: Seq<u64>, x: u64) -> Seq<u64>
    decreases s.len(),
{
    if s.len() == 0 {
        s
    } else if s.last() == x {
        without(s.drop_last(), x)
    } else {
        without(s.drop_last(), x).push(s.last())
    }
}

/// What is in `s` without `x` is what is in `s` other than `x`; taking out
/// keeps a sequence free of duplicates.
pub proof fn lemma_without(s: Seq<u64>, x: u64)
    ensures
        forall|y: u64| #[trigger] without(s, x).contains(y) <==> s.contains(y) && y != x,
        s.no_duplicates() ==> without(s, x).no_duplicates(),
        without(s, x).len() <= s.len(),
    decreases s.len(),
{
    if s.len() > 0 {
        let t = s.drop_last();
        lemma_without(t, x);
        assert forall|y: u64| #[trigger] s.contains(y) <==> t.contains(y) || y == s.last() by {
            if s.contains(y) {
                let i = choose|i: int| 0 <= i < s.len() && s[i] == y;
                if i < t.len() {
                    assert(t[i] == y);
                }
            }
            if t.contains(y) {
                let i = choose|i: int| 0 <= i < t.len() && t[i] == y;
                assert(s[i] == y);
            }
            if y == s.last() {
                assert(s[s.len() - 1] == y);
            }
        }
        let w = without(t, x);
        if s.last() != x {
            assert forall|y: u64| #[trigger] w.push(s.last()).contains(y) <==> w.contains(y) || y
                == s.last() by {
                if w.push(s.last()).contains(y) {
                    let i = choose|i: int| 0 <= i < w.len() + 1 && w.push(s.last())[i] == y;
                    if i < w.len() {
                        assert(w[i] == y);
                    }
                }
                if w.contains(y) {
                    let i = choose|i: int| 0 <= i < w.len() && w[i] == y;
                    assert(w.push(s.last())[i] == y);
                }
                if y == s.last() {
                    assert(w.push(s.last())[w.len() as int] == y);
                }
            }
            if s.no_duplicates() {
                assert(t.no_duplicates());
                assert(!t.contains(s.last())) by {
                    if t.contains(s.last()) {
                        let i = choose|i: int| 0 <= i < t.len() && t[i] == s.last();
                        assert(s[i] == s[s.len() - 1]);
                    }
                }
                assert(!w.contains(s.last()));
                assert forall|i: int, j: int|
                    0 <= i < w.len() + 1 && 0 <= j < w.len() + 1 && i != j implies w.push(
                    s.last(),
                )[i] != w.push(s.last())[j] by {
                    if i < w.len() && j < w.len() {
                    } else if i < w.len() {
                        assert(w.contains(w[i]));
                    } else {
                        assert(w.contains(w[j]));
                    }
                }
            }
        } else {
            if s.no_duplicates() {
                assert(t.no_duplicates());
            }
        }
    }
}

/// A copy of `ids` without `x`.
fn ids_without(ids: &Vec<u64>, x: u64) -> (r: Vec<u64>)
    ensures
        r@ == without(ids@, x),
{
    let mut r: Vec<u64> = Vec::new();
    let mut i: usize = 0;
    while i < ids.len()
        invariant
            i <= ids@.len(),
            r@ == without(ids@.take(i as int), x),
        decreases ids@.len() - i,
    {
        assert(ids@.take(i + 1).drop_last() =~= ids@.take(i as int));
        if ids[i] != x {
            r.push(ids[i]);
        }
        i = i + 1;
    }
    assert(ids@.take(ids@.len() as int) =~= ids@);
    r
}

impl Module {
    /// The id of the last order placed.
    pub closed spec fn seq(&self) -> u64 {
        self.order_seq
    }

    /// (pair, side) to the prices at which orders are pending.
    pub closed spec fn prices(&self) -> Map<PriceKey, Map<u64, ()>> {
        self.price_list@
    }

    /// (pair, side, price) to block to order ids.
    pub closed spec fn order_ids(&self) -> Map<OrderIdKey, Map<u64, Seq<u64>>> {
        self.order_id_map@
    }

    /// Order id to order.
    pub closed spec fn order_book(&self) -> Map<u64, Order> {
        self.order_map@
    }

    /// Order id to the account that placed it.
    pub closed spec fn owners(&self) -> Map<u64, AccountId> {
        self.order_of@
    }

    /// Account to the ids of its orders.
    pub closed spec fn account_orders(&self) -> Map<AccountId, Seq<u64>> {
        self.orders@
    }

    /// The events reported so far.
    pub closed spec fn event_log(&self) -> Seq<Event> {
        self.events@
    }

    /// The prices pending for (pair, side).
    pub open spec fn price_set(&self, k: PriceKey) -> Map<u64, ()> {
        map_or_empty(self.prices(), k)
    }

    /// Block to order ids for (pair, side, price).
    pub open spec fn ids_by_block(&self, k: OrderIdKey) -> Map<u64, Seq<u64>> {
        map_or_empty(self.order_ids(), k)
    }

    /// The ids of the orders of `acc`.
    pub open spec fn order_list(&self, acc: AccountId) -> Seq<u64> {
        seq_or_empty(self.account_orders(), acc)
    }

    /// The book's invariant: order ids are at most the last one given out,
    /// each order is stored under its own id and has not been filled beyond
    /// its amount; a price is listed for (pair, side) exactly when ids are
    /// filed under (pair, side, price); and each filed id names an order of
    /// that pair, side, price and block, and no id is filed twice under one
    /// price and block; each stored order is filed under its pair, side,
    /// price and block; and every (pair, side, price) that is filed has some
    /// block, and every block some id, so a listed price has a pending order.
    pub closed spec fn wf(&self) -> bool {
        &&& forall|id: u64| #[trigger]
            self.order_map@.contains_key(id) ==> {
                &&& id <= self.order_seq
                &&& self.order_map@[id].id == id
                &&& self.order_map@[id].total_filled <= self.order_map@[id].total
            }
        &&& forall|k: OrderIdKey| #[trigger]
            self.order_id_map@.contains_key(k) ==> self.price_list@.contains_key((k.0, k.1, k.2))
                && self.price_list@[(k.0, k.1, k.2)].contains_key(k.3)
        &&& forall|pk: PriceKey, p: u64|
            self.price_list@.contains_key(pk) && #[trigger] self.price_list@[pk].contains_key(p)
                ==> self.order_id_map@.contains_key((pk.0, pk.1, pk.2, p))
        &&& forall|k: OrderIdKey, bn: u64|
            self.order_id_map@.contains_key(k) && #[trigger] self.order_id_map@[k].contains_key(bn)
                ==> self.order_id_map@[k][bn].no_duplicates() && self.order_id_map@[k][bn].len() > 0
        &&& forall|k: OrderIdKey| #[trigger]
            self.order_id_map@.contains_key(k) ==> !self.order_id_map@[k].is_empty()
        &&& forall|id: u64| #[trigger]
            self.order_map@.contains_key(id) ==> {
                let o = self.order_map@[id];
                let k = (o.sym0@, o.sym1@, o.side, o.price);
                &&& self.order_id_map@.contains_key(k)
                &&& self.order_id_map@[k].contains_key(o.block_number)
                &&& self.order_id_map@[k][o.block_number].contains(id)
            }
        &&& forall|k: OrderIdKey, bn: u64, i: int|
            self.order_id_map@.contains_key(k) && #[trigger] self.order_id_map@[k].contains_key(bn)
                && 0 <= i < self.order_id_map@[k][bn].len() ==> {
                let id = #[trigger] self.order_id_map@[k][bn][i];
                &&& self.order_map@.contains_key(id)
                &&& self.order_map@[id].sym0@ == k.0
                &&& self.order_map@[id].sym1@ == k.1
                &&& self.order_map@[id].side == k.2
                &&& self.order_map@[id].price == k.3
                &&& self.order_map@[id].block_number == bn
            }
    }

    /// Whether `o` is the order that `sender` places with id `id`.
    pub open spec fn is_new_order(
        o: Order,
        id: u64,
        sender: AccountId,
        sym0: Seq<u8>,
        sym1: Seq<u8>,
        price: u64,
        amount: u64,
        side: OrderType,
        block_number: u64,
    ) -> bool {
        &&& o.id == id
        &&& o.acc == sender
        &&& o.sym0@ == sym0
        &&& o.sym1@ == sym1
        &&& o.side == side
        &&& o.price == price
        &&& o.total == amount
        &&& o.total_filled == 0
        &&& o.fills@ == Seq::<Filled>::empty()
        &&& o.block_number == block_number
    }

    /// Whether the tokens were frozen by the order: `amount` of `sym1` of
    /// `sender` moved from free to frozen, with the event that says so.
    pub open spec fn froze_for_order(
        old_tokens: tokens::Module,
        new_tokens: tokens::Module,
        sender: AccountId,
        sym1: Seq<u8>,
        amount: u64,
    ) -> bool {
        &&& old_tokens.free(sender, sym1) >= amount
        &&& new_tokens.same_but_tokens(&old_tokens)
        &&& new_tokens.frees() == old_tokens.frees().insert(
            (sender, sym1),
            (old_tokens.free(sender, sym1) - amount) as u64,
        )
        &&& new_tokens.freezeds() == old_tokens.freezeds().insert(
            (sender, sym1),
            (old_tokens.freezed(sender, sym1) + amount) as u64,
        )
        &&& new_tokens.event_log().len() == old_tokens.event_log().len() + 1
        &&& new_tokens.event_log().drop_last() == old_tokens.event_log()
        &&& new_tokens.event_log().last() matches tokens::Event::Freezed(a, s, v) && a == sender
            && s@ == sym1 && v == amount
    }

    /// What placing an order does, to the book and to the ledger.
    pub open spec fn order_spec(
        old: Module,
        new: Module,
        old_tokens: tokens::Module,
        new_tokens: tokens::Module,
        origin: Origin,
        sym0: Symbol,
        sym1: Symbol,
        price: u64,
        amount: u64,
        side: OrderType,
        block_number: u64,
        r: DispatchResult,
    ) -> bool {
        match signed_by(origin) {
            Err(e) => r == Err::<(), Error>(e) && new == old && new_tokens == old_tokens,
            Ok(sender) => if !old_tokens.pairs().contains_key((sym0@, sym1@)) {
                r == Err::<(), Error>(Error::SymbolPairNotRegistered) && new == old && new_tokens
                    == old_tokens
            } else if old.seq() == u64::MAX {
                r == Err::<(), Error>(Error::TokenIdOverflow) && new == old && new_tokens
                    == old_tokens
            } else if old_tokens.freezed(sender, sym1@) + amount > u64::MAX {
                r == Err::<(), Error>(Error::FreezedTokenAddOverflowed) && new == old
                    && new_tokens == old_tokens
            } else {
                let id = (old.seq() + 1) as u64;
                let pk = (sym0@, sym1@, side);
                let ok = (sym0@, sym1@, side, price);
                let listed = old.price_set(pk).contains_key(price);
                let by_block = old.ids_by_block(ok);
                &&& r == Ok::<(), Error>(())
                &&& Module::froze_for_order(old_tokens, new_tokens, sender, sym1@, amount)
                &&& new.seq() == id
                &&& new.prices() == old.prices().insert(pk, old.price_set(pk).insert(price, ()))
                &&& new.order_ids() == old.order_ids().insert(
                    ok,
                    if listed {
                        by_block.insert(
                            block_number,
                            seq_or_empty(by_block, block_number).push(id),
                        )
                    } else {
                        Map::empty().insert(block_number, seq![id])
                    },
                )
                &&& new.order_book() == old.order_book().insert(id, new.order_book()[id])
                &&& Module::is_new_order(
                    new.order_book()[id],
                    id,
                    sender,
                    sym0@,
                    sym1@,
                    price,
                    amount,
                    side,
                    block_number,
                )
                &&& new.owners() == old.owners().insert(id, sender)
                &&& new.account_orders() == old.account_orders().insert(
                    sender,
                    old.order_list(sender).push(id),
                )
                &&& new.event_log() == old.event_log().push(
                    Event::Ordered(sender, sym0, sym1, price, amount, side),
                )
            },
        }
    }

    /// Under the invariant, each stored order sits under its own id, at most
    /// the last id given out, and is filled no further than its amount.
    pub proof fn lemma_wf_orders(&self)
        requires
            self.wf(),
        ensures
            forall|id: u64| #[trigger]
                self.order_book().contains_key(id) ==> {
                    &&& id <= self.seq()
                    &&& self.order_book()[id].id == id
                    &&& self.order_book()[id].total_filled <= self.order_book()[id].total
                },
    {
    }

    /// Whether the tokens were freed by a cancel: `rem` of `sym1` of `sender`
    /// moved from frozen to free, with the event that says so.
    pub open spec fn unfroze_for_cancel(
        old_tokens: tokens::Module,
        new_tokens: tokens::Module,
        sender: AccountId,
        sym1: Seq<u8>,
        rem: u64,
    ) -> bool {
        &&& new_tokens.same_but_tokens(&old_tokens)
        &&& new_tokens.frees() == old_tokens.frees().insert(
            (sender, sym1),
            (old_tokens.free(sender, sym1) + rem) as u64,
        )
        &&& new_tokens.freezeds() == old_tokens.freezeds().insert(
            (sender, sym1),
            (old_tokens.freezed(sender, sym1) - rem) as u64,
        )
        &&& new_tokens.event_log().len() == old_tokens.event_log().len() + 1
        &&& new_tokens.event_log().drop_last() == old_tokens.event_log()
        &&& new_tokens.event_log().last() matches tokens::Event::Unfreezed(a, s, v) && a == sender
            && s@ == sym1 && v == rem
    }

    /// Block to ids of (pair, side, price) once `id`, placed in block `bn`,
    /// is taken out: the block goes where no id is left in it.
    pub open spec fn blocks_without(by_block: Map<u64, Seq<u64>>, bn: u64, id: u64) -> Map<
        u64,
        Seq<u64>,
    > {
        let left = without(seq_or_empty(by_block, bn), id);
        if left.len() == 0 {
            by_block.remove(bn)
        } else {
            by_block.insert(bn, left)
        }
    }

    /// What cancelling order `order_id` does, to the book and to the ledger:
    /// the signer's own order is taken out of the book (its entry, its owner,
    /// the signer's list, the list of its price and block, and its price when
    /// no order is left at it), and what is left of it to fill goes from
    /// frozen back to free.
    pub open spec fn cancel_spec(
        old: Module,
        new: Module,
        old_tokens: tokens::Module,
        new_tokens: tokens::Module,
        origin: Origin,
        order_id: u64,
        r: DispatchResult,
    ) -> bool {
        match signed_by(origin) {
            Err(e) => r == Err::<(), Error>(e) && new == old && new_tokens == old_tokens,
            Ok(sender) => if !old.order_book().contains_key(order_id) {
                r == Err::<(), Error>(Error::OrderNotFound) && new == old && new_tokens == old_tokens
            } else {
                let o = old.order_book()[order_id];
                let rem = (o.total - o.total_filled) as u64;
                let f = old_tokens.free(sender, o.sym1@);
                let z = old_tokens.freezed(sender, o.sym1@);
                let pk = (o.sym0@, o.sym1@, o.side);
                let ok = (o.sym0@, o.sym1@, o.side, o.price);
                let by_block = Module::blocks_without(old.ids_by_block(ok), o.block_number, order_id);
                if o.acc != sender {
                    r == Err::<(), Error>(Error::NotOrderOwner) && new == old && new_tokens
                        == old_tokens
                } else if f + rem > u64::MAX {
                    r == Err::<(), Error>(Error::FreeTokenAddOverflow) && new == old && new_tokens
                        == old_tokens
                } else if z < rem {
                    r == Err::<(), Error>(Error::InsufficientFreezedToken) && new == old
                        && new_tokens == old_tokens
                } else {
                    &&& r == Ok::<(), Error>(())
                    &&& Module::unfroze_for_cancel(old_tokens, new_tokens, sender, o.sym1@, rem)
                    &&& new.seq() == old.seq()
                    &&& new.order_book() == old.order_book().remove(order_id)
                    &&& new.owners() == old.owners().remove(order_id)
                    &&& new.account_orders() == old.account_orders().insert(
                        sender,
                        without(old.order_list(sender), order_id),
                    )
                    &&& if by_block.is_empty() {
                        &&& new.order_ids() == old.order_ids().remove(ok)
                        &&& new.prices() == old.prices().insert(pk, old.price_set(pk).remove(o.price))
                    } else {
                        &&& new.order_ids() == old.order_ids().insert(ok, by_block)
                        &&& new.prices() == old.prices()
                    }
                    &&& new.event_log() == old.event_log().push(
                        Event::OrderCanceled(sender, order_id),
                    )
                }
            },
        }
    }


    /// An empty book.
    pub fn new() -> (m: Module)
        ensures
            m.seq() == 0,
            m.prices() == Map::<PriceKey, Map<u64, ()>>::empty(),
            m.order_ids() == Map::<OrderIdKey, Map<u64, Seq<u64>>>::empty(),
            m.order_book() == Map::<u64, Order>::empty(),
            m.owners() == Map::<u64, AccountId>::empty(),
            m.account_orders() == Map::<AccountId, Seq<u64>>::empty(),
            m.event_log() == Seq::<Event>::empty(),
            m.wf(),
    {
        Module {
            order_seq: 0,
            price_list: StorageMap::new(),
            order_id_map: StorageMap::new(),
            order_map: StorageMap::new(),
            order_of: StorageMap::new(),
            orders: StorageMap::new(),
            events: Vec::new(),
        }
    }

    /// The id that the next order gets, or `TokenIdOverflow` where none is left.
    fn next_order_id(&self) -> (r: Result<u64, Error>)
        ensures
            r == (if self.seq() == u64::MAX {
                Err::<u64, Error>(Error::TokenIdOverflow)
            } else {
                Ok::<u64, Error>((self.seq() + 1) as u64)
            }),
    {
        match self.order_seq.checked_add(1) {
            Some(n) => Ok(n),
            None => Err(Error::TokenIdOverflow),
        }
    }

    /// Appends `order_id` to the orders of `acc`.
    fn insert_orderid_to_orders(&mut self, acc: AccountId, order_id: u64) -> (r: DispatchResult)
        ensures
            r == Ok::<(), Error>(()),
            final(self).account_orders() == old(self).account_orders().insert(
                acc,
                old(self).order_list(acc).push(order_id),
            ),
            final(self).seq() == old(self).seq(),
            final(self).price_list == old(self).price_list,
            final(self).order_id_map == old(self).order_id_map,
            final(self).order_map == old(self).order_map,
            final(self).order_of == old(self).order_of,
            final(self).events == old(self).events,
    {
        let mut order_vec: Vec<u64> = match self.orders.get(&acc) {
            Some(v) => v.clone(),
            None => Vec::new(),
        };
        order_vec.push(order_id);
        self.orders.insert(acc, order_vec);
        Ok(())
    }

    /// Places an order of the signer: checks that the pair is registered,
    /// gives the order the next id, freezes the `amount` of `sym1` that it
    /// offers, lists its price for (pair, side), files its id under (pair,
    /// side, price) and `block_number`, stores it, and adds it to the
    /// signer's orders. The signer must have more free `sym1` than `amount`.
    pub fn do_order(
        &mut self,
        tokens: &mut tokens::Module,
        origin: Origin,
        sym0: Symbol,
        sym1: Symbol,
        price: u64,
        amount: u64,
        side: OrderType,
        block_number: u64,
    ) -> (r: DispatchResult)
        requires
            signed_by(origin) matches Ok(sender) ==> (old(tokens).pairs().contains_key(
                (sym0@, sym1@),
            ) ==> old(tokens).free(sender, sym1@) > amount),
        ensures
            Module::order_spec(
                *old(self),
                *final(self),
                *old(tokens),
                *final(tokens),
                origin,
                sym0,
                sym1,
                price,
                amount,
                side,
                block_number,
                r,
            ),
            old(self).wf() ==> final(self).wf(),
    {
        let sender = match ensure_signed(origin) {
            Ok(s) => s,
            Err(e) => return Err(e),
        };
        let new_origin = Origin::Signed(sender);
        if tokens.symbol_pairs(&sym0, &sym1).is_none() {
            return Err(Error::SymbolPairNotRegistered);
        }
        let free_token = tokens.free_token(sender, &sym1);
        assert(free_token > amount);
        let order_id = match self.next_order_id() {
            Ok(id) => id,
            Err(e) => return Err(e),
        };
        let order = Order {
            id: order_id,
            acc: sender,
            sym0: copy_symbol(&sym0),
            sym1: copy_symbol(&sym1),
            side,
            price,
            total: amount,
            total_filled: 0,
            fills: Vec::new(),
            block_number,
        };
        let ghost tokens_before = *tokens;
        let sym1_copy = copy_symbol(&sym1);
        let ghost frozen_symbol = sym1_copy;
        match tokens.freeze(new_origin, sender, sym1_copy, amount) {
            Ok(()) => {},
            Err(e) => return Err(e),
        }
        assert(tokens.event_log() == tokens_before.event_log().push(
            tokens::Event::Freezed(sender, frozen_symbol, amount),
        ));
        assert(tokens.event_log().drop_last() =~= tokens_before.event_log());
        assert(Module::froze_for_order(tokens_before, *tokens, sender, sym1@, amount));
        let ghost old_self = *self;
        let ghost pk = (sym0@, sym1@, side);
        let ghost ok = (sym0@, sym1@, side, price);
        let ghost by_block = old_self.ids_by_block(ok);
        self.order_seq = order_id;
        let price_list_key = (copy_symbol(&sym0), copy_symbol(&sym1), side);
        let order_id_map_key = (copy_symbol(&sym0), copy_symbol(&sym1), side, price);
        assert(price_list_key.deep_view() == pk);
        assert(order_id_map_key.deep_view() == ok);
        let listed = match self.price_list.get(&price_list_key) {
            Some(prices) => prices.0.contains_key(&price),
            None => false,
        };
        assert(listed == old_self.price_set(pk).contains_key(price));
        if listed {
            let mut order_ids_by_bn: CodecBTreeMap<u64, Vec<u64>> = match self.order_id_map.get(
                &order_id_map_key,
            ) {
                Some(m) => m.clone(),
                None => CodecBTreeMap::new(),
            };
            assert(order_ids_by_bn@ =~= by_block);
            let mut order_ids_vec: Vec<u64> = match order_ids_by_bn.0.get(&block_number) {
                Some(v) => v.clone(),
                None => Vec::new(),
            };
            assert(order_ids_vec@ =~= seq_or_empty(by_block, block_number));
            order_ids_vec.push(order_id);
            order_ids_by_bn.0.insert(block_number, order_ids_vec);
            assert(order_ids_by_bn@ =~= by_block.insert(
                block_number,
                seq_or_empty(by_block, block_number).push(order_id),
            ));
            self.order_id_map.insert(order_id_map_key, order_ids_by_bn);
            assert(old_self.price_set(pk).insert(price, ()) =~= old_self.price_set(pk));
            assert(old_self.prices().insert(pk, old_self.price_set(pk).insert(price, ()))
                =~= old_self.prices());
        } else {
            let mut prices: CodecBTreeMap<u64, ()> = match self.price_list.get(&price_list_key) {
                Some(m) => m.clone(),
                None => CodecBTreeMap::new(),
            };
            assert(prices@ =~= old_self.price_set(pk));
            prices.0.insert(price, ());
            assert(prices@ =~= old_self.price_set(pk).insert(price, ()));
            self.price_list.insert(price_list_key, prices);
            let mut order_id_vec: Vec<u64> = Vec::new();
            order_id_vec.push(order_id);
            let mut btm: BTreeMap<u64, Vec<u64>> = BTreeMap::new();
            btm.insert(block_number, order_id_vec);
            let ids_by_bn = CodecBTreeMap(btm);
            assert(ids_by_bn@ =~= Map::<u64, Seq<u64>>::empty().insert(block_number, seq![order_id]));
            self.order_id_map.insert(order_id_map_key, ids_by_bn);
        }
        self.order_map.insert(order_id, order);
        self.order_of.insert(order_id, sender);
        let _ = self.insert_orderid_to_orders(sender, order_id);
        self.events.push(Event::Ordered(sender, sym0, sym1, price, amount, side));
        assert(self.seq() == order_id);
        assert(self.order_book() =~= old_self.order_book().insert(order_id, self.order_book()[order_id]));
        assert(Module::is_new_order(self.order_book()[order_id], order_id, sender, sym0@, sym1@, price, amount, side, block_number));
        assert(self.owners() == old_self.owners().insert(order_id, sender));
        assert(self.account_orders() == old_self.account_orders().insert(sender, old_self.order_list(sender).push(order_id)));
        proof {
            if old_self.wf() {
                lemma_order_keeps_wf(
                    old_self,
                    *self,
                    tokens_before,
                    *tokens,
                    sender,
                    sym0,
                    sym1,
                    price,
                    amount,
                    side,
                    block_number,
                );
            }
        }
        Ok(())
    }

    /// Cancels order `order_id` of the signer: frees what is left of it to
    /// fill, then takes it out of the book. See `cancel_spec`.
    pub fn do_cancel_order(&mut self, tokens: &mut tokens::Module, origin: Origin, order_id: u64) -> (r:
        DispatchResult)
        requires
            old(self).wf(),
        ensures
            Module::cancel_spec(*old(self), *final(self), *old(tokens), *final(tokens), origin, order_id, r),
            final(self).wf(),
    {
        let sender = match ensure_signed(origin) {
            Ok(s) => s,
            Err(e) => return Err(e),
        };
        proof {
            self.lemma_wf_orders();
        }
        let ghost old_self = *self;
        let (remain, sym0, sym1, side, price, block_number) = match self.order_map.get(&order_id) {
            Some(order) => {
                if order.acc != sender {
                    return Err(Error::NotOrderOwner);
                }
                let remain: u64 = order.total - order.total_filled as u64;
                (
                    remain,
                    copy_symbol(&order.sym0),
                    copy_symbol(&order.sym1),
                    order.side,
                    order.price,
                    order.block_number,
                )
            },
            None => return Err(Error::OrderNotFound),
        };
        let ghost o = old_self.order_book()[order_id];
        let ghost tokens_before = *tokens;
        let sym1_copy = copy_symbol(&sym1);
        let ghost freed_symbol = sym1_copy;
        match tokens.unfreeze(Origin::Signed(sender), sender, sym1_copy, remain) {
            Ok(()) => {},
            Err(e) => return Err(e),
        }
        assert(tokens.event_log() == tokens_before.event_log().push(
            tokens::Event::Unfreezed(sender, freed_symbol, remain),
        ));
        assert(tokens.event_log().drop_last() =~= tokens_before.event_log());
        self.order_map.remove(&order_id);
        self.order_of.remove(&order_id);
        let own: Vec<u64> = match self.orders.get(&sender) {
            Some(v) => ids_without(v, order_id),
            None => {
                let e: Vec<u64> = Vec::new();
                assert(without(e@, order_id) =~= e@);
                e
            },
        };
        self.orders.insert(sender, own);
        let ghost pk = (o.sym0@, o.sym1@, o.side);
        let ghost ok = (o.sym0@, o.sym1@, o.side, o.price);
        let ghost old_by_block = old_self.ids_by_block(ok);
        let order_id_map_key = (copy_symbol(&sym0), copy_symbol(&sym1), side, price);
        assert(order_id_map_key.deep_view() == ok);
        let mut by_block: CodecBTreeMap<u64, Vec<u64>> = match self.order_id_map.get(
            &order_id_map_key,
        ) {
            Some(m) => m.clone(),
            None => CodecBTreeMap::new(),
        };
        assert(by_block@ =~= old_by_block);
        let left: Vec<u64> = match by_block.0.get(&block_number) {
            Some(v) => ids_without(v, order_id),
            None => {
                let e: Vec<u64> = Vec::new();
                assert(without(e@, order_id) =~= e@);
                e
            },
        };
        assert(left@ == without(seq_or_empty(old_by_block, block_number), order_id));
        if left.len() == 0 {
            by_block.0.remove(&block_number);
        } else {
            by_block.0.insert(block_number, left);
        }
        assert(by_block@ =~= Module::blocks_without(old_by_block, block_number, order_id));
        if by_block.0.is_empty() {
            assert(by_block@.dom() =~= by_block.0@.dom());
            self.order_id_map.remove(&order_id_map_key);
            let price_list_key = (copy_symbol(&sym0), copy_symbol(&sym1), side);
            assert(price_list_key.deep_view() == pk);
            let mut prices: CodecBTreeMap<u64, ()> = match self.price_list.get(&price_list_key) {
                Some(m) => m.clone(),
                None => CodecBTreeMap::new(),
            };
            assert(prices@ =~= old_self.price_set(pk));
            prices.0.remove(&price);
            assert(prices@ =~= old_self.price_set(pk).remove(price));
            self.price_list.insert(price_list_key, prices);
        } else {
            assert(by_block@.dom() =~= by_block.0@.dom());
            self.order_id_map.insert(order_id_map_key, by_block);
        }
        self.events.push(Event::OrderCanceled(sender, order_id));
        assert(self.account_orders() =~= old_self.account_orders().insert(
            sender,
            without(old_self.order_list(sender), order_id),
        ));
        proof {
            lemma_cancel_keeps_wf(old_self, *self, tokens_before, *tokens, origin, order_id);
        }
        Ok(())
    }

    /// Places an order of the signer (the dispatchable call); see `order_spec`.
    /// The signer must have more free `sym1` than `amount`.
    pub fn order(
        &mut self,
        tokens: &mut tokens::Module,
        origin: Origin,
        sym0: Symbol,
        sym1: Symbol,
        price: u64,
        amount: u64,
        side: OrderType,
        block_number: u64,
    ) -> (r: DispatchResult)
        requires
            signed_by(origin) matches Ok(sender) ==> (old(tokens).pairs().contains_key(
                (sym0@, sym1@),
            ) ==> old(tokens).free(sender, sym1@) > amount),
        ensures
            Module::order_spec(
                *old(self),
                *final(self),
                *old(tokens),
                *final(tokens),
                origin,
                sym0,
                sym1,
                price,
                amount,
                side,
                block_number,
                r,
            ),
            old(self).wf() ==> final(self).wf(),
    {
        self.do_order(tokens, origin, sym0, sym1, price, amount, side, block_number)
    }

    /// Cancels order `order_id` of the signer (the dispatchable call): frees
    /// what is left of it to fill and takes it out of the book; see
    /// `cancel_spec`.
    pub fn cancel_order(&mut self, tokens: &mut tokens::Module, origin: Origin, order_id: u64) -> (r:
        DispatchResult)
        requires
            old(self).wf(),
        ensures
            Module::cancel_spec(*old(self), *final(self), *old(tokens), *final(tokens), origin, order_id, r),
            final(self).wf(),
    {
        self.do_cancel_order(tokens, origin, order_id)
    }

    /// The id of the last order placed.
    pub fn order_id(&self) -> (id: u64)
        ensures
            id == self.seq(),
    {
        self.order_seq
    }

    /// The prices at which orders of (`sym0`, `sym1`, `side`) are pending
    /// (empty where there are none).
    pub fn price_list(&self, sym0: &Symbol, sym1: &Symbol, side: OrderType) -> (m: CodecBTreeMap<
        u64,
        (),
    >)
        ensures
            m@ == self.price_set((sym0@, sym1@, side)),
    {
        match self.price_list.get(&(copy_symbol(sym0), copy_symbol(sym1), side)) {
            Some(m) => {
                let c = m.clone();
                assert(c@ =~= m@);
                c
            },
            None => {
                let c = CodecBTreeMap::new();
                assert(c@ =~= Map::<u64, ()>::empty());
                c
            },
        }
    }

    /// The ids of the orders of (`sym0`, `sym1`, `side`) pending at `price`,
    /// by block (empty where there are none).
    pub fn order_id_map(&self, sym0: &Symbol, sym1: &Symbol, side: OrderType, price: u64) -> (m:
        CodecBTreeMap<u64, Vec<u64>>)
        ensures
            m@ == self.ids_by_block((sym0@, sym1@, side, price)),
    {
        match self.order_id_map.get(&(copy_symbol(sym0), copy_symbol(sym1), side, price)) {
            Some(m) => {
                let c = m.clone();
                assert(c@ =~= m@);
                c
            },
            None => {
                let c = CodecBTreeMap::new();
                assert(c@ =~= Map::<u64, Seq<u64>>::empty());
                c
            },
        }
    }

    /// The order with id `id`, if there is one.
    pub fn order_map(&self, id: u64) -> (o: Option<&Order>)
        ensures
            match o {
                Some(o) => self.order_book().contains_key(id) && *o == self.order_book()[id],
                None => !self.order_book().contains_key(id),
            },
    {
        self.order_map.get(&id)
    }

    /// The ids of the orders of `acc`, oldest first.
    pub fn orders(&self, acc: AccountId) -> (ids: Vec<u64>)
        ensures
            ids@ == self.order_list(acc),
    {
        match self.orders.get(&acc) {
            Some(v) => {
                let c = v.clone();
                assert(c@ =~= v@);
                c
            },
            None => Vec::new(),
        }
    }

    /// The account that placed order `id`, 0 where none was recorded.
    pub fn order_of(&self, id: u64) -> (acc: AccountId)
        ensures
            acc == tokens::value_or_zero(self.owners(), id),
    {
        match self.order_of.get(&id) {
            Some(a) => *a,
            None => 0,
        }
    }

    /// The events reported so far, oldest first.
    pub fn events(&self) -> (e: &Vec<Event>)
        ensures
            e@ == self.event_log(),
    {
        &self.events
    }
}


/// Cancelling an order keeps the book's invariant.
proof fn lemma_cancel_keeps_wf(
    old: Module,
    new: Module,
    old_tokens: tokens::Module,
    new_tokens: tokens::Module,
    origin: Origin,
    order_id: u64,
)
    requires
        old.wf(),
        Module::cancel_spec(old, new, old_tokens, new_tokens, origin, order_id, Ok(())),
    ensures
        new.wf(),
{
    let om = old.order_map@;
    let nm = new.order_map@;
    let oi = old.order_id_map@;
    let ni = new.order_id_map@;
    let op = old.price_list@;
    let np = new.price_list@;
    let o = om[order_id];
    let pk = (o.sym0@, o.sym1@, o.side);
    let ok = (o.sym0@, o.sym1@, o.side, o.price);
    let bn = o.block_number;
    assert(om.contains_key(order_id));
    assert(oi.contains_key(ok) && oi[ok].contains_key(bn) && oi[ok][bn].contains(order_id));
    let l = oi[ok][bn];
    let left = without(l, order_id);
    lemma_without(l, order_id);
    let by_block = Module::blocks_without(oi[ok], bn, order_id);
    assert(old.ids_by_block(ok) == oi[ok]);
    assert(seq_or_empty(oi[ok], bn) == l);
    let emptied = by_block.is_empty();
    assert(nm == om.remove(order_id));
    // conjunct 1
    assert forall|x: u64| #[trigger] nm.contains_key(x) implies x <= new.order_seq && nm[x].id == x
        && nm[x].total_filled <= nm[x].total by {
        assert(om.contains_key(x));
    }
    // conjunct 2
    assert forall|k: OrderIdKey| #[trigger] ni.contains_key(k) implies np.contains_key(
        (k.0, k.1, k.2),
    ) && np[(k.0, k.1, k.2)].contains_key(k.3) by {
        assert(oi.contains_key(k));
        assert(op.contains_key((k.0, k.1, k.2)) && op[(k.0, k.1, k.2)].contains_key(k.3));
        if emptied && (k.0, k.1, k.2) == pk {
            assert(k.3 != o.price);
            assert(old.price_set(pk) == op[pk]);
        }
    }
    // conjunct 3
    assert forall|q: PriceKey, p: u64|
        np.contains_key(q) && #[trigger] np[q].contains_key(p) implies ni.contains_key(
        (q.0, q.1, q.2, p),
    ) by {
        if emptied && q == pk {
            assert(np[q] == old.price_set(pk).remove(o.price));
            assert(p != o.price);
            assert(op.contains_key(pk));
            assert(op[q].contains_key(p));
            assert(oi.contains_key((q.0, q.1, q.2, p)));
        } else {
            assert(op.contains_key(q) && op[q].contains_key(p));
            assert(oi.contains_key((q.0, q.1, q.2, p)));
        }
    }
    // conjunct 4
    assert forall|k: OrderIdKey, b: u64|
        ni.contains_key(k) && #[trigger] ni[k].contains_key(b) implies ni[k][b].no_duplicates()
        && ni[k][b].len() > 0 by {
        if k == ok {
            assert(!emptied);
            if b == bn {
                assert(left.len() > 0);
                assert(ni[k][b] == left);
            } else {
                assert(oi[k].contains_key(b) && ni[k][b] == oi[k][b]);
            }
        } else {
            assert(oi.contains_key(k) && oi[k].contains_key(b));
        }
    }
    // conjunct 5
    assert forall|k: OrderIdKey| #[trigger] ni.contains_key(k) implies !ni[k].is_empty() by {
        if k != ok {
            assert(oi.contains_key(k));
            assert(!oi[k].is_empty());
            let b = choose|b: u64| oi[k].dom().contains(b);
            assert(ni[k].dom().contains(b));
        }
    }
    // conjunct 6
    assert forall|x: u64| #[trigger] nm.contains_key(x) implies {
        let ox = nm[x];
        let k = (ox.sym0@, ox.sym1@, ox.side, ox.price);
        &&& ni.contains_key(k)
        &&& ni[k].contains_key(ox.block_number)
        &&& ni[k][ox.block_number].contains(x)
    } by {
        assert(om.contains_key(x) && x != order_id);
        let ox = om[x];
        let k = (ox.sym0@, ox.sym1@, ox.side, ox.price);
        let b = ox.block_number;
        assert(oi.contains_key(k) && oi[k].contains_key(b) && oi[k][b].contains(x));
        if k == ok {
            if b == bn {
                assert(left.contains(x));
                assert(left.len() > 0) by {
                    let i = choose|i: int| 0 <= i < left.len() && left[i] == x;
                }
                assert(by_block.dom().contains(bn));
            } else {
                assert(by_block.dom().contains(b));
            }
            assert(!emptied);
        }
    }
    // conjunct 7
    assert forall|k: OrderIdKey, b: u64, i: int|
        ni.contains_key(k) && #[trigger] ni[k].contains_key(b) && 0 <= i < ni[k][b].len() implies {
        let x = #[trigger] ni[k][b][i];
        &&& nm.contains_key(x)
        &&& nm[x].sym0@ == k.0
        &&& nm[x].sym1@ == k.1
        &&& nm[x].side == k.2
        &&& nm[x].price == k.3
        &&& nm[x].block_number == b
    } by {
        let x = ni[k][b][i];
        if k == ok && b == bn {
            assert(ni[k][b] == left);
            assert(left.contains(x));
            assert(l.contains(x) && x != order_id);
            let j = choose|j: int| 0 <= j < l.len() && l[j] == x;
            assert(om.contains_key(l[j]));
        } else if k == ok {
            assert(oi[k].contains_key(b) && oi[k][b][i] == x);
            assert(om.contains_key(x));
            assert(x != order_id);
        } else {
            assert(oi.contains_key(k) && oi[k].contains_key(b) && oi[k][b][i] == x);
            assert(om.contains_key(x));
            if x == order_id {
                assert(k == ok);
            }
        }
    }
}

/// Placing an order keeps the book's invariant.
proof fn lemma_order_keeps_wf(
    old: Module,
    new: Module,
    old_tokens: tokens::Module,
    new_tokens: tokens::Module,
    sender: AccountId,
    sym0: Symbol,
    sym1: Symbol,
    price: u64,
    amount: u64,
    side: OrderType,
    block_number: u64,
)
    requires
        old.wf(),
        Module::order_spec(
            old,
            new,
            old_tokens,
            new_tokens,
            Origin::Signed(sender),
            sym0,
            sym1,
            price,
            amount,
            side,
            block_number,
            Ok(()),
        ),
    ensures
        new.wf(),
{
    let id = new.seq();
    let pk = (sym0@, sym1@, side);
    let ok = (sym0@, sym1@, side, price);
    let bn = block_number;
    let listed = old.price_set(pk).contains_key(price);
    let by_block = old.ids_by_block(ok);
    let om = old.order_map@;
    let nm = new.order_map@;
    let oi = old.order_id_map@;
    let ni = new.order_id_map@;
    let op = old.price_list@;
    let np = new.price_list@;
    assert(id == old.seq() + 1);
    assert(!om.contains_key(id));
    // no filed list of the old book holds the new id
    assert forall|k: OrderIdKey, b: u64|
        oi.contains_key(k) && #[trigger] oi[k].contains_key(b) implies !oi[k][b].contains(id) by {
        if oi[k][b].contains(id) {
            let i = choose|i: int| 0 <= i < oi[k][b].len() && oi[k][b][i] == id;
            assert(om.contains_key(oi[k][b][i]));
        }
    }
    if listed {
        assert(op.contains_key(pk) && op[pk].contains_key(price));
        assert(oi.contains_key(ok));
    } else {
        assert(!oi.contains_key(ok));
    }
    let new_list = if listed {
        seq_or_empty(by_block, bn).push(id)
    } else {
        seq![id]
    };
    assert(ni.contains_key(ok) && ni[ok].contains_key(bn) && ni[ok][bn] == new_list);
    assert(new_list.contains(id)) by {
        assert(new_list[new_list.len() - 1] == id);
    }
    // every id of the new list other than the new one was filed at (ok, bn) before
    assert forall|x: u64| #[trigger] new_list.contains(x) && x != id implies oi.contains_key(ok)
        && oi[ok].contains_key(bn) && oi[ok][bn].contains(x) by {
        let i = choose|i: int| 0 <= i < new_list.len() && new_list[i] == x;
        if listed {
            assert(i < new_list.len() - 1);
            assert(seq_or_empty(by_block, bn)[i] == x);
            assert(by_block.contains_key(bn));
        }
    }
    assert(new_list.no_duplicates() && new_list.len() > 0) by {
        if listed {
            let old_list = seq_or_empty(by_block, bn);
            if by_block.contains_key(bn) {
                assert(old_list.no_duplicates());
                assert(!old_list.contains(id));
            }
            assert forall|i: int, j: int|
                0 <= i < new_list.len() && 0 <= j < new_list.len() && i != j implies new_list[i]
                != new_list[j] by {
                if i == new_list.len() - 1 {
                    assert(old_list.contains(old_list[j]));
                } else if j == new_list.len() - 1 {
                    assert(old_list.contains(old_list[i]));
                }
            }
        }
    }
    // conjunct 1
    assert forall|x: u64| #[trigger] nm.contains_key(x) implies x <= new.order_seq && nm[x].id == x
        && nm[x].total_filled <= nm[x].total by {
        if x != id {
            assert(om.contains_key(x));
        }
    }
    // conjunct 2
    assert forall|k: OrderIdKey| #[trigger] ni.contains_key(k) implies np.contains_key(
        (k.0, k.1, k.2),
    ) && np[(k.0, k.1, k.2)].contains_key(k.3) by {
        if k != ok {
            assert(oi.contains_key(k));
            if (k.0, k.1, k.2) == pk {
                assert(op.contains_key(pk));
            }
        }
    }
    // conjunct 3
    assert forall|q: PriceKey, p: u64|
        np.contains_key(q) && #[trigger] np[q].contains_key(p) implies ni.contains_key(
        (q.0, q.1, q.2, p),
    ) by {
        if q == pk && p == price {
        } else if q == pk {
            assert(op.contains_key(pk) && op[pk].contains_key(p));
            assert(oi.contains_key((q.0, q.1, q.2, p)));
        } else {
            assert(op.contains_key(q) && op[q].contains_key(p));
            assert(oi.contains_key((q.0, q.1, q.2, p)));
        }
    }
    // conjunct 4
    assert forall|k: OrderIdKey, b: u64|
        ni.contains_key(k) && #[trigger] ni[k].contains_key(b) implies ni[k][b].no_duplicates()
        && ni[k][b].len() > 0 by {
        if k == ok && b == bn {
        } else if k == ok {
            assert(listed);
            assert(oi[k].contains_key(b));
        } else {
            assert(oi.contains_key(k) && oi[k].contains_key(b));
        }
    }
    // conjunct 5
    assert forall|k: OrderIdKey| #[trigger] ni.contains_key(k) implies !ni[k].is_empty() by {
        if k == ok {
            assert(ni[k].dom().contains(bn));
        } else {
            assert(oi.contains_key(k));
            assert(!oi[k].is_empty());
            let b = choose|b: u64| oi[k].dom().contains(b);
            assert(ni[k].dom().contains(b));
        }
    }
    // conjunct 6
    assert forall|x: u64| #[trigger] nm.contains_key(x) implies {
        let o = nm[x];
        let k = (o.sym0@, o.sym1@, o.side, o.price);
        &&& ni.contains_key(k)
        &&& ni[k].contains_key(o.block_number)
        &&& ni[k][o.block_number].contains(x)
    } by {
        if x != id {
            assert(om.contains_key(x));
            let o = om[x];
            let k = (o.sym0@, o.sym1@, o.side, o.price);
            assert(oi.contains_key(k) && oi[k].contains_key(o.block_number) && oi[k][o.block_number].contains(x));
            if k == ok && o.block_number == bn {
                assert(listed);
                let i = choose|i: int| 0 <= i < oi[k][bn].len() && oi[k][bn][i] == x;
                assert(new_list[i] == x);
            } else if k == ok {
                assert(listed);
            }
        }
    }
    // conjunct 7
    assert forall|k: OrderIdKey, b: u64, i: int|
        ni.contains_key(k) && #[trigger] ni[k].contains_key(b) && 0 <= i < ni[k][b].len() implies {
        let x = #[trigger] ni[k][b][i];
        &&& nm.contains_key(x)
        &&& nm[x].sym0@ == k.0
        &&& nm[x].sym1@ == k.1
        &&& nm[x].side == k.2
        &&& nm[x].price == k.3
        &&& nm[x].block_number == b
    } by {
        let x = ni[k][b][i];
        if k == ok && b == bn {
            assert(new_list.contains(x));
            if x != id {
                assert(oi[ok][bn].contains(x));
                let j = choose|j: int| 0 <= j < oi[ok][bn].len() && oi[ok][bn][j] == x;
                assert(om.contains_key(oi[ok][bn][j]));
            }
        } else if k == ok {
            assert(listed);
            assert(oi[k].contains_key(b) && oi[k][b][i] == x);
            assert(om.contains_key(x));
        } else {
            assert(oi.contains_key(k) && oi[k].contains_key(b) && oi[k][b][i] == x);
            assert(om.contains_key(x));
        }
    }
}

/// A placed order gets an id that no stored order has; it is stored under
/// that id, its price is listed for its pair and side, its id is the last
/// one filed under its price and block, and every order stored before is
/// kept as it was.
pub proof fn lemma_order_placed(
    old: Module,
    new: Module,
    old_tokens: tokens::Module,
    new_tokens: tokens::Module,
    sender: AccountId,
    sym0: Symbol,
    sym1: Symbol,
    price: u64,
    amount: u64,
    side: OrderType,
    block_number: u64,
)
    requires
        old.wf(),
        Module::order_spec(
            old,
            new,
            old_tokens,
            new_tokens,
            Origin::Signed(sender),
            sym0,
            sym1,
            price,
            amount,
            side,
            block_number,
            Ok(()),
        ),
    ensures
        !old.order_book().contains_key(new.seq()),
        new.order_book().contains_key(new.seq()),
        Module::is_new_order(
            new.order_book()[new.seq()],
            new.seq(),
            sender,
            sym0@,
            sym1@,
            price,
            amount,
            side,
            block_number,
        ),
        new.price_set((sym0@, sym1@, side)).contains_key(price),
        new.ids_by_block((sym0@, sym1@, side, price)).contains_key(block_number),
        new.ids_by_block((sym0@, sym1@, side, price))[block_number].last() == new.seq(),
        forall|id: u64| #[trigger]
            old.order_book().contains_key(id) ==> new.order_book().contains_key(id)
                && new.order_book()[id] == old.order_book()[id],
        new.order_list(sender).last() == new.seq(),
        new.owners().contains_key(new.seq()),
        new.owners()[new.seq()] == sender,
        new.wf(),
{
    old.lemma_wf_orders();
    lemma_order_keeps_wf(old, new, old_tokens, new_tokens, sender, sym0, sym1, price, amount, side, block_number);
}

/// Placing an order moves `amount` of the offered token of the signer from
/// free to frozen and leaves every other balance as it was.
pub proof fn lemma_order_freezes(
    old: Module,
    new: Module,
    old_tokens: tokens::Module,
    new_tokens: tokens::Module,
    sender: AccountId,
    sym0: Symbol,
    sym1: Symbol,
    price: u64,
    amount: u64,
    side: OrderType,
    block_number: u64,
)
    requires
        Module::order_spec(
            old,
            new,
            old_tokens,
            new_tokens,
            Origin::Signed(sender),
            sym0,
            sym1,
            price,
            amount,
            side,
            block_number,
            Ok(()),
        ),
    ensures
        new_tokens.free(sender, sym1@) == old_tokens.free(sender, sym1@) - amount,
        new_tokens.freezed(sender, sym1@) == old_tokens.freezed(sender, sym1@) + amount,
        forall|a: AccountId, sym: Seq<u8>|
            (a, sym) != (sender, sym1@) ==> #[trigger] new_tokens.free(a, sym) == old_tokens.free(
                a,
                sym,
            ) && new_tokens.freezed(a, sym) == old_tokens.freezed(a, sym),
{
}

/// A call that fails leaves the book and the ledger as they were.
pub proof fn lemma_failed_order_changes_nothing(
    old: Module,
    new: Module,
    old_tokens: tokens::Module,
    new_tokens: tokens::Module,
    origin: Origin,
    sym0: Symbol,
    sym1: Symbol,
    price: u64,
    amount: u64,
    side: OrderType,
    block_number: u64,
    e: Error,
)
    requires
        Module::order_spec(
            old,
            new,
            old_tokens,
            new_tokens,
            origin,
            sym0,
            sym1,
            price,
            amount,
            side,
            block_number,
            Err(e),
        ),
    ensures
        new == old,
        new_tokens == old_tokens,
{
}


/// Two successive orders get the ids `n + 1` and `n + 2`, where `n` is the
/// last id given out before them: each is stored under its id, the second
/// does not overwrite the first, and each is recorded as its signer's. A
/// well-formed book stays well-formed.
pub proof fn lemma_two_orders(
    b0: Module,
    b1: Module,
    b2: Module,
    t0: tokens::Module,
    t1: tokens::Module,
    t2: tokens::Module,
    s: AccountId,
    sym0: Symbol,
    sym1: Symbol,
    price: u64,
    amount: u64,
    side: OrderType,
    block_number: u64,
    s2: AccountId,
    sym0b: Symbol,
    sym1b: Symbol,
    price2: u64,
    amount2: u64,
    side2: OrderType,
    block_number2: u64,
)
    requires
        Module::order_spec(
            b0,
            b1,
            t0,
            t1,
            Origin::Signed(s),
            sym0,
            sym1,
            price,
            amount,
            side,
            block_number,
            Ok(()),
        ),
        Module::order_spec(
            b1,
            b2,
            t1,
            t2,
            Origin::Signed(s2),
            sym0b,
            sym1b,
            price2,
            amount2,
            side2,
            block_number2,
            Ok(()),
        ),
    ensures
        b1.seq() == b0.seq() + 1,
        b2.seq() == b0.seq() + 2,
        b2.order_book().contains_key(b1.seq()),
        b2.order_book()[b1.seq()] == b1.order_book()[b1.seq()],
        b2.order_book()[b1.seq()].id == b1.seq(),
        b2.order_book()[b2.seq()].id == b2.seq(),
        b2.owners()[b1.seq()] == s,
        b2.owners()[b2.seq()] == s2,
        b0.wf() ==> b2.wf(),
{
    if b0.wf() {
        lemma_order_placed(b0, b1, t0, t1, s, sym0, sym1, price, amount, side, block_number);
        lemma_order_placed(b1, b2, t1, t2, s2, sym0b, sym1b, price2, amount2, side2, block_number2);
    }
}


/// Cancelling an order just placed succeeds and gives back what placing it
/// took: every free and frozen balance is as before the order, and the book
/// holds the orders it held before.
pub proof fn lemma_order_then_cancel(
    b0: Module,
    b1: Module,
    b2: Module,
    t0: tokens::Module,
    t1: tokens::Module,
    t2: tokens::Module,
    s: AccountId,
    sym0: Symbol,
    sym1: Symbol,
    price: u64,
    amount: u64,
    side: OrderType,
    block_number: u64,
    r: DispatchResult,
)
    requires
        b0.wf(),
        Module::order_spec(
            b0,
            b1,
            t0,
            t1,
            Origin::Signed(s),
            sym0,
            sym1,
            price,
            amount,
            side,
            block_number,
            Ok(()),
        ),
        Module::cancel_spec(b1, b2, t1, t2, Origin::Signed(s), b1.seq(), r),
    ensures
        r == Ok::<(), Error>(()),
        forall|a: AccountId, sym: Seq<u8>|
            #[trigger] t2.free(a, sym) == t0.free(a, sym) && t2.freezed(a, sym) == t0.freezed(a, sym),
        b2.order_book() == b0.order_book(),
        b2.wf(),
{
    lemma_order_placed(b0, b1, t0, t1, s, sym0, sym1, price, amount, side, block_number);
    lemma_cancel_keeps_wf(b1, b2, t1, t2, Origin::Signed(s), b1.seq());
    assert(b2.order_book() =~= b0.order_book());
}

} // verus!
