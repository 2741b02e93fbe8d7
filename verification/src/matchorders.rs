//! Matching of pending orders: for each registered pair, buy prices from the
//! highest down meet sell prices from the lowest up, and the orders at two
//! such prices are compared one by one. Matching reads the book and changes
//! nothing; what it finds is what the functions return.
use vstd::prelude::*;
use crate::collections::{CodecBTreeMap, strictly_increasing};
use crate::pendingorders;
use crate::pendingorders::{Order, OrderType};
use crate::support::{AccountId, DispatchResult, Error, Symbol};
use crate::tokens;

verus! {

broadcast use crate::support::lemma_symbol_deep_view;

/// What the matcher reports.
#[derive(Clone, Debug, PartialEq)]
pub enum Event {
    /// A match: the account, the order id, the pair, the price, the amount,
    /// the block.
    Match(AccountId, u64, Symbol, Symbol, u64, u64, u64),
}

/// What is left to fill of an order.
pub open spec fn remaining(o: Order) -> int {
    o.total - o.total_filled
}

/// Whether comparing buy order `buyer_id` with sell order `seller_id` ends
/// the buy order: a buy order that is gone is done, a sell order that is
/// gone matches nothing, and otherwise the buy order is done when what is
/// left of it fits in what is left of the sell order.
pub open spec fn one_by_one_result(book: pendingorders::Module, buyer_id: u64, seller_id: u64) -> bool {
    if !book.order_book().contains_key(buyer_id) {
        true
    } else if !book.order_book().contains_key(seller_id) {
        false
    } else {
        remaining(book.order_book()[buyer_id]) <= remaining(book.order_book()[seller_id])
    }
}

/// Whether some sell order at `seller_price` ends buy order `buyer_id`.
pub open spec fn buyer_order_result(
    book: pendingorders::Module,
    buyer_id: u64,
    seller_price: u64,
    sym0: Seq<u8>,
    sym1: Seq<u8>,
) -> bool {
    let m = book.ids_by_block((sym0, sym1, OrderType::Sell, seller_price));
    exists|bn: u64, i: int|
        m.contains_key(bn) && 0 <= i < m[bn].len() && #[trigger] one_by_one_result(
            book,
            buyer_id,
            m[bn][i],
        )
}

/// Whether `bn` is the latest block under which `m` files some id.
pub open spec fn is_last_nonempty_block(m: Map<u64, Seq<u64>>, bn: u64) -> bool {
    &&& m.contains_key(bn)
    &&& m[bn].len() > 0
    &&& forall|b: u64| #[trigger] m.contains_key(b) && m[b].len() > 0 ==> b <= bn
}

/// What matching the buy orders at `buyer_price` against the sell orders at
/// `seller_price` reports: the blocks of the buy orders are taken in order,
/// and the answer is that of the latest block with orders, which is whether
/// some order of that block is ended by a sell order.
pub open spec fn buyer_price_result(
    book: pendingorders::Module,
    buyer_price: u64,
    seller_price: u64,
    sym0: Seq<u8>,
    sym1: Seq<u8>,
) -> bool {
    let m = book.ids_by_block((sym0, sym1, OrderType::Buy, buyer_price));
    exists|bn: u64|
        #[trigger] is_last_nonempty_block(m, bn) && exists|i: int|
            0 <= i < m[bn].len() && #[trigger] buyer_order_result(
                book,
                m[bn][i],
                seller_price,
                sym0,
                sym1,
            )
}

/// Compares buy order `buyer_order_id` with sell order `seller_order_id`; see
/// `one_by_one_result`.
pub fn match_one_by_one(
    book: &pendingorders::Module,
    buyer_order_id: u64,
    seller_order_id: u64,
    sym0: &Symbol,
    sym1: &Symbol,
) -> (finish: bool)
    requires
        book.wf(),
    ensures
        finish == one_by_one_result(*book, buyer_order_id, seller_order_id),
        !book.order_book().contains_key(buyer_order_id) ==> finish,
        book.order_book().contains_key(buyer_order_id) && !book.order_book().contains_key(
            seller_order_id,
        ) ==> !finish,
        book.order_book().contains_key(buyer_order_id) && book.order_book().contains_key(
            seller_order_id,
        ) ==> (finish <==> book.order_book()[buyer_order_id].total
            - book.order_book()[buyer_order_id].total_filled
            <= book.order_book()[seller_order_id].total
            - book.order_book()[seller_order_id].total_filled),
{
    proof {
        book.lemma_wf_orders();
    }
    let buyer_order = match book.order_map(buyer_order_id) {
        Some(order) => order,
        None => return true,
    };
    let buyer_remain_amount: u64 = buyer_order.total - buyer_order.total_filled as u64;
    let seller_order = match book.order_map(seller_order_id) {
        Some(order) => order,
        None => return false,
    };
    let seller_remain_amount: u64 = seller_order.total - seller_order.total_filled as u64;
    let finish: bool = buyer_remain_amount <= seller_remain_amount;
    finish
}

/// Whether some sell order at `seller_price` ends buy order
/// `buyer_order_id`; the sell orders are tried block by block, oldest
/// first.
pub fn match_one_buyer_order_id(
    book: &pendingorders::Module,
    buyer_order_id: u64,
    seller_price: u64,
    sym0: &Symbol,
    sym1: &Symbol,
) -> (finish: bool)
    requires
        book.wf(),
    ensures
        finish == buyer_order_result(*book, buyer_order_id, seller_price, sym0@, sym1@),
{
    let seller_bn_btreemap = book.order_id_map(sym0, sym1, OrderType::Sell, seller_price);
    let ghost m = seller_bn_btreemap@;
    let seller_block_numbers = seller_bn_btreemap.keys();
    let mut j: usize = 0;
    while j < seller_block_numbers.len()
        invariant
            book.wf(),
            m == seller_bn_btreemap@,
            m == book.ids_by_block((sym0@, sym1@, OrderType::Sell, seller_price)),
            seller_block_numbers@.to_set() == seller_bn_btreemap.0@.dom(),
            j <= seller_block_numbers@.len(),
            forall|a: int, i: int|
                0 <= a < j && 0 <= i < m[seller_block_numbers@[a]].len() ==> !one_by_one_result(
                    *book,
                    buyer_order_id,
                    #[trigger] m[seller_block_numbers@[a]][i],
                ),
        decreases seller_block_numbers@.len() - j,
    {
        let seller_bn = seller_block_numbers[j];
        assert(seller_block_numbers@.to_set().contains(seller_bn));
        let seller_order_ids: &Vec<u64> = match seller_bn_btreemap.0.get(&seller_bn) {
            Some(v) => v,
            None => {
                assert(false);
                return false;
            },
        };
        assert(seller_order_ids@ == m[seller_bn]);
        let mut i: usize = 0;
        while i < seller_order_ids.len()
            invariant
                book.wf(),
                i <= seller_order_ids@.len(),
                seller_order_ids@ == m[seller_bn],
                m.contains_key(seller_bn),
                m == book.ids_by_block((sym0@, sym1@, OrderType::Sell, seller_price)),
                forall|b: int|
                    0 <= b < i ==> !one_by_one_result(
                        *book,
                        buyer_order_id,
                        #[trigger] seller_order_ids@[b],
                    ),
            decreases seller_order_ids@.len() - i,
        {
            let finish = match_one_by_one(book, buyer_order_id, seller_order_ids[i], sym0, sym1);
            if finish {
                assert(one_by_one_result(*book, buyer_order_id, m[seller_bn][i as int]));
                return true;
            }
            i = i + 1;
        }
        j = j + 1;
    }
    assert forall|bn: u64, i: int|
        m.contains_key(bn) && 0 <= i < m[bn].len() implies !#[trigger] one_by_one_result(
        *book,
        buyer_order_id,
        m[bn][i],
    ) by {
        assert(seller_bn_btreemap.0@.dom().contains(bn));
        assert(seller_block_numbers@.to_set().contains(bn));
        let a = choose|a: int| 0 <= a < seller_block_numbers@.len() && seller_block_numbers@[a] == bn;
        assert(!one_by_one_result(*book, buyer_order_id, m[seller_block_numbers@[a]][i]));
    }
    false
}

/// Matches the buy orders at `buyer_price` against the sell orders at
/// `seller_price`, block by block, oldest first; within a block it stops at
/// the first buy order that a sell order ends. See `buyer_price_result`.
pub fn match_one_buyer_price(
    book: &pendingorders::Module,
    buyer_price: u64,
    seller_price: u64,
    sym0: &Symbol,
    sym1: &Symbol,
) -> (finish: bool)
    requires
        book.wf(),
    ensures
        finish == buyer_price_result(*book, buyer_price, seller_price, sym0@, sym1@),
{
    let buyer_bn_btreemap = book.order_id_map(sym0, sym1, OrderType::Buy, buyer_price);
    let ghost m = buyer_bn_btreemap@;
    let buyer_block_numbers = buyer_bn_btreemap.keys();
    let ghost ks = buyer_block_numbers@;
    assert(m.dom() =~= buyer_bn_btreemap.0@.dom());
    let mut finish = false;
    let mut j: usize = 0;
    while j < buyer_block_numbers.len()
        invariant
            book.wf(),
            m == buyer_bn_btreemap@,
            m == book.ids_by_block((sym0@, sym1@, OrderType::Buy, buyer_price)),
            ks == buyer_block_numbers@,
            ks.to_set() == buyer_bn_btreemap.0@.dom(),
            ks.to_set() == m.dom(),
            strictly_increasing(ks),
            j <= ks.len(),
            finish == exists|bn: u64|
                #[trigger] is_last_nonempty_block(restrict(m, ks.take(j as int)), bn) && exists|i: int|
                    0 <= i < m[bn].len() && #[trigger] buyer_order_result(
                        *book,
                        m[bn][i],
                        seller_price,
                        sym0@,
                        sym1@,
                    ),
        decreases ks.len() - j,
    {
        let buyer_bn = buyer_block_numbers[j];
        assert(ks.to_set().contains(buyer_bn));
        let buyer_order_ids: &Vec<u64> = match buyer_bn_btreemap.0.get(&buyer_bn) {
            Some(v) => v,
            None => {
                assert(false);
                return false;
            },
        };
        let ghost prev = finish;
        let mut i: usize = 0;
        while i < buyer_order_ids.len()
            invariant_except_break
                i <= buyer_order_ids@.len(),
                i > 0 ==> !finish,
                forall|b: int|
                    0 <= b < i ==> !#[trigger] buyer_order_result(
                        *book,
                        buyer_order_ids@[b],
                        seller_price,
                        sym0@,
                        sym1@,
                    ),
                i == 0 ==> finish == prev,
            invariant
                book.wf(),
                buyer_order_ids@ == m[buyer_bn],
                m == book.ids_by_block((sym0@, sym1@, OrderType::Buy, buyer_price)),
            ensures
                buyer_order_ids@.len() > 0 ==> (finish == exists|b: int|
                    0 <= b < buyer_order_ids@.len() && #[trigger] buyer_order_result(
                        *book,
                        buyer_order_ids@[b],
                        seller_price,
                        sym0@,
                        sym1@,
                    )),
                buyer_order_ids@.len() == 0 ==> finish == prev,
            decreases buyer_order_ids@.len() - i,
        {
            finish = match_one_buyer_order_id(book, buyer_order_ids[i], seller_price, sym0, sym1);
            if finish {
                break ;
            }
            i = i + 1;
        }
        proof {
            lemma_last_block_step(m, ks, j as int);
            let after = restrict(m, ks.take(j + 1));
            let before = restrict(m, ks.take(j as int));
            assert(buyer_bn == ks[j as int]);
            if m[buyer_bn].len() > 0 {
                assert(is_last_nonempty_block(after, buyer_bn));
                if finish {
                    let b = choose|b: int|
                        0 <= b < buyer_order_ids@.len() && #[trigger] buyer_order_result(
                            *book,
                            buyer_order_ids@[b],
                            seller_price,
                            sym0@,
                            sym1@,
                        );
                    assert(buyer_order_result(*book, m[buyer_bn][b], seller_price, sym0@, sym1@));
                } else {
                    assert forall|bn: u64| #[trigger] is_last_nonempty_block(after, bn) implies !(
                    exists|i: int|
                        0 <= i < m[bn].len() && #[trigger] buyer_order_result(
                            *book,
                            m[bn][i],
                            seller_price,
                            sym0@,
                            sym1@,
                        )) by {
                        assert(bn == buyer_bn);
                    }
                }
                assert(finish == exists|bn: u64|
                    #[trigger] is_last_nonempty_block(after, bn) && exists|i: int|
                        0 <= i < m[bn].len() && #[trigger] buyer_order_result(
                            *book,
                            m[bn][i],
                            seller_price,
                            sym0@,
                            sym1@,
                        ));
            } else {
                assert forall|bn: u64|
                    #![trigger is_last_nonempty_block(after, bn)]
                    #![trigger is_last_nonempty_block(before, bn)]
                    is_last_nonempty_block(after, bn) == is_last_nonempty_block(before, bn) by {}
                assert(finish == prev);
                assert(finish == exists|bn: u64|
                    #[trigger] is_last_nonempty_block(after, bn) && exists|i: int|
                        0 <= i < m[bn].len() && #[trigger] buyer_order_result(
                            *book,
                            m[bn][i],
                            seller_price,
                            sym0@,
                            sym1@,
                        ));
            }
        }
        j = j + 1;
    }
    proof {
        assert(ks.take(ks.len() as int) =~= ks);
        lemma_restrict_all(m, ks);
    }
    finish
}

/// Matches the buy prices, from the highest down, against the sell prices,
/// from the lowest up: a sell price above the buy price ends the sell
/// prices for that buy price, and so does a match that ends the buy orders
/// at a sell price. Nothing is written.
pub fn match_buyers(
    book: &pendingorders::Module,
    buyer_prices: &Vec<u64>,
    seller_prices: &Vec<u64>,
    sym0: &Symbol,
    sym1: &Symbol,
)
    requires
        book.wf(),
{
    let mut b: usize = buyer_prices.len();
    while b > 0
        invariant
            book.wf(),
            b <= buyer_prices@.len(),
        decreases b,
    {
        b = b - 1;
        let buyer_price = buyer_prices[b];
        let mut s: usize = 0;
        while s < seller_prices.len()
            invariant
                book.wf(),
                s <= seller_prices@.len(),
            decreases seller_prices@.len() - s,
        {
            let seller_price = seller_prices[s];
            if seller_price > buyer_price {
                break ;
            }
            let finish_the_buyer = match_one_buyer_price(book, buyer_price, seller_price, sym0, sym1);
            if finish_the_buyer {
                break ;
            }
            s = s + 1;
        }
    }
}

/// Runs the matching over every registered pair of symbols. Matching
/// writes nothing, and the call always succeeds.
pub fn do_match_orders(tokens: &tokens::Module, book: &pendingorders::Module) -> (r: DispatchResult)
    requires
        book.wf(),
    ensures
        r == Ok::<(), Error>(()),
{
    let symbol_pair_vec = tokens.registered_pairs();
    let mut p: usize = 0;
    while p < symbol_pair_vec.len()
        invariant
            book.wf(),
            p <= symbol_pair_vec@.len(),
        decreases symbol_pair_vec@.len() - p,
    {
        let sym0 = &symbol_pair_vec[p].0;
        let sym1 = &symbol_pair_vec[p].1;
        let all_buyers_prices = book.price_list(sym0, sym1, OrderType::Buy).keys();
        let all_sellers_prices = book.price_list(sym0, sym1, OrderType::Sell).keys();
        match_buyers(book, &all_buyers_prices, &all_sellers_prices, sym0, sym1);
        p = p + 1;
    }
    Ok(())
}

/// Runs the matching over every registered pair of symbols (the
/// dispatchable call); it writes nothing and always succeeds.
pub fn match_orders(tokens: &tokens::Module, book: &pendingorders::Module) -> (r: DispatchResult)
    requires
        book.wf(),
    ensures
        r == Ok::<(), Error>(()),
{
    do_match_orders(tokens, book)
}

/// What the runtime runs at the end of each block: the matching.
pub fn on_finalize(tokens: &tokens::Module, book: &pendingorders::Module, block_number: u64)
    requires
        book.wf(),
{
    let _ = match_orders(tokens, book);
}

/// Comparing a buy order with a sell order: a buy order that is gone counts
/// as finished, a sell order that is gone finishes nothing, and otherwise
/// the sell order finishes the buy order exactly when what is left of the
/// buy order is at most what is left of the sell order (equal amounts
/// finish it).
pub proof fn lemma_one_by_one_meaning(book: pendingorders::Module, buyer_id: u64, seller_id: u64)
    ensures
        !book.order_book().contains_key(buyer_id) ==> one_by_one_result(book, buyer_id, seller_id),
        book.order_book().contains_key(buyer_id) && !book.order_book().contains_key(seller_id)
            ==> !one_by_one_result(book, buyer_id, seller_id),
        book.order_book().contains_key(buyer_id) && book.order_book().contains_key(seller_id) ==> (
        one_by_one_result(book, buyer_id, seller_id) <==> book.order_book()[buyer_id].total
            - book.order_book()[buyer_id].total_filled <= book.order_book()[seller_id].total
            - book.order_book()[seller_id].total_filled),
{
}

/// Matching one buy order against the sell orders at one price: it is
/// finished exactly when some sell order filed at that price, under any
/// block and at any place in that block's list, has at least what is left
/// of the buy order left (a buy order that is gone is finished by any sell
/// order filed there).
pub proof fn lemma_buyer_order_meaning(
    book: pendingorders::Module,
    buyer_id: u64,
    seller_price: u64,
    sym0: Seq<u8>,
    sym1: Seq<u8>,
    sells: Map<u64, Seq<u64>>,
)
    requires
        sells == book.ids_by_block((sym0, sym1, OrderType::Sell, seller_price)),
    ensures
        buyer_order_result(book, buyer_id, seller_price, sym0, sym1) <==> exists|bn: u64, i: int|
            sells.contains_key(bn) && 0 <= i < sells[bn].len() && (book.order_book().contains_key(
                buyer_id,
            ) ==> book.order_book().contains_key(#[trigger] sells[bn][i])
                && book.order_book()[buyer_id].total - book.order_book()[buyer_id].total_filled
                <= book.order_book()[sells[bn][i]].total
                - book.order_book()[sells[bn][i]].total_filled),
{
    let ob = book.order_book();
    if buyer_order_result(book, buyer_id, seller_price, sym0, sym1) {
        let (bn, i) = choose|bn: u64, i: int|
            sells.contains_key(bn) && 0 <= i < sells[bn].len() && #[trigger] one_by_one_result(
                book,
                buyer_id,
                sells[bn][i],
            );
        let x = sells[bn][i];
        assert(ob.contains_key(buyer_id) ==> ob.contains_key(x) && ob[buyer_id].total
            - ob[buyer_id].total_filled <= ob[x].total - ob[x].total_filled);
    }
    if exists|bn: u64, i: int|
        sells.contains_key(bn) && 0 <= i < sells[bn].len() && (ob.contains_key(buyer_id)
            ==> ob.contains_key(#[trigger] sells[bn][i]) && ob[buyer_id].total
            - ob[buyer_id].total_filled <= ob[sells[bn][i]].total
            - ob[sells[bn][i]].total_filled) {
        let (bn, i) = choose|bn: u64, i: int|
            sells.contains_key(bn) && 0 <= i < sells[bn].len() && (ob.contains_key(buyer_id)
                ==> ob.contains_key(#[trigger] sells[bn][i]) && ob[buyer_id].total
                - ob[buyer_id].total_filled <= ob[sells[bn][i]].total
                - ob[sells[bn][i]].total_filled);
        assert(one_by_one_result(book, buyer_id, sells[bn][i]));
    }
}

/// Matching the buy orders at one buy price against the sell orders at one
/// sell price: the answer is that of the latest block holding buy orders at
/// that price, and it is yes exactly when some buy order of that block, at
/// any place in its list, is finished by some sell order filed at the sell
/// price (what is left of the buy order is at most what is left of the sell
/// order, or the buy order is gone).
pub proof fn lemma_buyer_price_meaning(
    book: pendingorders::Module,
    buyer_price: u64,
    seller_price: u64,
    sym0: Seq<u8>,
    sym1: Seq<u8>,
    buys: Map<u64, Seq<u64>>,
    sells: Map<u64, Seq<u64>>,
)
    requires
        buys == book.ids_by_block((sym0, sym1, OrderType::Buy, buyer_price)),
        sells == book.ids_by_block((sym0, sym1, OrderType::Sell, seller_price)),
    ensures
        buyer_price_result(book, buyer_price, seller_price, sym0, sym1) <==> exists|
            bn: u64,
            i: int,
            sbn: u64,
            k: int,
        |
            #![trigger buys[bn][i], sells[sbn][k]]
            buys.contains_key(bn) && 0 <= i < buys[bn].len() && (forall|b: u64|
                #[trigger] buys.contains_key(b) && buys[b].len() > 0 ==> b <= bn)
                && sells.contains_key(sbn) && 0 <= k < sells[sbn].len() && (
            book.order_book().contains_key(buys[bn][i]) ==> book.order_book().contains_key(
                sells[sbn][k],
            ) && book.order_book()[buys[bn][i]].total - book.order_book()[buys[bn][i]].total_filled
                <= book.order_book()[sells[sbn][k]].total
                - book.order_book()[sells[sbn][k]].total_filled),
{
    let ob = book.order_book();
    if buyer_price_result(book, buyer_price, seller_price, sym0, sym1) {
        let bn = choose|bn: u64|
            #[trigger] is_last_nonempty_block(buys, bn) && exists|i: int|
                0 <= i < buys[bn].len() && #[trigger] buyer_order_result(
                    book,
                    buys[bn][i],
                    seller_price,
                    sym0,
                    sym1,
                );
        let i = choose|i: int|
            0 <= i < buys[bn].len() && #[trigger] buyer_order_result(
                book,
                buys[bn][i],
                seller_price,
                sym0,
                sym1,
            );
        let b = buys[bn][i];
        lemma_buyer_order_meaning(book, b, seller_price, sym0, sym1, sells);
        let (sbn, k) = choose|sbn: u64, k: int|
            sells.contains_key(sbn) && 0 <= k < sells[sbn].len() && (ob.contains_key(b)
                ==> ob.contains_key(#[trigger] sells[sbn][k]) && ob[b].total - ob[b].total_filled
                <= ob[sells[sbn][k]].total - ob[sells[sbn][k]].total_filled);
        assert(buys.contains_key(bn) && 0 <= i < buys[bn].len() && (forall|c: u64|
            #[trigger] buys.contains_key(c) && buys[c].len() > 0 ==> c <= bn)
            && sells.contains_key(sbn) && 0 <= k < sells[sbn].len() && (ob.contains_key(
            buys[bn][i],
        ) ==> ob.contains_key(sells[sbn][k]) && ob[buys[bn][i]].total
            - ob[buys[bn][i]].total_filled <= ob[sells[sbn][k]].total
            - ob[sells[sbn][k]].total_filled));
    }
    if exists|bn: u64, i: int, sbn: u64, k: int|
        #![trigger buys[bn][i], sells[sbn][k]]
        buys.contains_key(bn) && 0 <= i < buys[bn].len() && (forall|c: u64|
            #[trigger] buys.contains_key(c) && buys[c].len() > 0 ==> c <= bn)
            && sells.contains_key(sbn) && 0 <= k < sells[sbn].len() && (ob.contains_key(
            buys[bn][i],
        ) ==> ob.contains_key(sells[sbn][k]) && ob[buys[bn][i]].total
            - ob[buys[bn][i]].total_filled <= ob[sells[sbn][k]].total
            - ob[sells[sbn][k]].total_filled) {
        let (bn, i, sbn, k) = choose|bn: u64, i: int, sbn: u64, k: int|
            #![trigger buys[bn][i], sells[sbn][k]]
            buys.contains_key(bn) && 0 <= i < buys[bn].len() && (forall|c: u64|
                #[trigger] buys.contains_key(c) && buys[c].len() > 0 ==> c <= bn)
                && sells.contains_key(sbn) && 0 <= k < sells[sbn].len() && (ob.contains_key(
                buys[bn][i],
            ) ==> ob.contains_key(sells[sbn][k]) && ob[buys[bn][i]].total
                - ob[buys[bn][i]].total_filled <= ob[sells[sbn][k]].total
                - ob[sells[sbn][k]].total_filled);
        let b = buys[bn][i];
        lemma_buyer_order_meaning(book, b, seller_price, sym0, sym1, sells);
        assert(sells.contains_key(sbn) && 0 <= k < sells[sbn].len() && (ob.contains_key(b)
            ==> ob.contains_key(sells[sbn][k]) && ob[b].total - ob[b].total_filled
            <= ob[sells[sbn][k]].total - ob[sells[sbn][k]].total_filled));
        assert(buyer_order_result(book, b, seller_price, sym0, sym1));
        assert(is_last_nonempty_block(buys, bn));
    }
}

/// The part of `m` whose keys are in `ks`.
pub open spec fn restrict(m: Map<u64, Seq<u64>>, ks: Seq<u64>) -> Map<u64, Seq<u64>> {
    m.restrict(ks.to_set())
}

/// Taking one more key of an increasing key sequence: the latest nonempty
/// block is the new key where it is nonempty, else it stays.
proof fn lemma_last_block_step(m: Map<u64, Seq<u64>>, ks: Seq<u64>, j: int)
    requires
        strictly_increasing(ks),
        0 <= j < ks.len(),
        ks.to_set() == m.dom(),
    ensures
        m[ks[j]].len() > 0 ==> forall|bn: u64|
            #[trigger] is_last_nonempty_block(restrict(m, ks.take(j + 1)), bn) <==> bn == ks[j],
        m[ks[j]].len() == 0 ==> forall|bn: u64|
            #[trigger] is_last_nonempty_block(restrict(m, ks.take(j + 1)), bn)
                <==> is_last_nonempty_block(restrict(m, ks.take(j)), bn),
{
    let before = restrict(m, ks.take(j));
    let after = restrict(m, ks.take(j + 1));
    assert(ks.take(j + 1) =~= ks.take(j).push(ks[j]));
    assert forall|x: u64| #[trigger] ks.take(j + 1).to_set().contains(x) == ks.take(
        j,
    ).to_set().insert(ks[j]).contains(x) by {
        let t1 = ks.take(j + 1);
        let t0 = ks.take(j);
        if t1.contains(x) {
            let a = choose|a: int| 0 <= a < t1.len() && t1[a] == x;
            if a < j {
                assert(t0[a] == x);
            }
        }
        if t0.contains(x) {
            let a = choose|a: int| 0 <= a < t0.len() && t0[a] == x;
            assert(t1[a] == x);
        }
        if x == ks[j] {
            assert(t1[j] == x);
        }
    }
    assert(ks.take(j + 1).to_set() =~= ks.take(j).to_set().insert(ks[j]));
    assert(ks.to_set().contains(ks[j]));
    assert forall|b: u64| #[trigger] before.contains_key(b) implies b < ks[j] by {
        let a = choose|a: int| 0 <= a < j && ks.take(j)[a] == b;
        assert(ks[a] == b);
    }
    if m[ks[j]].len() > 0 {
        assert forall|bn: u64| #[trigger]
            is_last_nonempty_block(after, bn) <==> bn == ks[j] by {
            if is_last_nonempty_block(after, bn) {
                assert(after.contains_key(ks[j]) && after[ks[j]].len() > 0);
                assert(ks[j] <= bn);
                if bn != ks[j] {
                    assert(before.contains_key(bn));
                }
            }
            if bn == ks[j] {
                assert forall|b: u64| #[trigger]
                    after.contains_key(b) && after[b].len() > 0 implies b <= bn by {
                    if b != ks[j] {
                        assert(before.contains_key(b));
                    }
                }
            }
        }
    } else {
        assert forall|bn: u64| #[trigger]
            is_last_nonempty_block(after, bn) <==> is_last_nonempty_block(before, bn) by {
            if is_last_nonempty_block(after, bn) {
                assert(bn != ks[j]);
                assert(before.contains_key(bn));
                assert forall|b: u64| #[trigger]
                    before.contains_key(b) && before[b].len() > 0 implies b <= bn by {
                    assert(after.contains_key(b));
                }
            }
            if is_last_nonempty_block(before, bn) {
                assert forall|b: u64| #[trigger]
                    after.contains_key(b) && after[b].len() > 0 implies b <= bn by {
                    if b != ks[j] {
                        assert(before.contains_key(b));
                    }
                }
            }
        }
    }
}

/// Restricting a map to all its keys leaves it as it is.
proof fn lemma_restrict_all(m: Map<u64, Seq<u64>>, ks: Seq<u64>)
    requires
        ks.to_set() == m.dom(),
    ensures
        restrict(m, ks) == m,
{
    assert(restrict(m, ks) =~= m);
}

} // verus!
