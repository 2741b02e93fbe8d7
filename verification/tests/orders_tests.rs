use perml::matchorders::{
    match_buyers, match_one_buyer_order_id, match_one_buyer_price, match_one_by_one, match_orders,
    on_finalize,
};
use perml::pendingorders::{Event, Module as Book, OrderType};
use perml::support::{Error, Origin};
use perml::tokens::{Event as TokenEvent, Module as Tokens};

fn sym(s: &str) -> Vec<u8> {
    s.as_bytes().to_vec()
}

/// A ledger where accounts 1 to 4 hold 1000 free "USD" each and the pair
/// ("DOT", "USD") is registered.
fn setup() -> (Tokens, Book) {
    let mut t = Tokens::new();
    for acc in 1..=4u64 {
        t.issue(Origin::Signed(acc), sym("USD"), 1000).unwrap();
    }
    t.insert_symbol_pair(sym("DOT"), sym("USD"), 1);
    (t, Book::new())
}

fn place(t: &mut Tokens, b: &mut Book, acc: u64, price: u64, amount: u64, side: OrderType, block: u64) {
    assert_eq!(
        b.order(t, Origin::Signed(acc), sym("DOT"), sym("USD"), price, amount, side, block),
        Ok(())
    );
}

#[test]
fn order_is_stored_listed_and_its_tokens_frozen() {
    let (mut t, mut b) = setup();
    place(&mut t, &mut b, 1, 50, 100, OrderType::Buy, 7);
    assert_eq!(b.order_id(), 1);
    let o = b.order_map(1).unwrap();
    assert_eq!(o.id, 1);
    assert_eq!(o.acc, 1);
    assert_eq!(o.sym0, sym("DOT"));
    assert_eq!(o.sym1, sym("USD"));
    assert_eq!(o.side, OrderType::Buy);
    assert_eq!(o.price, 50);
    assert_eq!(o.total, 100);
    assert_eq!(o.total_filled, 0);
    assert!(o.fills.is_empty());
    assert_eq!(o.block_number, 7);
    assert_eq!(b.price_list(&sym("DOT"), &sym("USD"), OrderType::Buy).keys(), vec![50]);
    let ids = b.order_id_map(&sym("DOT"), &sym("USD"), OrderType::Buy, 50);
    assert_eq!(ids.0.get(&7), Some(&vec![1]));
    assert_eq!(b.orders(1), vec![1]);
    assert_eq!(t.free_token(1, &sym("USD")), 900);
    assert_eq!(t.freezed_token(1, &sym("USD")), 100);
    assert_eq!(t.events().last(), Some(&TokenEvent::Freezed(1, sym("USD"), 100)));
    assert_eq!(
        b.events(),
        &vec![Event::Ordered(1, sym("DOT"), sym("USD"), 50, 100, OrderType::Buy)]
    );
}

#[test]
fn orders_get_fresh_ids() {
    let (mut t, mut b) = setup();
    place(&mut t, &mut b, 1, 50, 10, OrderType::Buy, 1);
    place(&mut t, &mut b, 2, 60, 20, OrderType::Sell, 1);
    place(&mut t, &mut b, 1, 50, 30, OrderType::Buy, 1);
    assert_eq!(b.order_id(), 3);
    assert_eq!(b.order_map(1).unwrap().total, 10);
    assert_eq!(b.order_map(2).unwrap().total, 20);
    assert_eq!(b.order_map(3).unwrap().total, 30);
    assert_eq!(b.orders(1), vec![1, 3]);
    assert_eq!(b.orders(2), vec![2]);
}

#[test]
fn orders_at_one_price_are_filed_by_block() {
    let (mut t, mut b) = setup();
    place(&mut t, &mut b, 1, 50, 10, OrderType::Buy, 5);
    place(&mut t, &mut b, 2, 50, 10, OrderType::Buy, 5);
    place(&mut t, &mut b, 3, 50, 10, OrderType::Buy, 6);
    let ids = b.order_id_map(&sym("DOT"), &sym("USD"), OrderType::Buy, 50);
    assert_eq!(ids.0.get(&5), Some(&vec![1, 2]));
    assert_eq!(ids.0.get(&6), Some(&vec![3]));
    assert_eq!(ids.keys(), vec![5, 6]);
}

#[test]
fn a_new_price_joins_the_listed_prices() {
    let (mut t, mut b) = setup();
    place(&mut t, &mut b, 1, 50, 10, OrderType::Sell, 1);
    place(&mut t, &mut b, 2, 40, 10, OrderType::Sell, 1);
    place(&mut t, &mut b, 3, 45, 10, OrderType::Sell, 2);
    assert_eq!(b.price_list(&sym("DOT"), &sym("USD"), OrderType::Sell).keys(), vec![40, 45, 50]);
    assert!(b.price_list(&sym("DOT"), &sym("USD"), OrderType::Buy).keys().is_empty());
}

#[test]
fn order_on_an_unregistered_pair_fails() {
    let (mut t, mut b) = setup();
    assert_eq!(
        b.order(&mut t, Origin::Signed(1), sym("BTC"), sym("USD"), 5, 10, OrderType::Buy, 1),
        Err(Error::SymbolPairNotRegistered)
    );
    assert_eq!(b.order_id(), 0);
    assert_eq!(t.free_token(1, &sym("USD")), 1000);
}

#[test]
fn unsigned_order_fails() {
    let (mut t, mut b) = setup();
    assert_eq!(
        b.order(&mut t, Origin::Root, sym("DOT"), sym("USD"), 5, 10, OrderType::Buy, 1),
        Err(Error::BadOrigin)
    );
    assert!(b.events().is_empty());
}

#[test]
fn order_whose_freeze_would_overflow_fails() {
    let mut t = Tokens::new();
    t.issue(Origin::Signed(1), sym("USD"), u64::MAX).unwrap();
    t.freeze(Origin::Signed(1), 1, sym("USD"), u64::MAX).unwrap();
    t.issue(Origin::Signed(1), sym("USD"), 100).unwrap();
    t.insert_symbol_pair(sym("DOT"), sym("USD"), 1);
    let mut b = Book::new();
    assert_eq!(
        b.order(&mut t, Origin::Signed(1), sym("DOT"), sym("USD"), 5, 10, OrderType::Buy, 1),
        Err(Error::FreezedTokenAddOverflowed)
    );
    assert_eq!(b.order_id(), 0);
    assert!(b.order_map(1).is_none());
    assert_eq!(t.free_token(1, &sym("USD")), 100);
}

#[test]
fn cancel_order_takes_the_order_out_and_frees_its_tokens() {
    let (mut t, mut b) = setup();
    place(&mut t, &mut b, 1, 50, 10, OrderType::Buy, 1);
    place(&mut t, &mut b, 1, 50, 20, OrderType::Buy, 1);
    assert_eq!(t.free_token(1, &sym("USD")), 970);
    assert_eq!(b.cancel_order(&mut t, Origin::Signed(1), 1), Ok(()));
    assert!(b.order_map(1).is_none());
    assert_eq!(b.order_of(1), 0);
    assert_eq!(b.orders(1), vec![2]);
    let ids = b.order_id_map(&sym("DOT"), &sym("USD"), OrderType::Buy, 50);
    assert_eq!(ids.0.get(&1), Some(&vec![2]));
    assert_eq!(b.price_list(&sym("DOT"), &sym("USD"), OrderType::Buy).keys(), vec![50]);
    assert_eq!(t.free_token(1, &sym("USD")), 980);
    assert_eq!(t.freezed_token(1, &sym("USD")), 20);
    assert_eq!(t.events().last(), Some(&TokenEvent::Unfreezed(1, sym("USD"), 10)));
    assert_eq!(b.events().last(), Some(&Event::OrderCanceled(1, 1)));
}

#[test]
fn cancel_of_the_last_order_at_a_price_drops_the_price() {
    let (mut t, mut b) = setup();
    place(&mut t, &mut b, 1, 50, 10, OrderType::Sell, 1);
    place(&mut t, &mut b, 2, 60, 10, OrderType::Sell, 2);
    assert_eq!(b.cancel_order(&mut t, Origin::Signed(1), 1), Ok(()));
    assert_eq!(b.price_list(&sym("DOT"), &sym("USD"), OrderType::Sell).keys(), vec![60]);
    assert!(b.order_id_map(&sym("DOT"), &sym("USD"), OrderType::Sell, 50).0.is_empty());
    assert_eq!(t.free_token(1, &sym("USD")), 1000);
    assert_eq!(t.freezed_token(1, &sym("USD")), 0);
}

#[test]
fn order_then_cancel_gives_back_the_balances() {
    let (mut t, mut b) = setup();
    place(&mut t, &mut b, 3, 70, 400, OrderType::Buy, 4);
    assert_eq!(b.cancel_order(&mut t, Origin::Signed(3), 1), Ok(()));
    assert_eq!(t.free_token(3, &sym("USD")), 1000);
    assert_eq!(t.freezed_token(3, &sym("USD")), 0);
    assert!(b.orders(3).is_empty());
}

#[test]
fn cancel_errors() {
    let (mut t, mut b) = setup();
    place(&mut t, &mut b, 1, 50, 10, OrderType::Buy, 1);
    assert_eq!(b.cancel_order(&mut t, Origin::Root, 1), Err(Error::BadOrigin));
    assert_eq!(b.cancel_order(&mut t, Origin::Signed(1), 9), Err(Error::OrderNotFound));
    assert_eq!(b.cancel_order(&mut t, Origin::Signed(2), 1), Err(Error::NotOrderOwner));
    assert!(b.order_map(1).is_some());
    assert_eq!(t.freezed_token(1, &sym("USD")), 10);
    assert_eq!(b.events().len(), 1);
}

#[test]
fn cancel_whose_unfreeze_fails_changes_nothing() {
    let (mut t, mut b) = setup();
    place(&mut t, &mut b, 1, 50, 10, OrderType::Buy, 1);
    // the frozen tokens are freed by hand, so the order's can no longer be
    t.unfreeze(Origin::Signed(1), 1, sym("USD"), 10).unwrap();
    assert_eq!(
        b.cancel_order(&mut t, Origin::Signed(1), 1),
        Err(Error::InsufficientFreezedToken)
    );
    assert!(b.order_map(1).is_some());
    // the free tokens are refilled to the largest balance
    t.freeze(Origin::Signed(1), 1, sym("USD"), 10).unwrap();
    t.issue(Origin::Signed(1), sym("USD"), u64::MAX).unwrap();
    assert_eq!(b.cancel_order(&mut t, Origin::Signed(1), 1), Err(Error::FreeTokenAddOverflow));
    assert!(b.order_map(1).is_some());
}

#[test]
fn order_of_records_the_owner() {
    let (mut t, mut b) = setup();
    place(&mut t, &mut b, 2, 50, 10, OrderType::Buy, 1);
    place(&mut t, &mut b, 3, 60, 10, OrderType::Sell, 1);
    assert_eq!(b.order_of(1), 2);
    assert_eq!(b.order_of(2), 3);
    assert_eq!(b.order_of(3), 0);
}

#[test]
fn one_by_one_compares_what_is_left() {
    let (mut t, mut b) = setup();
    place(&mut t, &mut b, 1, 50, 10, OrderType::Buy, 1);
    place(&mut t, &mut b, 2, 50, 20, OrderType::Sell, 1);
    place(&mut t, &mut b, 3, 50, 5, OrderType::Sell, 1);
    assert!(match_one_by_one(&b, 1, 2, &sym("DOT"), &sym("USD")));
    assert!(!match_one_by_one(&b, 1, 3, &sym("DOT"), &sym("USD")));
    // a buy order that is gone is done; a sell order that is gone matches nothing
    assert!(match_one_by_one(&b, 99, 2, &sym("DOT"), &sym("USD")));
    assert!(!match_one_by_one(&b, 1, 99, &sym("DOT"), &sym("USD")));
}

#[test]
fn a_buy_order_is_ended_by_some_sell_order_at_the_price() {
    let (mut t, mut b) = setup();
    place(&mut t, &mut b, 1, 50, 10, OrderType::Buy, 1);
    place(&mut t, &mut b, 2, 40, 5, OrderType::Sell, 1);
    place(&mut t, &mut b, 3, 40, 15, OrderType::Sell, 2);
    assert!(match_one_buyer_order_id(&b, 1, 40, &sym("DOT"), &sym("USD")));
    assert!(!match_one_buyer_order_id(&b, 1, 30, &sym("DOT"), &sym("USD")));
}

#[test]
fn a_buy_price_answers_for_its_latest_block() {
    let (mut t, mut b) = setup();
    // block 1: a buy order that the sell order ends; block 2: one it does not
    place(&mut t, &mut b, 1, 50, 5, OrderType::Buy, 1);
    place(&mut t, &mut b, 2, 50, 500, OrderType::Buy, 2);
    place(&mut t, &mut b, 3, 40, 10, OrderType::Sell, 1);
    assert!(!match_one_buyer_price(&b, 50, 40, &sym("DOT"), &sym("USD")));
    // a later block whose order is ended makes the answer true
    place(&mut t, &mut b, 4, 50, 3, OrderType::Buy, 3);
    assert!(match_one_buyer_price(&b, 50, 40, &sym("DOT"), &sym("USD")));
    // no buy orders at a price: false
    assert!(!match_one_buyer_price(&b, 70, 40, &sym("DOT"), &sym("USD")));
}

#[test]
fn matching_writes_nothing_and_succeeds() {
    let (mut t, mut b) = setup();
    place(&mut t, &mut b, 1, 50, 10, OrderType::Buy, 1);
    place(&mut t, &mut b, 2, 40, 10, OrderType::Sell, 1);
    place(&mut t, &mut b, 3, 60, 10, OrderType::Sell, 1);
    let buys = b.price_list(&sym("DOT"), &sym("USD"), OrderType::Buy).keys();
    let sells = b.price_list(&sym("DOT"), &sym("USD"), OrderType::Sell).keys();
    match_buyers(&b, &buys, &sells, &sym("DOT"), &sym("USD"));
    assert_eq!(match_orders(&t, &b), Ok(()));
    on_finalize(&t, &b, 2);
    assert_eq!(b.order_map(1).unwrap().total_filled, 0);
    assert_eq!(b.order_id(), 3);
    assert_eq!(t.freezed_token(1, &sym("USD")), 10);
}
