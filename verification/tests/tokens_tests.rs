use perml::support::{Error, Origin};
use perml::tokens::{Event, Module};

fn sym(s: &str) -> Vec<u8> {
    s.as_bytes().to_vec()
}

#[test]
fn issue_gives_the_signer_the_whole_supply() {
    let mut m = Module::new();
    assert_eq!(m.issue(Origin::Signed(1), sym("DOT"), 1000), Ok(()));
    assert_eq!(m.token_id(), 1);
    assert_eq!(m.token_info(0), sym("DOT"));
    assert_eq!(m.balance_of(1, 0), 1000);
    assert_eq!(m.free_token(1, &sym("DOT")), 1000);
    assert_eq!(m.freezed_token(1, &sym("DOT")), 0);
    assert_eq!(m.events(), &vec![Event::Issued(0, sym("DOT"), 1000)]);
}

#[test]
fn issued_tokens_get_increasing_ids() {
    let mut m = Module::new();
    assert_eq!(m.issue(Origin::Signed(1), sym("A"), 10), Ok(()));
    assert_eq!(m.issue(Origin::Signed(2), sym("B"), 20), Ok(()));
    assert_eq!(m.issue(Origin::Signed(3), sym("C"), 30), Ok(()));
    assert_eq!(m.token_id(), 3);
    assert_eq!(m.token_info(0), sym("A"));
    assert_eq!(m.token_info(1), sym("B"));
    assert_eq!(m.token_info(2), sym("C"));
    assert_eq!(m.token_info(3), Vec::<u8>::new());
    assert_eq!(m.balance_of(2, 1), 20);
    assert_eq!(m.balance_of(2, 0), 0);
}

#[test]
fn issue_again_overwrites_the_free_balance() {
    let mut m = Module::new();
    assert_eq!(m.issue(Origin::Signed(1), sym("A"), 10), Ok(()));
    assert_eq!(m.issue(Origin::Signed(1), sym("A"), 7), Ok(()));
    assert_eq!(m.free_token(1, &sym("A")), 7);
}

#[test]
fn unsigned_calls_are_refused() {
    let mut m = Module::new();
    assert_eq!(m.issue(Origin::Root, sym("A"), 10), Err(Error::BadOrigin));
    assert_eq!(m.issue(Origin::Unsigned, sym("A"), 10), Err(Error::BadOrigin));
    assert_eq!(m.transfer(Origin::Root, 2, sym("A"), 1), Err(Error::BadOrigin));
    assert_eq!(m.freeze(Origin::Root, 1, sym("A"), 1), Err(Error::BadOrigin));
    assert_eq!(m.unfreeze(Origin::Unsigned, 1, sym("A"), 1), Err(Error::BadOrigin));
    assert_eq!(m.token_id(), 0);
    assert!(m.events().is_empty());
}

#[test]
fn transfer_moves_free_tokens() {
    let mut m = Module::new();
    m.issue(Origin::Signed(1), sym("A"), 100).unwrap();
    assert_eq!(m.transfer(Origin::Signed(1), 2, sym("A"), 30), Ok(()));
    assert_eq!(m.free_token(1, &sym("A")), 70);
    assert_eq!(m.free_token(2, &sym("A")), 30);
    assert_eq!(m.events().last(), Some(&Event::Transfered(sym("A"), 1, 2, 30)));
}

#[test]
fn transfer_keeps_the_sum_of_the_two_balances() {
    let mut m = Module::new();
    m.issue(Origin::Signed(1), sym("A"), 100).unwrap();
    m.transfer(Origin::Signed(1), 2, sym("A"), 40).unwrap();
    let before = m.free_token(1, &sym("A")) + m.free_token(2, &sym("A"));
    m.transfer(Origin::Signed(2), 1, sym("A"), 15).unwrap();
    let after = m.free_token(1, &sym("A")) + m.free_token(2, &sym("A"));
    assert_eq!(before, 100);
    assert_eq!(after, 100);
    assert_eq!(m.free_token(2, &sym("A")), 25);
}

#[test]
fn transfer_of_more_than_the_free_tokens_fails() {
    let mut m = Module::new();
    m.issue(Origin::Signed(1), sym("A"), 100).unwrap();
    assert_eq!(
        m.transfer(Origin::Signed(1), 2, sym("A"), 101),
        Err(Error::InsufficentFreeTokenToSend)
    );
    assert_eq!(m.free_token(1, &sym("A")), 100);
    assert_eq!(m.free_token(2, &sym("A")), 0);
}

#[test]
fn transfer_that_would_overflow_the_receiver_fails() {
    let mut m = Module::new();
    m.issue(Origin::Signed(1), sym("A"), 10).unwrap();
    m.issue(Origin::Signed(2), sym("A"), u64::MAX).unwrap();
    assert_eq!(
        m.transfer(Origin::Signed(1), 2, sym("A"), 1),
        Err(Error::RecieverFreeTokenOverflowed)
    );
    assert_eq!(m.free_token(1, &sym("A")), 10);
}

#[test]
fn transfer_to_oneself_keeps_the_balance() {
    let mut m = Module::new();
    m.issue(Origin::Signed(1), sym("A"), 100).unwrap();
    assert_eq!(m.transfer(Origin::Signed(1), 1, sym("A"), 30), Ok(()));
    assert_eq!(m.free_token(1, &sym("A")), 100);
    assert_eq!(m.events().last(), Some(&Event::Transfered(sym("A"), 1, 1, 30)));
    assert_eq!(
        m.transfer(Origin::Signed(1), 1, sym("A"), 101),
        Err(Error::InsufficentFreeTokenToSend)
    );
}

#[test]
fn transfer_to_oneself_of_a_full_balance_succeeds() {
    let mut m = Module::new();
    m.issue(Origin::Signed(1), sym("A"), u64::MAX).unwrap();
    assert_eq!(m.transfer(Origin::Signed(1), 1, sym("A"), 1), Ok(()));
    assert_eq!(m.free_token(1, &sym("A")), u64::MAX);
}

#[test]
fn frozen_tokens_cannot_be_sent() {
    let mut m = Module::new();
    m.issue(Origin::Signed(1), sym("A"), 100).unwrap();
    m.freeze(Origin::Signed(1), 1, sym("A"), 80).unwrap();
    assert_eq!(
        m.transfer(Origin::Signed(1), 2, sym("A"), 30),
        Err(Error::InsufficentFreeTokenToSend)
    );
    assert_eq!(m.free_token(1, &sym("A")), 20);
    assert_eq!(m.freezed_token(1, &sym("A")), 80);
    assert_eq!(m.free_token(2, &sym("A")), 0);
}

#[test]
fn freeze_and_unfreeze_move_between_free_and_frozen() {
    let mut m = Module::new();
    m.issue(Origin::Signed(1), sym("A"), 100).unwrap();
    assert_eq!(m.freeze(Origin::Signed(1), 1, sym("A"), 30), Ok(()));
    assert_eq!(m.free_token(1, &sym("A")), 70);
    assert_eq!(m.freezed_token(1, &sym("A")), 30);
    assert_eq!(m.events().last(), Some(&Event::Freezed(1, sym("A"), 30)));
    assert_eq!(m.unfreeze(Origin::Signed(1), 1, sym("A"), 30), Ok(()));
    assert_eq!(m.free_token(1, &sym("A")), 100);
    assert_eq!(m.freezed_token(1, &sym("A")), 0);
    assert_eq!(m.events().last(), Some(&Event::Unfreezed(1, sym("A"), 30)));
}

#[test]
fn freeze_keeps_free_plus_frozen() {
    let mut m = Module::new();
    m.issue(Origin::Signed(1), sym("A"), 100).unwrap();
    m.freeze(Origin::Signed(1), 1, sym("A"), 12).unwrap();
    m.freeze(Origin::Signed(1), 1, sym("A"), 8).unwrap();
    m.unfreeze(Origin::Signed(1), 1, sym("A"), 5).unwrap();
    assert_eq!(m.free_token(1, &sym("A")) + m.freezed_token(1, &sym("A")), 100);
    assert_eq!(m.freezed_token(1, &sym("A")), 15);
}

#[test]
fn freeze_of_more_than_the_free_tokens_fails() {
    let mut m = Module::new();
    m.issue(Origin::Signed(1), sym("A"), 10).unwrap();
    assert_eq!(m.freeze(Origin::Signed(1), 1, sym("A"), 11), Err(Error::InsufficientFreeToken));
    assert_eq!(m.free_token(1, &sym("A")), 10);
}

#[test]
fn freeze_that_would_overflow_the_frozen_tokens_fails() {
    let mut m = Module::new();
    m.issue(Origin::Signed(1), sym("A"), u64::MAX).unwrap();
    m.freeze(Origin::Signed(1), 1, sym("A"), u64::MAX).unwrap();
    m.issue(Origin::Signed(1), sym("A"), 5).unwrap();
    assert_eq!(m.freeze(Origin::Signed(1), 1, sym("A"), 1), Err(Error::FreezedTokenAddOverflowed));
    assert_eq!(m.free_token(1, &sym("A")), 5);
    assert_eq!(m.freezed_token(1, &sym("A")), u64::MAX);
}

#[test]
fn unfreeze_that_would_overflow_the_free_tokens_fails() {
    let mut m = Module::new();
    m.issue(Origin::Signed(1), sym("A"), 10).unwrap();
    m.freeze(Origin::Signed(1), 1, sym("A"), 5).unwrap();
    m.issue(Origin::Signed(1), sym("A"), u64::MAX).unwrap();
    assert_eq!(m.unfreeze(Origin::Signed(1), 1, sym("A"), 1), Err(Error::FreeTokenAddOverflow));
    assert_eq!(m.freezed_token(1, &sym("A")), 5);
}

#[test]
fn unfreeze_of_more_than_the_frozen_tokens_fails() {
    let mut m = Module::new();
    m.issue(Origin::Signed(1), sym("A"), 10).unwrap();
    m.freeze(Origin::Signed(1), 1, sym("A"), 5).unwrap();
    assert_eq!(
        m.unfreeze(Origin::Signed(1), 1, sym("A"), 6),
        Err(Error::InsufficientFreezedToken)
    );
    assert_eq!(m.free_token(1, &sym("A")), 5);
    assert_eq!(m.freezed_token(1, &sym("A")), 5);
}

#[test]
fn symbol_pairs_are_registered_and_listed() {
    let mut m = Module::new();
    assert_eq!(m.symbol_pairs(&sym("A"), &sym("B")), None);
    m.insert_symbol_pair(sym("A"), sym("B"), 7);
    m.insert_symbol_pair(sym("C"), sym("D"), 8);
    m.insert_symbol_pair(sym("A"), sym("B"), 9);
    assert_eq!(m.symbol_pairs(&sym("A"), &sym("B")), Some(9));
    assert_eq!(m.symbol_pairs(&sym("B"), &sym("A")), None);
    assert_eq!(m.registered_pairs(), vec![(sym("A"), sym("B")), (sym("C"), sym("D"))]);
}

#[test]
fn storage_that_no_call_writes_reads_as_empty() {
    let m = Module::new();
    assert_eq!(m.allowance(1, 0), 0);
    assert!(m.owned_token_list(1).is_empty());
}

#[test]
fn error_messages() {
    assert_eq!(Error::BadOrigin.message(), "bad origin: expected to be a signed origin");
    assert_eq!(Error::TokenIdOverflow.message(), "Token id overflow");
    assert_eq!(Error::InsufficentFreeTokenToSend.message(), "Insufficent free token to send");
    assert_eq!(Error::RecieverFreeTokenOverflowed.message(), "Reciever free token overflowed");
    assert_eq!(Error::InsufficientFreeToken.message(), "Insufficient free token");
    assert_eq!(Error::FreezedTokenAddOverflowed.message(), "Freezed token add overflowed");
    assert_eq!(Error::FreeTokenAddOverflow.message(), "Free token add overflow");
    assert_eq!(Error::InsufficientFreezedToken.message(), "Insufficient freezed token");
    assert_eq!(Error::SymbolPairNotRegistered.message(), "Symbol pair not registered");
    assert_eq!(Error::OrderNotFound.message(), "Order not found");
    assert_eq!(Error::NotOrderOwner.message(), "Not the order's owner");
}
