//! What the runtime modules share: the origin of a call, the check that it
//! was signed, and the errors that a dispatched call can end in.
use vstd::prelude::*;

verus! {

/// The account ids, token ids, balances, prices, order ids and block numbers
/// of the runtime.
pub type AccountId = u64;

/// A token's symbol, as bytes.
pub type Symbol = Vec<u8>;

/// A symbol's deep view is its sequence of bytes.
pub broadcast proof fn lemma_symbol_deep_view(s: Symbol)
    ensures
        #[trigger] s.deep_view() == s@,
{
    assert(s.deep_view() =~= s@);
}

/// Who made a call: the root, a signed account, or no one.
#[derive(PartialEq, Eq, Structural, Clone, Copy, Debug)]
pub enum Origin {
    Root,
    Signed(AccountId),
    Unsigned,
}

/// Why a dispatched call failed.
#[derive(PartialEq, Eq, Structural, Clone, Copy, Debug)]
pub enum Error {
    /// The call was not signed by an account.
    BadOrigin,
    /// The id sequence (of tokens or of orders) is at its largest value.
    TokenIdOverflow,
    /// The sender of a transfer has fewer free tokens than it sends.
    InsufficentFreeTokenToSend,
    /// The receiver's free tokens would pass the largest balance.
    RecieverFreeTokenOverflowed,
    /// A freeze asks for more than the free tokens.
    InsufficientFreeToken,
    /// The frozen tokens would pass the largest balance.
    FreezedTokenAddOverflowed,
    /// The free tokens would pass the largest balance.
    FreeTokenAddOverflow,
    /// An unfreeze asks for more than the frozen tokens.
    InsufficientFreezedToken,
    /// The pair of symbols of an order was never registered.
    SymbolPairNotRegistered,
    /// No pending order has the id.
    OrderNotFound,
    /// The order belongs to another account.
    NotOrderOwner,
}

impl Error {
    /// The message of the error, as the runtime reports it.
    pub fn message(&self) -> (s: &'static str)
        ensures
            s@ == error_message(*self)@,
    {
        match self {
            Error::BadOrigin => "bad origin: expected to be a signed origin",
            Error::TokenIdOverflow => "Token id overflow",
            Error::InsufficentFreeTokenToSend => "Insufficent free token to send",
            Error::RecieverFreeTokenOverflowed => "Reciever free token overflowed",
            Error::InsufficientFreeToken => "Insufficient free token",
            Error::FreezedTokenAddOverflowed => "Freezed token add overflowed",
            Error::FreeTokenAddOverflow => "Free token add overflow",
            Error::InsufficientFreezedToken => "Insufficient freezed token",
            Error::SymbolPairNotRegistered => "Symbol pair not registered",
            Error::OrderNotFound => "Order not found",
            Error::NotOrderOwner => "Not the order's owner",
        }
    }
}

/// The message of each error.
pub open spec fn error_message(e: Error) -> &'static str {
    match e {
        Error::BadOrigin => "bad origin: expected to be a signed origin",
        Error::TokenIdOverflow => "Token id overflow",
        Error::InsufficentFreeTokenToSend => "Insufficent free token to send",
        Error::RecieverFreeTokenOverflowed => "Reciever free token overflowed",
        Error::InsufficientFreeToken => "Insufficient free token",
        Error::FreezedTokenAddOverflowed => "Freezed token add overflowed",
        Error::FreeTokenAddOverflow => "Free token add overflow",
        Error::InsufficientFreezedToken => "Insufficient freezed token",
        Error::SymbolPairNotRegistered => "Symbol pair not registered",
        Error::OrderNotFound => "Order not found",
        Error::NotOrderOwner => "Not the order's owner",
    }
}

/// The result of a dispatched call.
pub type DispatchResult = Result<(), Error>;

/// The account that signed the call, or `BadOrigin` where none did.
pub fn ensure_signed(origin: Origin) -> (r: Result<AccountId, Error>)
    ensures
        r == signed_by(origin),
        forall|a: AccountId| origin == Origin::Signed(a) ==> r == Ok::<AccountId, Error>(a),
        !(origin is Signed) ==> r == Err::<AccountId, Error>(Error::BadOrigin),
{
    match origin {
        Origin::Signed(who) => Ok(who),
        _ => Err(Error::BadOrigin),
    }
}

/// The account that signed a call, or `BadOrigin`.
pub open spec fn signed_by(origin: Origin) -> Result<AccountId, Error> {
    match origin {
        Origin::Signed(who) => Ok(who),
        _ => Err(Error::BadOrigin),
    }
}

/// Every signed call is accepted as the call of the account that signed it,
/// whichever account that is; a root or unsigned call has no signer and is
/// refused with `BadOrigin`.
pub proof fn lemma_signed_by_any_account(a: AccountId)
    ensures
        signed_by(Origin::Signed(a)) == Ok::<AccountId, Error>(a),
        signed_by(Origin::Root) == Err::<AccountId, Error>(Error::BadOrigin),
        signed_by(Origin::Unsigned) == Err::<AccountId, Error>(Error::BadOrigin),
{
}

} // verus!
