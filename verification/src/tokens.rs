//! The token ledger: issuing tokens, and moving an account's tokens between
//! accounts and between its free and its frozen balance.
use vstd::prelude::*;
use crate::store::StorageMap;
use crate::support::{AccountId, DispatchResult, Error, Origin, Symbol, ensure_signed, signed_by};

verus! {

broadcast use crate::support::lemma_symbol_deep_view;

/// A copy of a symbol.
pub fn copy_symbol(s: &Symbol) -> (c: Symbol)
    ensures
        c@ == s@,
{
    let c = s.clone();
    assert(c@ =~= s@);
    c
}

/// A token: its symbol and the amount that was issued.
#[derive(Clone, Debug, Default, PartialEq)]
pub struct Token {
    symbol: Symbol,
    total_supply: u64,
}

/// What the ledger reports.
#[derive(Clone, Debug, PartialEq)]
pub enum Event {
    /// A token was issued: its id, its symbol, the amount.
    Issued(u64, Symbol, u64),
    /// A pair of symbols was registered.
    SymbolPairRegisterd(Symbol, Symbol),
    /// Tokens were moved: the symbol, the sender, the receiver, the amount.
    Transfered(Symbol, AccountId, AccountId, u64),
    /// An allowance was granted: the token id, the owner, the spender, the amount.
    Approval(u64, AccountId, AccountId, u64),
    /// Free tokens of an account were frozen: the account, the symbol, the amount.
    Freezed(AccountId, Symbol, u64),
    /// Frozen tokens of an account were freed: the account, the symbol, the amount.
    Unfreezed(AccountId, Symbol, u64),
}

/// The ledger's storage.
pub struct Module {
    /// The id that the next issued token gets.
    token_seq: u64,
    /// Token id to symbol.
    token_info: StorageMap<u64, Symbol>,
    /// Registered pairs of symbols, to the account that registered them.
    symbol_pairs: StorageMap<(Symbol, Symbol), AccountId>,
    /// (account, token id) to balance.
    balance_of: StorageMap<(AccountId, u64), u64>,
    /// (account, token id) to allowance.
    allowance: StorageMap<(AccountId, u64), u64>,
    /// (account, symbol) to the tokens that the account can move.
    free_token: StorageMap<(AccountId, Symbol), u64>,
    /// (account, symbol) to the tokens that are frozen.
    freezed_token: StorageMap<(AccountId, Symbol), u64>,
    /// Account to the symbols that it owns.
    owned_token_list: StorageMap<AccountId, Vec<Symbol>>,
    /// The events reported so far, oldest first.
    events: Vec<Event>,
}

/// The value of `k` in `m`, or the empty sequence where `m` has none.
pub open spec fn seq_or_empty<K, A>(m: Map<K, Seq<A>>, k: K) -> Seq<A> {
    if m.contains_key(k) {
        m[k]
    } else {
        Seq::empty()
    }
}

/// The value of `k` in `m`, or 0 where `m` has none (what the runtime's
/// storage reads for a key that was never written).
pub open spec fn value_or_zero<K>(m: Map<K, u64>, k: K) -> u64 {
    if m.contains_key(k) {
        m[k]
    } else {
        0
    }
}

impl Module {
    /// The id that the next issued token gets.
    pub closed spec fn seq(&self) -> u64 {
        self.token_seq
    }

    /// Token id to symbol.
    pub closed spec fn infos(&self) -> Map<u64, Seq<u8>> {
        self.token_info@
    }

    /// Registered pairs of symbols.
    pub closed spec fn pairs(&self) -> Map<(Seq<u8>, Seq<u8>), AccountId> {
        self.symbol_pairs@
    }

    /// (account, token id) to balance.
    pub closed spec fn balances(&self) -> Map<(AccountId, u64), u64> {
        self.balance_of@
    }

    /// (account, token id) to allowance.
    pub closed spec fn allowances(&self) -> Map<(AccountId, u64), u64> {
        self.allowance@
    }

    /// (account, symbol) to free tokens.
    pub closed spec fn frees(&self) -> Map<(AccountId, Seq<u8>), u64> {
        self.free_token@
    }

    /// (account, symbol) to frozen tokens.
    pub closed spec fn freezeds(&self) -> Map<(AccountId, Seq<u8>), u64> {
        self.freezed_token@
    }

    /// Account to the symbols that it owns.
    pub closed spec fn owned_lists(&self) -> Map<AccountId, Seq<Symbol>> {
        self.owned_token_list@
    }

    /// The events reported so far.
    pub closed spec fn event_log(&self) -> Seq<Event> {
        self.events@
    }

    /// The free tokens of `acc` in `sym`.
    pub open spec fn free(&self, acc: AccountId, sym: Seq<u8>) -> u64 {
        value_or_zero(self.frees(), (acc, sym))
    }

    /// The frozen tokens of `acc` in `sym`.
    pub open spec fn freezed(&self, acc: AccountId, sym: Seq<u8>) -> u64 {
        value_or_zero(self.freezeds(), (acc, sym))
    }

    /// The ledger's invariant: every token id that has a symbol is below the
    /// id that the next issued token gets.
    pub closed spec fn wf(&self) -> bool {
        forall|id: u64| #[trigger] self.token_info@.contains_key(id) ==> id < self.token_seq
    }

    /// Whether the two modules hold the same storage but for free and frozen
    /// tokens and events.
    pub open spec fn same_but_tokens(&self, other: &Module) -> bool {
        &&& self.seq() == other.seq()
        &&& self.infos() == other.infos()
        &&& self.pairs() == other.pairs()
        &&& self.balances() == other.balances()
        &&& self.allowances() == other.allowances()
        &&& self.owned_lists() == other.owned_lists()
    }

    /// What an issue of `total_supply` tokens named `symbol` does.
    pub open spec fn issue_spec(
        old: Module,
        new: Module,
        origin: Origin,
        symbol: Symbol,
        total_supply: u64,
        r: DispatchResult,
    ) -> bool {
        match signed_by(origin) {
            Err(e) => r == Err::<(), Error>(e) && new == old,
            Ok(sender) => if old.seq() == u64::MAX {
                r == Err::<(), Error>(Error::TokenIdOverflow) && new == old
            } else {
                &&& r == Ok::<(), Error>(())
                &&& new.seq() == old.seq() + 1
                &&& new.infos() == old.infos().insert(old.seq(), symbol@)
                &&& new.pairs() == old.pairs()
                &&& new.balances() == old.balances().insert((sender, old.seq()), total_supply)
                &&& new.allowances() == old.allowances()
                &&& new.frees() == old.frees().insert((sender, symbol@), total_supply)
                &&& new.freezeds() == old.freezeds()
                &&& new.owned_lists() == old.owned_lists()
                &&& new.event_log() == old.event_log().push(
                    Event::Issued(old.seq(), symbol, total_supply),
                )
            },
        }
    }

    /// What a transfer of `value` tokens of `symbol` to `to` does. A transfer
    /// to the sender itself moves nothing and leaves the balances as they are.
    pub open spec fn transfer_spec(
        old: Module,
        new: Module,
        origin: Origin,
        to: AccountId,
        symbol: Symbol,
        value: u64,
        r: DispatchResult,
    ) -> bool {
        match signed_by(origin) {
            Err(e) => r == Err::<(), Error>(e) && new == old,
            Ok(sender) => {
                let sf = old.free(sender, symbol@);
                let rf = old.free(to, symbol@);
                if sf < value {
                    r == Err::<(), Error>(Error::InsufficentFreeTokenToSend) && new == old
                } else if to != sender && rf + value > u64::MAX {
                    r == Err::<(), Error>(Error::RecieverFreeTokenOverflowed) && new == old
                } else {
                    &&& r == Ok::<(), Error>(())
                    &&& new.same_but_tokens(&old)
                    &&& new.frees() == (if to == sender {
                        old.frees()
                    } else {
                        old.frees().insert((sender, symbol@), (sf - value) as u64).insert(
                            (to, symbol@),
                            (rf + value) as u64,
                        )
                    })
                    &&& new.freezeds() == old.freezeds()
                    &&& new.event_log() == old.event_log().push(
                        Event::Transfered(symbol, sender, to, value),
                    )
                }
            },
        }
    }

    /// What a freeze of `value` tokens of `symbol` of `acc` does.
    pub open spec fn freeze_spec(
        old: Module,
        new: Module,
        origin: Origin,
        acc: AccountId,
        symbol: Symbol,
        value: u64,
        r: DispatchResult,
    ) -> bool {
        match signed_by(origin) {
            Err(e) => r == Err::<(), Error>(e) && new == old,
            Ok(_) => {
                let f = old.free(acc, symbol@);
                let z = old.freezed(acc, symbol@);
                if f < value {
                    r == Err::<(), Error>(Error::InsufficientFreeToken) && new == old
                } else if z + value > u64::MAX {
                    r == Err::<(), Error>(Error::FreezedTokenAddOverflowed) && new == old
                } else {
                    &&& r == Ok::<(), Error>(())
                    &&& new.same_but_tokens(&old)
                    &&& new.frees() == old.frees().insert((acc, symbol@), (f - value) as u64)
                    &&& new.freezeds() == old.freezeds().insert((acc, symbol@), (z + value) as u64)
                    &&& new.event_log() == old.event_log().push(Event::Freezed(acc, symbol, value))
                }
            },
        }
    }

    /// What an unfreeze of `value` tokens of `symbol` of `acc` does.
    pub open spec fn unfreeze_spec(
        old: Module,
        new: Module,
        origin: Origin,
        acc: AccountId,
        symbol: Symbol,
        value: u64,
        r: DispatchResult,
    ) -> bool {
        match signed_by(origin) {
            Err(e) => r == Err::<(), Error>(e) && new == old,
            Ok(_) => {
                let f = old.free(acc, symbol@);
                let z = old.freezed(acc, symbol@);
                if f + value > u64::MAX {
                    r == Err::<(), Error>(Error::FreeTokenAddOverflow) && new == old
                } else if z < value {
                    r == Err::<(), Error>(Error::InsufficientFreezedToken) && new == old
                } else {
                    &&& r == Ok::<(), Error>(())
                    &&& new.same_but_tokens(&old)
                    &&& new.frees() == old.frees().insert((acc, symbol@), (f + value) as u64)
                    &&& new.freezeds() == old.freezeds().insert((acc, symbol@), (z - value) as u64)
                    &&& new.event_log() == old.event_log().push(
                        Event::Unfreezed(acc, symbol, value),
                    )
                }
            },
        }
    }

    /// An empty ledger: no tokens, no pairs, no balances, no events.
    pub fn new() -> (m: Module)
        ensures
            m.seq() == 0,
            m.infos() == Map::<u64, Seq<u8>>::empty(),
            m.pairs() == Map::<(Seq<u8>, Seq<u8>), AccountId>::empty(),
            m.balances() == Map::<(AccountId, u64), u64>::empty(),
            m.allowances() == Map::<(AccountId, u64), u64>::empty(),
            m.frees() == Map::<(AccountId, Seq<u8>), u64>::empty(),
            m.freezeds() == Map::<(AccountId, Seq<u8>), u64>::empty(),
            m.owned_lists() == Map::<AccountId, Seq<Symbol>>::empty(),
            m.event_log() == Seq::<Event>::empty(),
            m.wf(),
    {
        Module {
            token_seq: 0,
            token_info: StorageMap::new(),
            symbol_pairs: StorageMap::new(),
            balance_of: StorageMap::new(),
            allowance: StorageMap::new(),
            free_token: StorageMap::new(),
            freezed_token: StorageMap::new(),
            owned_token_list: StorageMap::new(),
            events: Vec::new(),
        }
    }

    /// The free tokens of `acc` in `symbol`, 0 where none were written.
    pub fn free_token(&self, acc: AccountId, symbol: &Symbol) -> (v: u64)
        ensures
            v == self.free(acc, symbol@),
    {
        match self.free_token.get(&(acc, copy_symbol(symbol))) {
            Some(v) => *v,
            None => 0,
        }
    }

    /// The frozen tokens of `acc` in `symbol`, 0 where none were written.
    pub fn freezed_token(&self, acc: AccountId, symbol: &Symbol) -> (v: u64)
        ensures
            v == self.freezed(acc, symbol@),
    {
        match self.freezed_token.get(&(acc, copy_symbol(symbol))) {
            Some(v) => *v,
            None => 0,
        }
    }

    /// Issues `total_supply` tokens named `symbol` to the signer: the token
    /// gets the next id, and the signer holds all of it, as balance and as
    /// free tokens.
    pub fn do_issue(&mut self, origin: Origin, symbol: Symbol, total_supply: u64) -> (r:
        DispatchResult)
        ensures
            Module::issue_spec(*old(self), *final(self), origin, symbol, total_supply, r),
            old(self).wf() ==> final(self).wf(),
    {
        let sender = match ensure_signed(origin) {
            Ok(s) => s,
            Err(e) => return Err(e),
        };
        let token_id = self.token_seq;
        let next_id = match token_id.checked_add(1) {
            Some(n) => n,
            None => return Err(Error::TokenIdOverflow),
        };
        self.token_seq = next_id;
        let _token = Token { symbol: copy_symbol(&symbol), total_supply };
        self.token_info.insert(token_id, copy_symbol(&symbol));
        self.balance_of.insert((sender, token_id), total_supply);
        self.free_token.insert((sender, copy_symbol(&symbol)), total_supply);
        self.events.push(Event::Issued(token_id, symbol, total_supply));
        Ok(())
    }

    /// Moves `value` free tokens of `symbol` from the signer to `to`.
    pub fn do_transfer(&mut self, origin: Origin, to: AccountId, symbol: Symbol, value: u64) -> (r:
        DispatchResult)
        ensures
            Module::transfer_spec(*old(self), *final(self), origin, to, symbol, value, r),
            old(self).wf() ==> final(self).wf(),
    {
        let sender = match ensure_signed(origin) {
            Ok(s) => s,
            Err(e) => return Err(e),
        };
        let sender_free_token = self.free_token(sender, &symbol);
        let reciever_free_token = self.free_token(to, &symbol);
        if sender_free_token < value {
            return Err(Error::InsufficentFreeTokenToSend);
        }
        if to == sender {
            self.events.push(Event::Transfered(symbol, sender, to, value));
            return Ok(());
        }
        let new_sender_free_token = match sender_free_token.checked_sub(value) {
            Some(t) => t,
            None => return Err(Error::InsufficentFreeTokenToSend),
        };
        let new_reciever_free_token = match reciever_free_token.checked_add(value) {
            Some(t) => t,
            None => return Err(Error::RecieverFreeTokenOverflowed),
        };
        self.free_token.insert((sender, copy_symbol(&symbol)), new_sender_free_token);
        self.free_token.insert((to, copy_symbol(&symbol)), new_reciever_free_token);
        self.events.push(Event::Transfered(symbol, sender, to, value));
        Ok(())
    }

    /// Moves `value` tokens of `symbol` of `acc` from free to frozen.
    pub fn do_freeze(&mut self, origin: Origin, acc: AccountId, symbol: Symbol, value: u64) -> (r:
        DispatchResult)
        requires
            signed_by(origin) matches Ok(sender) ==> sender == acc,
        ensures
            Module::freeze_spec(*old(self), *final(self), origin, acc, symbol, value, r),
            old(self).wf() ==> final(self).wf(),
    {
        match ensure_signed(origin) {
            Ok(_) => {},
            Err(e) => return Err(e),
        }
        let free_token = self.free_token(acc, &symbol);
        let freezed_token = self.freezed_token(acc, &symbol);
        let new_free_token = match free_token.checked_sub(value) {
            Some(t) => t,
            None => return Err(Error::InsufficientFreeToken),
        };
        let new_freezed_token = match freezed_token.checked_add(value) {
            Some(t) => t,
            None => return Err(Error::FreezedTokenAddOverflowed),
        };
        self.free_token.insert((acc, copy_symbol(&symbol)), new_free_token);
        self.freezed_token.insert((acc, copy_symbol(&symbol)), new_freezed_token);
        self.events.push(Event::Freezed(acc, symbol, value));
        Ok(())
    }

    /// Moves `value` tokens of `symbol` of `acc` from frozen to free.
    pub fn do_unfreeze(&mut self, origin: Origin, acc: AccountId, symbol: Symbol, value: u64) -> (r:
        DispatchResult)
        requires
            signed_by(origin) matches Ok(sender) ==> sender == acc,
        ensures
            Module::unfreeze_spec(*old(self), *final(self), origin, acc, symbol, value, r),
            old(self).wf() ==> final(self).wf(),
    {
        match ensure_signed(origin) {
            Ok(_) => {},
            Err(e) => return Err(e),
        }
        let free_token = self.free_token(acc, &symbol);
        let freezed_token = self.freezed_token(acc, &symbol);
        let new_free_token = match free_token.checked_add(value) {
            Some(t) => t,
            None => return Err(Error::FreeTokenAddOverflow),
        };
        let new_freezed_token = match freezed_token.checked_sub(value) {
            Some(t) => t,
            None => return Err(Error::InsufficientFreezedToken),
        };
        self.free_token.insert((acc, copy_symbol(&symbol)), new_free_token);
        self.freezed_token.insert((acc, copy_symbol(&symbol)), new_freezed_token);
        self.events.push(Event::Unfreezed(acc, symbol, value));
        Ok(())
    }

    /// Issues `total_supply` tokens named `symbol` to the signer (the
    /// dispatchable call).
    pub fn issue(&mut self, origin: Origin, symbol: Symbol, total_supply: u64) -> (r:
        DispatchResult)
        ensures
            Module::issue_spec(*old(self), *final(self), origin, symbol, total_supply, r),
            old(self).wf() ==> final(self).wf(),
    {
        self.do_issue(origin, symbol, total_supply)
    }

    /// Moves `value` free tokens of `symbol` from the signer to `to` (the
    /// dispatchable call).
    pub fn transfer(&mut self, origin: Origin, to: AccountId, symbol: Symbol, value: u64) -> (r:
        DispatchResult)
        ensures
            Module::transfer_spec(*old(self), *final(self), origin, to, symbol, value, r),
            old(self).wf() ==> final(self).wf(),
    {
        self.do_transfer(origin, to, symbol, value)
    }

    /// Freezes `value` free tokens of `symbol` of `acc` (the dispatchable
    /// call). Only `acc` itself may freeze its tokens.
    pub fn freeze(&mut self, origin: Origin, acc: AccountId, symbol: Symbol, value: u64) -> (r:
        DispatchResult)
        requires
            signed_by(origin) matches Ok(sender) ==> sender == acc,
        ensures
            Module::freeze_spec(*old(self), *final(self), origin, acc, symbol, value, r),
            old(self).wf() ==> final(self).wf(),
    {
        self.do_freeze(origin, acc, symbol, value)
    }

    /// Frees `value` frozen tokens of `symbol` of `acc` (the dispatchable
    /// call). Only `acc` itself may unfreeze its tokens.
    pub fn unfreeze(&mut self, origin: Origin, acc: AccountId, symbol: Symbol, value: u64) -> (r:
        DispatchResult)
        requires
            signed_by(origin) matches Ok(sender) ==> sender == acc,
        ensures
            Module::unfreeze_spec(*old(self), *final(self), origin, acc, symbol, value, r),
            old(self).wf() ==> final(self).wf(),
    {
        self.do_unfreeze(origin, acc, symbol, value)
    }

    /// Records that the pair (`sym0`, `sym1`) is registered by `owner`.
    pub fn insert_symbol_pair(&mut self, sym0: Symbol, sym1: Symbol, owner: AccountId)
        ensures
            final(self).pairs() == old(self).pairs().insert((sym0@, sym1@), owner),
            final(self).seq() == old(self).seq(),
            final(self).infos() == old(self).infos(),
            final(self).balances() == old(self).balances(),
            final(self).allowances() == old(self).allowances(),
            final(self).frees() == old(self).frees(),
            final(self).freezeds() == old(self).freezeds(),
            final(self).owned_lists() == old(self).owned_lists(),
            final(self).event_log() == old(self).event_log(),
            old(self).wf() ==> final(self).wf(),
    {
        self.symbol_pairs.insert((sym0, sym1), owner);
    }

    /// The registered pairs of symbols, each once.
    pub fn registered_pairs(&self) -> (ps: Vec<(Symbol, Symbol)>)
        ensures
            forall|i: int, j: int|
                0 <= i < j < ps@.len() ==> #[trigger] ps@[i].deep_view() != #[trigger] ps@[j].deep_view(),
            forall|i: int| 0 <= i < ps@.len() ==> self.pairs().contains_key(#[trigger] ps@[i].deep_view()),
            forall|k: (Seq<u8>, Seq<u8>)| #[trigger] self.pairs().contains_key(k) ==> exists|i: int|
                0 <= i < ps@.len() && ps@[i].deep_view() == k,
    {
        self.symbol_pairs.keys()
    }

    /// The id that the next issued token gets.
    pub fn token_id(&self) -> (id: u64)
        ensures
            id == self.seq(),
    {
        self.token_seq
    }

    /// The symbol of token `id`, empty where there is no such token.
    pub fn token_info(&self, id: u64) -> (sym: Symbol)
        ensures
            sym@ == (if self.infos().contains_key(id) {
                self.infos()[id]
            } else {
                Seq::<u8>::empty()
            }),
    {
        match self.token_info.get(&id) {
            Some(s) => copy_symbol(s),
            None => Vec::new(),
        }
    }

    /// The account that registered the pair (`sym0`, `sym1`), if it is registered.
    pub fn symbol_pairs(&self, sym0: &Symbol, sym1: &Symbol) -> (owner: Option<AccountId>)
        ensures
            owner == (if self.pairs().contains_key((sym0@, sym1@)) {
                Some(self.pairs()[(sym0@, sym1@)])
            } else {
                None
            }),
    {
        match self.symbol_pairs.get(&(copy_symbol(sym0), copy_symbol(sym1))) {
            Some(o) => Some(*o),
            None => None,
        }
    }

    /// The balance of `acc` in token `id`, 0 where none was written.
    pub fn balance_of(&self, acc: AccountId, id: u64) -> (v: u64)
        ensures
            v == value_or_zero(self.balances(), (acc, id)),
    {
        match self.balance_of.get(&(acc, id)) {
            Some(v) => *v,
            None => 0,
        }
    }

    /// The allowance of `acc` in token `id`, 0 where none was written.
    pub fn allowance(&self, acc: AccountId, id: u64) -> (v: u64)
        ensures
            v == value_or_zero(self.allowances(), (acc, id)),
    {
        match self.allowance.get(&(acc, id)) {
            Some(v) => *v,
            None => 0,
        }
    }

    /// The symbols that `acc` owns, empty where none were recorded (the
    /// calls of this ledger record none).
    pub fn owned_token_list(&self, acc: AccountId) -> (l: Vec<Symbol>)
        ensures
            l@.len() == seq_or_empty(self.owned_lists(), acc).len(),
            forall|i: int|
                0 <= i < l@.len() ==> #[trigger] l@[i]@ == seq_or_empty(self.owned_lists(), acc)[i]@,
    {
        let mut l: Vec<Symbol> = Vec::new();
        match self.owned_token_list.get(&acc) {
            Some(v) => {
                let mut i: usize = 0;
                while i < v.len()
                    invariant
                        i <= v@.len(),
                        v@ == seq_or_empty(self.owned_lists(), acc),
                        l@.len() == i,
                        forall|j: int| 0 <= j < i ==> #[trigger] l@[j]@ == v@[j]@,
                    decreases v@.len() - i,
                {
                    l.push(copy_symbol(&v[i]));
                    i = i + 1;
                }
            },
            None => {},
        }
        l
    }

    /// The events reported so far, oldest first.
    pub fn events(&self) -> (e: &Vec<Event>)
        ensures
            e@ == self.event_log(),
    {
        &self.events
    }
}


/// Every transfer conserves tokens: between two different accounts it keeps
/// the sum of their free tokens in the symbol, to the sender itself it keeps
/// the sender's free tokens; it leaves every other free balance as it was,
/// and touches no frozen tokens.
pub proof fn lemma_transfer_conserves(
    old: Module,
    new: Module,
    sender: AccountId,
    to: AccountId,
    symbol: Symbol,
    value: u64,
    r: DispatchResult,
)
    requires
        Module::transfer_spec(old, new, Origin::Signed(sender), to, symbol, value, r),
    ensures
        sender != to ==> new.free(sender, symbol@) + new.free(to, symbol@) == old.free(
            sender,
            symbol@,
        ) + old.free(to, symbol@),
        sender == to ==> new.free(sender, symbol@) == old.free(sender, symbol@),
        forall|acc: AccountId, sym: Seq<u8>|
            (acc, sym) != (sender, symbol@) && (acc, sym) != (to, symbol@) ==> #[trigger] new.free(
                acc,
                sym,
            ) == old.free(acc, sym),
        forall|acc: AccountId, sym: Seq<u8>| #[trigger] new.freezed(acc, sym) == old.freezed(acc, sym),
{
}

/// A freeze keeps the sum of the free and the frozen tokens of the account
/// in the symbol, and leaves every other balance as it was.
pub proof fn lemma_freeze_conserves(
    old: Module,
    new: Module,
    acc: AccountId,
    symbol: Symbol,
    value: u64,
    r: DispatchResult,
)
    requires
        Module::freeze_spec(old, new, Origin::Signed(acc), acc, symbol, value, r),
    ensures
        new.free(acc, symbol@) + new.freezed(acc, symbol@) == old.free(acc, symbol@) + old.freezed(
            acc,
            symbol@,
        ),
        forall|a: AccountId, sym: Seq<u8>|
            (a, sym) != (acc, symbol@) ==> #[trigger] new.free(a, sym) == old.free(a, sym)
                && new.freezed(a, sym) == old.freezed(a, sym),
{
}

/// An unfreeze keeps the sum of the free and the frozen tokens of the
/// account in the symbol, and leaves every other balance as it was.
pub proof fn lemma_unfreeze_conserves(
    old: Module,
    new: Module,
    acc: AccountId,
    symbol: Symbol,
    value: u64,
    r: DispatchResult,
)
    requires
        Module::unfreeze_spec(old, new, Origin::Signed(acc), acc, symbol, value, r),
    ensures
        new.free(acc, symbol@) + new.freezed(acc, symbol@) == old.free(acc, symbol@) + old.freezed(
            acc,
            symbol@,
        ),
        forall|a: AccountId, sym: Seq<u8>|
            (a, sym) != (acc, symbol@) ==> #[trigger] new.free(a, sym) == old.free(a, sym)
                && new.freezed(a, sym) == old.freezed(a, sym),
{
}

/// Unfreezing what a freeze just froze succeeds and gives every account back
/// the free and frozen tokens it had before the freeze.
pub proof fn lemma_freeze_then_unfreeze(
    s0: Module,
    s1: Module,
    s2: Module,
    acc: AccountId,
    symbol: Symbol,
    value: u64,
    r2: DispatchResult,
)
    requires
        Module::freeze_spec(s0, s1, Origin::Signed(acc), acc, symbol, value, Ok(())),
        Module::unfreeze_spec(s1, s2, Origin::Signed(acc), acc, symbol, value, r2),
    ensures
        r2 == Ok::<(), Error>(()),
        forall|a: AccountId, sym: Seq<u8>|
            #[trigger] s2.free(a, sym) == s0.free(a, sym) && s2.freezed(a, sym) == s0.freezed(a, sym),
{
}

/// An issued token gets an id that no earlier token has.
pub proof fn lemma_issue_fresh_id(
    old: Module,
    new: Module,
    origin: Origin,
    symbol: Symbol,
    total_supply: u64,
)
    requires
        old.wf(),
        Module::issue_spec(old, new, origin, symbol, total_supply, Ok(())),
    ensures
        !old.infos().contains_key(old.seq()),
        new.infos().contains_key(old.seq()),
        new.infos()[old.seq()] == symbol@,
        new.wf(),
{
}


/// Two successive issues give the two tokens the ids `t` and `t + 1`, where
/// `t` is the id that the first was due: token ids are never reused. In a
/// well-formed ledger neither id named a token before.
pub proof fn lemma_issue_twice(
    s0: Module,
    s1: Module,
    s2: Module,
    a: AccountId,
    sym_a: Symbol,
    x: u64,
    b: AccountId,
    sym_b: Symbol,
    y: u64,
)
    requires
        Module::issue_spec(s0, s1, Origin::Signed(a), sym_a, x, Ok(())),
        Module::issue_spec(s1, s2, Origin::Signed(b), sym_b, y, Ok(())),
    ensures
        s2.seq() == s0.seq() + 2,
        s2.infos()[s0.seq()] == sym_a@,
        s2.infos()[(s0.seq() + 1) as u64] == sym_b@,
        s2.event_log() == s0.event_log().push(Event::Issued(s0.seq(), sym_a, x)).push(
            Event::Issued((s0.seq() + 1) as u64, sym_b, y),
        ),
        s0.wf() ==> !s0.infos().contains_key(s0.seq()) && !s0.infos().contains_key(
            (s0.seq() + 1) as u64,
        ) && s2.wf(),
{
}

/// An issue signed by any account, while a token id is left, succeeds: the
/// token gets the id that was due and the symbol, and the signing account
/// holds the whole supply, as balance and as free tokens.
pub proof fn lemma_issue_by_any_account(
    old: Module,
    new: Module,
    a: AccountId,
    symbol: Symbol,
    total_supply: u64,
    r: DispatchResult,
)
    requires
        Module::issue_spec(old, new, Origin::Signed(a), symbol, total_supply, r),
        old.seq() < u64::MAX,
    ensures
        r == Ok::<(), Error>(()),
        new.seq() == old.seq() + 1,
        new.infos()[old.seq()] == symbol@,
        new.balances()[(a, old.seq())] == total_supply,
        new.frees()[(a, symbol@)] == total_supply,
{
    crate::support::lemma_signed_by_any_account(a);
}

/// Frozen tokens cannot be sent: after a freeze, a transfer to another
/// account of more than the free tokens that are left fails, and the ledger,
/// frozen tokens included, stays as the freeze left it.
pub proof fn lemma_frozen_tokens_cannot_be_sent(
    s0: Module,
    s1: Module,
    s2: Module,
    acc: AccountId,
    symbol: Symbol,
    v: u64,
    to: AccountId,
    w: u64,
    r: DispatchResult,
)
    requires
        Module::freeze_spec(s0, s1, Origin::Signed(acc), acc, symbol, v, Ok(())),
        Module::transfer_spec(s1, s2, Origin::Signed(acc), to, symbol, w, r),
        to != acc,
        s1.free(acc, symbol@) < w,
    ensures
        r == Err::<(), Error>(Error::InsufficentFreeTokenToSend),
        s2 == s1,
        s2.freezed(acc, symbol@) == s0.freezed(acc, symbol@) + v,
{
}

} // verus!
