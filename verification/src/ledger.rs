//! An event-sourced ledger.
//!
//! The ledger is a log of accepted events together with the account table
//! that the log produces when it is replayed from the start. An event is
//! checked in full before anything changes, so a rejected event leaves no
//! trace.

use std::collections::HashMap;
use vstd::prelude::*;

use crate::blockchain::BlockId;

verus! {

broadcast use vstd::std_specs::hash::group_hash_axioms;

/// The token that names an account.
pub type UserId = u64;

/// An amount of currency.
pub type Amount = u64;

/// The encoded public key of an account holder.
pub type PublicKey = Vec<u8>;

/// The encoded signature over a transfer.
pub type Signature = Vec<u8>;

/// Something that happened to the ledger.
#[derive(Debug)]
pub enum LedgerEvent {
    /// An account is opened with a zero balance.
    NewUser { identifier: UserId, public_key: PublicKey },
    /// Currency is created and credited to an account.
    Mint { beneficiary: UserId, amount: Amount },
    /// Currency moves from one account to another.
    Transfer {
        benefactor: UserId,
        beneficiary: UserId,
        amount: Amount,
        benefactor_signature: Signature,
    },
}

/// The mathematical content of a [`LedgerEvent`].
pub enum EventView {
    NewUser { identifier: UserId, public_key: Seq<u8> },
    Mint { beneficiary: UserId, amount: nat },
    Transfer { benefactor: UserId, beneficiary: UserId, amount: nat, benefactor_signature: Seq<u8> },
}

impl View for LedgerEvent {
    type V = EventView;

    open spec fn view(&self) -> EventView {
        match *self {
            LedgerEvent::NewUser { identifier, public_key } => EventView::NewUser {
                identifier,
                public_key: public_key@,
            },
            LedgerEvent::Mint { beneficiary, amount } => EventView::Mint {
                beneficiary,
                amount: amount as nat,
            },
            LedgerEvent::Transfer { benefactor, beneficiary, amount, benefactor_signature } =>
                EventView::Transfer {
                    benefactor,
                    beneficiary,
                    amount: amount as nat,
                    benefactor_signature: benefactor_signature@,
                },
        }
    }
}

/// The state of one account.
#[derive(Debug)]
pub struct UserSummary {
    balance: Amount,
    public_key: PublicKey,
}

/// The mathematical content of a [`UserSummary`].
pub struct AccountView {
    pub balance: nat,
    pub public_key: Seq<u8>,
}

impl View for UserSummary {
    type V = AccountView;

    closed spec fn view(&self) -> AccountView {
        AccountView { balance: self.balance as nat, public_key: self.public_key@ }
    }
}

/// The account table as a mathematical map.
pub type Accounts = Map<UserId, AccountView>;

/// Why an event was not accepted.
#[derive(Debug, Clone, Copy, PartialEq, Eq, Structural)]
pub enum AcceptEventError {
    /// A user with the requested identifier already exists.
    UserIdTaken,
    /// The benefactor holds less than the amount.
    WouldOverdraw,
    /// An account named by the event does not exist.
    NoSuchAccount,
    /// The beneficiary's balance would exceed the largest amount.
    WouldOverflow,
    /// The verifier did not accept the signature of the transfer.
    InvalidSignature,
    /// Benefactor and beneficiary are the same account.
    CannotTransferToSelf,
}


/// Whether two byte strings hold the same bytes.
pub fn same_bytes(left: &Vec<u8>, right: &Vec<u8>) -> (same: bool)
    ensures
        same == (left@ == right@),
{
    if left.len() != right.len() {
        return false;
    }
    let mut at: usize = 0;
    while at < left.len()
        invariant
            left.len() == right.len(),
            at <= left.len(),
            forall|i: int| 0 <= i < at ==> left[i] == right[i],
        decreases left.len() - at,
    {
        if left[at] != right[at] {
            return false;
        }
        at += 1;
    }
    assert(left@ =~= right@);
    true
}

/// A fresh copy of a byte string.
pub fn copy_bytes(bytes: &Vec<u8>) -> (copy: Vec<u8>)
    ensures
        copy@ == bytes@,
{
    let copy = bytes.clone();
    assert(copy@ =~= bytes@);
    copy
}

impl Clone for LedgerEvent {
    fn clone(&self) -> (copy: Self)
        ensures
            copy@ == self@,
    {
        match self {
            LedgerEvent::NewUser { identifier, public_key } => LedgerEvent::NewUser {
                identifier: *identifier,
                public_key: copy_bytes(public_key),
            },
            LedgerEvent::Mint { beneficiary, amount } => LedgerEvent::Mint {
                beneficiary: *beneficiary,
                amount: *amount,
            },
            LedgerEvent::Transfer { benefactor, beneficiary, amount, benefactor_signature } =>
                LedgerEvent::Transfer {
                    benefactor: *benefactor,
                    beneficiary: *beneficiary,
                    amount: *amount,
                    benefactor_signature: copy_bytes(benefactor_signature),
                },
        }
    }
}

impl LedgerEvent {
    /// Whether two events have the same kind and the same content.
    pub fn same_as(&self, other: &LedgerEvent) -> (same: bool)
        ensures
            same == (self@ == other@),
    {
        match (self, other) {
            (
                LedgerEvent::NewUser { identifier: a, public_key: ka },
                LedgerEvent::NewUser { identifier: b, public_key: kb },
            ) => *a == *b && same_bytes(ka, kb),
            (
                LedgerEvent::Mint { beneficiary: a, amount: xa },
                LedgerEvent::Mint { beneficiary: b, amount: xb },
            ) => *a == *b && *xa == *xb,
            (
                LedgerEvent::Transfer {
                    benefactor: fa,
                    beneficiary: ta,
                    amount: xa,
                    benefactor_signature: sa,
                },
                LedgerEvent::Transfer {
                    benefactor: fb,
                    beneficiary: tb,
                    amount: xb,
                    benefactor_signature: sb,
                },
            ) => *fa == *fb && *ta == *tb && *xa == *xb && same_bytes(sa, sb),
            _ => false,
        }
    }
}

impl Clone for UserSummary {
    fn clone(&self) -> (copy: Self)
        ensures
            copy@ == self@,
    {
        UserSummary { balance: self.balance, public_key: copy_bytes(&self.public_key) }
    }
}

impl UserSummary {
    /// What the account holds.
    pub fn balance(&self) -> (balance: Amount)
        ensures
            balance == self@.balance,
    {
        self.balance
    }

    /// The key that transfers out of the account are verified against.
    pub fn public_key(&self) -> (key: &PublicKey)
        ensures
            key@ == self@.public_key,
    {
        &self.public_key
    }
}

/// The largest balance an account can hold.
pub open spec fn max_balance() -> nat {
    u64::MAX as nat
}

/// The error that the ledger's own rules raise for `event` against
/// `accounts`, if any. Signatures are not looked at here.
///
/// Where several rules are broken at once, the first in this order is
/// reported: a transfer to oneself, an unknown account, an overdraw, an
/// overflow.
pub open spec fn rejection(accounts: Accounts, event: EventView) -> Option<AcceptEventError> {
    match event {
        EventView::NewUser { identifier, .. } => {
            if accounts.contains_key(identifier) {
                Some(AcceptEventError::UserIdTaken)
            } else {
                None
            }
        },
        EventView::Mint { beneficiary, amount } => {
            if !accounts.contains_key(beneficiary) {
                Some(AcceptEventError::NoSuchAccount)
            } else if accounts[beneficiary].balance + amount > max_balance() {
                Some(AcceptEventError::WouldOverflow)
            } else {
                None
            }
        },
        EventView::Transfer { benefactor, beneficiary, amount, .. } => {
            if benefactor == beneficiary {
                Some(AcceptEventError::CannotTransferToSelf)
            } else if !accounts.contains_key(benefactor) || !accounts.contains_key(beneficiary) {
                Some(AcceptEventError::NoSuchAccount)
            } else if accounts[benefactor].balance < amount {
                Some(AcceptEventError::WouldOverdraw)
            } else if accounts[beneficiary].balance + amount > max_balance() {
                Some(AcceptEventError::WouldOverflow)
            } else {
                None
            }
        },
    }
}

/// `accounts` with the balance of `who` replaced by `balance`.
pub open spec fn with_balance(accounts: Accounts, who: UserId, balance: nat) -> Accounts {
    accounts.insert(who, AccountView { balance, public_key: accounts[who].public_key })
}

/// The account table after `event` has been committed to `accounts`.
///
/// Meaningful where `rejection(accounts, event)` is `None`.
pub open spec fn apply(accounts: Accounts, event: EventView) -> Accounts {
    match event {
        EventView::NewUser { identifier, public_key } => accounts.insert(
            identifier,
            AccountView { balance: 0, public_key },
        ),
        EventView::Mint { beneficiary, amount } => with_balance(
            accounts,
            beneficiary,
            accounts[beneficiary].balance + amount,
        ),
        EventView::Transfer { benefactor, beneficiary, amount, .. } => {
            let debited = with_balance(
                accounts,
                benefactor,
                (accounts[benefactor].balance - amount) as nat,
            );
            with_balance(debited, beneficiary, debited[beneficiary].balance + amount)
        },
    }
}

/// The account table that `events` produce when they are replayed in order
/// from an empty table, or `None` if one of them breaks a rule.
pub open spec fn replay(events: Seq<EventView>) -> Option<Accounts>
    decreases events.len(),
{
    if events.len() == 0 {
        Some(Map::empty())
    } else {
        match replay(events.drop_last()) {
            Some(accounts) => {
                if rejection(accounts, events.last()) is None {
                    Some(apply(accounts, events.last()))
                } else {
                    None
                }
            },
            None => None,
        }
    }
}

/// The sum of all balances in `accounts`.
pub open spec fn total_balance(accounts: Accounts) -> nat
    decreases accounts.dom().len(),
    when accounts.dom().finite()
{
    if accounts.dom().len() == 0 {
        0
    } else {
        let who = accounts.dom().choose();
        accounts[who].balance + total_balance(accounts.remove(who))
    }
}

/// The sum of the amounts of all `Mint` events in `events`.
pub open spec fn total_minted(events: Seq<EventView>) -> nat
    decreases events.len(),
{
    if events.len() == 0 {
        0
    } else {
        total_minted(events.drop_last()) + match events.last() {
            EventView::Mint { amount, .. } => amount,
            _ => 0,
        }
    }
}

/// The total balance splits into the balance of any one account and the total
/// of the others.
pub proof fn lemma_total_balance_split(accounts: Accounts, who: UserId)
    requires
        accounts.dom().finite(),
        accounts.contains_key(who),
    ensures
        total_balance(accounts) == accounts[who].balance + total_balance(accounts.remove(who)),
    decreases accounts.dom().len(),
{
    let first = accounts.dom().choose();
    if first != who {
        lemma_total_balance_split(accounts.remove(first), who);
        lemma_total_balance_split(accounts.remove(who), first);
        assert(accounts.remove(first).remove(who) =~= accounts.remove(who).remove(first));
    }
}

/// Setting the balance of an account changes the total by the difference.
proof fn lemma_total_balance_update(accounts: Accounts, who: UserId, account: AccountView)
    requires
        accounts.dom().finite(),
    ensures
        total_balance(accounts.insert(who, account)) == account.balance + total_balance(
            accounts.remove(who),
        ),
{
    let after = accounts.insert(who, account);
    lemma_total_balance_split(after, who);
    assert(after.remove(who) =~= accounts.remove(who));
}

/// A replayed account table has finitely many accounts.
pub proof fn lemma_replay_finite(events: Seq<EventView>)
    requires
        replay(events) is Some,
    ensures
        replay(events)->0.dom().finite(),
    decreases events.len(),
{
    if events.len() > 0 {
        lemma_replay_finite(events.drop_last());
    }
}

/// Value is conserved: after any sequence of events that the rules accept,
/// the balances add up to what was minted.
pub proof fn lemma_conservation(events: Seq<EventView>)
    requires
        replay(events) is Some,
    ensures
        total_balance(replay(events)->0) == total_minted(events),
    decreases events.len(),
{
    if events.len() > 0 {
        let before = replay(events.drop_last())->0;
        lemma_conservation(events.drop_last());
        lemma_replay_finite(events.drop_last());
        match events.last() {
            EventView::NewUser { identifier, public_key } => {
                lemma_total_balance_update(
                    before,
                    identifier,
                    AccountView { balance: 0, public_key },
                );
                assert(before.remove(identifier) =~= before);
            },
            EventView::Mint { beneficiary, amount } => {
                lemma_total_balance_split(before, beneficiary);
                lemma_total_balance_update(
                    before,
                    beneficiary,
                    AccountView {
                        balance: before[beneficiary].balance + amount,
                        public_key: before[beneficiary].public_key,
                    },
                );
            },
            EventView::Transfer { benefactor, beneficiary, amount, .. } => {
                let debited = with_balance(
                    before,
                    benefactor,
                    (before[benefactor].balance - amount) as nat,
                );
                lemma_total_balance_split(before, benefactor);
                lemma_total_balance_update(before, benefactor, debited[benefactor]);
                lemma_total_balance_split(debited, beneficiary);
                lemma_total_balance_update(
                    debited,
                    beneficiary,
                    AccountView {
                        balance: debited[beneficiary].balance + amount,
                        public_key: debited[beneficiary].public_key,
                    },
                );
            },
        }
    }
}


/// The views of a sequence of events.
pub open spec fn event_views(events: Seq<LedgerEvent>) -> Seq<EventView> {
    events.map_values(|event: LedgerEvent| event@)
}

/// The views of a table of accounts.
pub open spec fn account_views(users: Map<UserId, UserSummary>) -> Accounts {
    users.map_values(|summary: UserSummary| summary@)
}

/// What a transfer's signature is verified against.
pub struct TransferVerifierArgs<'a> {
    /// The block that holds the transfer.
    pub block_id: BlockId,
    /// The position of the transfer among the events of its block.
    pub event_index: usize,
    pub benefactor: UserId,
    pub beneficiary: UserId,
    pub amount: Amount,
    /// The key that the ledger holds for the benefactor.
    pub benefactor_public_key: &'a PublicKey,
    pub benefactor_signature: &'a Signature,
}

/// `args` describes the transfer `event`, found at `event_index` in block
/// `block_id`, for a ledger whose account table is `accounts`.
pub open spec fn describes_transfer(
    args: TransferVerifierArgs,
    accounts: Accounts,
    event: EventView,
    block_id: BlockId,
    event_index: usize,
) -> bool {
    &&& event matches EventView::Transfer { benefactor, beneficiary, amount, benefactor_signature }
    &&& args.block_id == block_id
    &&& args.event_index == event_index
    &&& args.benefactor == benefactor
    &&& args.beneficiary == beneficiary
    &&& args.amount == amount
    &&& args.benefactor_public_key@ == accounts[benefactor].public_key
    &&& args.benefactor_signature@ == benefactor_signature
}

/// `verifier` was shown the transfer `event`, with the key that `accounts`
/// holds for its benefactor, and answered `authorized`.
pub open spec fn verified_as<F: FnOnce(TransferVerifierArgs) -> bool>(
    verifier: F,
    accounts: Accounts,
    event: EventView,
    block_id: BlockId,
    event_index: usize,
    authorized: bool,
) -> bool {
    exists|args: TransferVerifierArgs| #[trigger]
        describes_transfer(args, accounts, event, block_id, event_index) && call_ensures(
            verifier,
            (args,),
            authorized,
        )
}

/// The outcome of offering `event` to a ledger with the account table
/// `accounts`, where `authorized` tells whether the signature of a transfer
/// was accepted. The ledger's own rules come first; the signature counts for
/// transfers only.
pub open spec fn outcome(accounts: Accounts, event: EventView, authorized: bool) -> Result<
    Accounts,
    AcceptEventError,
> {
    match rejection(accounts, event) {
        Some(error) => Err(error),
        None => {
            if event is Transfer && !authorized {
                Err(AcceptEventError::InvalidSignature)
            } else {
                Ok(apply(accounts, event))
            }
        },
    }
}

/// Event `index` of a block passes: replayed after `log` and the events of
/// the block before it, it breaks no rule, and if it is a transfer, `verifier`
/// accepted its signature.
pub open spec fn passes_at<F: Fn(TransferVerifierArgs) -> bool>(
    verifier: F,
    log: Seq<EventView>,
    block_id: BlockId,
    events: Seq<EventView>,
    index: int,
) -> bool {
    let accounts = replay(log + events.take(index));
    &&& accounts is Some
    &&& rejection(accounts->0, events[index]) is None
    &&& events[index] is Transfer ==> verified_as(
        verifier,
        accounts->0,
        events[index],
        block_id,
        index as usize,
        true,
    )
}

/// Event `index` of a block fails with `error`: replayed after `log` and the
/// events of the block before it, it breaks a rule, or it is a transfer whose
/// signature `verifier` did not accept.
pub open spec fn fails_at<F: Fn(TransferVerifierArgs) -> bool>(
    verifier: F,
    log: Seq<EventView>,
    block_id: BlockId,
    events: Seq<EventView>,
    index: int,
    error: AcceptEventError,
) -> bool {
    let accounts = replay(log + events.take(index));
    &&& 0 <= index < events.len()
    &&& accounts is Some
    &&& match rejection(accounts->0, events[index]) {
        Some(broken) => error == broken,
        None => {
            &&& events[index] is Transfer
            &&& error == AcceptEventError::InvalidSignature
            &&& verified_as(verifier, accounts->0, events[index], block_id, index as usize, false)
        },
    }
}

/// Every event of the block passes when the block is replayed after `log`.
pub open spec fn block_passes<F: Fn(TransferVerifierArgs) -> bool>(
    verifier: F,
    log: Seq<EventView>,
    block_id: BlockId,
    events: Seq<EventView>,
) -> bool {
    forall|index: int| 0 <= index < events.len() ==> passes_at(verifier, log, block_id, events, index)
}

/// Some event of the block fails when the block is replayed after `log`.
pub open spec fn block_fails<F: Fn(TransferVerifierArgs) -> bool>(
    verifier: F,
    log: Seq<EventView>,
    block_id: BlockId,
    events: Seq<EventView>,
) -> bool {
    exists|index: int, error: AcceptEventError|
        fails_at(verifier, log, block_id, events, index, error)
}

/// A list of accepted events and the accounts they produce.
#[derive(Debug)]
pub struct Ledger {
    events: Vec<LedgerEvent>,
    users: HashMap<UserId, UserSummary>,
}

/// The mathematical content of a [`Ledger`].
pub struct LedgerView {
    /// The accepted events, oldest first.
    pub events: Seq<EventView>,
    /// The account table.
    pub accounts: Accounts,
}

impl View for Ledger {
    type V = LedgerView;

    closed spec fn view(&self) -> LedgerView {
        LedgerView { events: event_views(self.events@), accounts: account_views(self.users@) }
    }
}

impl Ledger {
    /// The account table is what the log produces when replayed.
    pub closed spec fn wf(&self) -> bool {
        replay(self@.events) == Some(self@.accounts)
    }

    /// In a well-formed ledger the balances add up to what was minted.
    pub proof fn lemma_conserves_value(&self)
        requires
            self.wf(),
        ensures
            replay(self@.events) == Some(self@.accounts),
            total_balance(self@.accounts) == total_minted(self@.events),
    {
        lemma_conservation(self@.events);
    }

    /// A ledger without events or accounts.
    pub fn new() -> (ledger: Ledger)
        ensures
            ledger.wf(),
            ledger@.events == Seq::<EventView>::empty(),
            ledger@.accounts == Map::<UserId, AccountView>::empty(),
    {
        let ledger = Ledger { events: Vec::new(), users: HashMap::new() };
        assert(ledger@.events =~= Seq::<EventView>::empty());
        assert(ledger@.accounts =~= Map::<UserId, AccountView>::empty());
        ledger
    }

    /// The accepted events, oldest first.
    pub fn events(&self) -> (events: &Vec<LedgerEvent>)
        ensures
            event_views(events@) == self@.events,
    {
        &self.events
    }

    /// The current state of all accounts: what replaying the log produces.
    pub fn users(&self) -> (users: HashMap<UserId, UserSummary>)
        requires
            self.wf(),
        ensures
            account_views(users@) == self@.accounts,
            replay(self@.events) == Some(account_views(users@)),
    {
        self.users.clone()
    }

    /// The state of one account, if it exists.
    pub fn user(&self, who: UserId) -> (found: Option<&UserSummary>)
        ensures
            match found {
                Some(summary) => self@.accounts.contains_key(who) && summary@ == self@.accounts[who],
                None => !self@.accounts.contains_key(who),
            },
    {
        self.users.get(&who)
    }

    /// A copy of the ledger.
    pub fn duplicate(&self) -> (copy: Ledger)
        ensures
            copy@ == self@,
            self.wf() ==> copy.wf(),
    {
        let mut events: Vec<LedgerEvent> = Vec::new();
        let mut at: usize = 0;
        while at < self.events.len()
            invariant
                at <= self.events.len(),
                events.len() == at,
                forall|i: int| 0 <= i < at ==> events[i]@ == self.events[i]@,
            decreases self.events.len() - at,
        {
            events.push(self.events[at].clone());
            at += 1;
        }
        let copy = Ledger { events, users: self.users.clone() };
        assert(copy@.events =~= self@.events);
        copy
    }

    /// Fails with `NoSuchAccount` or `WouldOverflow` as appropriate.
    fn could_receive(&self, beneficiary: UserId, amount: Amount) -> (found: Result<
        UserSummary,
        AcceptEventError,
    >)
        ensures
            match found {
                Ok(summary) => {
                    &&& self@.accounts.contains_key(beneficiary)
                    &&& self@.accounts[beneficiary].balance + amount <= max_balance()
                    &&& summary@ == self@.accounts[beneficiary]
                },
                Err(error) => {
                    if self@.accounts.contains_key(beneficiary) {
                        &&& error == AcceptEventError::WouldOverflow
                        &&& self@.accounts[beneficiary].balance + amount > max_balance()
                    } else {
                        error == AcceptEventError::NoSuchAccount
                    }
                },
            },
    {
        match self.users.get(&beneficiary) {
            Some(user_summary) => match user_summary.balance.checked_add(amount) {
                Some(_) => Ok(user_summary.clone()),
                None => Err(AcceptEventError::WouldOverflow),
            },
            None => Err(AcceptEventError::NoSuchAccount),
        }
    }

    /// Fails with `NoSuchAccount` or `WouldOverdraw` as appropriate.
    fn could_send(&self, benefactor: UserId, amount: Amount) -> (found: Result<
        UserSummary,
        AcceptEventError,
    >)
        ensures
            match found {
                Ok(summary) => {
                    &&& self@.accounts.contains_key(benefactor)
                    &&& self@.accounts[benefactor].balance >= amount
                    &&& summary@ == self@.accounts[benefactor]
                },
                Err(error) => {
                    if self@.accounts.contains_key(benefactor) {
                        &&& error == AcceptEventError::WouldOverdraw
                        &&& self@.accounts[benefactor].balance < amount
                    } else {
                        error == AcceptEventError::NoSuchAccount
                    }
                },
            },
    {
        match self.users.get(&benefactor) {
            Some(user_summary) => match user_summary.balance.checked_sub(amount) {
                Some(_) => Ok(user_summary.clone()),
                None => Err(AcceptEventError::WouldOverdraw),
            },
            None => Err(AcceptEventError::NoSuchAccount),
        }
    }

    /// Holds `event` against the ledger's own rules, without looking at
    /// signatures and without changing anything.
    pub fn validate(&self, event: &LedgerEvent) -> (verdict: Result<(), AcceptEventError>)
        ensures
            verdict == match rejection(self@.accounts, event@) {
                Some(error) => Err::<(), AcceptEventError>(error),
                None => Ok(()),
            },
    {
        match event {
            LedgerEvent::NewUser { identifier, public_key: _ } => {
                if self.users.contains_key(identifier) {
                    Err(AcceptEventError::UserIdTaken)
                } else {
                    Ok(())
                }
            },
            LedgerEvent::Mint { beneficiary, amount } => {
                match self.could_receive(*beneficiary, *amount) {
                    Ok(_) => Ok(()),
                    Err(error) => Err(error),
                }
            },
            LedgerEvent::Transfer { benefactor, beneficiary, amount, benefactor_signature: _ } => {
                if *benefactor == *beneficiary {
                    return Err(AcceptEventError::CannotTransferToSelf);
                }
                if !self.users.contains_key(beneficiary) {
                    return Err(AcceptEventError::NoSuchAccount);
                }
                match self.could_send(*benefactor, *amount) {
                    Ok(_) => {},
                    Err(error) => {
                        return Err(error);
                    },
                }
                match self.could_receive(*beneficiary, *amount) {
                    Ok(_) => Ok(()),
                    Err(error) => Err(error),
                }
            },
        }
    }
}


impl Ledger {
    /// Replaces the balance of an existing account.
    fn set_balance(&mut self, who: UserId, balance: Amount)
        requires
            old(self)@.accounts.contains_key(who),
        ensures
            final(self)@.accounts == with_balance(old(self)@.accounts, who, balance as nat),
            final(self)@.events == old(self)@.events,
    {
        let taken = self.users.remove(&who);
        let summary = taken.unwrap();
        let updated = UserSummary { balance, public_key: summary.public_key };
        self.users.insert(who, updated);
        assert(self@.accounts =~= with_balance(old(self)@.accounts, who, balance as nat));
    }

    /// Appends `event` and brings the account table up to date.
    fn commit(&mut self, event: LedgerEvent)
        requires
            old(self).wf(),
            rejection(old(self)@.accounts, event@) is None,
        ensures
            final(self).wf(),
            final(self)@.events == old(self)@.events.push(event@),
            final(self)@.accounts == apply(old(self)@.accounts, event@),
    {
        match &event {
            LedgerEvent::NewUser { identifier, public_key } => {
                let summary = UserSummary { balance: 0, public_key: copy_bytes(public_key) };
                self.users.insert(*identifier, summary);
                assert(self@.accounts =~= apply(old(self)@.accounts, event@));
            },
            LedgerEvent::Mint { beneficiary, amount } => {
                assert(self@.accounts.contains_key(*beneficiary));
                let held = self.users.get(beneficiary).unwrap().balance;
                assert(held == self@.accounts[*beneficiary].balance);
                self.set_balance(*beneficiary, held + *amount);
            },
            LedgerEvent::Transfer { benefactor, beneficiary, amount, benefactor_signature: _ } => {
                assert(self@.accounts.contains_key(*benefactor));
                assert(self@.accounts.contains_key(*beneficiary));
                let held = self.users.get(benefactor).unwrap().balance;
                assert(held == self@.accounts[*benefactor].balance);
                self.set_balance(*benefactor, held - *amount);
                assert(self@.accounts.contains_key(*beneficiary));
                assert(self.users@.contains_key(*beneficiary));
                let held = self.users.get(beneficiary).unwrap().balance;
                assert(held == self@.accounts[*beneficiary].balance);
                self.set_balance(*beneficiary, held + *amount);
            },
        }
        let ghost logged = event@;
        self.events.push(event);
        proof {
            assert(self@.events =~= old(self)@.events.push(logged));
            assert(self@.events.drop_last() =~= old(self)@.events);
        }
    }

    /// The ledger with `event` appended, no questions asked.
    ///
    /// The caller answers for the event: it must be one that the ledger's
    /// rules accept in the present state.
    pub fn with_event_unchecked(&self, event: LedgerEvent) -> (extended: Ledger)
        requires
            self.wf(),
            rejection(self@.accounts, event@) is None,
        ensures
            extended.wf(),
            extended@.events == self@.events.push(event@),
            extended@.accounts == apply(self@.accounts, event@),
    {
        let mut extended = self.duplicate();
        extended.commit(event);
        extended
    }

    /// Offers `event` to the ledger, given the verdict on its signature.
    ///
    /// `authorized` says whether the signature of a transfer was accepted; it
    /// is not looked at for other events. The event is appended if and only if
    /// the ledger's rules accept it and, for a transfer, the signature was
    /// accepted. Otherwise the ledger stays as it was.
    pub fn accept_event(&mut self, event: LedgerEvent, authorized: bool) -> (verdict: Result<
        (),
        AcceptEventError,
    >)
        requires
            old(self).wf(),
        ensures
            final(self).wf(),
            match outcome(old(self)@.accounts, event@, authorized) {
                Ok(accounts) => {
                    &&& verdict is Ok
                    &&& final(self)@.accounts == accounts
                    &&& final(self)@.events == old(self)@.events.push(event@)
                },
                Err(error) => verdict == Err::<(), AcceptEventError>(error) && *final(self) == *old(
                    self,
                ),
            },
    {
        match self.validate(&event) {
            Ok(()) => {},
            Err(error) => {
                return Err(error);
            },
        }
        let transfer = match &event {
            LedgerEvent::Transfer { .. } => true,
            _ => false,
        };
        if transfer && !authorized {
            return Err(AcceptEventError::InvalidSignature);
        }
        self.commit(event);
        Ok(())
    }

    /// Offers `event`, found at `event_index` in block `block_id`, to the
    /// ledger.
    ///
    /// The ledger's own rules are checked first. A transfer that passes them
    /// is shown to `transfer_verifier` together with the benefactor's key; the
    /// verifier is not called otherwise. The event is appended if and only if
    /// every check passes. Otherwise the ledger stays as it was.
    pub fn try_accept_event<F: FnOnce(TransferVerifierArgs) -> bool>(
        &mut self,
        event: LedgerEvent,
        block_id: BlockId,
        event_index: usize,
        transfer_verifier: F,
    ) -> (verdict: Result<(), AcceptEventError>)
        requires
            old(self).wf(),
            forall|args: TransferVerifierArgs|
                describes_transfer(args, old(self)@.accounts, event@, block_id, event_index)
                    ==> call_requires(transfer_verifier, (args,)),
        ensures
            final(self).wf(),
            match rejection(old(self)@.accounts, event@) {
                Some(error) => verdict == Err::<(), AcceptEventError>(error),
                None => {
                    if event@ is Transfer {
                        &&& verdict is Err ==> verdict == Err::<(), AcceptEventError>(
                            AcceptEventError::InvalidSignature,
                        )
                        &&& verified_as(
                            transfer_verifier,
                            old(self)@.accounts,
                            event@,
                            block_id,
                            event_index,
                            verdict is Ok,
                        )
                    } else {
                        verdict is Ok
                    }
                },
            },
            match verdict {
                Ok(()) => {
                    &&& final(self)@.accounts == apply(old(self)@.accounts, event@)
                    &&& final(self)@.events == old(self)@.events.push(event@)
                },
                Err(_) => *final(self) == *old(self),
            },
    {
        match self.validate(&event) {
            Ok(()) => {},
            Err(error) => {
                return Err(error);
            },
        }
        let authorized = match &event {
            LedgerEvent::Transfer { benefactor, beneficiary, amount, benefactor_signature } => {
                let summary = self.users.get(benefactor).unwrap();
                let args = TransferVerifierArgs {
                    block_id,
                    event_index,
                    benefactor: *benefactor,
                    beneficiary: *beneficiary,
                    amount: *amount,
                    benefactor_public_key: &summary.public_key,
                    benefactor_signature,
                };
                assert(describes_transfer(
                    args,
                    old(self)@.accounts,
                    event@,
                    block_id,
                    event_index,
                ));
                transfer_verifier(args)
            },
            _ => true,
        };
        self.accept_event(event, authorized)
    }

    /// The ledger that results from offering `event` to this one, which stays
    /// as it is. See [`Ledger::try_accept_event`] for the checks.
    pub fn with_event<F: FnOnce(TransferVerifierArgs) -> bool>(
        &self,
        event: LedgerEvent,
        block_id: BlockId,
        event_index: usize,
        transfer_verifier: F,
    ) -> (extended: Result<Ledger, AcceptEventError>)
        requires
            self.wf(),
            forall|args: TransferVerifierArgs|
                describes_transfer(args, self@.accounts, event@, block_id, event_index)
                    ==> call_requires(transfer_verifier, (args,)),
        ensures
            match rejection(self@.accounts, event@) {
                Some(error) => extended is Err && extended->Err_0 == error,
                None => {
                    if event@ is Transfer {
                        &&& extended is Err ==> extended->Err_0
                            == AcceptEventError::InvalidSignature
                        &&& verified_as(
                            transfer_verifier,
                            self@.accounts,
                            event@,
                            block_id,
                            event_index,
                            extended is Ok,
                        )
                    } else {
                        extended is Ok
                    }
                },
            },
            extended matches Ok(ledger) ==> {
                &&& ledger.wf()
                &&& ledger@.accounts == apply(self@.accounts, event@)
                &&& ledger@.events == self@.events.push(event@)
            },
    {
        let mut extended = self.duplicate();
        match extended.try_accept_event(event, block_id, event_index, transfer_verifier) {
            Ok(()) => Ok(extended),
            Err(error) => Err(error),
        }
    }
}


impl Ledger {
    /// Offers the events of block `block_id` to the ledger, in order.
    ///
    /// Either every event is accepted and appended, or the ledger stays as it
    /// was and the error of the first event that failed is returned.
    pub fn extend_with_block<F: Fn(TransferVerifierArgs) -> bool>(
        &mut self,
        block_id: BlockId,
        events: &Vec<LedgerEvent>,
        transfer_verifier: &F,
    ) -> (verdict: Result<(), AcceptEventError>)
        requires
            old(self).wf(),
            forall|args: TransferVerifierArgs| call_requires(*transfer_verifier, (args,)),
        ensures
            final(self).wf(),
            match verdict {
                Ok(()) => {
                    &&& final(self)@.events == old(self)@.events + event_views(events@)
                    &&& block_passes(
                        *transfer_verifier,
                        old(self)@.events,
                        block_id,
                        event_views(events@),
                    )
                },
                Err(error) => {
                    &&& *final(self) == *old(self)
                    &&& exists|index: int|
                        fails_at(
                            *transfer_verifier,
                            old(self)@.events,
                            block_id,
                            event_views(events@),
                            index,
                            error,
                        )
                },
            },
    {
        let mut extended = self.duplicate();
        let ghost log = self@.events;
        let ghost offered = event_views(events@);
        let mut at: usize = 0;
        while at < events.len()
            invariant
                at <= events.len(),
                extended.wf(),
                self.wf(),
                *self == *old(self),
                log == self@.events,
                offered == event_views(events@),
                extended@.events == log + offered.take(at as int),
                forall|args: TransferVerifierArgs| call_requires(*transfer_verifier, (args,)),
                forall|index: int|
                    0 <= index < at ==> passes_at(
                        *transfer_verifier,
                        log,
                        block_id,
                        offered,
                        index,
                    ),
            decreases events.len() - at,
        {
            let ghost before = extended@;
            assert(replay(before.events) == Some(before.accounts));
            match extended.try_accept_event(events[at].clone(), block_id, at, transfer_verifier) {
                Ok(()) => {
                    proof {
                        assert(offered[at as int] == events[at as int]@);
                        assert(log + offered.take(at as int + 1) =~= (log + offered.take(
                            at as int,
                        )).push(offered[at as int]));
                    }
                },
                Err(error) => {
                    proof {
                        assert(offered[at as int] == events[at as int]@);
                        assert(fails_at(
                            *transfer_verifier,
                            log,
                            block_id,
                            offered,
                            at as int,
                            error,
                        ));
                    }
                    return Err(error);
                },
            }
            at += 1;
        }
        proof {
            assert(offered.take(at as int) =~= offered);
        }
        *self = extended;
        Ok(())
    }
}

} // verus!
