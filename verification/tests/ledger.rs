use std::cell::RefCell;

use blockchain_pow_julia::{AcceptEventError, Ledger, LedgerEvent, TransferVerifierArgs};

fn new_user(identifier: u64, key: u8) -> LedgerEvent {
    LedgerEvent::NewUser { identifier, public_key: vec![key, key] }
}

fn mint(beneficiary: u64, amount: u64) -> LedgerEvent {
    LedgerEvent::Mint { beneficiary, amount }
}

fn transfer(benefactor: u64, beneficiary: u64, amount: u64) -> LedgerEvent {
    LedgerEvent::Transfer { benefactor, beneficiary, amount, benefactor_signature: vec![9, 9, 9] }
}

fn yes(_: TransferVerifierArgs) -> bool {
    true
}

fn no(_: TransferVerifierArgs) -> bool {
    false
}

fn balances(ledger: &Ledger) -> Vec<(u64, u64)> {
    let mut all = ledger
        .users()
        .iter()
        .map(|(id, summary)| (*id, summary.balance()))
        .collect::<Vec<_>>();
    all.sort();
    all
}

/// Users 1 and 2, with 100 minted to user 1.
fn funded() -> Ledger {
    let mut ledger = Ledger::new();
    ledger.try_accept_event(new_user(1, 11), 0, 0, yes).unwrap();
    ledger.try_accept_event(new_user(2, 22), 0, 1, yes).unwrap();
    ledger.try_accept_event(mint(1, 100), 0, 2, yes).unwrap();
    ledger
}

fn assert_unchanged(ledger: &Ledger, events: usize, expected: &[(u64, u64)]) {
    assert_eq!(ledger.events().len(), events);
    assert_eq!(balances(ledger), expected);
}

#[test]
fn fresh_ledger_is_empty() {
    let ledger = Ledger::new();
    assert!(ledger.events().is_empty());
    assert!(ledger.users().is_empty());
    assert!(ledger.user(1).is_none());
}

#[test]
fn new_user_starts_with_zero_balance_and_its_key() {
    let mut ledger = Ledger::new();
    assert_eq!(ledger.try_accept_event(new_user(7, 3), 0, 0, yes), Ok(()));
    let summary = ledger.user(7).unwrap();
    assert_eq!(summary.balance(), 0);
    assert_eq!(summary.public_key(), &vec![3, 3]);
    assert_eq!(ledger.events().len(), 1);
    assert!(ledger.events()[0].same_as(&new_user(7, 3)));
}

#[test]
fn mint_credits_and_transfer_moves() {
    let mut ledger = funded();
    assert_eq!(balances(&ledger), vec![(1, 100), (2, 0)]);
    assert_eq!(ledger.try_accept_event(transfer(1, 2, 30), 1, 0, yes), Ok(()));
    assert_eq!(balances(&ledger), vec![(1, 70), (2, 30)]);
    assert_eq!(ledger.try_accept_event(transfer(2, 1, 30), 1, 1, yes), Ok(()));
    assert_eq!(balances(&ledger), vec![(1, 100), (2, 0)]);
    assert_eq!(ledger.try_accept_event(transfer(1, 2, 100), 1, 2, yes), Ok(()));
    assert_eq!(balances(&ledger), vec![(1, 0), (2, 100)]);
    assert_eq!(ledger.events().len(), 6);
}

#[test]
fn balances_add_up_to_what_was_minted() {
    let mut ledger = funded();
    ledger.try_accept_event(new_user(3, 33), 1, 0, yes).unwrap();
    ledger.try_accept_event(mint(3, 7), 1, 1, yes).unwrap();
    ledger.try_accept_event(transfer(1, 2, 60), 1, 2, yes).unwrap();
    ledger.try_accept_event(transfer(2, 3, 25), 1, 3, yes).unwrap();
    ledger.try_accept_event(mint(2, 1), 1, 4, yes).unwrap();
    assert_eq!(balances(&ledger), vec![(1, 40), (2, 36), (3, 32)]);
    let total: u64 = balances(&ledger).iter().map(|(_, balance)| balance).sum();
    assert_eq!(total, 100 + 7 + 1);
}

#[test]
fn duplicate_new_user_is_rejected() {
    let mut ledger = funded();
    assert_eq!(
        ledger.try_accept_event(new_user(1, 99), 1, 0, yes),
        Err(AcceptEventError::UserIdTaken)
    );
    assert_unchanged(&ledger, 3, &[(1, 100), (2, 0)]);
    assert_eq!(ledger.user(1).unwrap().public_key(), &vec![11, 11]);
}

#[test]
fn mint_to_unknown_account_is_rejected() {
    let mut ledger = funded();
    assert_eq!(
        ledger.try_accept_event(mint(5, 1), 1, 0, yes),
        Err(AcceptEventError::NoSuchAccount)
    );
    assert_unchanged(&ledger, 3, &[(1, 100), (2, 0)]);
}

#[test]
fn overflowing_mint_is_rejected() {
    let mut ledger = funded();
    assert_eq!(
        ledger.try_accept_event(mint(1, u64::MAX - 99), 1, 0, yes),
        Err(AcceptEventError::WouldOverflow)
    );
    assert_unchanged(&ledger, 3, &[(1, 100), (2, 0)]);
    assert_eq!(ledger.try_accept_event(mint(1, u64::MAX - 100), 1, 0, yes), Ok(()));
    assert_eq!(balances(&ledger), vec![(1, u64::MAX), (2, 0)]);
}

#[test]
fn transfer_to_self_is_rejected() {
    let mut ledger = funded();
    assert_eq!(
        ledger.try_accept_event(transfer(1, 1, 10), 1, 0, yes),
        Err(AcceptEventError::CannotTransferToSelf)
    );
    assert_eq!(
        ledger.try_accept_event(transfer(5, 5, 10), 1, 0, yes),
        Err(AcceptEventError::CannotTransferToSelf)
    );
    assert_unchanged(&ledger, 3, &[(1, 100), (2, 0)]);
}

#[test]
fn transfer_with_unknown_party_is_rejected() {
    let mut ledger = funded();
    assert_eq!(
        ledger.try_accept_event(transfer(1, 5, 10), 1, 0, yes),
        Err(AcceptEventError::NoSuchAccount)
    );
    assert_eq!(
        ledger.try_accept_event(transfer(5, 1, 10), 1, 0, yes),
        Err(AcceptEventError::NoSuchAccount)
    );
    assert_eq!(
        ledger.try_accept_event(transfer(2, 5, 10), 1, 0, yes),
        Err(AcceptEventError::NoSuchAccount)
    );
    assert_unchanged(&ledger, 3, &[(1, 100), (2, 0)]);
}

#[test]
fn overdrawing_transfer_is_rejected() {
    let mut ledger = funded();
    assert_eq!(
        ledger.try_accept_event(transfer(1, 2, 101), 1, 0, yes),
        Err(AcceptEventError::WouldOverdraw)
    );
    assert_eq!(
        ledger.try_accept_event(transfer(2, 1, 1), 1, 0, yes),
        Err(AcceptEventError::WouldOverdraw)
    );
    assert_unchanged(&ledger, 3, &[(1, 100), (2, 0)]);
}

#[test]
fn overflowing_transfer_is_rejected() {
    let mut ledger = funded();
    ledger.try_accept_event(mint(2, u64::MAX), 1, 0, yes).unwrap();
    assert_eq!(
        ledger.try_accept_event(transfer(1, 2, 1), 1, 1, yes),
        Err(AcceptEventError::WouldOverflow)
    );
    // an overdraw is reported before an overflow
    assert_eq!(
        ledger.try_accept_event(transfer(1, 2, 101), 1, 1, yes),
        Err(AcceptEventError::WouldOverdraw)
    );
    assert_unchanged(&ledger, 4, &[(1, 100), (2, u64::MAX)]);
}

#[test]
fn transfer_with_rejected_signature_is_rejected() {
    let mut ledger = funded();
    assert_eq!(
        ledger.try_accept_event(transfer(1, 2, 10), 1, 0, no),
        Err(AcceptEventError::InvalidSignature)
    );
    assert_unchanged(&ledger, 3, &[(1, 100), (2, 0)]);
    // the ledger's own rules come first
    assert_eq!(
        ledger.try_accept_event(transfer(1, 2, 1000), 1, 0, no),
        Err(AcceptEventError::WouldOverdraw)
    );
    // the verdict on signatures does not matter to other events
    assert_eq!(ledger.try_accept_event(mint(2, 1), 1, 0, no), Ok(()));
    assert_eq!(ledger.try_accept_event(new_user(3, 1), 1, 1, no), Ok(()));
}

#[test]
fn verifier_sees_the_transfer_and_the_benefactors_key() {
    let mut ledger = funded();
    let seen = RefCell::new(Vec::new());
    let verdict = ledger.try_accept_event(transfer(1, 2, 10), 42, 5, |args: TransferVerifierArgs| {
        seen.borrow_mut().push((
            args.block_id,
            args.event_index,
            args.benefactor,
            args.beneficiary,
            args.amount,
            args.benefactor_public_key.clone(),
            args.benefactor_signature.clone(),
        ));
        true
    });
    assert_eq!(verdict, Ok(()));
    assert_eq!(seen.into_inner(), vec![(42, 5, 1, 2, 10, vec![11, 11], vec![9, 9, 9])]);
}

#[test]
fn verifier_is_not_asked_about_events_that_break_the_rules() {
    let mut ledger = funded();
    let calls = RefCell::new(0);
    let count = |_: TransferVerifierArgs| {
        *calls.borrow_mut() += 1;
        true
    };
    assert!(ledger.try_accept_event(transfer(1, 2, 1000), 1, 0, &count).is_err());
    assert!(ledger.try_accept_event(transfer(1, 1, 1), 1, 0, &count).is_err());
    assert!(ledger.try_accept_event(transfer(1, 8, 1), 1, 0, &count).is_err());
    assert!(ledger.try_accept_event(mint(1, 1), 1, 0, &count).is_ok());
    assert_eq!(*calls.borrow(), 0);
    assert!(ledger.try_accept_event(transfer(1, 2, 1), 1, 1, &count).is_ok());
    assert_eq!(*calls.borrow(), 1);
}

#[test]
fn with_event_leaves_the_receiver_alone() {
    let ledger = funded();
    let extended = ledger.with_event(transfer(1, 2, 40), 1, 0, yes).unwrap();
    assert_eq!(balances(&extended), vec![(1, 60), (2, 40)]);
    assert_eq!(extended.events().len(), 4);
    assert_unchanged(&ledger, 3, &[(1, 100), (2, 0)]);
    assert_eq!(
        ledger.with_event(transfer(1, 2, 400), 1, 0, yes).err(),
        Some(AcceptEventError::WouldOverdraw)
    );
    assert_eq!(
        ledger.with_event(transfer(1, 2, 40), 1, 0, no).err(),
        Some(AcceptEventError::InvalidSignature)
    );
    assert_eq!(ledger.with_event(new_user(2, 0), 1, 0, yes).err(), Some(AcceptEventError::UserIdTaken));
    assert_unchanged(&ledger, 3, &[(1, 100), (2, 0)]);
}

#[test]
fn with_event_unchecked_appends_a_valid_event() {
    let ledger = funded();
    assert_eq!(ledger.validate(&transfer(1, 2, 5)), Ok(()));
    let extended = ledger.with_event_unchecked(transfer(1, 2, 5));
    assert_eq!(balances(&extended), vec![(1, 95), (2, 5)]);
    assert!(extended.events()[3].same_as(&transfer(1, 2, 5)));
    assert_unchanged(&ledger, 3, &[(1, 100), (2, 0)]);
}

#[test]
fn validate_names_the_broken_rule() {
    let ledger = funded();
    assert_eq!(ledger.validate(&new_user(3, 0)), Ok(()));
    assert_eq!(ledger.validate(&new_user(2, 0)), Err(AcceptEventError::UserIdTaken));
    assert_eq!(ledger.validate(&mint(3, 1)), Err(AcceptEventError::NoSuchAccount));
    assert_eq!(ledger.validate(&mint(1, u64::MAX)), Err(AcceptEventError::WouldOverflow));
    assert_eq!(ledger.validate(&transfer(2, 2, 0)), Err(AcceptEventError::CannotTransferToSelf));
    assert_eq!(ledger.validate(&transfer(2, 1, 1)), Err(AcceptEventError::WouldOverdraw));
    assert_eq!(ledger.validate(&transfer(2, 1, 0)), Ok(()));
}

#[test]
fn accept_event_takes_the_verdict_on_the_signature() {
    let mut ledger = funded();
    assert_eq!(
        ledger.accept_event(transfer(1, 2, 10), false),
        Err(AcceptEventError::InvalidSignature)
    );
    assert_unchanged(&ledger, 3, &[(1, 100), (2, 0)]);
    assert_eq!(ledger.accept_event(transfer(1, 2, 10), true), Ok(()));
    assert_eq!(ledger.accept_event(mint(2, 10), false), Ok(()));
    assert_eq!(balances(&ledger), vec![(1, 90), (2, 20)]);
}

#[test]
fn extend_with_block_takes_all_events_or_none() {
    let mut ledger = funded();
    let good = vec![transfer(1, 2, 10), new_user(3, 1), transfer(2, 3, 4)];
    assert_eq!(ledger.extend_with_block(8, &good, &yes), Ok(()));
    assert_eq!(balances(&ledger), vec![(1, 90), (2, 6), (3, 4)]);
    let bad = vec![transfer(1, 2, 10), mint(3, 1), transfer(3, 2, 6)];
    assert_eq!(ledger.extend_with_block(9, &bad, &yes), Err(AcceptEventError::WouldOverdraw));
    assert_unchanged(&ledger, 6, &[(1, 90), (2, 6), (3, 4)]);
    let indices = RefCell::new(Vec::new());
    let picky = |args: TransferVerifierArgs| {
        indices.borrow_mut().push((args.block_id, args.event_index));
        args.event_index != 2
    };
    let signed = vec![transfer(1, 2, 1), mint(1, 1), transfer(1, 2, 1), transfer(1, 2, 1)];
    assert_eq!(
        ledger.extend_with_block(10, &signed, &picky),
        Err(AcceptEventError::InvalidSignature)
    );
    assert_eq!(indices.into_inner(), vec![(10, 0), (10, 2)]);
    assert_unchanged(&ledger, 6, &[(1, 90), (2, 6), (3, 4)]);
}

#[test]
fn duplicate_is_equal_and_independent() {
    let ledger = funded();
    let mut copy = ledger.duplicate();
    assert_eq!(balances(&copy), balances(&ledger));
    copy.try_accept_event(mint(2, 5), 0, 3, yes).unwrap();
    assert_eq!(balances(&copy), vec![(1, 100), (2, 5)]);
    assert_unchanged(&ledger, 3, &[(1, 100), (2, 0)]);
}

#[test]
fn events_compare_by_kind_and_content() {
    assert!(new_user(1, 2).same_as(&new_user(1, 2)));
    assert!(!new_user(1, 2).same_as(&new_user(1, 3)));
    assert!(!new_user(1, 2).same_as(&new_user(2, 2)));
    assert!(mint(1, 2).same_as(&mint(1, 2).clone()));
    assert!(!mint(1, 2).same_as(&mint(1, 3)));
    assert!(!mint(1, 2).same_as(&transfer(1, 2, 2)));
    assert!(transfer(1, 2, 3).same_as(&transfer(1, 2, 3)));
    assert!(!transfer(1, 2, 3).same_as(&transfer(2, 1, 3)));
    let resigned = LedgerEvent::Transfer {
        benefactor: 1,
        beneficiary: 2,
        amount: 3,
        benefactor_signature: vec![9, 9],
    };
    assert!(!transfer(1, 2, 3).same_as(&resigned));
}
