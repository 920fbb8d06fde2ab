use betting_pool::error::Error;
use betting_pool::ledger::{Account, Ledger};
use betting_pool::participant::ParticipantId;

fn id(bytes: &[u8]) -> ParticipantId {
    ParticipantId::from_bytes(bytes.to_vec())
}

fn sum_of_balances(ledger: &Ledger) -> u64 {
    ledger.balances.iter().map(|account| account.balance).sum()
}

#[test]
fn new_ledger_is_empty() {
    let ledger = Ledger::default();
    assert_eq!(ledger.supply(), 0);
    assert_eq!(ledger.balance(&id(b"alice")), 0);
    assert!(ledger.balances.is_empty());
    assert!(ledger.is_consistent());
}

#[test]
fn deposit_credits_account_and_supply() {
    let mut ledger = Ledger::default();
    ledger.deposit(id(b"alice"), 40);
    ledger.deposit(id(b"bob"), 2);
    ledger.deposit(id(b"alice"), 5);
    assert_eq!(ledger.balance(&id(b"alice")), 45);
    assert_eq!(ledger.balance(&id(b"bob")), 2);
    assert_eq!(ledger.balance(&id(b"carol")), 0);
    assert_eq!(ledger.supply(), 47);
    assert_eq!(ledger.balances.len(), 2);
}

#[test]
fn deposit_of_zero_changes_nothing() {
    let mut ledger = Ledger::default();
    ledger.deposit(id(b"alice"), 0);
    assert_eq!(ledger.supply(), 0);
    assert_eq!(ledger.balance(&id(b"alice")), 0);
    assert!(ledger.balances.is_empty());
}

#[test]
fn withdraw_of_zero_without_account_succeeds() {
    let mut ledger = Ledger::default();
    ledger.deposit(id(b"bob"), 9);
    assert_eq!(ledger.withdraw(&id(b"alice"), 0), Ok(()));
    assert_eq!(ledger.supply(), 9);
    assert_eq!(ledger.balances.len(), 1);
    assert_eq!(ledger.balance(&id(b"alice")), 0);
}

#[test]
fn withdraw_without_account_fails() {
    let mut ledger = Ledger::default();
    assert_eq!(ledger.withdraw(&id(b"alice"), 1), Err(Error::InsufficientFunds));
    assert_eq!(ledger.supply(), 0);
    assert!(ledger.balances.is_empty());
}

#[test]
fn withdraw_beyond_balance_fails_and_changes_nothing() {
    let mut ledger = Ledger::default();
    ledger.deposit(id(b"alice"), 10);
    ledger.deposit(id(b"bob"), 100);
    assert_eq!(ledger.withdraw(&id(b"alice"), 11), Err(Error::InsufficientFunds));
    assert_eq!(ledger.balance(&id(b"alice")), 10);
    assert_eq!(ledger.balance(&id(b"bob")), 100);
    assert_eq!(ledger.supply(), 110);
}

#[test]
fn withdraw_debits_account_and_supply() {
    let mut ledger = Ledger::default();
    ledger.deposit(id(b"alice"), 10);
    ledger.deposit(id(b"bob"), 100);
    assert_eq!(ledger.withdraw(&id(b"alice"), 4), Ok(()));
    assert_eq!(ledger.balance(&id(b"alice")), 6);
    assert_eq!(ledger.supply(), 106);
    assert_eq!(ledger.withdraw(&id(b"alice"), 6), Ok(()));
    assert_eq!(ledger.balance(&id(b"alice")), 0);
    assert_eq!(ledger.supply(), 100);
    assert_eq!(ledger.withdraw(&id(b"alice"), 1), Err(Error::InsufficientFunds));
    assert_eq!(ledger.withdraw(&id(b"alice"), 0), Ok(()));
}

#[test]
fn supply_is_sum_of_balances_after_every_call() {
    let mut ledger = Ledger::default();
    let names: [&[u8]; 4] = [b"a", b"b", b"c", b"a"];
    let mut step: u64 = 1;
    for round in 0..20u64 {
        for name in names.iter() {
            step = step * 7 % 1009;
            if (round + step) % 3 == 0 {
                let _ = ledger.withdraw(&id(name), step % 50);
            } else {
                ledger.deposit(id(name), step % 50);
            }
            assert_eq!(ledger.supply(), sum_of_balances(&ledger));
            assert!(ledger.is_consistent());
        }
    }
    assert_eq!(ledger.balances.len(), 3);
}

#[test]
fn deposit_up_to_the_limit() {
    let mut ledger = Ledger::default();
    ledger.deposit(id(b"alice"), u64::MAX - 1);
    ledger.deposit(id(b"bob"), 1);
    assert_eq!(ledger.supply(), u64::MAX);
    assert_eq!(ledger.balance(&id(b"alice")), u64::MAX - 1);
}

#[test]
fn free_keeps_the_accounts() {
    let mut ledger = Ledger::default();
    ledger.deposit(id(b"alice"), 3);
    ledger.free();
    assert_eq!(ledger.balance(&id(b"alice")), 3);
    assert_eq!(ledger.supply(), 3);
    assert_eq!(ledger.balances.len(), 1);
}

#[test]
fn load_takes_a_consistent_ledger() {
    let mut ledger = Ledger::default();
    ledger.deposit(id(b"old"), 1);
    let data = Ledger {
        supply: 30,
        balances: vec![
            Account { owner: id(b"alice"), balance: 10 },
            Account { owner: id(b"bob"), balance: 20 },
        ],
    };
    assert_eq!(ledger.load(data), Ok(()));
    assert_eq!(ledger.supply(), 30);
    assert_eq!(ledger.balance(&id(b"alice")), 10);
    assert_eq!(ledger.balance(&id(b"bob")), 20);
    assert_eq!(ledger.balance(&id(b"old")), 0);
}

#[test]
fn load_refuses_a_wrong_supply() {
    let mut ledger = Ledger::default();
    ledger.deposit(id(b"old"), 1);
    let data = Ledger { supply: 31, balances: vec![Account { owner: id(b"alice"), balance: 30 }] };
    assert_eq!(ledger.load(data), Err(Error::CorruptSnapshot));
    assert_eq!(ledger.supply(), 1);
    assert_eq!(ledger.balance(&id(b"old")), 1);
    assert_eq!(ledger.balance(&id(b"alice")), 0);
}

#[test]
fn load_refuses_two_accounts_of_one_owner() {
    let mut ledger = Ledger::default();
    let data = Ledger {
        supply: 30,
        balances: vec![
            Account { owner: id(b"alice"), balance: 10 },
            Account { owner: id(b"alice"), balance: 20 },
        ],
    };
    assert_eq!(ledger.load(data), Err(Error::CorruptSnapshot));
    assert_eq!(ledger.supply(), 0);
}

#[test]
fn load_refuses_balances_beyond_the_range() {
    let mut ledger = Ledger::default();
    let data = Ledger {
        supply: 0,
        balances: vec![
            Account { owner: id(b"alice"), balance: u64::MAX },
            Account { owner: id(b"bob"), balance: 1 },
        ],
    };
    assert!(!data.is_consistent());
    assert_eq!(ledger.load(data), Err(Error::CorruptSnapshot));
}

#[test]
fn identities_compare_byte_by_byte() {
    let a = id(&[1, 2, 3]);
    assert!(a.same(&id(&[1, 2, 3])));
    assert!(!a.same(&id(&[1, 2, 4])));
    assert!(!a.same(&id(&[1, 2])));
    assert!(!a.same(&id(&[])));
    assert!(id(&[]).same(&id(&[])));
    let copy = a.clone();
    assert!(copy.same(&a));
    assert_eq!(copy, a);
    assert_eq!(a.as_slice(), &[1u8, 2, 3][..]);
}

#[test]
fn errors_describe_themselves() {
    assert_eq!(Error::ArithmeticOverflow.message(), "arithmetic overflow");
    assert_eq!(Error::InsufficientFunds.message(), "insufficient funds");
    assert_eq!(Error::CorruptSnapshot.message(), "corrupt snapshot");
    assert_eq!(Error::MissingSnapshot.message(), "missing snapshot");
    assert_eq!(
        Error::Unauthorized.message(),
        "only the controller is allowed to call this method"
    );
}
