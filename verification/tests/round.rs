use betting_pool::bet::Bet;
use betting_pool::error::Error;
use betting_pool::ledger::Ledger;
use betting_pool::participant::ParticipantId;

fn id(bytes: &[u8]) -> ParticipantId {
    ParticipantId::from_bytes(bytes.to_vec())
}

fn stake(round: &Bet, user: &[u8], number: u8) -> Option<u64> {
    let record = round.archive();
    record
        .bets
        .iter()
        .find(|stake| stake.user.as_slice() == user && stake.number == number)
        .map(|stake| stake.amount)
}

fn total_on(round: &Bet, number: u8) -> Option<u64> {
    round.archive().sum_map.get(&number).copied()
}

#[test]
fn new_round_is_empty() {
    let round = Bet::default();
    assert_eq!(round.get_total_bets(), 0);
    assert_eq!(round.archive().started, 0);
    let record = round.archive();
    assert!(record.bets.is_empty());
    assert!(record.sum_map.is_empty());
    assert_eq!(record.started, 0);
    assert_eq!(record.total_bets, 0);
}

#[test]
fn bet_adds_to_total_stake_and_outcome() {
    let mut round = Bet::default();
    assert_eq!(round.bet(id(b"alice"), 3, 10, 1000), Ok(()));
    assert_eq!(round.get_total_bets(), 10);
    assert_eq!(stake(&round, b"alice", 3), Some(10));
    assert_eq!(total_on(&round, 3), Some(10));
    assert_eq!(round.bet(id(b"bob"), 3, 5, 1001), Ok(()));
    assert_eq!(round.bet(id(b"alice"), 3, 7, 1002), Ok(()));
    assert_eq!(round.bet(id(b"alice"), 4, 1, 1003), Ok(()));
    assert_eq!(round.get_total_bets(), 23);
    assert_eq!(stake(&round, b"alice", 3), Some(17));
    assert_eq!(stake(&round, b"bob", 3), Some(5));
    assert_eq!(stake(&round, b"alice", 4), Some(1));
    assert_eq!(stake(&round, b"bob", 4), None);
    assert_eq!(total_on(&round, 3), Some(22));
    assert_eq!(total_on(&round, 4), Some(1));
    assert_eq!(total_on(&round, 5), None);
    assert_eq!(round.archive().bets.len(), 3);
}

#[test]
fn first_bet_starts_the_round() {
    let mut round = Bet::default();
    assert_eq!(round.bet(id(b"alice"), 3, 10, 1000), Ok(()));
    assert_eq!(round.archive().started, 1000);
    assert_eq!(round.bet(id(b"bob"), 3, 10, 2000), Ok(()));
    assert_eq!(round.archive().started, 1000);
}

#[test]
fn start_survives_close() {
    let mut round = Bet::default();
    let mut ledger = Ledger::default();
    assert_eq!(round.bet(id(b"alice"), 3, 10, 1000), Ok(()));
    round.close(&mut ledger);
    assert_eq!(round.archive().started, 1000);
    assert_eq!(round.bet(id(b"alice"), 3, 10, 5000), Ok(()));
    assert_eq!(round.archive().started, 1000);
}

#[test]
fn bet_of_zero_is_recorded_and_feeds_the_digest() {
    let mut round = Bet::default();
    assert_eq!(round.peek_winner(), 209);
    assert_eq!(round.bet(id(&[5]), 0, 0, 1), Ok(()));
    assert_eq!(round.get_total_bets(), 0);
    assert_eq!(stake(&round, &[5], 0), Some(0));
    assert_eq!(total_on(&round, 0), Some(0));
    assert_eq!(round.peek_winner(), 129);
}

#[test]
fn bet_beyond_the_range_is_refused() {
    let mut round = Bet::default();
    assert_eq!(round.bet(id(&[1, 2, 3]), 7, u64::MAX - 1, 1), Ok(()));
    let winner = round.peek_winner();
    assert_eq!(winner, 152);
    assert_eq!(round.bet(id(b"bob"), 7, 2, 2), Err(Error::ArithmeticOverflow));
    assert_eq!(round.bet(id(&[1, 2, 3]), 7, 2, 2), Err(Error::ArithmeticOverflow));
    assert_eq!(round.get_total_bets(), u64::MAX - 1);
    assert_eq!(stake(&round, &[1, 2, 3], 7), Some(u64::MAX - 1));
    assert_eq!(stake(&round, b"bob", 7), None);
    assert_eq!(total_on(&round, 7), Some(u64::MAX - 1));
    assert_eq!(round.peek_winner(), winner);
    assert_eq!(round.bet(id(b"bob"), 8, 1, 2), Ok(()));
    assert_eq!(round.get_total_bets(), u64::MAX);
}

#[test]
fn close_without_bets() {
    let mut round = Bet::default();
    let mut ledger = Ledger::default();
    ledger.deposit(id(b"alice"), 12);
    let winner = round.close(&mut ledger);
    assert_eq!(winner, 209);
    assert_eq!(round.get_total_bets(), 0);
    assert_eq!(ledger.balance(&id(b"alice")), 12);
    assert_eq!(ledger.supply(), 12);
    assert_eq!(ledger.balances.len(), 1);
}

#[test]
fn digest_chains_from_round_to_round() {
    let mut round = Bet::default();
    let mut ledger = Ledger::default();
    assert_eq!(round.close(&mut ledger), 209);
    assert_eq!(round.close(&mut ledger), 65);
    assert_eq!(round.close(&mut ledger), 211);
    let mut other = Bet::default();
    assert_eq!(other.try_close(&mut ledger), Ok(209));
    assert_eq!(other.bet(id(&[9]), 200, 1, 1), Ok(()));
    assert_eq!(other.peek_winner(), 196);
    assert_eq!(other.try_close(&mut ledger), Ok(196));
}

#[test]
fn winner_is_first_byte_of_digest_of_bets() {
    let mut round = Bet::default();
    let mut ledger = Ledger::default();
    assert_eq!(round.bet(id(&[1, 2, 3]), 7, 10, 1), Ok(()));
    assert_eq!(round.peek_winner(), 152);
    assert_eq!(round.peek_winner(), 152);
    assert_eq!(round.close(&mut ledger), 152);
}

#[test]
fn same_bets_give_same_winner() {
    let mut one = Bet::default();
    let mut other = Bet::default();
    let mut ledger_one = Ledger::default();
    let mut ledger_other = Ledger::default();
    ledger_other.deposit(id(b"somebody"), 77);
    assert_eq!(one.bet(id(&[1]), 7, 10, 1), Ok(()));
    assert_eq!(one.bet(id(&[2]), 7, 20, 2), Ok(()));
    assert_eq!(one.bet(id(&[3]), 9, 30, 3), Ok(()));
    assert_eq!(other.bet(id(&[1]), 7, 1, 100), Ok(()));
    assert_eq!(other.bet(id(&[2]), 7, 0, 200), Ok(()));
    assert_eq!(other.bet(id(&[3]), 9, 99, 300), Ok(()));
    let first = one.close(&mut ledger_one);
    let second = other.close(&mut ledger_other);
    assert_eq!(first, 200);
    assert_eq!(second, 200);
}

#[test]
fn order_of_bets_matters_to_the_winner() {
    let mut round = Bet::default();
    let mut ledger = Ledger::default();
    assert_eq!(round.bet(id(&[2]), 7, 20, 2), Ok(()));
    assert_eq!(round.bet(id(&[1]), 7, 10, 1), Ok(()));
    assert_eq!(round.bet(id(&[3]), 9, 30, 3), Ok(()));
    assert_eq!(round.close(&mut ledger), 40);
}

#[test]
fn settle_pays_winners_in_proportion() {
    let mut round = Bet::default();
    let mut ledger = Ledger::default();
    assert_eq!(round.bet(id(b"ann"), 1, 10, 1), Ok(()));
    assert_eq!(round.bet(id(b"ben"), 1, 20, 1), Ok(()));
    assert_eq!(round.bet(id(b"cat"), 2, 30, 1), Ok(()));
    assert_eq!(round.get_total_bets(), 60);
    assert_eq!(total_on(&round, 1), Some(30));
    assert_eq!(total_on(&round, 2), Some(30));
    assert!(round.payouts_fit(&ledger, 1));
    round.settle(&mut ledger, 1);
    assert_eq!(ledger.balance(&id(b"ann")), 10);
    assert_eq!(ledger.balance(&id(b"ben")), 20);
    assert_eq!(ledger.balance(&id(b"cat")), 0);
    assert_eq!(ledger.supply(), 30);
    assert_eq!(ledger.balances.len(), 2);
    assert_eq!(round.get_total_bets(), 0);
    assert!(round.archive().bets.is_empty());
    assert!(round.archive().sum_map.is_empty());
}

#[test]
fn settle_rounds_down() {
    let mut round = Bet::default();
    let mut ledger = Ledger::default();
    ledger.deposit(id(b"ann"), 100);
    assert_eq!(round.bet(id(b"ann"), 1, 7, 1), Ok(()));
    assert_eq!(round.bet(id(b"ben"), 1, 5, 1), Ok(()));
    assert_eq!(round.bet(id(b"cat"), 2, 5, 1), Ok(()));
    assert_eq!(round.bet(id(b"ann"), 2, 0, 1), Ok(()));
    round.settle(&mut ledger, 1);
    assert_eq!(ledger.balance(&id(b"ann")), 116);
    assert_eq!(ledger.balance(&id(b"ben")), 12);
    assert_eq!(ledger.balance(&id(b"cat")), 0);
    assert_eq!(ledger.supply(), 128);
}

#[test]
fn settle_pays_less_than_the_stake_when_winners_are_few() {
    let mut round = Bet::default();
    let mut ledger = Ledger::default();
    assert_eq!(round.bet(id(b"ann"), 1, 1, 1), Ok(()));
    assert_eq!(round.bet(id(b"ben"), 2, 3, 1), Ok(()));
    round.settle(&mut ledger, 1);
    assert_eq!(ledger.balance(&id(b"ann")), 0);
    assert_eq!(ledger.supply(), 0);
    assert!(ledger.balances.is_empty());
}

#[test]
fn settle_without_losers_pays_nothing() {
    let mut round = Bet::default();
    let mut ledger = Ledger::default();
    assert_eq!(round.bet(id(b"ann"), 1, 10, 1), Ok(()));
    assert_eq!(round.bet(id(b"ben"), 1, 20, 1), Ok(()));
    round.settle(&mut ledger, 1);
    assert_eq!(ledger.supply(), 0);
    assert!(ledger.balances.is_empty());
    assert_eq!(round.get_total_bets(), 0);
}

#[test]
fn settle_without_winners_pays_nothing() {
    let mut round = Bet::default();
    let mut ledger = Ledger::default();
    assert_eq!(round.bet(id(b"ann"), 1, 10, 1), Ok(()));
    assert_eq!(round.bet(id(b"ben"), 2, 20, 1), Ok(()));
    round.settle(&mut ledger, 3);
    assert_eq!(ledger.supply(), 0);
    assert!(ledger.balances.is_empty());
    assert!(round.archive().bets.is_empty());
}

#[test]
fn settle_with_large_stakes() {
    let mut round = Bet::default();
    let mut ledger = Ledger::default();
    let half = 1u64 << 62;
    assert_eq!(round.bet(id(b"ann"), 1, half, 1), Ok(()));
    assert_eq!(round.bet(id(b"ben"), 2, half, 1), Ok(()));
    assert!(round.payouts_fit(&ledger, 1));
    round.settle(&mut ledger, 1);
    assert_eq!(ledger.balance(&id(b"ann")), half);
    assert_eq!(ledger.supply(), half);
}

#[test]
fn payouts_that_do_not_fit_are_told() {
    let mut round = Bet::default();
    let mut ledger = Ledger::default();
    let big = 1u64 << 40;
    assert_eq!(round.bet(id(b"ann"), 1, big, 1), Ok(()));
    assert_eq!(round.bet(id(b"ben"), 2, 1, 1), Ok(()));
    assert!(!round.payouts_fit(&ledger, 1));
    assert!(round.payouts_fit(&ledger, 2));
    assert!(round.payouts_fit(&ledger, 3));
    ledger.deposit(id(b"rich"), u64::MAX);
    assert!(!round.payouts_fit(&ledger, 1));
    assert!(round.payouts_fit(&ledger, 2));
}

#[test]
fn close_that_would_overflow_is_refused() {
    let mut round = Bet::default();
    let mut ledger = Ledger::default();
    ledger.deposit(id(b"rich"), u64::MAX - 1);
    for number in 0..=255u8 {
        assert_eq!(round.bet(id(&[4]), number, 1 << 40, 1), Ok(()));
    }
    assert_eq!(round.peek_winner(), 236);
    assert_eq!(round.try_close(&mut ledger), Err(Error::ArithmeticOverflow));
    assert_eq!(round.peek_winner(), 236);
    assert_eq!(round.get_total_bets(), 256 << 40);
    assert_eq!(round.archive().bets.len(), 256);
    assert_eq!(ledger.supply(), u64::MAX - 1);
    assert_eq!(ledger.balance(&id(&[4])), 0);
    assert_eq!(ledger.withdraw(&id(b"rich"), u64::MAX - 1), Ok(()));
    assert_eq!(round.try_close(&mut ledger), Ok(236));
    assert_eq!(ledger.balance(&id(&[4])), (1u64 << 40) / 255);
    assert_eq!(ledger.supply(), (1u64 << 40) / 255);
    assert_eq!(round.get_total_bets(), 0);
}

#[test]
fn free_keeps_the_stakes() {
    let mut round = Bet::default();
    assert_eq!(round.bet(id(b"ann"), 1, 10, 1), Ok(()));
    let winner = round.peek_winner();
    round.free();
    assert_eq!(round.get_total_bets(), 10);
    assert_eq!(stake(&round, b"ann", 1), Some(10));
    assert_eq!(total_on(&round, 1), Some(10));
    assert_eq!(round.peek_winner(), winner);
}
