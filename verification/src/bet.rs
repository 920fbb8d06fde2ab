//! The betting round: stakes, the digest that picks the winner, and payout.

use crate::assoc::{
    amount_of, as_map, distinct_keys, face_value, has_key, lemma_empty, lemma_position,
    lemma_prefix, lemma_push, lemma_update, lemma_weighted_add, lemma_weighted_agree,
    lemma_weighted_le, lemma_weighted_member, lemma_weighted_prefix, lemma_weighted_push,
    lemma_weighted_step, lemma_weighted_update, lemma_weighted_zero, position, total, weighted,
};
use crate::capacity::{shrink_map, shrink_vec};
use crate::digest::{
    absorb, absorbed, finish, fork, sha224, start, winning_outcome, DIGEST_LEN, MAX_MESSAGE_LEN,
};
use crate::error::Error;
use crate::ledger::Ledger;
use crate::participant::ParticipantId;
use sha2::Sha224;
use std::collections::HashMap;
use vstd::prelude::*;

verus! {

broadcast use vstd::std_specs::hash::group_hash_axioms;

/// What one participant has wagered on one outcome in the current round.
#[derive(Debug)]
pub struct Stake {
    /// Who placed the bets.
    pub user: ParticipantId,
    /// The outcome they are on.
    pub number: u8,
    /// Their sum.
    pub amount: u64,
}

/// The stakes as pairs of key and amount, in the order in which they were
/// opened.
pub open spec fn stake_entries(stakes: Seq<Stake>) -> Seq<((Seq<u8>, u8), u64)> {
    Seq::new(stakes.len(), |i: int| ((stakes[i].user@, stakes[i].number), stakes[i].amount))
}

/// The weight that counts the amounts on outcome `number` only.
pub open spec fn on_outcome(number: u8) -> spec_fn((Seq<u8>, u8), u64) -> nat {
    |k: (Seq<u8>, u8), v: u64|
        if k.1 == number {
            v as nat
        } else {
            0
        }
}

/// The sum of what all participants have wagered on `number`.
pub open spec fn staked_on(s: Seq<((Seq<u8>, u8), u64)>, number: u8) -> nat {
    weighted(s, on_outcome(number))
}

/// Somebody has a stake on `number`.
pub open spec fn outcome_present(s: Seq<((Seq<u8>, u8), u64)>, number: u8) -> bool {
    exists|i: int| 0 <= i < s.len() && (#[trigger] s[i]).0.1 == number
}

/// The figures of a round agree: nobody has two stakes on one outcome, the
/// total is the sum of all stakes, and the totals by outcome list exactly the
/// outcomes that somebody is on, each with the sum of the stakes on it.
pub open spec fn figures_agree(s: Seq<((Seq<u8>, u8), u64)>, total_bets: u64, totals: Map<u8, u64>) -> bool {
    &&& distinct_keys(s)
    &&& total_bets == total(s)
    &&& forall|o: u8| #[trigger] totals.contains_key(o) <==> outcome_present(s, o)
    &&& forall|o: u8| #[trigger] totals.contains_key(o) ==> totals[o] == staked_on(s, o)
}

/// Nothing is staked on an outcome that nobody is on.
pub proof fn lemma_absent_outcome(s: Seq<((Seq<u8>, u8), u64)>, number: u8)
    requires
        !outcome_present(s, number),
    ensures
        staked_on(s, number) == 0,
    decreases s.len(),
{
    if s.len() > 0 {
        let r = s.drop_last();
        assert forall|i: int| 0 <= i < r.len() implies (#[trigger] r[i]).0.1 != number by {
            assert(r[i] == s[i]);
        }
        lemma_absent_outcome(r, number);
        assert(s[s.len() - 1].0.1 != number);
    }
}

/// What is staked on one outcome is part of the total.
pub proof fn lemma_outcome_within_total(s: Seq<((Seq<u8>, u8), u64)>, number: u8)
    ensures
        staked_on(s, number) <= total(s),
{
    lemma_weighted_le(s, on_outcome(number), face_value());
}

/// What a stake of `amount` on the winner is paid when `winners` is the sum
/// on the winner and `losers` the sum on all other outcomes: the stake times
/// `winners` over `losers`, rounded down; nothing where either sum is zero.
pub open spec fn payout(amount: int, winners: int, losers: int) -> nat {
    if winners > 0 && losers > 0 {
        ((amount * winners) / losers) as nat
    } else {
        0
    }
}

/// The weight that counts, for every stake on `winner`, what it is paid.
pub open spec fn prize(winner: u8, winners: int, losers: int) -> spec_fn((Seq<u8>, u8), u64) -> nat {
    |k: (Seq<u8>, u8), v: u64|
        if k.1 == winner {
            payout(v as int, winners, losers)
        } else {
            0
        }
}

/// The payout of one stake as the machine computes it.
fn award_for(amount: u64, winners: u64, losers: u64) -> (award: u128)
    requires
        winners > 0,
        losers > 0,
    ensures
        award == payout(amount as int, winners as int, losers as int),
{
    assert(amount * winners <= 0xffff_ffff_ffff_ffff * 0xffff_ffff_ffff_ffff) by (nonlinear_arith)
        requires
            amount <= 0xffff_ffff_ffff_ffff,
            winners <= 0xffff_ffff_ffff_ffff,
    ;
    assert((amount * winners) / (losers as int) >= 0) by (nonlinear_arith)
        requires
            amount * winners >= 0,
            losers > 0,
    ;
    (amount as u128) * (winners as u128) / (losers as u128)
}

/// The figures of a round as a snapshot keeps them: all but the digest.
pub struct BetStable {
    /// When the first bet was placed; zero before that.
    pub started: u64,
    /// The sum of all stakes.
    pub total_bets: u64,
    /// The stakes.
    pub bets: Vec<Stake>,
    /// The sum of the stakes on every outcome that somebody is on.
    pub sum_map: HashMap<u8, u64>,
}

/// The figures of a round, lent out of the round to be written down.
pub struct BetStableBorrowed<'a> {
    /// When the first bet was placed; zero before that.
    pub started: u64,
    /// The sum of all stakes.
    pub total_bets: u64,
    /// The stakes.
    pub bets: &'a Vec<Stake>,
    /// The sum of the stakes on every outcome that somebody is on.
    pub sum_map: &'a HashMap<u8, u64>,
}

/// Whether nobody has two stakes on one outcome.
fn keys_differ(stakes: &Vec<Stake>) -> (ok: bool)
    ensures
        ok == distinct_keys(stake_entries(stakes@)),
{
    let ghost s = stake_entries(stakes@);
    let mut i: usize = 0;
    while i < stakes.len()
        invariant
            i <= stakes@.len(),
            s == stake_entries(stakes@),
            distinct_keys(s.take(i as int)),
        decreases stakes@.len() - i,
    {
        let mut j: usize = 0;
        while j < i
            invariant
                j <= i < stakes@.len(),
                s == stake_entries(stakes@),
                forall|k: int| 0 <= k < j ==> (#[trigger] s[k]).0 != s[i as int].0,
            decreases i - j,
        {
            if stakes[j].number == stakes[i].number && stakes[j].user.same(&stakes[i].user) {
                assert(s[j as int].0 == s[i as int].0);
                return false;
            }
            j += 1;
        }
        proof {
            let t = s.take(i as int);
            let u = s.take(i + 1);
            assert forall|a: int, b: int| 0 <= a < u.len() && 0 <= b < u.len() && a != b implies (
            #[trigger] u[a]).0 != (#[trigger] u[b]).0 by {
                if a < i && b < i {
                    assert(t[a].0 != t[b].0);
                } else if a < i {
                    assert(s[a].0 != s[i as int].0);
                } else {
                    assert(s[b].0 != s[i as int].0);
                }
            }
        }
        i += 1;
    }
    assert(s.take(i as int) =~= s);
    true
}

/// The sum of all stakes, where it fits in `u64`.
fn sum_of(stakes: &Vec<Stake>) -> (sum: Option<u64>)
    ensures
        match sum {
            Some(sum) => sum == total(stake_entries(stakes@)),
            None => total(stake_entries(stakes@)) > u64::MAX,
        },
{
    let ghost s = stake_entries(stakes@);
    let mut sum: u64 = 0;
    let mut i: usize = 0;
    while i < stakes.len()
        invariant
            i <= stakes@.len(),
            s == stake_entries(stakes@),
            sum == total(s.take(i as int)),
        decreases stakes@.len() - i,
    {
        proof {
            lemma_weighted_step(s, i as int, face_value());
            lemma_weighted_prefix(s, i + 1, face_value());
        }
        match sum.checked_add(stakes[i].amount) {
            Some(next) => {
                sum = next;
            },
            None => {
                return None;
            },
        }
        i += 1;
    }
    assert(s.take(i as int) =~= s);
    Some(sum)
}

/// Whether somebody is on `number`, and the sum of the stakes on it.
fn tally(stakes: &Vec<Stake>, number: u8) -> (found: (bool, u64))
    requires
        total(stake_entries(stakes@)) <= u64::MAX,
    ensures
        found.0 == outcome_present(stake_entries(stakes@), number),
        found.1 == staked_on(stake_entries(stakes@), number),
{
    let ghost s = stake_entries(stakes@);
    let mut present = false;
    let mut sum: u64 = 0;
    let mut i: usize = 0;
    proof {
        lemma_outcome_within_total(s, number);
    }
    while i < stakes.len()
        invariant
            i <= stakes@.len(),
            s == stake_entries(stakes@),
            staked_on(s, number) <= u64::MAX,
            sum == staked_on(s.take(i as int), number),
            present == outcome_present(s.take(i as int), number),
        decreases stakes@.len() - i,
    {
        proof {
            lemma_weighted_step(s, i as int, on_outcome(number));
            lemma_weighted_prefix(s, i + 1, on_outcome(number));
            let t = s.take(i as int);
            let u = s.take(i + 1);
            if outcome_present(t, number) {
                let w = choose|j: int| 0 <= j < t.len() && (#[trigger] t[j]).0.1 == number;
                assert(u[w].0.1 == number);
            }
            if s[i as int].0.1 == number {
                assert(u[i as int].0.1 == number);
            }
            if outcome_present(u, number) && s[i as int].0.1 != number {
                let w = choose|j: int| 0 <= j < u.len() && (#[trigger] u[j]).0.1 == number;
                assert(t[w].0.1 == number);
            }
        }
        if stakes[i].number == number {
            present = true;
            sum = sum + stakes[i].amount;
        }
        i += 1;
    }
    assert(s.take(i as int) =~= s);
    (present, sum)
}

impl BetStable {
    /// The figures agree, as those of a round do.
    pub open spec fn wf(&self) -> bool {
        figures_agree(stake_entries(self.bets@), self.total_bets, self.sum_map@)
    }

    /// Whether the figures agree.
    pub fn is_consistent(&self) -> (ok: bool)
        ensures
            ok == self.wf(),
    {
        let ghost s = stake_entries(self.bets@);
        if !keys_differ(&self.bets) {
            return false;
        }
        match sum_of(&self.bets) {
            Some(sum) => {
                if sum != self.total_bets {
                    return false;
                }
            },
            None => {
                return false;
            },
        }
        let mut n: u16 = 0;
        while n < 256
            invariant
                n <= 256,
                s == stake_entries(self.bets@),
                total(s) <= u64::MAX,
                forall|o: u8| o < n ==> (#[trigger] self.sum_map@.contains_key(o) <==> outcome_present(s, o)),
                forall|o: u8|
                    o < n && #[trigger] self.sum_map@.contains_key(o) ==> self.sum_map@[o] == staked_on(s, o),
            decreases 256 - n,
        {
            let number = n as u8;
            let found = tally(&self.bets, number);
            match self.sum_map.get(&number) {
                Some(sum) => {
                    if !found.0 || *sum != found.1 {
                        assert(self.sum_map@.contains_key(number));
                        return false;
                    }
                },
                None => {
                    if found.0 {
                        assert(!self.sum_map@.contains_key(number));
                        return false;
                    }
                },
            }
            n += 1;
        }
        true
    }
}

/// A pooled-stake betting round.
///
/// Bets add to the stakes and feed the running digest; closing the round
/// takes the winner from the digest, pays the winners out of nothing into
/// the ledger and empties the round.
pub struct Bet {
    started: u64,
    total_bets: u64,
    hasher: Sha224,
    fed: u64,
    bets: Vec<Stake>,
    sum_map: HashMap<u8, u64>,
}

impl Bet {
    /// When the first bet was placed; zero before that.
    pub closed spec fn spec_started(&self) -> u64 {
        self.started
    }

    /// The sum of all stakes of the round.
    pub closed spec fn spec_total_bets(&self) -> u64 {
        self.total_bets
    }

    /// The stakes as pairs of key and amount, in the order in which they
    /// were opened.
    pub closed spec fn entries(&self) -> Seq<((Seq<u8>, u8), u64)> {
        stake_entries(self.bets@)
    }

    /// The stake of every participant on every outcome that they are on.
    pub open spec fn stakes(&self) -> Map<(Seq<u8>, u8), u64> {
        as_map(self.entries())
    }

    /// What `user` has wagered on `number`, zero where they have no stake.
    pub open spec fn stake_of(&self, user: Seq<u8>, number: u8) -> u64 {
        amount_of(self.entries(), (user, number))
    }

    /// For every outcome that somebody is on, the sum of the stakes on it.
    pub closed spec fn outcome_totals(&self) -> Map<u8, u64> {
        self.sum_map@
    }

    /// The sum of the stakes on `number`, zero where nobody is on it.
    pub open spec fn outcome_total(&self, number: u8) -> u64 {
        if self.outcome_totals().contains_key(number) {
            self.outcome_totals()[number]
        } else {
            0
        }
    }

    /// The bytes that the running digest has absorbed.
    pub closed spec fn transcript(&self) -> Seq<u8> {
        absorbed(self.hasher)
    }

    /// The outcome that wins if the round is closed now.
    pub open spec fn next_winner(&self) -> u8 {
        winning_outcome(self.transcript())
    }

    /// The figures of the round agree, and the transcript is no longer than
    /// the digest can take.
    pub closed spec fn wf(&self) -> bool {
        &&& figures_agree(self.entries(), self.total_bets, self.sum_map@)
        &&& self.fed == absorbed(self.hasher).len()
        &&& self.fed <= MAX_MESSAGE_LEN
    }

    /// What a round that is `wf` promises of its figures.
    pub proof fn lemma_wf(&self)
        requires
            self.wf(),
        ensures
            figures_agree(self.entries(), self.spec_total_bets(), self.outcome_totals()),
            self.transcript().len() <= MAX_MESSAGE_LEN,
            forall|o: u8| #[trigger] self.outcome_total(o) == staked_on(self.entries(), o),
            forall|o: u8| #[trigger] self.outcome_total(o) <= self.spec_total_bets(),
    {
        assert forall|o: u8| #[trigger]
            self.outcome_total(o) == staked_on(self.entries(), o) && self.outcome_total(o)
                <= self.spec_total_bets() by {
            lemma_outcome_within_total(self.entries(), o);
            if !self.sum_map@.contains_key(o) {
                lemma_absent_outcome(self.entries(), o);
            }
        }
    }

    /// Looks for the stake of `user` on `number`.
    fn find(&self, user: &ParticipantId, number: u8) -> (at: Option<usize>)
        ensures
            match at {
                Some(i) => i < self.bets@.len() && self.entries()[i as int].0 == (user@, number),
                None => !has_key(self.entries(), (user@, number)),
            },
    {
        let mut i: usize = 0;
        while i < self.bets.len()
            invariant
                i <= self.bets@.len(),
                forall|j: int| 0 <= j < i ==> (#[trigger] self.entries()[j]).0 != (user@, number),
            decreases self.bets@.len() - i,
        {
            if self.bets[i].number == number && self.bets[i].user.same(user) {
                return Some(i);
            }
            i += 1;
        }
        None
    }

    /// The sum of the stakes on `number`.
    fn total_on(&self, number: u8) -> (sum: u64)
        ensures
            sum == self.outcome_total(number),
    {
        match self.sum_map.get(&number) {
            Some(sum) => *sum,
            None => 0,
        }
    }

    /// Places a bet of `amount` for `user` on `number` at time `now`.
    ///
    /// The first bet of a round sets its start to `now`. Every bet, one of
    /// zero too, feeds the bytes of `user` and then `number` to the digest,
    /// and adds `amount` to the total, to the stake of `user` on `number` and
    /// to the total on `number`. A bet that would take the total beyond
    /// `u64`, or the transcript beyond what the digest can take, is refused
    /// and changes nothing.
    pub fn bet(&mut self, user: ParticipantId, number: u8, amount: u64, now: u64) -> (done: Result<
        (),
        Error,
    >)
        requires
            old(self).wf(),
        ensures
            final(self).wf(),
            done is Err <==> old(self).spec_total_bets() + amount > u64::MAX || old(self).transcript().len()
                + user@.len() + 1 > MAX_MESSAGE_LEN,
            done is Err ==> done == Err::<(), Error>(Error::ArithmeticOverflow) && *final(self) == *old(
                self,
            ),
            done is Ok ==> {
                &&& final(self).spec_started() == if old(self).spec_started() == 0 {
                    now
                } else {
                    old(self).spec_started()
                }
                &&& final(self).transcript() == old(self).transcript() + user@ + seq![number]
                &&& final(self).spec_total_bets() == old(self).spec_total_bets() + amount
                &&& final(self).entries() == if has_key(old(self).entries(), (user@, number)) {
                    old(self).entries().update(
                        position(old(self).entries(), (user@, number)),
                        ((user@, number), (old(self).stake_of(user@, number) + amount) as u64),
                    )
                } else {
                    old(self).entries().push(((user@, number), amount))
                }
                &&& final(self).stakes() == old(self).stakes().insert(
                    (user@, number),
                    (old(self).stake_of(user@, number) + amount) as u64,
                )
                &&& final(self).stake_of(user@, number) == old(self).stake_of(user@, number) + amount
                &&& final(self).outcome_totals() == old(self).outcome_totals().insert(
                    number,
                    (old(self).outcome_total(number) + amount) as u64,
                )
                &&& final(self).outcome_total(number) == old(self).outcome_total(number) + amount
                &&& forall|who: Seq<u8>, o: u8|
                    (who, o) != (user@, number) ==> #[trigger] final(self).stake_of(who, o) == old(
                        self,
                    ).stake_of(who, o)
                &&& forall|o: u8|
                    o != number ==> #[trigger] final(self).outcome_total(o) == old(self).outcome_total(o)
            },
    {
        let ghost prior = *self;
        let ghost before = self.entries();
        let ghost key = (user@, number);
        proof {
            self.lemma_wf();
            assert(prior.outcome_total(number) == staked_on(before, number));
        }
        let sum = match self.total_bets.checked_add(amount) {
            Some(sum) => sum,
            None => {
                return Err(Error::ArithmeticOverflow);
            },
        };
        let room = MAX_MESSAGE_LEN - self.fed;
        let len = user.as_slice().len();
        if room == 0 || len as u64 > room - 1 {
            return Err(Error::ArithmeticOverflow);
        }
        if self.started == 0 {
            self.started = now;
        }
        absorb(&mut self.hasher, user.as_slice());
        let tail: Vec<u8> = vec![number];
        absorb(&mut self.hasher, tail.as_slice());
        assert(tail@ =~= seq![number]);
        self.fed = self.fed + len as u64 + 1;
        self.total_bets = sum;
        let on_number = self.total_on(number);
        assert(on_number == prior.outcome_total(number));
        match self.find(&user, number) {
            Some(i) => {
                proof {
                    lemma_position(before, i as int);
                    lemma_weighted_member(before, i as int, face_value());
                }
                let held = self.bets[i].amount;
                self.bets.set(i, Stake { user, number, amount: held + amount });
                proof {
                    let pair = (key, (held + amount) as u64);
                    assert(self.entries() =~= before.update(i as int, pair));
                    lemma_update(before, i as int, (held + amount) as u64);
                    lemma_weighted_update(before, i as int, pair, face_value());
                    assert forall|o: u8| staked_on(self.entries(), o) == staked_on(before, o) + (if o
                        == number {
                        amount as nat
                    } else {
                        0
                    }) && outcome_present(self.entries(), o) == outcome_present(before, o) by {
                        lemma_weighted_update(before, i as int, pair, on_outcome(o));
                        if outcome_present(before, o) {
                            let w = choose|j: int| 0 <= j < before.len() && (#[trigger] before[j]).0.1 == o;
                            assert(self.entries()[w].0.1 == o);
                        }
                        if outcome_present(self.entries(), o) {
                            let w = choose|j: int|
                                0 <= j < self.entries().len() && (#[trigger] self.entries()[j]).0.1 == o;
                            assert(before[w].0.1 == o);
                        }
                    }
                    assert(before[i as int].0.1 == number);
                }
            },
            None => {
                self.bets.push(Stake { user, number, amount });
                proof {
                    assert(self.entries() =~= before.push((key, amount)));
                    lemma_push(before, key, amount);
                    lemma_weighted_push(before, (key, amount), face_value());
                    assert forall|o: u8| staked_on(self.entries(), o) == staked_on(before, o) + (if o
                        == number {
                        amount as nat
                    } else {
                        0
                    }) && outcome_present(self.entries(), o) == (outcome_present(before, o) || o == number) by {
                        lemma_weighted_push(before, (key, amount), on_outcome(o));
                        if outcome_present(before, o) {
                            let w = choose|j: int| 0 <= j < before.len() && (#[trigger] before[j]).0.1 == o;
                            assert(self.entries()[w].0.1 == o);
                        }
                        if o == number {
                            assert(self.entries()[before.len() as int].0.1 == o);
                        }
                        if outcome_present(self.entries(), o) && o != number {
                            let w = choose|j: int|
                                0 <= j < self.entries().len() && (#[trigger] self.entries()[j]).0.1 == o;
                            assert(before[w].0.1 == o);
                        }
                    }
                }
            },
        }
        proof {
            lemma_outcome_within_total(self.entries(), number);
        }
        let ghost totals = self.sum_map@;
        self.sum_map.insert(number, on_number + amount);
        proof {
            let s = self.entries();
            let m = self.sum_map@;
            assert(m == totals.insert(number, (on_number + amount) as u64));
            assert forall|o: u8| #[trigger] m.contains_key(o) <==> outcome_present(s, o) by {
                assert(totals.contains_key(o) <==> outcome_present(before, o));
            }
            assert forall|o: u8| #[trigger] m.contains_key(o) implies m[o] == staked_on(s, o) by {
                assert(totals.contains_key(o) <==> outcome_present(before, o));
                if o != number {
                    assert(totals.contains_key(o));
                    assert(totals[o] == staked_on(before, o));
                    assert(staked_on(s, o) == staked_on(before, o));
                } else {
                    assert(staked_on(s, o) == staked_on(before, o) + amount);
                }
            }
        }
        Ok(())
    }

    /// The sum of all stakes of the round.
    pub fn get_total_bets(&self) -> (sum: u64)
        ensures
            sum == self.spec_total_bets(),
    {
        self.total_bets
    }

    /// Takes the winner from the digest and starts the digest of the next
    /// round with the bytes of this one's.
    fn generate_winner(&mut self) -> (winner: u8)
        requires
            old(self).wf(),
        ensures
            final(self).wf(),
            winner == old(self).next_winner(),
            final(self).transcript() == sha224(old(self).transcript()),
            final(self).spec_started() == old(self).spec_started(),
            final(self).spec_total_bets() == old(self).spec_total_bets(),
            final(self).entries() == old(self).entries(),
            final(self).outcome_totals() == old(self).outcome_totals(),
    {
        let mut hasher = start();
        std::mem::swap(&mut self.hasher, &mut hasher);
        let hash = finish(hasher);
        let winner = hash[0];
        absorb(&mut self.hasher, hash.as_slice());
        self.fed = DIGEST_LEN;
        assert(Seq::<u8>::empty() + hash@ =~= hash@);
        winner
    }

    /// The outcome that wins if the round is closed now.
    pub fn peek_winner(&self) -> (winner: u8)
        ensures
            winner == self.next_winner(),
    {
        let hash = finish(fork(&self.hasher));
        hash[0]
    }

    /// The sum of the stakes on all outcomes but `winner`.
    pub open spec fn losers_total(&self, winner: u8) -> int {
        self.spec_total_bets() - self.outcome_total(winner)
    }

    /// What `user` is paid if `winner` wins.
    pub open spec fn award(&self, user: Seq<u8>, winner: u8) -> nat {
        payout(
            self.stake_of(user, winner) as int,
            self.outcome_total(winner) as int,
            self.losers_total(winner),
        )
    }

    /// The sum of what all participants are paid if `winner` wins.
    pub open spec fn payout_total(&self, winner: u8) -> nat {
        weighted(self.entries(), prize(winner, self.outcome_total(winner) as int, self.losers_total(winner)))
    }

    /// Whether the ledger can take the payouts of this round if `winner`
    /// wins: whether its supply stays within `u64`.
    pub fn payouts_fit(&self, ledger: &Ledger, winner: u8) -> (fits: bool)
        requires
            self.wf(),
        ensures
            fits == (ledger.supply + self.payout_total(winner) <= u64::MAX),
    {
        proof {
            self.lemma_wf();
        }
        let winners = self.total_on(winner);
        let losers = self.total_bets - winners;
        let ghost s = self.entries();
        let ghost f = prize(winner, winners as int, losers as int);
        if winners == 0 || losers == 0 {
            proof {
                lemma_weighted_zero(s, f);
            }
            return true;
        }
        let mut room: u64 = u64::MAX - ledger.supply;
        let mut i: usize = 0;
        while i < self.bets.len()
            invariant
                i <= self.bets@.len(),
                s == self.entries(),
                f == prize(winner, winners as int, losers as int),
                winners > 0,
                losers > 0,
                winners == self.outcome_total(winner),
                losers == self.losers_total(winner),
                room == u64::MAX - ledger.supply - weighted(s.take(i as int), f),
            decreases self.bets@.len() - i,
        {
            proof {
                lemma_weighted_step(s, i as int, f);
                lemma_weighted_prefix(s, i + 1, f);
            }
            if self.bets[i].number == winner {
                let award = award_for(self.bets[i].amount, winners, losers);
                assert(f(s[i as int].0, s[i as int].1) == award);
                if award > room as u128 {
                    return false;
                }
                room = room - award as u64;
            }
            i += 1;
        }
        assert(s.take(i as int) =~= s);
        true
    }

    /// Pays the round out for `winner` and empties it.
    ///
    /// Where both the sum on `winner` and the sum on the other outcomes are
    /// positive, every stake on `winner` is paid its `payout` by a deposit
    /// into the ledger. Then the total and all stakes are reset. The start of
    /// the round is kept as it is, so that a round that was ever started
    /// never reads as not started again; the digest is not touched.
    pub fn settle(&mut self, ledger: &mut Ledger, winner: u8)
        requires
            old(self).wf(),
            old(ledger).wf(),
            old(ledger).supply + old(self).payout_total(winner) <= u64::MAX,
        ensures
            final(self).wf(),
            final(ledger).wf(),
            final(ledger).supply == old(ledger).supply + old(self).payout_total(winner),
            forall|who: Seq<u8>| #[trigger]
                final(ledger).spec_balance(who) == old(ledger).spec_balance(who) + old(self).award(who, winner),
            forall|who: Seq<u8>| #[trigger]
                final(ledger)@.contains_key(who) <==> old(ledger)@.contains_key(who) || old(self).award(
                    who,
                    winner,
                ) > 0,
            final(self).spec_total_bets() == 0,
            final(self).entries() == Seq::<((Seq<u8>, u8), u64)>::empty(),
            final(self).stakes() == Map::<(Seq<u8>, u8), u64>::empty(),
            final(self).outcome_totals() == Map::<u8, u64>::empty(),
            final(self).spec_started() == old(self).spec_started(),
            final(self).transcript() == old(self).transcript(),
    {
        proof {
            self.lemma_wf();
        }
        let winners = self.total_on(winner);
        let losers = self.total_bets - winners;
        let ghost s = self.entries();
        let ghost f = prize(winner, winners as int, losers as int);
        let ghost start = *ledger;
        if winners > 0 && losers > 0 {
            let mut i: usize = 0;
            proof {
                lemma_empty::<(Seq<u8>, u8)>();
                assert(s.take(0) =~= Seq::empty());
            }
            while i < self.bets.len()
                invariant
                    i <= self.bets@.len(),
                    s == self.entries(),
                    distinct_keys(s),
                    f == prize(winner, winners as int, losers as int),
                    winners > 0,
                    losers > 0,
                    ledger.wf(),
                    start.supply + weighted(s, f) <= u64::MAX,
                    ledger.supply == start.supply + weighted(s.take(i as int), f),
                    forall|who: Seq<u8>| #[trigger]
                        ledger.spec_balance(who) == start.spec_balance(who) + payout(
                            amount_of(s.take(i as int), (who, winner)) as int,
                            winners as int,
                            losers as int,
                        ),
                    forall|who: Seq<u8>| #[trigger]
                        ledger@.contains_key(who) <==> start@.contains_key(who) || payout(
                            amount_of(s.take(i as int), (who, winner)) as int,
                            winners as int,
                            losers as int,
                        ) > 0,
                decreases self.bets@.len() - i,
            {
                let ghost t = s.take(i as int);
                let ghost pair = s[i as int];
                let ghost earlier = *ledger;
                proof {
                    lemma_weighted_step(s, i as int, f);
                    lemma_weighted_prefix(s, i + 1, f);
                    lemma_prefix(s, i as int);
                    lemma_push(t, pair.0, pair.1);
                }
                if self.bets[i].number == winner {
                    let award = award_for(self.bets[i].amount, winners, losers);
                    ledger.deposit(self.bets[i].user.clone(), award as u64);
                    proof {
                        let user = pair.0.0;
                        assert(pair.0 == (user, winner));
                        assert forall|who: Seq<u8>|
                            who != user implies amount_of(s.take(i + 1), (who, winner)) == amount_of(
                            t,
                            (who, winner),
                        ) by {
                            assert((who, winner) != pair.0);
                        }
                        assert(amount_of(t, (user, winner)) == 0);
                        assert forall|who: Seq<u8>| #[trigger]
                            ledger@.contains_key(who) <==> start@.contains_key(who) || payout(
                                amount_of(s.take(i + 1), (who, winner)) as int,
                                winners as int,
                                losers as int,
                            ) > 0 by {
                            assert(earlier@.contains_key(who) <==> start@.contains_key(who) || payout(
                                amount_of(t, (who, winner)) as int,
                                winners as int,
                                losers as int,
                            ) > 0);
                        }
                    }
                } else {
                    proof {
                        assert forall|who: Seq<u8>|
                            amount_of(s.take(i + 1), (who, winner)) == amount_of(t, (who, winner)) by {
                            assert((who, winner) != pair.0);
                        }
                    }
                }
                i += 1;
            }
            assert(s.take(i as int) =~= s);
        } else {
            proof {
                lemma_weighted_zero(s, f);
            }
        }
        self.total_bets = 0;
        self.bets.clear();
        self.sum_map.clear();
        proof {
            lemma_empty::<(Seq<u8>, u8)>();
            assert(self.entries() =~= Seq::empty());
            assert forall|o: u8| !outcome_present(self.entries(), o) by {}
        }
    }

    /// Closes the round: takes the winner from the digest, starts the digest
    /// of the next round with the bytes of this one's, and settles the round
    /// for that winner as [`Bet::settle`] says.
    ///
    /// The supply of the ledger has to have room for the payouts;
    /// [`Bet::try_close`] asks for nothing and tests it.
    pub fn close(&mut self, ledger: &mut Ledger) -> (winner: u8)
        requires
            old(self).wf(),
            old(ledger).wf(),
            old(ledger).supply + old(self).payout_total(old(self).next_winner()) <= u64::MAX,
        ensures
            winner == old(self).next_winner(),
            final(self).wf(),
            final(ledger).wf(),
            final(ledger).supply == old(ledger).supply + old(self).payout_total(winner),
            forall|who: Seq<u8>| #[trigger]
                final(ledger).spec_balance(who) == old(ledger).spec_balance(who) + old(self).award(who, winner),
            forall|who: Seq<u8>| #[trigger]
                final(ledger)@.contains_key(who) <==> old(ledger)@.contains_key(who) || old(self).award(
                    who,
                    winner,
                ) > 0,
            final(self).spec_total_bets() == 0,
            final(self).entries() == Seq::<((Seq<u8>, u8), u64)>::empty(),
            final(self).stakes() == Map::<(Seq<u8>, u8), u64>::empty(),
            final(self).outcome_totals() == Map::<u8, u64>::empty(),
            final(self).spec_started() == old(self).spec_started(),
            final(self).transcript() == sha224(old(self).transcript()),
    {
        let winner = self.generate_winner();
        self.settle(ledger, winner);
        winner
    }

    /// Closes the round as [`Bet::close`] does if the supply of the ledger
    /// has room for the payouts; refuses and changes nothing, the digest
    /// included, if it has not.
    pub fn try_close(&mut self, ledger: &mut Ledger) -> (closed: Result<u8, Error>)
        requires
            old(self).wf(),
            old(ledger).wf(),
        ensures
            final(self).wf(),
            final(ledger).wf(),
            closed is Err <==> old(ledger).supply + old(self).payout_total(old(self).next_winner()) > u64::MAX,
            closed is Err ==> closed == Err::<u8, Error>(Error::ArithmeticOverflow) && *final(self) == *old(
                self,
            ) && *final(ledger) == *old(ledger),
            closed matches Ok(winner) ==> {
                &&& winner == old(self).next_winner()
                &&& final(ledger).supply == old(ledger).supply + old(self).payout_total(winner)
                &&& forall|who: Seq<u8>| #[trigger]
                    final(ledger).spec_balance(who) == old(ledger).spec_balance(who) + old(self).award(
                        who,
                        winner,
                    )
                &&& forall|who: Seq<u8>| #[trigger]
                    final(ledger)@.contains_key(who) <==> old(ledger)@.contains_key(who) || old(self).award(
                        who,
                        winner,
                    ) > 0
                &&& final(self).spec_total_bets() == 0
                &&& final(self).entries() == Seq::<((Seq<u8>, u8), u64)>::empty()
                &&& final(self).stakes() == Map::<(Seq<u8>, u8), u64>::empty()
                &&& final(self).outcome_totals() == Map::<u8, u64>::empty()
                &&& final(self).spec_started() == old(self).spec_started()
                &&& final(self).transcript() == sha224(old(self).transcript())
            },
    {
        let winner = self.peek_winner();
        if self.payouts_fit(ledger, winner) {
            Ok(self.close(ledger))
        } else {
            Err(Error::ArithmeticOverflow)
        }
    }

    /// The figures of the round, lent to be written down. The digest is not
    /// among them.
    pub fn archive(&self) -> (record: BetStableBorrowed<'_>)
        ensures
            record.started == self.spec_started(),
            record.total_bets == self.spec_total_bets(),
            stake_entries(record.bets@) == self.entries(),
            record.sum_map@ == self.outcome_totals(),
    {
        BetStableBorrowed {
            started: self.started,
            total_bets: self.total_bets,
            bets: &self.bets,
            sum_map: &self.sum_map,
        }
    }

    /// Releases memory that the stakes do not need.
    pub fn free(&mut self)
        ensures
            final(self).wf() == old(self).wf(),
            final(self).spec_started() == old(self).spec_started(),
            final(self).spec_total_bets() == old(self).spec_total_bets(),
            final(self).entries() == old(self).entries(),
            final(self).outcome_totals() == old(self).outcome_totals(),
            final(self).transcript() == old(self).transcript(),
    {
        shrink_vec(&mut self.bets);
        shrink_map(&mut self.sum_map);
    }

    /// Takes over the figures of `data`, read back from a snapshot, provided
    /// that they agree, and starts a digest that has absorbed nothing; else
    /// nothing changes.
    pub fn load(&mut self, data: BetStable) -> (done: Result<(), Error>)
        ensures
            done is Ok <==> data.wf(),
            done is Ok ==> {
                &&& final(self).wf()
                &&& final(self).spec_started() == data.started
                &&& final(self).spec_total_bets() == data.total_bets
                &&& final(self).entries() == stake_entries(data.bets@)
                &&& final(self).outcome_totals() == data.sum_map@
                &&& final(self).transcript() == Seq::<u8>::empty()
            },
            done is Err ==> done == Err::<(), Error>(Error::CorruptSnapshot) && *final(self) == *old(self),
    {
        if !data.is_consistent() {
            return Err(Error::CorruptSnapshot);
        }
        self.started = data.started;
        self.total_bets = data.total_bets;
        self.bets = data.bets;
        self.sum_map = data.sum_map;
        self.hasher = start();
        self.fed = 0;
        if 1000 > self.bets.len() {
            self.bets.reserve(1000 - self.bets.len());
        }
        if 256 > self.sum_map.len() {
            self.sum_map.reserve(256 - self.sum_map.len());
        }
        Ok(())
    }
}

/// The weight that counts the amounts on the outcomes below `bound` only.
pub open spec fn below(bound: int) -> spec_fn((Seq<u8>, u8), u64) -> nat {
    |k: (Seq<u8>, u8), v: u64|
        if k.1 < bound {
            v as nat
        } else {
            0
        }
}

/// The sum of the totals that `totals` lists for the outcomes below `bound`.
pub open spec fn sum_below(totals: Map<u8, u64>, bound: int) -> nat
    decreases bound,
{
    if bound <= 0 {
        0
    } else {
        sum_below(totals, bound - 1) + if totals.contains_key((bound - 1) as u8) {
            totals[(bound - 1) as u8] as nat
        } else {
            0
        }
    }
}

/// The totals of the outcomes below `bound` sum to what is staked on them.
proof fn lemma_sum_below(s: Seq<((Seq<u8>, u8), u64)>, total_bets: u64, totals: Map<u8, u64>, bound: int)
    requires
        figures_agree(s, total_bets, totals),
        0 <= bound <= 256,
    ensures
        sum_below(totals, bound) == weighted(s, below(bound)),
    decreases bound,
{
    if bound == 0 {
        lemma_weighted_zero(s, below(0));
    } else {
        let o = (bound - 1) as u8;
        lemma_sum_below(s, total_bets, totals, bound - 1);
        lemma_weighted_add(s, below(bound - 1), on_outcome(o), below(bound));
        if !totals.contains_key(o) {
            lemma_absent_outcome(s, o);
        }
    }
}

/// The transcript that the digest has absorbed once the bets `bets`, each a
/// participant and an outcome, have been placed in this order on `seed`.
pub open spec fn transcript_after(seed: Seq<u8>, bets: Seq<(Seq<u8>, u8)>) -> Seq<u8>
    decreases bets.len(),
{
    if bets.len() == 0 {
        seed
    } else {
        transcript_after(seed, bets.drop_last()) + bets.last().0 + seq![bets.last().1]
    }
}

/// `after` is `before` with one more bet placed, by `user` on `number`, as
/// far as the digest goes.
pub open spec fn fed_bet(before: Bet, after: Bet, user: Seq<u8>, number: u8) -> bool {
    after.transcript() == before.transcript() + user + seq![number]
}

/// The states of a round run through one bet after the other: `run[0]` is
/// the round before the first bet of `bets`, `run[i + 1]` the round after
/// `bets[i]`.
pub open spec fn is_run(run: Seq<Bet>, bets: Seq<(Seq<u8>, u8)>) -> bool {
    &&& run.len() == bets.len() + 1
    &&& forall|i: int| 0 <= i < bets.len() ==> fed_bet(#[trigger] run[i], run[i + 1], bets[i].0, bets[i].1)
}

/// After a run of bets the transcript is that of the first state with the
/// bets appended.
pub proof fn lemma_run_transcript(run: Seq<Bet>, bets: Seq<(Seq<u8>, u8)>)
    requires
        is_run(run, bets),
    ensures
        run.last().transcript() == transcript_after(run[0].transcript(), bets),
    decreases bets.len(),
{
    if bets.len() > 0 {
        let shorter = run.drop_last();
        let fewer = bets.drop_last();
        assert forall|i: int| 0 <= i < fewer.len() implies fed_bet(
            #[trigger] shorter[i],
            shorter[i + 1],
            fewer[i].0,
            fewer[i].1,
        ) by {
            assert(fed_bet(run[i], run[i + 1], bets[i].0, bets[i].1));
        }
        lemma_run_transcript(shorter, fewer);
        let n = bets.len() - 1;
        assert(fed_bet(run[n], run[n + 1], bets[n].0, bets[n].1));
        assert(shorter.last() == run[n]);
        assert(shorter[0] == run[0]);
    }
}

/// Two rounds whose digests start alike and that take the same bets in the
/// same order have the same winner, whatever was wagered, whenever, and
/// whatever else differs between them.
pub proof fn lemma_same_bets_same_winner(one: Seq<Bet>, other: Seq<Bet>, bets: Seq<(Seq<u8>, u8)>)
    requires
        is_run(one, bets),
        is_run(other, bets),
        one[0].transcript() == other[0].transcript(),
    ensures
        one.last().transcript() == other.last().transcript(),
        one.last().next_winner() == other.last().next_winner(),
{
    lemma_run_transcript(one, bets);
    lemma_run_transcript(other, bets);
}

impl Bet {
    /// The total of the round is the sum of its stakes, and the sum of the
    /// totals of all outcomes.
    pub proof fn lemma_totals_add_up(&self)
        requires
            self.wf(),
        ensures
            self.spec_total_bets() == total(self.entries()),
            self.spec_total_bets() == sum_below(self.outcome_totals(), 256),
    {
        self.lemma_wf();
        lemma_sum_below(self.entries(), self.spec_total_bets(), self.outcome_totals(), 256);
        lemma_weighted_agree(self.entries(), below(256), face_value());
    }

    /// A round in which no bet was placed pays nothing, whoever wins.
    pub proof fn lemma_no_bets_no_payout(&self, winner: u8)
        requires
            self.wf(),
            self.entries().len() == 0,
        ensures
            self.payout_total(winner) == 0,
            forall|who: Seq<u8>| #[trigger] self.award(who, winner) == 0,
    {
        self.lemma_wf();
        lemma_weighted_zero(
            self.entries(),
            prize(winner, self.outcome_total(winner) as int, self.losers_total(winner)),
        );
        assert(staked_on(self.entries(), winner) == 0);
    }
}

impl Default for Bet {
    /// The round before its first bet, with a digest that has absorbed
    /// nothing.
    fn default() -> (round: Bet)
        ensures
            round.wf(),
            round.spec_started() == 0,
            round.spec_total_bets() == 0,
            round.entries() == Seq::<((Seq<u8>, u8), u64)>::empty(),
            round.stakes() == Map::<(Seq<u8>, u8), u64>::empty(),
            round.outcome_totals() == Map::<u8, u64>::empty(),
            round.transcript() == Seq::<u8>::empty(),
    {
        let round = Bet {
            started: 0,
            total_bets: 0,
            hasher: start(),
            fed: 0,
            bets: Vec::with_capacity(1000),
            sum_map: HashMap::with_capacity(256),
        };
        proof {
            lemma_empty::<(Seq<u8>, u8)>();
            assert(round.entries() =~= Seq::empty());
        }
        round
    }
}

} // verus!
