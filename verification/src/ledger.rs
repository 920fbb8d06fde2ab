//! The balance ledger: what every participant holds, and the supply.

use crate::assoc::{
    amount_of, as_map, distinct_keys, face_value, has_key, lemma_empty, lemma_position, lemma_push,
    lemma_update, lemma_weighted_member, lemma_weighted_prefix, lemma_weighted_push,
    lemma_weighted_step, lemma_weighted_update, position, total,
};
use crate::capacity::shrink_vec;
use crate::error::Error;
use crate::participant::ParticipantId;
use vstd::prelude::*;

verus! {

/// One line of the ledger.
#[derive(Debug)]
pub struct Account {
    /// Whose balance this is.
    pub owner: ParticipantId,
    /// What they hold.
    pub balance: u64,
}

/// The balances of all participants and their sum, the supply.
///
/// The fields are open so that a ledger can be written out and read back as a
/// plain record; every operation asks for a ledger that is `wf`, and
/// [`Ledger::load`] is where a record read back is held to it.
#[derive(Debug)]
pub struct Ledger {
    /// The sum of all balances.
    pub supply: u64,
    /// One account for each participant that ever received a deposit.
    pub balances: Vec<Account>,
}

impl View for Ledger {
    type V = Map<Seq<u8>, u64>;

    /// The balance of every participant that has an account.
    open spec fn view(&self) -> Map<Seq<u8>, u64> {
        as_map(self.entries())
    }
}

impl Ledger {
    /// The accounts as pairs of identity and balance, in the order in which
    /// they were opened.
    pub open spec fn entries(&self) -> Seq<(Seq<u8>, u64)> {
        Seq::new(self.balances@.len(), |i: int| (self.balances@[i].owner@, self.balances@[i].balance))
    }

    /// The sum of all balances.
    pub open spec fn total_balance(&self) -> nat {
        total(self.entries())
    }

    /// What `who` holds: zero without an account.
    pub open spec fn spec_balance(&self, who: Seq<u8>) -> u64 {
        amount_of(self.entries(), who)
    }

    /// Nobody has two accounts, and the supply is the sum of all balances.
    pub open spec fn wf(&self) -> bool {
        &&& distinct_keys(self.entries())
        &&& self.supply == self.total_balance()
    }

    /// Looks for the account of `account`.
    fn find(&self, account: &ParticipantId) -> (at: Option<usize>)
        ensures
            match at {
                Some(i) => i < self.balances@.len() && self.balances@[i as int].owner@ == account@,
                None => !has_key(self.entries(), account@),
            },
    {
        let mut i: usize = 0;
        while i < self.balances.len()
            invariant
                i <= self.balances@.len(),
                forall|j: int| 0 <= j < i ==> (#[trigger] self.entries()[j]).0 != account@,
            decreases self.balances@.len() - i,
        {
            if self.balances[i].owner.same(account) {
                return Some(i);
            }
            i += 1;
        }
        None
    }

    /// Releases memory that the accounts do not need.
    pub fn free(&mut self)
        ensures
            final(self).supply == old(self).supply,
            final(self).balances@ == old(self).balances@,
    {
        shrink_vec(&mut self.balances);
    }

    /// What `account` holds: zero where there is no such account.
    pub fn balance(&self, account: &ParticipantId) -> (held: u64)
        requires
            self.wf(),
        ensures
            held == self.spec_balance(account@),
            held <= self.supply,
    {
        match self.find(account) {
            Some(i) => {
                proof {
                    lemma_position(self.entries(), i as int);
                    lemma_weighted_member(self.entries(), i as int, face_value());
                }
                self.balances[i].balance
            },
            None => 0,
        }
    }

    /// The sum of all balances.
    pub fn supply(&self) -> (sum: u64)
        ensures
            sum == self.supply,
    {
        self.supply
    }

    /// Mints `amount` and credits it to `account`, opening the account where
    /// there is none. A deposit of zero changes nothing.
    pub fn deposit(&mut self, account: ParticipantId, amount: u64)
        requires
            old(self).wf(),
            old(self).supply + amount <= u64::MAX,
        ensures
            final(self).wf(),
            final(self).supply == final(self).total_balance(),
            final(self).supply == old(self).supply + amount,
            amount == 0 ==> *final(self) == *old(self),
            amount > 0 ==> final(self).entries() == if has_key(old(self).entries(), account@) {
                old(self).entries().update(
                    position(old(self).entries(), account@),
                    (account@, (old(self).spec_balance(account@) + amount) as u64),
                )
            } else {
                old(self).entries().push((account@, amount))
            },
            amount > 0 ==> final(self)@ == old(self)@.insert(
                account@,
                (old(self).spec_balance(account@) + amount) as u64,
            ),
            final(self).spec_balance(account@) == old(self).spec_balance(account@) + amount,
            forall|who: Seq<u8>|
                who != account@ ==> final(self).spec_balance(who) == old(self).spec_balance(who),
    {
        if amount == 0 {
            return ;
        }
        let ghost before = self.entries();
        let ghost who = account@;
        match self.find(&account) {
            Some(i) => {
                proof {
                    lemma_position(before, i as int);
                    lemma_weighted_member(before, i as int, face_value());
                }
                let held = self.balances[i].balance;
                self.balances.set(i, Account { owner: account, balance: held + amount });
                proof {
                    let after = before.update(i as int, (who, (held + amount) as u64));
                    assert(self.entries() =~= after);
                    lemma_update(before, i as int, (held + amount) as u64);
                    lemma_weighted_update(before, i as int, (who, (held + amount) as u64), face_value());
                }
            },
            None => {
                self.balances.push(Account { owner: account, balance: amount });
                proof {
                    assert(self.entries() =~= before.push((who, amount)));
                    lemma_push(before, who, amount);
                    lemma_weighted_push(before, (who, amount), face_value());
                }
            },
        }
        self.supply = self.supply + amount;
    }

    /// Takes `amount` from `account` and out of the supply. Asking for more
    /// than the account holds is refused and changes nothing; asking nothing
    /// of somebody without an account succeeds and changes nothing.
    pub fn withdraw(&mut self, account: &ParticipantId, amount: u64) -> (done: Result<(), Error>)
        requires
            old(self).wf(),
        ensures
            final(self).wf(),
            final(self).supply == final(self).total_balance(),
            done is Err <==> amount > old(self).spec_balance(account@),
            done is Err ==> done == Err::<(), Error>(Error::InsufficientFunds) && *final(self) == *old(self),
            done is Ok ==> final(self).supply == old(self).supply - amount,
            !old(self)@.contains_key(account@) ==> *final(self) == *old(self),
            done is Ok && old(self)@.contains_key(account@) ==> final(self).entries() == old(
                self,
            ).entries().update(
                position(old(self).entries(), account@),
                (account@, (old(self).spec_balance(account@) - amount) as u64),
            ),
            done is Ok ==> final(self)@ == if old(self)@.contains_key(account@) {
                old(self)@.insert(account@, (old(self).spec_balance(account@) - amount) as u64)
            } else {
                old(self)@
            },
            done is Ok ==> final(self).spec_balance(account@) == old(self).spec_balance(account@) - amount,
            forall|who: Seq<u8>|
                who != account@ ==> final(self).spec_balance(who) == old(self).spec_balance(who),
    {
        let ghost before = self.entries();
        match self.find(account) {
            None => {
                if amount == 0 {
                    Ok(())
                } else {
                    Err(Error::InsufficientFunds)
                }
            },
            Some(i) => {
                proof {
                    lemma_position(before, i as int);
                    lemma_weighted_member(before, i as int, face_value());
                }
                let held = self.balances[i].balance;
                if held < amount {
                    return Err(Error::InsufficientFunds);
                }
                let owner = self.balances[i].owner.clone();
                self.balances.set(i, Account { owner, balance: held - amount });
                self.supply = self.supply - amount;
                proof {
                    let after = before.update(i as int, (account@, (held - amount) as u64));
                    assert(self.entries() =~= after);
                    lemma_update(before, i as int, (held - amount) as u64);
                    lemma_weighted_update(before, i as int, (account@, (held - amount) as u64), face_value());
                }
                Ok(())
            },
        }
    }

    /// Whether nobody has two accounts.
    fn owners_differ(&self) -> (ok: bool)
        ensures
            ok == distinct_keys(self.entries()),
    {
        let mut i: usize = 0;
        while i < self.balances.len()
            invariant
                i <= self.balances@.len(),
                distinct_keys(self.entries().take(i as int)),
            decreases self.balances@.len() - i,
        {
            let mut j: usize = 0;
            while j < i
                invariant
                    j <= i < self.balances@.len(),
                    forall|k: int| 0 <= k < j ==> (#[trigger] self.entries()[k]).0 != self.entries()[i as int].0,
                decreases i - j,
            {
                if self.balances[j].owner.same(&self.balances[i].owner) {
                    assert(self.entries()[j as int].0 == self.entries()[i as int].0);
                    return false;
                }
                j += 1;
            }
            proof {
                let s = self.entries().take(i as int);
                let t = self.entries().take(i + 1);
                assert forall|a: int, b: int| 0 <= a < t.len() && 0 <= b < t.len() && a != b implies (
                #[trigger] t[a]).0 != (#[trigger] t[b]).0 by {
                    if a < i && b < i {
                        assert(s[a].0 != s[b].0);
                    } else if a < i {
                        assert(self.entries()[a].0 != self.entries()[i as int].0);
                    } else {
                        assert(self.entries()[b].0 != self.entries()[i as int].0);
                    }
                }
            }
            i += 1;
        }
        assert(self.entries().take(i as int) =~= self.entries());
        true
    }

    /// Whether the ledger is well formed: nobody has two accounts and the
    /// supply is the sum of all balances.
    pub fn is_consistent(&self) -> (ok: bool)
        ensures
            ok == self.wf(),
    {
        if !self.owners_differ() {
            return false;
        }
        let mut sum: u64 = 0;
        let mut i: usize = 0;
        while i < self.balances.len()
            invariant
                i <= self.balances@.len(),
                sum == total(self.entries().take(i as int)),
            decreases self.balances@.len() - i,
        {
            proof {
                lemma_weighted_step(self.entries(), i as int, face_value());
                lemma_weighted_prefix(self.entries(), i + 1, face_value());
            }
            match sum.checked_add(self.balances[i].balance) {
                Some(next) => {
                    sum = next;
                },
                None => {
                    return false;
                },
            }
            i += 1;
        }
        assert(self.entries().take(i as int) =~= self.entries());
        sum == self.supply
    }

    /// Replaces this ledger by `data`, a ledger read back from a snapshot,
    /// provided that `data` is well formed; else nothing changes.
    pub fn load(&mut self, data: Ledger) -> (done: Result<(), Error>)
        ensures
            done is Ok <==> data.wf(),
            done is Ok ==> *final(self) == data,
            done is Err ==> done == Err::<(), Error>(Error::CorruptSnapshot) && *final(self) == *old(self),
    {
        if data.is_consistent() {
            *self = data;
            Ok(())
        } else {
            Err(Error::CorruptSnapshot)
        }
    }
}

impl Default for Ledger {
    /// The ledger in which nobody holds anything.
    fn default() -> (ledger: Ledger)
        ensures
            ledger.wf(),
            ledger.supply == 0,
            ledger.balances@.len() == 0,
            ledger@ == Map::<Seq<u8>, u64>::empty(),
    {
        let ledger = Ledger { supply: 0, balances: Vec::with_capacity(10000) };
        proof {
            lemma_empty::<Seq<u8>>();
            assert(ledger.entries() =~= Seq::empty());
        }
        ledger
    }
}

} // verus!
