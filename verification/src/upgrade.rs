//! Snapshots: the whole state written down before a restart and read back
//! after it.

use crate::bet::{stake_entries, Bet, BetStable, BetStableBorrowed};
use crate::error::Error;
use crate::ledger::Ledger;
use crate::management::Config;
use vstd::prelude::*;

verus! {

/// A snapshot as it is read back: the configuration, the ledger and the
/// figures of the round.
pub struct StableStorage {
    /// The configuration.
    pub config: Config,
    /// The ledger.
    pub ledger: Ledger,
    /// The figures of the round.
    pub bets: BetStable,
}

/// A snapshot as it is taken: lent out of the live state to be written down.
pub struct StableStorageBorrowed<'ledger, 'bet, 'config> {
    /// The configuration.
    pub config: &'config Config,
    /// The ledger.
    pub ledger: &'ledger Ledger,
    /// The figures of the round.
    pub bets: BetStableBorrowed<'bet>,
}

impl StableStorage {
    /// Ledger and round of the snapshot are each well formed.
    pub open spec fn wf(&self) -> bool {
        self.ledger.wf() && self.bets.wf()
    }

    /// The snapshot holds what was taken of `config`, `ledger` and `bets`.
    pub open spec fn depicts(&self, config: Config, ledger: Ledger, bets: Bet) -> bool {
        &&& self.config.controller_id() == config.controller_id()
        &&& self.config.fee_ratio_bits == config.fee_ratio_bits
        &&& self.ledger.supply == ledger.supply
        &&& self.ledger.entries() == ledger.entries()
        &&& self.bets.started == bets.spec_started()
        &&& self.bets.total_bets == bets.spec_total_bets()
        &&& stake_entries(self.bets.bets@) == bets.entries()
        &&& self.bets.sum_map@ == bets.outcome_totals()
    }
}

/// What restoring `stable` makes of a state: `config`, `ledger` and `bets`
/// are the state after it, `kept` is the configuration before it, and `done`
/// is what the restore reports.
///
/// A snapshot that is there and well formed is taken over, with a digest that
/// has absorbed nothing. Without one, ledger and round are empty and the
/// configuration stays as it was; the report then tells a missing snapshot
/// from one whose figures contradict each other.
pub open spec fn restored(
    stable: Option<StableStorage>,
    kept: Config,
    config: Config,
    ledger: Ledger,
    bets: Bet,
    done: Result<(), Error>,
) -> bool {
    &&& ledger.wf()
    &&& bets.wf()
    &&& bets.transcript() == Seq::<u8>::empty()
    &&& match stable {
        Some(stable) if stable.wf() => {
            &&& done is Ok
            &&& config == stable.config
            &&& ledger == stable.ledger
            &&& bets.spec_started() == stable.bets.started
            &&& bets.spec_total_bets() == stable.bets.total_bets
            &&& bets.entries() == stake_entries(stable.bets.bets@)
            &&& bets.outcome_totals() == stable.bets.sum_map@
        },
        _ => {
            &&& done == Err::<(), Error>(
                if stable is Some {
                    Error::CorruptSnapshot
                } else {
                    Error::MissingSnapshot
                },
            )
            &&& config == kept
            &&& ledger.supply == 0
            &&& ledger.balances@.len() == 0
            &&& bets.spec_started() == 0
            &&& bets.spec_total_bets() == 0
            &&& bets.entries() == Seq::<((Seq<u8>, u8), u64)>::empty()
            &&& bets.outcome_totals() == Map::<u8, u64>::empty()
        },
    }
}

/// Takes a snapshot of the state: everything but the digest.
pub fn pre_upgrade<'ledger, 'bet, 'config>(
    config: &'config Config,
    ledger: &'ledger Ledger,
    bets: &'bet Bet,
) -> (stable: StableStorageBorrowed<'ledger, 'bet, 'config>)
    ensures
        *stable.config == *config,
        *stable.ledger == *ledger,
        stable.bets.started == bets.spec_started(),
        stable.bets.total_bets == bets.spec_total_bets(),
        stake_entries(stable.bets.bets@) == bets.entries(),
        stable.bets.sum_map@ == bets.outcome_totals(),
{
    StableStorageBorrowed { config, ledger, bets: bets.archive() }
}

/// Restores the state from `stable`, the snapshot read back, or from
/// nothing where none could be read: see [`restored`].
pub fn post_upgrade(
    config: &mut Config,
    ledger: &mut Ledger,
    bets: &mut Bet,
    stable: Option<StableStorage>,
) -> (done: Result<(), Error>)
    ensures
        restored(stable, *old(config), *final(config), *final(ledger), *final(bets), done),
{
    ledger.free();
    bets.free();
    match stable {
        Some(stable) => {
            if bets.load(stable.bets).is_ok() {
                if ledger.load(stable.ledger).is_ok() {
                    *config = stable.config;
                    return Ok(());
                }
            }
            *ledger = Ledger::default();
            *bets = Bet::default();
            Err(Error::CorruptSnapshot)
        },
        None => {
            *ledger = Ledger::default();
            *bets = Bet::default();
            Err(Error::MissingSnapshot)
        },
    }
}

/// Taking a snapshot of a well-formed state and restoring it gives the state
/// back: the same configuration, balances, supply, stakes and totals by
/// outcome, with a digest that has absorbed nothing.
pub proof fn lemma_snapshot_round_trip(
    config: Config,
    ledger: Ledger,
    bets: Bet,
    stable: StableStorage,
    kept: Config,
    config_after: Config,
    ledger_after: Ledger,
    bets_after: Bet,
    done: Result<(), Error>,
)
    requires
        ledger.wf(),
        bets.wf(),
        stable.depicts(config, ledger, bets),
        restored(Some(stable), kept, config_after, ledger_after, bets_after, done),
    ensures
        done is Ok,
        config_after.controller_id() == config.controller_id(),
        config_after.fee_ratio_bits == config.fee_ratio_bits,
        ledger_after.supply == ledger.supply,
        ledger_after@ == ledger@,
        bets_after.spec_started() == bets.spec_started(),
        bets_after.spec_total_bets() == bets.spec_total_bets(),
        bets_after.stakes() == bets.stakes(),
        bets_after.outcome_totals() == bets.outcome_totals(),
        bets_after.transcript() == Seq::<u8>::empty(),
{
    bets.lemma_wf();
}

} // verus!
