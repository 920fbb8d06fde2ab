//! The configuration of the service and the guard of its privileged calls.

use crate::bet::Bet;
use crate::error::Error;
use crate::ledger::Ledger;
use crate::participant::ParticipantId;
use vstd::prelude::*;

verus! {

/// The bit pattern of the fee ratio `4.0` as an IEEE 754 double.
pub const DEFAULT_FEE_RATIO_BITS: u64 = 0x4010_0000_0000_0000;

/// What the service is configured with.
#[derive(Debug)]
pub struct Config {
    /// Who may make privileged calls; nobody before the service is set up.
    pub controller: Option<ParticipantId>,
    /// The fee ratio, as the bit pattern of an IEEE 754 double.
    pub fee_ratio_bits: u64,
}

impl Config {
    /// The bytes of the controller's identity, where there is a controller.
    pub open spec fn controller_id(&self) -> Option<Seq<u8>> {
        match self.controller {
            Some(controller) => Some(controller@),
            None => None,
        }
    }
}

impl Default for Config {
    /// No controller, and a fee ratio of four.
    fn default() -> (config: Config)
        ensures
            config.controller is None,
            config.fee_ratio_bits == DEFAULT_FEE_RATIO_BITS,
    {
        Config { controller: None, fee_ratio_bits: DEFAULT_FEE_RATIO_BITS }
    }
}

/// The guard of the privileged calls.
pub struct Controller;

impl Controller {
    /// Makes `user` the controller if there is none yet.
    pub fn load_if_not_present(config: &mut Config, user: ParticipantId)
        ensures
            final(config).controller == if old(config).controller is None {
                Some(user)
            } else {
                old(config).controller
            },
            final(config).controller_id() == if old(config).controller is None {
                Some(user@)
            } else {
                old(config).controller_id()
            },
            final(config).fee_ratio_bits == old(config).fee_ratio_bits,
    {
        if config.controller.is_none() {
            config.controller = Some(user);
        }
    }

    /// The controller.
    pub fn get_principal(config: &Config) -> (controller: ParticipantId)
        requires
            config.controller is Some,
        ensures
            Some(controller@) == config.controller_id(),
    {
        match &config.controller {
            Some(controller) => controller.clone(),
            None => {
                assert(false);
                ParticipantId::from_bytes(Vec::new())
            },
        }
    }

    /// Lets the controller pass and refuses everybody else; while there is
    /// no controller, everybody is refused.
    pub fn call_guard(config: &Config, caller: &ParticipantId) -> (passed: Result<(), Error>)
        ensures
            passed is Ok <==> config.controller_id() == Some(caller@),
            passed is Err ==> passed == Err::<(), Error>(Error::Unauthorized),
    {
        match &config.controller {
            Some(controller) => {
                if controller.same(caller) {
                    Ok(())
                } else {
                    Err(Error::Unauthorized)
                }
            },
            None => Err(Error::Unauthorized),
        }
    }
}

/// Sets the service up: its first caller becomes the controller.
pub fn init(config: &mut Config, caller: ParticipantId)
    ensures
        final(config).controller_id() == if old(config).controller is None {
            Some(caller@)
        } else {
            old(config).controller_id()
        },
        final(config).fee_ratio_bits == old(config).fee_ratio_bits,
{
    Controller::load_if_not_present(config, caller);
}

/// What `caller` holds.
pub fn balance(ledger: &Ledger, caller: &ParticipantId) -> (held: u64)
    requires
        ledger.wf(),
    ensures
        held == ledger.spec_balance(caller@),
{
    ledger.balance(caller)
}

/// The figures that the service reports.
#[derive(Clone, Copy, Debug, PartialEq, Eq, Structural)]
pub struct Stats {
    /// What the host holds for the service.
    pub balance: u64,
    /// What the service itself holds in the ledger.
    pub captured_fees: u64,
    /// The supply of the ledger.
    pub ledger_supply: u64,
    /// The sum of all stakes of the current round.
    pub total_bets: u64,
    /// The winner of the round closed last.
    pub previous_number: u64,
}

/// Gathers the figures to report: `host_balance` and `previous_number` as
/// they are handed in, the rest read from the ledger and the round, where
/// `service` is the identity under which the service holds its fees.
pub fn stats(
    ledger: &Ledger,
    bets: &Bet,
    host_balance: u64,
    service: &ParticipantId,
    previous_number: u64,
) -> (figures: Stats)
    requires
        ledger.wf(),
    ensures
        figures == (Stats {
            balance: host_balance,
            captured_fees: ledger.spec_balance(service@),
            ledger_supply: ledger.supply,
            total_bets: bets.spec_total_bets(),
            previous_number,
        }),
{
    Stats {
        balance: host_balance,
        captured_fees: ledger.balance(service),
        ledger_supply: ledger.supply(),
        total_bets: bets.get_total_bets(),
        previous_number,
    }
}

/// Sends the captured fees away, which only the controller may ask for.
/// Nothing is sent yet: the call passes the guard or is refused.
pub fn send_fees(config: &Config, caller: &ParticipantId) -> (sent: Result<(), Error>)
    ensures
        sent is Ok <==> config.controller_id() == Some(caller@),
        sent is Err ==> sent == Err::<(), Error>(Error::Unauthorized),
{
    Controller::call_guard(config, caller)
}

} // verus!
