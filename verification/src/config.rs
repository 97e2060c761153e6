//! What the sentinel is told at start: where the node and the contract are,
//! and how the scheduler is to pace itself.

use vstd::prelude::*;
use crate::ident::Address;

verus! {

/// Where the sentinel finds the chain, the contract and its database.
#[derive(Debug)]
pub struct Config {
    pub ethereum_node_url: String,
    pub network_id: u64,
    pub smart_contract_address: Address,
    pub db_url: String,
}

/// Why the settings could not be read.
#[derive(Clone, Copy, Debug, PartialEq, Eq)]
pub enum ConfigError {
    /// The contract address is no address.
    BadAddress,
    /// The network identifier is no number.
    BadNetworkId,
}

/// Why the node is not the one that was asked for.
#[derive(Clone, Copy, Debug, PartialEq, Eq)]
pub enum NetworkError {
    /// The node's answer is no number.
    Unreadable,
    /// The node is on another network.
    Mismatch { expected: u64, actual: u64 },
}

/// The address that a text spells out in hexadecimal, if it spells one.
pub uninterp spec fn parsed_address(text: Seq<char>) -> Option<Seq<u8>>;

/// Whether `c` is one of the ten decimal digits.
pub open spec fn is_digit(c: char) -> bool {
    48 <= c as u32 <= 57
}

/// Every character of the text is a decimal digit.
pub open spec fn all_digits(text: Seq<char>) -> bool {
    forall|i: int| 0 <= i < text.len() ==> is_digit(#[trigger] text[i])
}

/// The number that a text of decimal digits spells out, the last digit
/// counting least.
pub open spec fn decimal_value(digits: Seq<char>) -> nat
    decreases digits.len(),
{
    if digits.len() == 0 {
        0
    } else {
        10 * decimal_value(digits.drop_last()) + (digits.last() as u32 - 48) as nat
    }
}

/// The number that a text spells out in decimal, if it spells one that fits:
/// the text is one or more decimal digits, with or without a `+` before
/// them, and nothing else.
pub open spec fn parsed_u64(text: Seq<char>) -> Option<u64> {
    let digits = if text.len() > 0 && text[0] == '+' {
        text.skip(1)
    } else {
        text
    };
    if digits.len() == 0 || !all_digits(digits) || decimal_value(digits) > u64::MAX {
        None
    } else {
        Some(decimal_value(digits) as u64)
    }
}

/// Calls `from_str` of `web3::types::Address`, which reads a text in
/// hexadecimal, with or without `0x` before it, as the twenty bytes of an
/// address, or fails; blanks, tabs and line ends among the digits are passed
/// over. The contract says only that what comes back depends on the text
/// alone; which texts are read, and as what, is not claimed.
#[verifier::external_body]
fn parse_address(text: &str) -> (address: Option<Address>)
    ensures
        match address {
            Some(a) => parsed_address(text@) == Some(a@),
            None => parsed_address(text@) is None,
        },
{
    match text.parse::<web3::types::Address>() {
        Ok(parsed) => Some(parsed.0),
        Err(_) => None,
    }
}

/// Calls `str::parse` for `u64`. Its documentation says that the text is to
/// be an optional `+` followed by only decimal digits, that any other
/// character, a blank too, is an error, as is a text without digits, and
/// that a number too large for `u64` is an error. The contract claims just
/// that: the result is [`parsed_u64`] of the text.
#[verifier::external_body]
fn parse_u64(text: &str) -> (number: Option<u64>)
    ensures
        number == parsed_u64(text@),
{
    match text.parse::<u64>() {
        Ok(parsed) => Some(parsed),
        Err(_) => None,
    }
}

/// Puts the settings together from what was read of them. The address is
/// looked at before the network identifier.
pub fn assemble_config(
    db_url: String,
    ethereum_node_url: String,
    smart_contract_address: Option<Address>,
    network_id: Option<u64>,
) -> (config: Result<Config, ConfigError>)
    ensures
        match config {
            Ok(c) => smart_contract_address == Some(c.smart_contract_address) && network_id
                == Some(c.network_id) && c.db_url == db_url && c.ethereum_node_url
                == ethereum_node_url,
            Err(ConfigError::BadAddress) => smart_contract_address is None,
            Err(ConfigError::BadNetworkId) => smart_contract_address is Some && network_id
                is None,
        },
{
    let address = match smart_contract_address {
        Some(address) => address,
        None => {
            return Err(ConfigError::BadAddress);
        },
    };
    let network = match network_id {
        Some(network) => network,
        None => {
            return Err(ConfigError::BadNetworkId);
        },
    };
    Ok(
        Config {
            ethereum_node_url,
            network_id: network,
            smart_contract_address: address,
            db_url,
        },
    )
}

/// Reads the settings from their texts.
pub fn read_config(
    db_url: String,
    ethereum_node_url: String,
    smart_contract_address: &str,
    network_id: &str,
) -> (config: Result<Config, ConfigError>)
    ensures
        match config {
            Ok(c) => parsed_address(smart_contract_address@) == Some(c.smart_contract_address@)
                && parsed_u64(network_id@) == Some(c.network_id) && c.db_url == db_url
                && c.ethereum_node_url == ethereum_node_url,
            Err(ConfigError::BadAddress) => parsed_address(smart_contract_address@) is None,
            Err(ConfigError::BadNetworkId) => parsed_address(smart_contract_address@) is Some
                && parsed_u64(network_id@) is None,
        },
{
    let address = parse_address(smart_contract_address);
    let network = parse_u64(network_id);
    assemble_config(db_url, ethereum_node_url, address, network)
}

/// Holds the network that the node reports against the one that was asked
/// for.
pub fn check_network_id(expected: u64, reported: Option<u64>) -> (verdict: Result<
    (),
    NetworkError,
>)
    ensures
        verdict == (match reported {
            None => Err(NetworkError::Unreadable),
            Some(actual) => if actual == expected {
                Ok(())
            } else {
                Err(NetworkError::Mismatch { expected, actual })
            },
        }),
{
    match reported {
        None => Err(NetworkError::Unreadable),
        Some(actual) => if actual == expected {
            Ok(())
        } else {
            Err(NetworkError::Mismatch { expected, actual })
        },
    }
}

/// Checks the version text that the node answered with against the network
/// of the settings.
pub fn verify_network_id(config: &Config, version: &str) -> (verdict: Result<(), NetworkError>)
    ensures
        verdict == (match parsed_u64(version@) {
            None => Err(NetworkError::Unreadable),
            Some(actual) => if actual == config.network_id {
                Ok(())
            } else {
                Err(NetworkError::Mismatch { expected: config.network_id, actual })
            },
        }),
{
    check_network_id(config.network_id, parse_u64(version))
}

/// How the scheduler paces itself. Times are in seconds.
#[derive(Clone, Copy, Debug, PartialEq, Eq)]
pub struct SchedulerConfig {
    /// The pause between two ticks.
    pub tick_interval: u64,
    /// How long a lease lasts.
    pub lease_ttl: u64,
    /// How many executions may run at once.
    pub max_concurrent_workers: usize,
    /// The delay after a first failure.
    pub retry_backoff_base: u64,
    /// The longest delay after any failure.
    pub retry_backoff_cap: u64,
    /// How long after it was opened a channel first falls due.
    pub initial_due_offset: u64,
    /// After this many failures in a row a channel is given up as stuck.
    pub max_attempts: u32,
}

/// What is wrong with a pacing.
#[derive(Clone, Copy, Debug, PartialEq, Eq)]
pub enum PacingError {
    /// Ticks would follow each other without pause.
    NoTickInterval,
    /// A lease would have expired the moment it is granted.
    NoLeaseTtl,
    /// Nothing could ever be executed.
    NoWorkers,
    /// A failed channel would fall due again at once.
    NoBackoff,
    /// The longest delay is shorter than the first.
    CapBelowBase,
    /// A channel would be stuck before it was ever tried.
    NoAttempts,
    /// A count is too large to be held.
    TooLarge,
}

/// The first fault of a pacing, in the order of the fields.
pub open spec fn pacing_fault(c: SchedulerConfig) -> Option<PacingError> {
    if c.tick_interval == 0 {
        Some(PacingError::NoTickInterval)
    } else if c.lease_ttl == 0 {
        Some(PacingError::NoLeaseTtl)
    } else if c.max_concurrent_workers == 0 {
        Some(PacingError::NoWorkers)
    } else if c.retry_backoff_base == 0 {
        Some(PacingError::NoBackoff)
    } else if c.retry_backoff_cap < c.retry_backoff_base {
        Some(PacingError::CapBelowBase)
    } else if c.max_attempts == 0 {
        Some(PacingError::NoAttempts)
    } else {
        None
    }
}

/// The pacing as it was set: a number for what was set, nothing for what was
/// left to its default.
#[derive(Clone, Copy, Debug, PartialEq, Eq)]
pub struct PacingInput {
    pub tick_interval: Option<u64>,
    pub lease_ttl: Option<u64>,
    pub max_concurrent_workers: Option<u64>,
    pub retry_backoff_base: Option<u64>,
    pub retry_backoff_cap: Option<u64>,
    pub initial_due_offset: Option<u64>,
    pub max_attempts: Option<u64>,
}

/// The pacing where nothing is set: a tick every five seconds, leases of two
/// minutes, eight workers, delays from ten seconds to ten minutes, channels
/// due as soon as they are opened, ten attempts.
pub open spec fn default_pacing() -> SchedulerConfig {
    SchedulerConfig {
        tick_interval: 5,
        lease_ttl: 120,
        max_concurrent_workers: 8,
        retry_backoff_base: 10,
        retry_backoff_cap: 600,
        initial_due_offset: 0,
        max_attempts: 10,
    }
}

/// The number that was set, or the default.
pub open spec fn set_or(value: Option<u64>, default: u64) -> u64 {
    match value {
        Some(number) => number,
        None => default,
    }
}

/// The pacing that an input stands for: every number that was set, the
/// default for the rest, unless a count is too large to be held or the pacing
/// has a fault.
pub open spec fn pacing_of(input: PacingInput) -> Result<SchedulerConfig, PacingError> {
    let workers = set_or(input.max_concurrent_workers, 8);
    let attempts = set_or(input.max_attempts, 10);
    if workers > usize::MAX || attempts > u32::MAX {
        Err(PacingError::TooLarge)
    } else {
        let pacing = SchedulerConfig {
            tick_interval: set_or(input.tick_interval, 5),
            lease_ttl: set_or(input.lease_ttl, 120),
            max_concurrent_workers: workers as usize,
            retry_backoff_base: set_or(input.retry_backoff_base, 10),
            retry_backoff_cap: set_or(input.retry_backoff_cap, 600),
            initial_due_offset: set_or(input.initial_due_offset, 0),
            max_attempts: attempts as u32,
        };
        match pacing_fault(pacing) {
            Some(fault) => Err(fault),
            None => Ok(pacing),
        }
    }
}

/// Computes [`set_or`].
fn number_or(value: Option<u64>, default: u64) -> (number: u64)
    ensures
        number == set_or(value, default),
{
    match value {
        Some(number) => number,
        None => default,
    }
}

/// Puts the pacing together from what was set of it.
pub fn assemble_pacing(input: PacingInput) -> (pacing: Result<SchedulerConfig, PacingError>)
    ensures
        pacing == pacing_of(input),
        pacing_of(PacingInput {
            tick_interval: None,
            lease_ttl: None,
            max_concurrent_workers: None,
            retry_backoff_base: None,
            retry_backoff_cap: None,
            initial_due_offset: None,
            max_attempts: None,
        }) == Ok::<SchedulerConfig, PacingError>(default_pacing()),
{
    let workers = number_or(input.max_concurrent_workers, 8);
    let attempts = number_or(input.max_attempts, 10);
    if workers > usize::MAX as u64 || attempts > u32::MAX as u64 {
        return Err(PacingError::TooLarge);
    }
    let pacing = SchedulerConfig {
        tick_interval: number_or(input.tick_interval, 5),
        lease_ttl: number_or(input.lease_ttl, 120),
        max_concurrent_workers: workers as usize,
        retry_backoff_base: number_or(input.retry_backoff_base, 10),
        retry_backoff_cap: number_or(input.retry_backoff_cap, 600),
        initial_due_offset: number_or(input.initial_due_offset, 0),
        max_attempts: attempts as u32,
    };
    match pacing.validate() {
        Ok(()) => Ok(pacing),
        Err(fault) => Err(fault),
    }
}

impl SchedulerConfig {
    /// Accepts a pacing that has no fault.
    pub fn validate(&self) -> (verdict: Result<(), PacingError>)
        ensures
            verdict == (match pacing_fault(*self) {
                Some(fault) => Err(fault),
                None => Ok(()),
            }),
    {
        if self.tick_interval == 0 {
            Err(PacingError::NoTickInterval)
        } else if self.lease_ttl == 0 {
            Err(PacingError::NoLeaseTtl)
        } else if self.max_concurrent_workers == 0 {
            Err(PacingError::NoWorkers)
        } else if self.retry_backoff_base == 0 {
            Err(PacingError::NoBackoff)
        } else if self.retry_backoff_cap < self.retry_backoff_base {
            Err(PacingError::CapBelowBase)
        } else if self.max_attempts == 0 {
            Err(PacingError::NoAttempts)
        } else {
            Ok(())
        }
    }
}

} // verus!
