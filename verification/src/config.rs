//! The persisted data model: a category is a named list of choices together
//! with the selection model that governs it.

use vstd::prelude::*;

verus! {

/// Default number of tickets (Inventory, Lottery) and default weight
/// (Weighted, Lottery) for a choice whose field was omitted on input.
pub fn default_weight() -> (w: u64)
    ensures
        w == 1,
{
    1
}

/// An individual choice for the inventory model: the choice's chance of being
/// drawn is proportional to `tickets`, and an accepted pick costs one ticket.
#[derive(Debug, PartialEq)]
pub struct InventoryChoice {
    pub name: String,
    pub tickets: u64,
}

/// An individual choice for the lottery model: `tickets` gives the current
/// chance of being drawn, and `weight` is added to `tickets` in every round
/// that the choice is not the accepted winner.
#[derive(Debug, PartialEq)]
pub struct LotteryChoice {
    pub name: String,
    pub tickets: u64,
    pub weight: u64,
}

/// An individual choice for the weighted model: the choice's chance of being
/// drawn is proportional to `weight`, and a pick never changes it.
#[derive(Debug, PartialEq)]
pub struct WeightedChoice {
    pub name: String,
    pub weight: u64,
}

/// A category of items that can be chosen from.
///
/// Each variant selects one of the supported models. For the Gaussian model
/// the standard deviation of the underlying normal distribution is the list
/// length divided by a scaling factor; the factor is a binary64 value that
/// the engine never interprets, so it is carried as its bit pattern and
/// handed unchanged to the [`crate::RandomSource`] that does the sampling.
#[derive(Debug, PartialEq)]
pub enum ConfigCategory {
    /// Picks from its choices with an even distribution; never mutated.
    Even { choices: Vec<String> },
    /// Prefers choices near the front of the list; an accepted choice moves
    /// to the end of the list.
    Gaussian { stddev_scaling_factor_bits: u64, choices: Vec<String> },
    /// Weighted by ticket count; an accepted choice loses one ticket.
    Inventory { choices: Vec<InventoryChoice> },
    /// Picks the least recently used choice the user will accept; an accepted
    /// choice moves to the end of the list.
    LRU { choices: Vec<String> },
    /// Weighted by ticket count; the accepted winner's tickets drop to zero
    /// and every other choice accrues its own weight in new tickets.
    Lottery { choices: Vec<LotteryChoice> },
    /// A simple weighted distribution; never mutated.
    Weighted { choices: Vec<WeightedChoice> },
}

/// One named category of a configuration. A configuration is an ordered list
/// of entries satisfying [`config_wf`]: names are pairwise distinct.
#[derive(Debug, PartialEq)]
pub struct ConfigEntry {
    pub name: String,
    pub category: ConfigCategory,
}

/// A well-formed configuration: entry names are pairwise distinct. Loaders
/// that build a configuration from a keyed mapping establish this; a pick
/// works on the first entry bearing the requested name either way.
pub open spec fn config_wf(entries: Seq<ConfigEntry>) -> bool {
    forall|i: int, j: int|
        0 <= i < j < entries.len() ==> (#[trigger] entries[i]).name@ != (
        #[trigger] entries[j]).name@
}

/// Law: in a well-formed configuration the entry a pick finds — the first
/// one bearing the requested name — is the only one bearing it.
pub proof fn lemma_config_wf_unique_name(entries: Seq<ConfigEntry>, k1: int, k2: int)
    requires
        config_wf(entries),
        0 <= k1 < entries.len(),
        0 <= k2 < entries.len(),
        entries[k1].name@ == entries[k2].name@,
    ensures
        k1 == k2,
{
}

/// Returned in the event that an invalid parameter was used in the API.
#[derive(Debug, PartialEq)]
pub struct ValueError {
    message: String,
}

impl View for ValueError {
    type V = Seq<char>;

    /// A ValueError is abstractly its message text.
    closed spec fn view(&self) -> Seq<char> {
        self.message@
    }
}

impl ValueError {
    /// Construct a new ValueError carrying the given message.
    pub fn new(message: String) -> (e: ValueError)
        ensures
            e@ == message@,
    {
        ValueError { message }
    }

    /// The error message.
    pub fn message(&self) -> (m: &str)
        ensures
            m@ == self@,
    {
        self.message.as_str()
    }
}

} // verus!
