//! The options of a roller: what it assumes where a dice term leaves a part
//! out.
use vstd::prelude::*;

use crate::integer::PositiveInteger;
use crate::interpreter::config::SettingsView;

verus! {

/// The settings of a roller: the quantity and the power that a dice term
/// has where it names none.
#[derive(Debug, PartialEq, Eq)]
pub struct RollerOptions {
    assumed_quantity: PositiveInteger,
    assumed_power: PositiveInteger,
    chain_explosions: bool,
}

impl View for RollerOptions {
    type V = SettingsView;

    closed spec fn view(&self) -> SettingsView {
        SettingsView {
            quantity: self.assumed_quantity@,
            power: self.assumed_power@,
            chain_explosions: self.chain_explosions,
        }
    }
}

impl Clone for RollerOptions {
    fn clone(&self) -> (copy: Self)
        ensures
            copy@ == self@,
    {
        RollerOptions {
            assumed_quantity: self.assumed_quantity.clone(),
            assumed_power: self.assumed_power.clone(),
            chain_explosions: self.chain_explosions,
        }
    }
}

impl Default for RollerOptions {
    /// One die of six faces, explosions not chained.
    fn default() -> (config: Self)
        ensures
            config@ == (SettingsView { quantity: 1, power: 6, chain_explosions: false }),
    {
        RollerOptions {
            assumed_quantity: PositiveInteger::from_u64(1),
            assumed_power: PositiveInteger::from_u64(6),
            chain_explosions: false,
        }
    }
}

impl RollerOptions {
    /// Settings with the given values.
    pub fn new(quantity: PositiveInteger, power: PositiveInteger, chain_explosions: bool) -> (config:
        Self)
        ensures
            config@ == (SettingsView { quantity: quantity@, power: power@, chain_explosions }),
    {
        RollerOptions { assumed_quantity: quantity, assumed_power: power, chain_explosions }
    }

    /// Whether explosions are chained.
    pub fn chain_explosions(&self) -> (chain: bool)
        ensures
            chain == self@.chain_explosions,
    {
        self.chain_explosions
    }

    /// The quantity of a dice term that names none.
    pub fn quantity(&self) -> (quantity: PositiveInteger)
        ensures
            quantity@ == self@.quantity,
    {
        self.assumed_quantity.clone()
    }

    /// The power of a dice term that names none.
    pub fn power(&self) -> (power: PositiveInteger)
        ensures
            power@ == self@.power,
    {
        self.assumed_power.clone()
    }
}

} // verus!
