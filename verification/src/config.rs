//! The options of a disk.
use vstd::prelude::*;

use crate::gc::{GreedyVictimPolicy, VictimPolicyRef};

verus! {

/// The options of a disk.
#[derive(Clone, Copy, Debug)]
pub struct Config {
    /// A hint for the caches of the index.
    pub cache_size: usize,
    /// A hint for the caches of the index.
    pub two_level_caching: bool,
    /// When `false`, every flush looks up the old record of each block
    /// before it writes the new one, so that the block it replaces is
    /// reclaimed at once.
    pub delayed_reclamation: bool,
    /// Whether written bytes are counted.
    pub stat_waf: bool,
    /// Whether the time spent in each part is measured.
    pub stat_cost: bool,
    /// Whether segments are garbage collected.
    pub enable_gc: bool,
    /// How victims are chosen; the greedy policy where none is given.
    pub victim_policy: Option<VictimPolicyRef>,
}

impl Default for Config {
    fn default() -> (c: Config)
        ensures
            c.cache_size == usize::MAX,
            c.two_level_caching,
            c.delayed_reclamation,
            !c.stat_waf,
            !c.stat_cost,
            !c.enable_gc,
            c.victim_policy is None,
    {
        Config {
            cache_size: usize::MAX,
            two_level_caching: true,
            delayed_reclamation: true,
            stat_waf: false,
            stat_cost: false,
            enable_gc: false,
            victim_policy: None,
        }
    }
}

impl Config {
    /// The policy by which victims are chosen: the one of the options, else
    /// the greedy policy.
    pub fn get_victim_policy(&self) -> (p: VictimPolicyRef)
        ensures
            p == match self.victim_policy {
                Some(policy) => policy,
                None => VictimPolicyRef::Greedy(GreedyVictimPolicy {  }),
            },
    {
        match self.victim_policy {
            Some(policy) => policy,
            None => VictimPolicyRef::Greedy(GreedyVictimPolicy::new()),
        }
    }
}

/// The options of the process, set once: the first `set` wins and every
/// later one is ignored.
pub struct ConfigCell {
    initialized: bool,
    value: Config,
}

impl ConfigCell {
    /// Whether the options were set.
    pub closed spec fn is_set(&self) -> bool {
        self.initialized
    }

    /// The options in force.
    pub closed spec fn value(&self) -> Config {
        self.value
    }

    /// A cell that holds `config` until the options are set.
    pub fn new(config: Config) -> (c: ConfigCell)
        ensures
            !c.is_set(),
            c.value() == config,
    {
        ConfigCell { initialized: false, value: config }
    }

    /// Sets the options unless they were set before. Returns whether this
    /// call set them.
    pub fn set(&mut self, config: Config) -> (taken: bool)
        ensures
            taken == !old(self).is_set(),
            final(self).is_set(),
            final(self).value() == if old(self).is_set() {
                old(self).value()
            } else {
                config
            },
    {
        if !self.initialized {
            self.initialized = true;
            self.value = config;
            true
        } else {
            false
        }
    }

    /// The options in force.
    pub fn get(&self) -> (c: &Config)
        ensures
            *c == self.value(),
    {
        &self.value
    }
}

} // verus!
