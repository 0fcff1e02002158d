//! Loading strategies: how the two regions of a serialized index (the key
//! structure and the value payloads) are brought into memory.
//!
//! A strategy is chosen once, when the dictionary is opened, and is fixed
//! for the dictionary's lifetime.  The engine itself is agnostic to the
//! choice; the selector below states, per strategy, the paging behaviour
//! owed to each region.

use vstd::prelude::*;

verus! {

/// Paging configuration selected at open time, fixed for the dictionary's
/// lifetime.  Each variant controls the key-structure region and the
/// value region independently; see `key_region` and `value_region`.
#[allow(non_camel_case_types)]
#[derive(Clone, Copy, PartialEq, Eq, Structural, Debug)]
pub enum LoadingStrategyTypes {
    /// No special treatment: whatever the OS has as default.
    DEFAULT_OS,
    /// Load data as needed, with read-ahead.
    LAZY,
    /// Immediately load everything into memory.
    POPULATE,
    /// Eagerly load only the key part; load the value part on demand.
    POPULATE_KEY_PART,
    /// Load lazily, but hint the OS to read ahead (does not block).
    POPULATE_LAZY,
    /// Disable any read-ahead (for indices much larger than main memory).
    LAZY_NO_READAHEAD,
    /// Disable read-ahead only for the value part.
    LAZY_NO_READAHEAD_VALUE_PART,
    /// Eagerly load the key part, no read-ahead for the value part.
    POPULATE_KEY_PART_NO_READAHEAD_VALUE_PART,
}

/// Paging behaviour applied to one region of the serialized index.
#[derive(Clone, Copy, PartialEq, Eq, Structural, Debug)]
pub enum RegionLoad {
    /// OS default paging.
    OsDefault,
    /// Eager full load, blocking until the region is resident.
    Eager,
    /// On-demand paging with read-ahead.
    OnDemandReadahead,
    /// On-demand paging with an OS hint to read ahead, non-blocking.
    OnDemandHinted,
    /// On-demand paging with read-ahead disabled.
    OnDemandNoReadahead,
}

/// The paging behaviour a strategy owes the key-structure region.
pub open spec fn key_region_of(s: LoadingStrategyTypes) -> RegionLoad {
    match s {
        LoadingStrategyTypes::DEFAULT_OS => RegionLoad::OsDefault,
        LoadingStrategyTypes::LAZY => RegionLoad::OnDemandReadahead,
        LoadingStrategyTypes::POPULATE => RegionLoad::Eager,
        LoadingStrategyTypes::POPULATE_KEY_PART => RegionLoad::Eager,
        LoadingStrategyTypes::POPULATE_LAZY => RegionLoad::OnDemandHinted,
        LoadingStrategyTypes::LAZY_NO_READAHEAD => RegionLoad::OnDemandNoReadahead,
        LoadingStrategyTypes::LAZY_NO_READAHEAD_VALUE_PART => RegionLoad::OnDemandReadahead,
        LoadingStrategyTypes::POPULATE_KEY_PART_NO_READAHEAD_VALUE_PART => RegionLoad::Eager,
    }
}

/// The paging behaviour a strategy owes the value region.
pub open spec fn value_region_of(s: LoadingStrategyTypes) -> RegionLoad {
    match s {
        LoadingStrategyTypes::DEFAULT_OS => RegionLoad::OsDefault,
        LoadingStrategyTypes::LAZY => RegionLoad::OnDemandReadahead,
        LoadingStrategyTypes::POPULATE => RegionLoad::Eager,
        LoadingStrategyTypes::POPULATE_KEY_PART => RegionLoad::OnDemandReadahead,
        LoadingStrategyTypes::POPULATE_LAZY => RegionLoad::OnDemandHinted,
        LoadingStrategyTypes::LAZY_NO_READAHEAD => RegionLoad::OnDemandNoReadahead,
        LoadingStrategyTypes::LAZY_NO_READAHEAD_VALUE_PART => RegionLoad::OnDemandNoReadahead,
        LoadingStrategyTypes::POPULATE_KEY_PART_NO_READAHEAD_VALUE_PART => {
            RegionLoad::OnDemandNoReadahead
        },
    }
}

impl LoadingStrategyTypes {
    /// Paging behaviour for the key-structure region under this strategy.
    pub fn key_region(&self) -> (r: RegionLoad)
        ensures
            r == key_region_of(*self),
    {
        match self {
            LoadingStrategyTypes::DEFAULT_OS => RegionLoad::OsDefault,
            LoadingStrategyTypes::LAZY => RegionLoad::OnDemandReadahead,
            LoadingStrategyTypes::POPULATE => RegionLoad::Eager,
            LoadingStrategyTypes::POPULATE_KEY_PART => RegionLoad::Eager,
            LoadingStrategyTypes::POPULATE_LAZY => RegionLoad::OnDemandHinted,
            LoadingStrategyTypes::LAZY_NO_READAHEAD => RegionLoad::OnDemandNoReadahead,
            LoadingStrategyTypes::LAZY_NO_READAHEAD_VALUE_PART => RegionLoad::OnDemandReadahead,
            LoadingStrategyTypes::POPULATE_KEY_PART_NO_READAHEAD_VALUE_PART => RegionLoad::Eager,
        }
    }

    /// Paging behaviour for the value region under this strategy.
    pub fn value_region(&self) -> (r: RegionLoad)
        ensures
            r == value_region_of(*self),
    {
        match self {
            LoadingStrategyTypes::DEFAULT_OS => RegionLoad::OsDefault,
            LoadingStrategyTypes::LAZY => RegionLoad::OnDemandReadahead,
            LoadingStrategyTypes::POPULATE => RegionLoad::Eager,
            LoadingStrategyTypes::POPULATE_KEY_PART => RegionLoad::OnDemandReadahead,
            LoadingStrategyTypes::POPULATE_LAZY => RegionLoad::OnDemandHinted,
            LoadingStrategyTypes::LAZY_NO_READAHEAD => RegionLoad::OnDemandNoReadahead,
            LoadingStrategyTypes::LAZY_NO_READAHEAD_VALUE_PART => RegionLoad::OnDemandNoReadahead,
            LoadingStrategyTypes::POPULATE_KEY_PART_NO_READAHEAD_VALUE_PART => {
                RegionLoad::OnDemandNoReadahead
            },
        }
    }
}

} // verus!
