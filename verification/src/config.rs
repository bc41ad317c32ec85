//! The configuration of a run.

use vstd::prelude::*;
use vstd::string::StringSliceAdditionalSpecFns;
use crate::error::{ConfigError, OptionName};
use crate::store::bytes_eq;

verus! {

/// The options of a run.
#[derive(Clone, Copy, Debug)]
pub struct Config {
    /// The largest number of parameters an invention may have.
    pub max_arity: usize,
    /// The largest number of rounds of discovery.
    pub max_rounds: usize,
    /// The number of candidates followed side by side; at least 1. The search
    /// commits to the best candidate of each round whatever the width.
    pub beam_width: usize,
    /// The smallest body, in nodes, that is considered.
    pub min_utility: u64,
    /// The number of workers; at least 1. It has no bearing on the result.
    pub thread_count: usize,
    /// The largest size of the library.
    pub invention_count_budget: usize,
}

/// The part of the configuration that decides the result of a run.
pub struct Limits {
    pub max_arity: nat,
    pub max_rounds: nat,
    pub min_size: nat,
    pub budget: nat,
}

/// The option names, as bytes.
pub open spec fn key_max_arity() -> Seq<u8> {
    "max_arity".spec_bytes()
}

pub open spec fn key_max_rounds() -> Seq<u8> {
    "max_rounds".spec_bytes()
}

pub open spec fn key_beam_width() -> Seq<u8> {
    "beam_width".spec_bytes()
}

pub open spec fn key_min_utility() -> Seq<u8> {
    "min_utility".spec_bytes()
}

pub open spec fn key_thread_count() -> Seq<u8> {
    "thread_count".spec_bytes()
}

pub open spec fn key_budget() -> Seq<u8> {
    "invention_count_budget".spec_bytes()
}

/// The option that `name` names, if it names one.
pub open spec fn option_named(name: Seq<u8>) -> Option<OptionName> {
    if name == key_max_arity() {
        Some(OptionName::MaxArity)
    } else if name == key_max_rounds() {
        Some(OptionName::MaxRounds)
    } else if name == key_beam_width() {
        Some(OptionName::BeamWidth)
    } else if name == key_min_utility() {
        Some(OptionName::MinUtility)
    } else if name == key_thread_count() {
        Some(OptionName::ThreadCount)
    } else if name == key_budget() {
        Some(OptionName::InventionCountBudget)
    } else {
        None
    }
}

/// Whether `value` is in the range of `option`: every option but the
/// smallest body takes a machine word, and the beam and the workers are at
/// least one.
pub open spec fn in_range(option: OptionName, value: u64) -> bool {
    match option {
        OptionName::MinUtility => true,
        OptionName::BeamWidth => 1 <= value <= usize::MAX,
        OptionName::ThreadCount => 1 <= value <= usize::MAX,
        _ => value <= usize::MAX,
    }
}

impl Config {
    /// The values are in range.
    pub open spec fn valid(&self) -> bool {
        self.beam_width >= 1 && self.thread_count >= 1
    }

    /// What decides the result of a run.
    pub open spec fn limits(&self) -> Limits {
        Limits {
            max_arity: self.max_arity as nat,
            max_rounds: self.max_rounds as nat,
            min_size: self.min_utility as nat,
            budget: self.invention_count_budget as nat,
        }
    }

    /// The configuration used where none is given: inventions of up to two
    /// parameters, three rounds, a beam of one, one worker, no lower bound
    /// on bodies and no bound on the library.
    pub fn standard() -> (r: Config)
        ensures
            r.valid(),
            r.max_arity == 2,
            r.max_rounds == 3,
            r.beam_width == 1,
            r.min_utility == 0,
            r.thread_count == 1,
            r.invention_count_budget == usize::MAX,
    {
        Config {
            max_arity: 2,
            max_rounds: 3,
            beam_width: 1,
            min_utility: 0,
            thread_count: 1,
            invention_count_budget: usize::MAX,
        }
    }

    /// The first option whose value is out of range, if there is one.
    pub open spec fn fault(&self) -> Option<ConfigError> {
        if self.beam_width < 1 {
            Some(ConfigError::OutOfRange(OptionName::BeamWidth))
        } else if self.thread_count < 1 {
            Some(ConfigError::OutOfRange(OptionName::ThreadCount))
        } else {
            None
        }
    }

    /// Checks that the values are in range.
    pub fn validate(&self) -> (r: Result<(), ConfigError>)
        ensures
            r is Ok <==> self.valid(),
            match r {
                Ok(_) => self.fault() is None,
                Err(e) => self.fault() == Some(e),
            },
    {
        if self.beam_width < 1 {
            Err(ConfigError::OutOfRange(OptionName::BeamWidth))
        } else if self.thread_count < 1 {
            Err(ConfigError::OutOfRange(OptionName::ThreadCount))
        } else {
            Ok(())
        }
    }

    /// The configuration with `option` set to `value`.
    pub open spec fn with(self, option: OptionName, value: u64) -> Config {
        match option {
            OptionName::MaxArity => Config { max_arity: value as usize, ..self },
            OptionName::MaxRounds => Config { max_rounds: value as usize, ..self },
            OptionName::BeamWidth => Config { beam_width: value as usize, ..self },
            OptionName::MinUtility => Config { min_utility: value, ..self },
            OptionName::ThreadCount => Config { thread_count: value as usize, ..self },
            OptionName::InventionCountBudget => Config {
                invention_count_budget: value as usize,
                ..self
            },
        }
    }

    /// Sets the option called `name` to `value`. Fails, and changes nothing,
    /// if the name is not recognised or the value is out of range for the
    /// option.
    pub fn set(&mut self, name: &[u8], value: u64) -> (r: Result<(), ConfigError>)
        ensures
            match option_named(name@) {
                None => r == Err::<(), ConfigError>(ConfigError::UnknownOption) && *final(self)
                    == *old(self),
                Some(option) => if in_range(option, value) {
                    r is Ok && *final(self) == old(self).with(option, value)
                } else {
                    r == Err::<(), ConfigError>(ConfigError::OutOfRange(option)) && *final(self)
                        == *old(self)
                },
            },
    {
        proof {
            lemma_keys_differ();
        }
        let option = if bytes_eq(name, "max_arity".as_bytes()) {
            OptionName::MaxArity
        } else if bytes_eq(name, "max_rounds".as_bytes()) {
            OptionName::MaxRounds
        } else if bytes_eq(name, "beam_width".as_bytes()) {
            OptionName::BeamWidth
        } else if bytes_eq(name, "min_utility".as_bytes()) {
            OptionName::MinUtility
        } else if bytes_eq(name, "thread_count".as_bytes()) {
            OptionName::ThreadCount
        } else if bytes_eq(name, "invention_count_budget".as_bytes()) {
            OptionName::InventionCountBudget
        } else {
            return Err(ConfigError::UnknownOption);
        };
        match option {
            OptionName::MinUtility => {
                self.min_utility = value;
                return Ok(());
            },
            _ => {},
        }
        if value > usize::MAX as u64 {
            return Err(ConfigError::OutOfRange(option));
        }
        let v: usize = value as usize;
        match option {
            OptionName::MaxArity => {
                self.max_arity = v;
            },
            OptionName::MaxRounds => {
                self.max_rounds = v;
            },
            OptionName::BeamWidth => {
                if v == 0 {
                    return Err(ConfigError::OutOfRange(option));
                }
                self.beam_width = v;
            },
            OptionName::ThreadCount => {
                if v == 0 {
                    return Err(ConfigError::OutOfRange(option));
                }
                self.thread_count = v;
            },
            _ => {
                self.invention_count_budget = v;
            },
        }
        Ok(())
    }
}

/// The option names are pairwise different.
pub proof fn lemma_keys_differ()
    ensures
        key_max_arity() != key_max_rounds(),
        key_max_arity() != key_beam_width(),
        key_max_arity() != key_min_utility(),
        key_max_arity() != key_thread_count(),
        key_max_arity() != key_budget(),
        key_max_rounds() != key_beam_width(),
        key_max_rounds() != key_min_utility(),
        key_max_rounds() != key_thread_count(),
        key_max_rounds() != key_budget(),
        key_beam_width() != key_min_utility(),
        key_beam_width() != key_thread_count(),
        key_beam_width() != key_budget(),
        key_min_utility() != key_thread_count(),
        key_min_utility() != key_budget(),
        key_thread_count() != key_budget(),
{
    reveal_strlit("max_arity");
    reveal_strlit("max_rounds");
    reveal_strlit("beam_width");
    reveal_strlit("min_utility");
    reveal_strlit("thread_count");
    reveal_strlit("invention_count_budget");
    vstd::string::is_ascii_spec_bytes("max_arity");
    vstd::string::is_ascii_spec_bytes("max_rounds");
    vstd::string::is_ascii_spec_bytes("beam_width");
    vstd::string::is_ascii_spec_bytes("min_utility");
    vstd::string::is_ascii_spec_bytes("thread_count");
    vstd::string::is_ascii_spec_bytes("invention_count_budget");
    assert(vstd::string::is_ascii("max_arity"));
    assert(vstd::string::is_ascii("max_rounds"));
    assert(vstd::string::is_ascii("beam_width"));
    assert(vstd::string::is_ascii("min_utility"));
    assert(vstd::string::is_ascii("thread_count"));
    assert(vstd::string::is_ascii("invention_count_budget"));
    assert(key_max_arity().len() == 9);
    assert(key_max_rounds().len() == 10);
    assert(key_beam_width().len() == 10);
    assert(key_min_utility().len() == 11);
    assert(key_thread_count().len() == 12);
    assert(key_budget().len() == 22);
    assert(key_max_rounds()[0] == 109);
    assert(key_beam_width()[0] == 98);
}

} // verus!
