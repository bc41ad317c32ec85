use stitch_core::config::Config;
use stitch_core::error::{ConfigError, OptionName};
use stitch_core::mapping::split_entry;

#[test]
fn options_are_set_by_name() {
    let mut cfg = Config::standard();
    assert_eq!(cfg.set(b"max_arity", 3), Ok(()));
    assert_eq!(cfg.set(b"max_rounds", 7), Ok(()));
    assert_eq!(cfg.set(b"beam_width", 2), Ok(()));
    assert_eq!(cfg.set(b"min_utility", 5), Ok(()));
    assert_eq!(cfg.set(b"thread_count", 4), Ok(()));
    assert_eq!(cfg.set(b"invention_count_budget", 9), Ok(()));
    assert_eq!(cfg.max_arity, 3);
    assert_eq!(cfg.max_rounds, 7);
    assert_eq!(cfg.beam_width, 2);
    assert_eq!(cfg.min_utility, 5);
    assert_eq!(cfg.thread_count, 4);
    assert_eq!(cfg.invention_count_budget, 9);
    assert_eq!(cfg.validate(), Ok(()));
}

#[test]
fn unknown_options_are_refused() {
    let mut cfg = Config::standard();
    assert_eq!(cfg.set(b"max_arities", 3), Err(ConfigError::UnknownOption));
    assert_eq!(cfg.set(b"", 3), Err(ConfigError::UnknownOption));
    assert_eq!(cfg.max_arity, 2);
}

#[test]
fn values_out_of_range_are_refused() {
    let mut cfg = Config::standard();
    assert_eq!(cfg.set(b"beam_width", 0), Err(ConfigError::OutOfRange(OptionName::BeamWidth)));
    assert_eq!(
        cfg.set(b"thread_count", 0),
        Err(ConfigError::OutOfRange(OptionName::ThreadCount))
    );
    assert_eq!(cfg.beam_width, 1);
    assert_eq!(cfg.thread_count, 1);
    cfg.thread_count = 0;
    assert_eq!(cfg.validate(), Err(ConfigError::OutOfRange(OptionName::ThreadCount)));
    cfg.beam_width = 0;
    assert_eq!(cfg.validate(), Err(ConfigError::OutOfRange(OptionName::BeamWidth)));
}

#[test]
fn the_standard_configuration() {
    let cfg = Config::standard();
    assert_eq!(cfg.max_arity, 2);
    assert_eq!(cfg.max_rounds, 3);
    assert_eq!(cfg.beam_width, 1);
    assert_eq!(cfg.min_utility, 0);
    assert_eq!(cfg.thread_count, 1);
    assert_eq!(cfg.invention_count_budget, usize::MAX);
}

#[test]
fn mapping_entries_split_at_the_first_comma() {
    assert_eq!(split_entry(b"f0,add"), Some((b"f0".to_vec(), b"add".to_vec())));
    assert_eq!(split_entry(b"f0,a,b"), Some((b"f0".to_vec(), b"a,b".to_vec())));
    assert_eq!(split_entry(b",x"), Some((Vec::new(), b"x".to_vec())));
    assert_eq!(split_entry(b"x,"), Some((b"x".to_vec(), Vec::new())));
    assert_eq!(split_entry(b"no comma"), None);
}
