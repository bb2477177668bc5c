use docatlas::merge_strategies::{override_default, override_if_value};
use docatlas::config::{CliDaemonConfig, DaemonConfig, LevelFilter};
use docatlas::segments::{SegmentBuilder, Segments, DEFAULT_SEGMENT_SIZE};

#[test]
fn defaults_apply_where_unset() {
    let config = DaemonConfig::default();
    assert_eq!(config.path(), "/var/lib/docatlas");
    assert_eq!(config.host(), "localhost");
    assert_eq!(config.port(), 3676);
    assert_eq!(config.log_level(), LevelFilter::Info);
}

#[test]
fn set_values_win() {
    let config = DaemonConfig::new(
        Some("/tmp/d".to_string()),
        Some("example".to_string()),
        Some(9),
        Some(LevelFilter::Trace),
    );
    let cli = CliDaemonConfig::new(config);
    assert_eq!(cli.config().path(), "/tmp/d");
    let config = cli.into_config();
    assert_eq!(config.host(), "example");
    assert_eq!(config.port(), 9);
    assert_eq!(config.log_level(), LevelFilter::Trace);
}

#[test]
fn segment_builder_needs_a_start() {
    let builder: SegmentBuilder<()> = Segments.builder();
    assert!(builder.is_empty(false));
    let stored = Segments.builder().stored_at("seg").with_capacity(64);
    assert!(stored.is_empty(false));
    assert!(!stored.is_empty(true));
    let valued = Segments.builder().with_initial_value(7u64);
    assert!(!valued.is_empty(false));
    let typed = valued.with_type::<u32>();
    assert!(typed.is_empty(false));
    assert_eq!(DEFAULT_SEGMENT_SIZE, 526336);
}

#[test]
fn override_if_value_replaces_only_that_value() {
    let strategy = override_if_value(0u16);
    let mut unset = 0u16;
    strategy(&mut unset, 5);
    assert_eq!(unset, 5);
    let mut set = 3u16;
    strategy(&mut set, 5);
    assert_eq!(set, 3);
}

#[test]
fn override_default_replaces_defaults() {
    let strategy = override_default::<Option<u16>>();
    let mut unset: Option<u16> = None;
    strategy(&mut unset, Some(8));
    assert_eq!(unset, Some(8));
    let mut set = Some(1u16);
    strategy(&mut set, Some(8));
    assert_eq!(set, Some(1));
}
