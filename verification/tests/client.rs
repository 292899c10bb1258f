use rabbit_net::client::{CallbackTable, PollError};
use rabbit_net::log_filter::{LevelFilter, LogFilter, LogFilterError};
use rabbit_net::protocol::Channel;

#[test]
fn callbacks_get_consecutive_free_channels() {
    let mut table: CallbackTable<&str> = CallbackTable::new();
    assert_eq!(table.setup_callback("a"), Channel(0));
    assert_eq!(table.setup_callback("b"), Channel(1));
    assert_eq!(table.take_callback(Channel(0)), Some("a"));
    assert_eq!(table.take_callback(Channel(0)), None);
    assert_eq!(table.setup_callback("c"), Channel(2));
    assert_eq!(table.len(), 2);
    assert_eq!(table.take_callback(Channel(1)), Some("b"));
    assert_eq!(table.take_callback(Channel(2)), Some("c"));
    assert_eq!(table.len(), 0);
}

#[test]
fn poll_errors_carry_the_extraction_error() {
    let e: PollError<u8> = PollError::Extract(3);
    assert!(matches!(e, PollError::Extract(3)));
    assert!(matches!(PollError::<u8>::Empty, PollError::Empty));
    assert!(matches!(PollError::<u8>::Closed, PollError::Closed));
}

#[test]
fn log_filters_parse_level_and_module() {
    let filter = LogFilter::parse("warn").unwrap();
    assert_eq!(filter.level, LevelFilter::Warn);
    assert!(filter.module.is_none());

    let filter: LogFilter = "socket:TrAcE".parse().unwrap();
    assert_eq!(filter.level, LevelFilter::Trace);
    assert_eq!(filter.module.as_deref(), Some("socket"));

    let filter = LogFilter::parse("a::b:off").unwrap_err();
    assert!(matches!(filter, LogFilterError::Format));

    assert!(matches!(LogFilter::parse("loud").unwrap_err(), LogFilterError::Level(_)));
    assert!(matches!(LogFilter::parse("m:").unwrap_err(), LogFilterError::Level(_)));
    assert_eq!(LogFilter::parse(":info").unwrap().module.as_deref(), Some(""));
    assert_eq!(LogFilter::parse("ÅÄ:error").unwrap().module.as_deref(), Some("ÅÄ"));
}
