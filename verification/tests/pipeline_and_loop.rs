use mkt_pubber::config::{ConfigError, Mode, RedisConfig, RedisPubberConfig};
use mkt_pubber::message::WireFormat;
use mkt_pubber::pipeline::{parse_outcome, PublishSlot};
use mkt_pubber::receiver::{ReceiverAction, ReceiverState, TransportEvent};
use mkt_pubber::store::PushOutcome;

#[test]
fn slot_serializes_submissions() {
    let mut slot = PublishSlot::new();
    assert!(slot.pending().is_none());
    let first = slot.start_next();
    assert_eq!(first, 0);
    assert_eq!(slot.pending(), Some(first));
    // The driver must retire the outstanding transaction before the
    // next one may start.
    slot.on_finished(first);
    assert!(slot.pending().is_none());
    let second = slot.start_next();
    assert_eq!(second, 1);
    assert!(first < second);
    slot.on_finished(second);
    assert!(slot.pending().is_none());
}

#[test]
fn parse_outcome_reads_the_first_line() {
    assert_eq!(parse_outcome("UPDATED\nsome log line"), Some(PushOutcome::Updated));
    assert_eq!(parse_outcome("EQUAL"), Some(PushOutcome::Equal));
    assert_eq!(parse_outcome("SKIPPED\n"), Some(PushOutcome::Skipped));
    assert_eq!(parse_outcome("UPDATEDX"), None);
    assert_eq!(parse_outcome("updated\nlog"), None);
    assert_eq!(parse_outcome(""), None);
}

#[test]
fn receiver_counts_messages_and_backs_off() {
    let mut st = ReceiverState::new();
    assert_eq!(st.receive_count, 0);
    let a = st.step(false, TransportEvent::Message(vec![1, 2]));
    assert_eq!(a, ReceiverAction::Broadcast(vec![1, 2]));
    assert_eq!(st.receive_count, 1);
    let a = st.step(false, TransportEvent::Empty);
    assert_eq!(a, ReceiverAction::PauseShort);
    assert_eq!(st.receive_count, 1);
    // A transport fault backs off at length and never ends the loop.
    let a = st.step(false, TransportEvent::Fault);
    assert_eq!(a, ReceiverAction::PauseLong);
    assert_eq!(st.receive_count, 1);
}

#[test]
fn receiver_shutdown_wins_over_messages() {
    let mut st = ReceiverState::new();
    let a = st.step(true, TransportEvent::Message(vec![9]));
    assert_eq!(a, ReceiverAction::Stop);
    assert_eq!(st.receive_count, 0);
}

fn config_with(mode: Mode) -> RedisConfig {
    RedisConfig {
        exchange: String::from("mkt-archive"),
        redis_pubber: RedisPubberConfig {
            host: String::from("127.0.0.1"),
            port: String::from("6379"),
            username: String::from("user"),
            password: String::from("pw"),
            max_stream_size: 1000,
            mode,
        },
    }
}

#[test]
fn config_rejects_the_error_mode() {
    assert!(config_with(Mode::FromStart).validate().is_ok());
    assert!(config_with(Mode::ProtoBuf).validate().is_ok());
    assert_eq!(config_with(Mode::Error).validate().unwrap_err(), ConfigError::InvalidMode);
}

#[test]
fn mode_selects_the_wire_format() {
    assert_eq!(config_with(Mode::FromStart).wire_format(), Some(WireFormat::Primary));
    assert_eq!(config_with(Mode::FromCurrent).wire_format(), Some(WireFormat::Primary));
    assert_eq!(config_with(Mode::ProtoBuf).wire_format(), Some(WireFormat::Legacy));
    assert_eq!(config_with(Mode::Error).wire_format(), None);
}
