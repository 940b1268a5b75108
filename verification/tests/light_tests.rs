use light_control::codec::{decode_delta, decode_state, encode_delta, encode_state};
use light_control::ipc::{decode_message, encode_message, Message};
use light_control::server::{command_step, server_outcome, set_topic, subscription_step, BusEvent, LoopExit};
use light_control::state::{Power, StateCache, BRIGHTNESS_CEILING};
use light_control::{LightState, LightStateChange, ServerError};

fn state(power: Power, brightness: usize, color_temp: usize) -> LightState {
    LightState { power, brightness, color_temp }
}

fn delta(power: Option<Power>, brightness: Option<usize>, color_temp: Option<usize>) -> LightStateChange {
    LightStateChange { power, brightness, color_temp }
}

fn apply_to(cache: &mut StateCache, m: Message) -> Result<LightStateChange, ServerError> {
    cache.apply(&m)
}

fn cache_with(s: LightState) -> StateCache {
    let mut c = StateCache::new();
    c.replace(s);
    c
}

#[test]
fn dim_yields_max_of_difference() {
    let mut c = cache_with(state(Power::On, 500, 300));
    let d = apply_to(&mut c, Message::Dim(200)).unwrap();
    assert_eq!(d, delta(None, Some(300), None));
    assert_eq!(c.read().unwrap().brightness, 300);
    // dimming by more than the cached brightness saturates at zero
    let d = apply_to(&mut c, Message::Dim(1000)).unwrap();
    assert_eq!(d, delta(None, Some(0), None));
    assert_eq!(c.read().unwrap().brightness, 0);
}

#[test]
fn brighten_saturates_at_ceiling() {
    assert_eq!(BRIGHTNESS_CEILING, 1000);
    let mut c = cache_with(state(Power::On, 500, 300));
    let d = apply_to(&mut c, Message::Brighten(100)).unwrap();
    assert_eq!(d, delta(None, Some(600), None));
    let d = apply_to(&mut c, Message::Brighten(700)).unwrap();
    assert_eq!(d, delta(None, Some(1000), None));
    // no overflow even for the largest amount
    let d = apply_to(&mut c, Message::Brighten(usize::MAX)).unwrap();
    assert_eq!(d, delta(None, Some(1000), None));
}

#[test]
fn set_brightness_is_exact() {
    let mut c = cache_with(state(Power::Off, 999, 300));
    let d = apply_to(&mut c, Message::SetBrightness(123)).unwrap();
    assert_eq!(d, delta(None, Some(123), None));
    assert_eq!(c.read().unwrap().brightness, 123);
    // even above the ceiling and from any prior value
    let d = apply_to(&mut c, Message::SetBrightness(5000)).unwrap();
    assert_eq!(d, delta(None, Some(5000), None));
    assert_eq!(c.read().unwrap().brightness, 5000);
}

#[test]
fn power_commands_update_cache() {
    let mut c = cache_with(state(Power::Off, 500, 300));
    let d = apply_to(&mut c, Message::On).unwrap();
    assert_eq!(d, delta(Some(Power::On), None, None));
    assert_eq!(c.read().unwrap().power, Power::On);
    let d = apply_to(&mut c, Message::Off).unwrap();
    assert_eq!(d, delta(Some(Power::Off), None, None));
    assert_eq!(c.read().unwrap().power, Power::Off);
}

#[test]
fn relative_commands_fail_on_absent_cache() {
    let mut c = StateCache::new();
    assert_eq!(apply_to(&mut c, Message::Dim(10)), Err(ServerError::StateNotYetKnown));
    assert_eq!(apply_to(&mut c, Message::Brighten(10)), Err(ServerError::StateNotYetKnown));
    // commands that do not depend on prior state still succeed
    assert_eq!(apply_to(&mut c, Message::On), Ok(delta(Some(Power::On), None, None)));
    assert_eq!(apply_to(&mut c, Message::Off), Ok(delta(Some(Power::Off), None, None)));
    assert_eq!(apply_to(&mut c, Message::SetBrightness(7)), Ok(delta(None, Some(7), None)));
    // none of them conjures a cache entry: only a device report does
    assert!(c.read().is_none());
}

#[test]
fn message_round_trip() {
    let cases = vec![
        Message::On,
        Message::Off,
        Message::Dim(0),
        Message::Dim(1000),
        Message::Brighten(1001),
        Message::SetBrightness(0),
        Message::SetBrightness(usize::MAX),
    ];
    for m in cases {
        let bytes = encode_message(&m);
        assert_eq!(decode_message(&bytes), Ok(m));
    }
}

#[test]
fn malformed_command_bytes_rejected() {
    assert_eq!(decode_message(&[]), Err(ServerError::MalformedCommand));
    assert_eq!(decode_message(&[9]), Err(ServerError::MalformedCommand));
    // a tagged amount must carry exactly eight bytes
    assert_eq!(decode_message(&[2, 1, 2]), Err(ServerError::MalformedCommand));
    // trailing bytes are rejected
    let mut bytes = encode_message(&Message::On);
    bytes.push(0);
    assert_eq!(decode_message(&bytes), Err(ServerError::MalformedCommand));
}

#[test]
fn state_report_encoding_is_the_documented_json() {
    let bytes = encode_state(&state(Power::On, 500, 300));
    assert_eq!(bytes, b"{\"state\":\"ON\",\"brightness\":500,\"color_temp\":300}".to_vec());
    let bytes = encode_state(&state(Power::Off, 0, 0));
    assert_eq!(bytes, b"{\"state\":\"OFF\",\"brightness\":0,\"color_temp\":0}".to_vec());
}

#[test]
fn state_round_trip() {
    let cases = vec![
        state(Power::On, 0, 0),
        state(Power::Off, 1000, 300),
        state(Power::On, 1001, 65535),
        state(Power::Off, usize::MAX, usize::MAX),
    ];
    for s in cases {
        let bytes = encode_state(&s);
        assert_eq!(decode_state(&bytes), Ok(s));
    }
}

#[test]
fn malformed_state_bytes_rejected() {
    assert_eq!(decode_state(b""), Err(ServerError::MalformedState));
    assert_eq!(decode_state(b"{}"), Err(ServerError::MalformedState));
    assert_eq!(decode_state(b"not json at all"), Err(ServerError::MalformedState));
    // wrong power word
    assert_eq!(
        decode_state(b"{\"state\":\"DIMMED\",\"brightness\":1,\"color_temp\":1}"),
        Err(ServerError::MalformedState)
    );
    // leading zeros are not canonical numerals
    assert_eq!(
        decode_state(b"{\"state\":\"ON\",\"brightness\":007,\"color_temp\":1}"),
        Err(ServerError::MalformedState)
    );
    // trailing bytes are rejected
    assert_eq!(
        decode_state(b"{\"state\":\"ON\",\"brightness\":1,\"color_temp\":1} "),
        Err(ServerError::MalformedState)
    );
}

#[test]
fn delta_encoding_omits_absent_fields() {
    assert_eq!(encode_delta(&delta(None, None, None)), b"{}".to_vec());
    assert_eq!(
        encode_delta(&delta(Some(Power::On), None, None)),
        b"{\"state\":\"ON\"}".to_vec()
    );
    assert_eq!(encode_delta(&delta(None, Some(1000), None)), b"{\"brightness\":1000}".to_vec());
    assert_eq!(
        encode_delta(&delta(Some(Power::Off), Some(0), Some(454))),
        b"{\"state\":\"OFF\",\"brightness\":0,\"color_temp\":454}".to_vec()
    );
}

#[test]
fn delta_round_trip() {
    let powers = vec![None, Some(Power::On), Some(Power::Off)];
    let brightnesses = vec![None, Some(0), Some(1000), Some(usize::MAX)];
    let colors = vec![None, Some(0), Some(454)];
    for &p in &powers {
        for &b in &brightnesses {
            for &c in &colors {
                let d = delta(p, b, c);
                let bytes = encode_delta(&d);
                assert_eq!(decode_delta(&bytes), Ok(d));
            }
        }
    }
}

#[test]
fn malformed_delta_bytes_rejected() {
    assert_eq!(decode_delta(b""), Err(ServerError::MalformedState));
    assert_eq!(decode_delta(b"{"), Err(ServerError::MalformedState));
    // fields out of canonical order are rejected
    assert_eq!(
        decode_delta(b"{\"color_temp\":1,\"brightness\":2}"),
        Err(ServerError::MalformedState)
    );
    assert_eq!(decode_delta(b"{\"state\":null}"), Err(ServerError::MalformedState));
}

#[test]
fn no_lost_updates_when_commands_are_serialized() {
    let commands = vec![
        Message::Brighten(700),
        Message::Dim(400),
        Message::SetBrightness(5),
        Message::Dim(10),
        Message::On,
    ];
    let mut c = cache_with(state(Power::Off, 500, 300));
    for m in &commands {
        apply_to(&mut c, *m).unwrap();
    }
    // 500 -> 1000 -> 600 -> 5 -> 0, and the last command flips the power
    assert_eq!(c.read().unwrap(), state(Power::On, 0, 300));
}

#[test]
fn scenario_brighten_beyond_ceiling() {
    let mut c = cache_with(state(Power::Off, 500, 300));
    let d = apply_to(&mut c, Message::Brighten(700)).unwrap();
    assert_eq!(d, delta(None, Some(1000), None));
    // the optimistic policy writes the new value back to the cache
    assert_eq!(c.read().unwrap(), state(Power::Off, 1000, 300));
}

#[test]
fn scenario_empty_cache_commands() {
    let mut c = StateCache::new();
    let d = apply_to(&mut c, Message::On).unwrap();
    assert_eq!(d, delta(Some(Power::On), None, None));
    assert_eq!(apply_to(&mut c, Message::Dim(10)), Err(ServerError::StateNotYetKnown));
}

#[test]
fn subscription_step_refreshes_the_cache() {
    let mut c = StateCache::new();
    let payload = encode_state(&state(Power::On, 42, 454));
    assert_eq!(subscription_step(&mut c, &BusEvent::Report(payload)), Ok(()));
    assert_eq!(c.read().unwrap(), state(Power::On, 42, 454));
    // each report overwrites the cache wholesale
    let payload = encode_state(&state(Power::Off, 0, 0));
    assert_eq!(subscription_step(&mut c, &BusEvent::Report(payload)), Ok(()));
    assert_eq!(c.read().unwrap(), state(Power::Off, 0, 0));
}

#[test]
fn scenario_malformed_report_stops_the_server() {
    let mut c = cache_with(state(Power::On, 42, 454));
    let r = subscription_step(&mut c, &BusEvent::Report(b"garbage".to_vec()));
    assert_eq!(r, Err(ServerError::MalformedState));
    // the cache keeps its last good value
    assert_eq!(c.read().unwrap(), state(Power::On, 42, 454));
    // and the supervisor reports the loop's error as the server's outcome
    let outcome = server_outcome(&LoopExit::Subscription(r.unwrap_err()));
    assert_eq!(outcome, ServerError::MalformedState);
}

#[test]
fn subscription_stream_end_is_abnormal() {
    let mut c = StateCache::new();
    assert_eq!(
        subscription_step(&mut c, &BusEvent::Closed),
        Err(ServerError::SubscriptionEnded)
    );
}

#[test]
fn supervisor_propagates_either_loop() {
    assert_eq!(
        server_outcome(&LoopExit::Command(ServerError::PublishFailed)),
        ServerError::PublishFailed
    );
    assert_eq!(
        server_outcome(&LoopExit::Command(ServerError::ConnectionLost)),
        ServerError::ConnectionLost
    );
    assert_eq!(
        server_outcome(&LoopExit::Subscription(ServerError::SubscriptionEnded)),
        ServerError::SubscriptionEnded
    );
}

#[test]
fn command_step_full_pipeline() {
    let mut c = cache_with(state(Power::On, 500, 300));
    let raw = encode_message(&Message::Dim(10));
    let published = command_step(&mut c, &raw).unwrap();
    assert_eq!(published, b"{\"brightness\":490}".to_vec());
    assert_eq!(c.read().unwrap().brightness, 490);
}

#[test]
fn command_step_error_paths() {
    let mut c = StateCache::new();
    assert_eq!(command_step(&mut c, b"junk"), Err(ServerError::MalformedCommand));
    let raw = encode_message(&Message::Brighten(10));
    assert_eq!(command_step(&mut c, &raw), Err(ServerError::StateNotYetKnown));
    assert!(c.read().is_none());
}

#[test]
fn set_topic_appends_the_set_suffix() {
    let topic = set_topic(b"zigbee2mqtt/lamp");
    assert_eq!(topic, b"zigbee2mqtt/lamp/set".to_vec());
}
