use iaq_monitor::scd41::{
    decode_measurement, get_serial_number, measurement_request, setup, start_periodic_measurement,
    stop_periodic_measurement, RawMeasurement, Retry, RetryDecision, Scd41Step, MAX_ATTEMPTS,
};

#[test]
fn routine_steps() {
    assert_eq!(stop_periodic_measurement(), vec![Scd41Step::Write(0x3f, 0x86), Scd41Step::DelayMs(500)]);
    assert_eq!(start_periodic_measurement(), vec![Scd41Step::Write(0x21, 0xb1)]);
    assert_eq!(
        get_serial_number(),
        vec![Scd41Step::Write(0x36, 0x82), Scd41Step::DelayMs(500), Scd41Step::Read(9)]
    );
    assert_eq!(
        measurement_request(),
        vec![Scd41Step::Write(0xec, 0x05), Scd41Step::DelayMs(1000), Scd41Step::Read(9)]
    );
}

#[test]
fn setup_stops_reads_serial_then_starts() {
    let mut expected = stop_periodic_measurement();
    expected.extend(get_serial_number());
    expected.extend(start_periodic_measurement());
    assert_eq!(setup(), expected);
    assert_eq!(setup().len(), 6);
}

#[test]
fn decodes_a_measurement_frame() {
    let frame = [0x01, 0xF4, 0x33, 0x66, 0x67, 0xA2, 0x5E, 0xB9, 0x3C];
    assert_eq!(
        decode_measurement(&frame),
        RawMeasurement { co2: 500, temperature: 0x6667, humidity: 0x5EB9 }
    );
    assert_eq!(decode_measurement(&[0; 9]), RawMeasurement { co2: 0, temperature: 0, humidity: 0 });
}

#[test]
fn retry_stops_at_first_success() {
    let mut r = Retry::new();
    assert_eq!(r.record(false), RetryDecision::RetryAfter(1000));
    assert_eq!(r.record(false), RetryDecision::RetryAfter(1000));
    assert_eq!(r.record(true), RetryDecision::Done);
}

#[test]
fn retry_gives_up_after_nine_failures() {
    let mut r = Retry::new();
    let mut decisions = Vec::new();
    for _ in 0..MAX_ATTEMPTS {
        decisions.push(r.record(false));
    }
    assert_eq!(decisions.len(), 9);
    assert!(decisions[..8].iter().all(|d| *d == RetryDecision::RetryAfter(1000)));
    assert_eq!(decisions[8], RetryDecision::GiveUpAfter(1000));
}

#[test]
fn success_on_the_last_attempt_is_done() {
    let mut r = Retry::new();
    for _ in 0..8 {
        assert_eq!(r.record(false), RetryDecision::RetryAfter(1000));
    }
    assert_eq!(r.record(true), RetryDecision::Done);
}
