//! The SCD41 CO2, temperature and humidity sensor on the hardware I2C bus:
//! what each driver routine sends and waits for, the retry policy of its
//! transfers, and the decoding of the measurement frame.
use vstd::prelude::*;

verus! {

/// The sensor's I2C address.
pub const SCD41_ADDRESS: u8 = 0x62;
/// How many times a transfer is attempted before it is given up.
pub const MAX_ATTEMPTS: u32 = 9;
/// The wait after a failed transfer, in milliseconds.
pub const RETRY_DELAY_MS: u32 = 1000;
/// The timeout of a read, in RTOS ticks.
pub const READ_TIMEOUT_TICKS: u32 = 10;
/// The length of a response frame: three words of two bytes and a CRC byte each.
pub const FRAME_LEN: usize = 9;

/// One step of a sensor routine.
#[derive(Clone, Copy, Debug, PartialEq, Eq, Structural)]
pub enum Scd41Step {
    /// Write a command (its two bytes, most significant first), retried on failure.
    Write(u8, u8),
    /// Wait this many milliseconds.
    DelayMs(u32),
    /// Read a frame of this many bytes, retried on failure.
    Read(usize),
}

/// The steps of stopping periodic measurement: command 0x3f86, then 500 ms.
pub open spec fn stop_periodic_measurement_steps() -> Seq<Scd41Step> {
    seq![Scd41Step::Write(0x3f, 0x86), Scd41Step::DelayMs(500)]
}

/// The steps of reading the serial number: command 0x3682, 500 ms, a frame.
pub open spec fn get_serial_number_steps() -> Seq<Scd41Step> {
    seq![Scd41Step::Write(0x36, 0x82), Scd41Step::DelayMs(500), Scd41Step::Read(9)]
}

/// The steps of starting periodic measurement: command 0x21b1.
pub open spec fn start_periodic_measurement_steps() -> Seq<Scd41Step> {
    seq![Scd41Step::Write(0x21, 0xb1)]
}

/// The steps of reading a measurement: command 0xec05, 1000 ms, a frame.
pub open spec fn read_measurement_steps() -> Seq<Scd41Step> {
    seq![Scd41Step::Write(0xec, 0x05), Scd41Step::DelayMs(1000), Scd41Step::Read(9)]
}

/// Stops periodic measurement.
pub fn stop_periodic_measurement() -> (steps: Vec<Scd41Step>)
    ensures
        steps@ == stop_periodic_measurement_steps(),
{
    let mut steps = Vec::new();
    steps.push(Scd41Step::Write(0x3f, 0x86));
    steps.push(Scd41Step::DelayMs(500));
    assert(steps@ =~= stop_periodic_measurement_steps());
    steps
}

/// Reads the serial number frame.
pub fn get_serial_number() -> (steps: Vec<Scd41Step>)
    ensures
        steps@ == get_serial_number_steps(),
{
    let mut steps = Vec::new();
    steps.push(Scd41Step::Write(0x36, 0x82));
    steps.push(Scd41Step::DelayMs(500));
    steps.push(Scd41Step::Read(FRAME_LEN));
    assert(steps@ =~= get_serial_number_steps());
    steps
}

/// Starts periodic measurement.
pub fn start_periodic_measurement() -> (steps: Vec<Scd41Step>)
    ensures
        steps@ == start_periodic_measurement_steps(),
{
    let mut steps = Vec::new();
    steps.push(Scd41Step::Write(0x21, 0xb1));
    assert(steps@ =~= start_periodic_measurement_steps());
    steps
}

/// Brings the sensor up: stops any periodic measurement, reads the serial
/// number, starts periodic measurement.
pub fn setup() -> (steps: Vec<Scd41Step>)
    ensures
        steps@ == stop_periodic_measurement_steps() + get_serial_number_steps()
            + start_periodic_measurement_steps(),
{
    let mut steps = stop_periodic_measurement();
    let mut serial = get_serial_number();
    let mut start = start_periodic_measurement();
    steps.append(&mut serial);
    steps.append(&mut start);
    steps
}

/// Requests a measurement and reads its frame.
pub fn measurement_request() -> (steps: Vec<Scd41Step>)
    ensures
        steps@ == read_measurement_steps(),
{
    let mut steps = Vec::new();
    steps.push(Scd41Step::Write(0xec, 0x05));
    steps.push(Scd41Step::DelayMs(1000));
    steps.push(Scd41Step::Read(FRAME_LEN));
    assert(steps@ =~= read_measurement_steps());
    steps
}

/// A measurement as the sensor sends it, before scaling.
#[derive(Clone, Copy, Debug, PartialEq, Eq, Structural)]
pub struct RawMeasurement {
    /// CO2 concentration in ppm.
    pub co2: u16,
    /// Temperature ticks: -45 + 175 * ticks / 65535 degrees Celsius.
    pub temperature: u16,
    /// Relative humidity ticks: 100 * ticks / 65535 percent.
    pub humidity: u16,
}

/// The big-endian word at `frame[i]`, `frame[i + 1]`.
pub open spec fn word_at(frame: Seq<u8>, i: int) -> int {
    frame[i] * 256 + frame[i + 1]
}

/// A big-endian word is its first byte times 256 plus its second: split
/// again, its high byte is the first byte and its low byte the second.
pub proof fn lemma_word_at(frame: Seq<u8>, i: int)
    requires
        0 <= i,
        i + 1 < frame.len(),
    ensures
        word_at(frame, i) == frame[i] * 256 + frame[i + 1],
        word_at(frame, i) / 256 == frame[i],
        word_at(frame, i) % 256 == frame[i + 1],
        0 <= word_at(frame, i) <= 0xffff,
{
}

fn word(msb: u8, lsb: u8) -> (w: u16)
    ensures
        w == msb * 256 + lsb,
        w / 256 == msb,
        w % 256 == lsb,
{
    let mut val: u16 = (msb as u16) << 8;
    val = val | (lsb as u16);
    let m = msb as u16;
    let l = lsb as u16;
    assert(m < 256 && l < 256 ==> (m << 8u16) | l == m * 256 + l) by (bit_vector);
    val
}

/// Decodes a measurement frame: CO2 in bytes 0-1, temperature in bytes 3-4,
/// humidity in bytes 6-7, each word big-endian; the CRC bytes 2, 5 and 8
/// are not checked.
pub fn decode_measurement(frame: &[u8; 9]) -> (m: RawMeasurement)
    ensures
        m.co2 == word_at(frame@, 0),
        m.temperature == word_at(frame@, 3),
        m.humidity == word_at(frame@, 6),
        m.co2 == frame@[0] * 256 + frame@[1],
        m.temperature == frame@[3] * 256 + frame@[4],
        m.humidity == frame@[6] * 256 + frame@[7],
        m.co2 / 256 == frame@[0] && m.co2 % 256 == frame@[1],
        m.temperature / 256 == frame@[3] && m.temperature % 256 == frame@[4],
        m.humidity / 256 == frame@[6] && m.humidity % 256 == frame@[7],
{
    RawMeasurement {
        co2: word(frame[0], frame[1]),
        temperature: word(frame[3], frame[4]),
        humidity: word(frame[6], frame[7]),
    }
}

/// What to do after an attempt at a transfer.
#[derive(Clone, Copy, Debug, PartialEq, Eq, Structural)]
pub enum RetryDecision {
    /// The attempt succeeded: go on with the routine.
    Done,
    /// The attempt failed: wait this many milliseconds, then attempt again.
    RetryAfter(u32),
    /// The last attempt failed: wait this many milliseconds, then go on
    /// with the routine without the transfer.
    GiveUpAfter(u32),
}

/// The failures counted and the decision after an attempt, when `failures`
/// attempts had already failed.
pub open spec fn retry_step(failures: nat, succeeded: bool) -> (nat, RetryDecision) {
    if succeeded {
        (failures, RetryDecision::Done)
    } else if failures + 1 < MAX_ATTEMPTS {
        (failures + 1, RetryDecision::RetryAfter(RETRY_DELAY_MS))
    } else {
        (failures + 1, RetryDecision::GiveUpAfter(RETRY_DELAY_MS))
    }
}

/// The decisions taken when the attempts turn out as `outcomes` say, from
/// `failures` failures on: one per attempt, up to the first decision that
/// does not attempt again.
pub open spec fn retry_run(failures: nat, outcomes: Seq<bool>) -> Seq<RetryDecision>
    decreases outcomes.len(),
{
    if outcomes.len() == 0 {
        Seq::empty()
    } else {
        let (next, decision) = retry_step(failures, outcomes[0]);
        if decision is RetryAfter {
            seq![decision] + retry_run(next, outcomes.drop_first())
        } else {
            seq![decision]
        }
    }
}

/// The retry policy of a transfer: attempt it until it succeeds, waiting
/// after each failure, at most `MAX_ATTEMPTS` times.
pub struct Retry {
    failures: u32,
}

impl Retry {
    /// How many attempts have failed.
    pub closed spec fn failures(self) -> nat {
        self.failures as nat
    }

    /// Whether another attempt may be made.
    pub open spec fn may_attempt(self) -> bool {
        self.failures() < MAX_ATTEMPTS
    }

    /// A transfer not attempted yet.
    pub fn new() -> (r: Retry)
        ensures
            r.failures() == 0,
    {
        Retry { failures: 0 }
    }

    /// Records how an attempt turned out and says what to do next.
    pub fn record(&mut self, succeeded: bool) -> (decision: RetryDecision)
        requires
            old(self).may_attempt(),
        ensures
            (final(self).failures(), decision) == retry_step(old(self).failures(), succeeded),
    {
        if succeeded {
            RetryDecision::Done
        } else {
            self.failures = self.failures + 1;
            if self.failures < MAX_ATTEMPTS {
                RetryDecision::RetryAfter(RETRY_DELAY_MS)
            } else {
                RetryDecision::GiveUpAfter(RETRY_DELAY_MS)
            }
        }
    }
}

/// A transfer is attempted at most `MAX_ATTEMPTS` times in all; each
/// decision but the last is to wait `RETRY_DELAY_MS` and attempt again.
pub proof fn lemma_retry_bounded(failures: nat, outcomes: Seq<bool>)
    requires
        failures < MAX_ATTEMPTS,
    ensures
        retry_run(failures, outcomes).len() <= MAX_ATTEMPTS - failures,
        forall|i: int| 0 <= i < retry_run(failures, outcomes).len() - 1 ==>
            #[trigger] retry_run(failures, outcomes)[i] == RetryDecision::RetryAfter(RETRY_DELAY_MS),
    decreases outcomes.len(),
{
    if outcomes.len() > 0 {
        let (next, decision) = retry_step(failures, outcomes[0]);
        if decision is RetryAfter {
            lemma_retry_bounded(next, outcomes.drop_first());
            let rest = retry_run(next, outcomes.drop_first());
            assert forall|i: int| 0 <= i < retry_run(failures, outcomes).len() - 1 implies
                #[trigger] retry_run(failures, outcomes)[i] == RetryDecision::RetryAfter(RETRY_DELAY_MS) by {
                if i > 0 {
                    assert(retry_run(failures, outcomes)[i] == rest[i - 1]);
                }
            }
        }
    }
}

/// The first attempt that succeeds, within the attempts allowed, ends the
/// retrying: when the attempts before the k-th fail and the k-th succeeds,
/// k attempts fail and are retried and the k-th is done.
pub proof fn lemma_retry_stops_at_success(failures: nat, outcomes: Seq<bool>, k: nat)
    requires
        failures + k < MAX_ATTEMPTS,
        k < outcomes.len(),
        outcomes[k as int],
        forall|j: int| 0 <= j < k ==> !#[trigger] outcomes[j],
    ensures
        retry_run(failures, outcomes).len() == k + 1,
        retry_run(failures, outcomes)[k as int] == RetryDecision::Done,
    decreases k,
{
    if k > 0 {
        assert(!outcomes[0]);
        let rest = outcomes.drop_first();
        assert forall|j: int| 0 <= j < k - 1 implies !#[trigger] rest[j] by {
            assert(rest[j] == outcomes[j + 1]);
        }
        lemma_retry_stops_at_success(failures + 1, rest, (k - 1) as nat);
    }
}

/// When every attempt allowed fails, the transfer is given up after the
/// last of them, `MAX_ATTEMPTS - failures` attempts in all.
pub proof fn lemma_retry_gives_up(failures: nat, outcomes: Seq<bool>)
    requires
        failures < MAX_ATTEMPTS,
        outcomes.len() >= MAX_ATTEMPTS - failures,
        forall|j: int| 0 <= j < MAX_ATTEMPTS - failures ==> !#[trigger] outcomes[j],
    ensures
        retry_run(failures, outcomes).len() == MAX_ATTEMPTS - failures,
        retry_run(failures, outcomes).last() == RetryDecision::GiveUpAfter(RETRY_DELAY_MS),
    decreases MAX_ATTEMPTS - failures,
{
    assert(!outcomes[0]);
    if failures + 1 < MAX_ATTEMPTS {
        let rest = outcomes.drop_first();
        assert forall|j: int| 0 <= j < MAX_ATTEMPTS - (failures + 1) implies !#[trigger] rest[j] by {
            assert(rest[j] == outcomes[j + 1]);
        }
        lemma_retry_gives_up(failures + 1, rest);
    }
}

} // verus!
