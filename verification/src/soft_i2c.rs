use vstd::prelude::*;

verus! {

/// The logic level of a bus line.
#[derive(Clone, Copy, Debug, PartialEq, Eq, Structural)]
pub enum Level {
    Low,
    High,
}

/// One step of the waveform that the master drives on its two pins.
#[derive(Clone, Copy, Debug, PartialEq, Eq, Structural)]
pub enum BusOp {
    /// Drive SCL to the level.
    SetScl(Level),
    /// Drive SDA to the level.
    SetSda(Level),
    /// Hold the lines as they are for the given number of milliseconds.
    SleepMs(u64),
    /// Switch the SDA pin to input, so that the device may drive the line.
    ReleaseSda,
    /// Read the level of SDA.
    SampleSda,
    /// Switch the SDA pin back to output.
    ReclaimSda,
}

/// The level that carries one data bit: `1` is high, anything else low.
pub open spec fn level_of_bit(data: u8) -> Level {
    if data == 1 { Level::High } else { Level::Low }
}

/// Bit `i` of `data`, counted from the most significant bit, as `1` or `0`.
pub open spec fn msb_bit(data: u8, i: nat) -> u8 {
    if data & (0x80u8 >> i) != 0 { 1 } else { 0 }
}

/// The byte put on the bus to address a device: its 7-bit address shifted
/// left, with the direction bit below it (`0` write, `1` read).
pub open spec fn address_byte(device_address: u8, rw: u8) -> u8 {
    ((device_address << 1u8) | rw) as u8
}

/// START condition: SDA falls while SCL is high, then SCL goes low.
pub open spec fn start_wave() -> Seq<BusOp> {
    seq![
        BusOp::SetSda(Level::High), BusOp::SleepMs(10),
        BusOp::SetScl(Level::High), BusOp::SleepMs(10),
        BusOp::SetSda(Level::Low), BusOp::SleepMs(10),
        BusOp::SetScl(Level::Low), BusOp::SleepMs(10),
    ]
}

/// STOP condition: SDA rises while SCL is high.
pub open spec fn stop_wave() -> Seq<BusOp> {
    seq![
        BusOp::SetScl(Level::Low), BusOp::SleepMs(10),
        BusOp::SetSda(Level::Low), BusOp::SleepMs(10),
        BusOp::SetScl(Level::High), BusOp::SleepMs(10),
        BusOp::SetSda(Level::High), BusOp::SleepMs(10),
    ]
}

/// One clock pulse with SDA held at the level of `data` while SCL is high.
pub open spec fn bit_wave(data: u8) -> Seq<BusOp> {
    seq![
        BusOp::SetSda(Level::Low), BusOp::SleepMs(1),
        BusOp::SetScl(Level::Low), BusOp::SleepMs(1),
        BusOp::SetSda(level_of_bit(data)), BusOp::SleepMs(1),
        BusOp::SetScl(Level::High), BusOp::SleepMs(1),
        BusOp::SetScl(Level::Low), BusOp::SleepMs(1),
        BusOp::SetSda(Level::Low), BusOp::SleepMs(1),
    ]
}

/// The first `n` bits of `data`, most significant first, one pulse each.
pub open spec fn byte_wave_prefix(data: u8, n: nat) -> Seq<BusOp>
    decreases n,
{
    if n == 0 {
        Seq::empty()
    } else {
        byte_wave_prefix(data, (n - 1) as nat) + bit_wave(msb_bit(data, (n - 1) as nat))
    }
}

/// All eight bits of `data`, most significant first.
pub open spec fn byte_wave(data: u8) -> Seq<BusOp> {
    byte_wave_prefix(data, 8)
}

/// One read slot: SDA released, one pulse on SCL, SDA sampled while SCL is high.
pub open spec fn read_slot() -> Seq<BusOp> {
    seq![
        BusOp::SetScl(Level::Low), BusOp::SleepMs(1),
        BusOp::SetScl(Level::High), BusOp::SleepMs(1),
        BusOp::SampleSda, BusOp::SleepMs(1),
        BusOp::SetScl(Level::Low), BusOp::SleepMs(1),
    ]
}

/// The acknowledge slot after a byte the master sent: SDA released, sampled
/// during one clock pulse, then taken back and driven low.
pub open spec fn ack_in_wave() -> Seq<BusOp> {
    seq![
        BusOp::SetScl(Level::Low), BusOp::ReleaseSda, BusOp::SleepMs(1),
        BusOp::SetScl(Level::High), BusOp::SleepMs(1),
        BusOp::SampleSda, BusOp::SleepMs(1),
        BusOp::SetScl(Level::Low), BusOp::SleepMs(1),
        BusOp::ReclaimSda, BusOp::SetSda(Level::Low),
    ]
}

/// `n` read slots in a row.
pub open spec fn read_slots(n: nat) -> Seq<BusOp>
    decreases n,
{
    if n == 0 {
        Seq::empty()
    } else {
        read_slots((n - 1) as nat) + read_slot()
    }
}

/// Receiving a byte: SDA released, eight read slots, SDA taken back and driven low.
pub open spec fn byte_in_wave() -> Seq<BusOp> {
    seq![BusOp::ReleaseSda] + read_slots(8) + seq![BusOp::ReclaimSda, BusOp::SetSda(Level::Low)]
}

/// A register read: START, device address with write bit, register address,
/// repeated START, device address with read bit, the data byte, NACK, STOP.
pub open spec fn read_register_wave(device_address: u8, register_address: u8) -> Seq<BusOp> {
    start_wave() + byte_wave(address_byte(device_address, 0)) + ack_in_wave()
        + byte_wave(register_address) + ack_in_wave()
        + start_wave() + byte_wave(address_byte(device_address, 1)) + ack_in_wave()
        + byte_in_wave() + bit_wave(1) + stop_wave()
}

/// A register write: START, device address with write bit, register address,
/// data byte, each followed by an acknowledge slot, then STOP.
pub open spec fn write_register_wave(device_address: u8, register_address: u8, data: u8) -> Seq<BusOp> {
    start_wave() + byte_wave(address_byte(device_address, 0)) + ack_in_wave()
        + byte_wave(register_address) + ack_in_wave()
        + byte_wave(data) + ack_in_wave()
        + stop_wave()
}

/// `size` register reads, at consecutive register addresses from `register_address`.
pub open spec fn read_registers_wave(device_address: u8, register_address: u8, size: nat) -> Seq<BusOp>
    decreases size,
{
    if size == 0 {
        Seq::empty()
    } else {
        read_registers_wave(device_address, register_address, (size - 1) as nat)
            + read_register_wave(device_address, (register_address + size - 1) as u8)
    }
}

/// Number of samples that a register read takes: three acknowledge slots and eight data bits.
pub open spec fn samples_per_register_read() -> nat {
    11
}

/// The address byte of a 7-bit device address is twice the address plus
/// the direction bit: read back, its upper seven bits are the address and
/// its lowest bit is the direction.
pub proof fn lemma_address_byte(device_address: u8, rw: u8)
    requires
        device_address < 128,
        rw < 2,
    ensures
        address_byte(device_address, rw) == 2 * device_address + rw,
        address_byte(device_address, rw) / 2 == device_address,
        address_byte(device_address, rw) % 2 == rw,
{
    assert(device_address < 128 && rw < 2 ==>
        ((device_address << 1u8) | rw) == 2 * device_address + rw) by (bit_vector);
}

/// The number of steps in one register read.
pub open spec fn register_read_len() -> nat {
    424
}

proof fn lemma_byte_wave_prefix_len(data: u8, n: nat)
    ensures
        byte_wave_prefix(data, n).len() == 12 * n,
    decreases n,
{
    if n > 0 {
        lemma_byte_wave_prefix_len(data, (n - 1) as nat);
    }
}

proof fn lemma_read_slots_len(n: nat)
    ensures
        read_slots(n).len() == 8 * n,
    decreases n,
{
    if n > 0 {
        lemma_read_slots_len((n - 1) as nat);
    }
}

/// Every register read has the same number of steps.
pub proof fn lemma_read_register_wave_len(device_address: u8, register_address: u8)
    ensures
        read_register_wave(device_address, register_address).len() == register_read_len(),
{
    lemma_byte_wave_prefix_len(address_byte(device_address, 0), 8);
    lemma_byte_wave_prefix_len(address_byte(device_address, 1), 8);
    lemma_byte_wave_prefix_len(register_address, 8);
    lemma_read_slots_len(8);
}

/// Reading `size` registers takes `size` register reads' worth of steps.
pub proof fn lemma_read_registers_wave_len(device_address: u8, register_address: u8, size: nat)
    ensures
        read_registers_wave(device_address, register_address, size).len() == size * register_read_len(),
    decreases size,
{
    if size > 0 {
        lemma_read_registers_wave_len(device_address, register_address, (size - 1) as nat);
        lemma_read_register_wave_len(device_address, (register_address + size - 1) as u8);
    }
}

/// Reading `size` registers from `register_address` is one register read
/// after the other, the k-th addressed to register `register_address + k`.
pub proof fn lemma_read_registers_in_order(device_address: u8, register_address: u8, size: nat, k: nat)
    requires
        k < size,
        register_address + size <= 256,
    ensures
        read_registers_wave(device_address, register_address, size).subrange(
            (k * register_read_len()) as int, ((k + 1) * register_read_len()) as int)
            == read_register_wave(device_address, (register_address + k) as u8),
    decreases size,
{
    let m = (size - 1) as nat;
    let a = read_registers_wave(device_address, register_address, m);
    let b = read_register_wave(device_address, (register_address + m) as u8);
    lemma_read_registers_wave_len(device_address, register_address, m);
    lemma_read_register_wave_len(device_address, (register_address + m) as u8);
    assert(read_registers_wave(device_address, register_address, size) == a + b);
    if k < m {
        lemma_read_registers_in_order(device_address, register_address, m, k);
        assert((a + b).subrange((k * 424) as int, ((k + 1) * 424) as int) =~= a.subrange((k * 424) as int, ((k + 1) * 424) as int));
    } else {
        assert((a + b).subrange((k * 424) as int, ((k + 1) * 424) as int) =~= b);
    }
}

/// The value of levels read most significant bit first (high is `1`).
pub open spec fn levels_value(levels: Seq<Level>) -> nat
    decreases levels.len(),
{
    if levels.len() == 0 {
        0
    } else {
        2 * levels_value(levels.drop_last()) + (if levels.last() == Level::High { 1nat } else { 0nat })
    }
}

spec fn power_of_two(n: nat) -> nat
    decreases n,
{
    if n == 0 { 1 } else { 2 * power_of_two((n - 1) as nat) }
}

proof fn lemma_levels_value_bound(levels: Seq<Level>)
    ensures
        levels_value(levels) < power_of_two(levels.len()),
    decreases levels.len(),
{
    if levels.len() > 0 {
        lemma_levels_value_bound(levels.drop_last());
    }
}

proof fn lemma_levels_value_below_128(levels: Seq<Level>)
    requires
        levels.len() <= 7,
    ensures
        levels_value(levels) < 128,
{
    lemma_levels_value_bound(levels);
    reveal_with_fuel(power_of_two, 8);
    assert(power_of_two(levels.len()) <= 128);
}

/// A bit-banged I2C master.
///
/// It records the waveform that it drives, in order, and reads the levels
/// that SDA showed at its samples from `input`, the k-th sample taking
/// `input[k]`. A sample past the end of `input` reads high: a released line
/// that nobody pulls down. The levels read in acknowledge slots are also
/// kept in order, so that a NACK can be reported.
///
/// The waveform depends only on the calls made, never on what was read, so
/// a transaction can be played on the pins and then replayed on a bus that
/// holds the sampled levels to obtain what was received.
pub struct I2CBus {
    ops: Vec<BusOp>,
    input: Vec<Level>,
    sampled: usize,
    acks: Vec<Level>,
}

impl I2CBus {
    #[verifier::type_invariant]
    spec fn counts_fit(self) -> bool {
        self.sampled <= self.ops@.len()
    }

    /// The waveform driven so far.
    pub closed spec fn wave(self) -> Seq<BusOp> {
        self.ops@
    }

    /// The levels that the samples read, in order.
    pub closed spec fn input_levels(self) -> Seq<Level> {
        self.input@
    }

    /// How many samples have been taken.
    pub closed spec fn samples_taken(self) -> nat {
        self.sampled as nat
    }

    /// The acknowledge levels received so far, in order (high is a NACK).
    pub closed spec fn ack_log(self) -> Seq<Level> {
        self.acks@
    }

    /// The level that the k-th sample reads.
    pub open spec fn line_level(self, k: nat) -> Level {
        if k < self.input_levels().len() {
            self.input_levels()[k as int]
        } else {
            Level::High
        }
    }

    /// The levels that `n` samples starting at the k-th read.
    pub open spec fn levels_from(self, k: nat, n: nat) -> Seq<Level> {
        Seq::new(n, |i: int| self.line_level((k + i) as nat))
    }

    /// The byte received in the eight samples starting at the k-th.
    pub open spec fn byte_from(self, k: nat) -> u8 {
        levels_value(self.levels_from(k, 8)) as u8
    }

    /// `after` is `self` with `wave` driven, `samples` more samples taken
    /// and the acknowledge levels `acks` received.
    pub open spec fn drove(self, after: Self, wave: Seq<BusOp>, samples: nat, acks: Seq<Level>) -> bool {
        &&& after.wave() == self.wave() + wave
        &&& after.input_levels() == self.input_levels()
        &&& after.samples_taken() == self.samples_taken() + samples
        &&& after.ack_log() == self.ack_log() + acks
    }

    /// The acknowledge levels of `n` register reads starting at the k-th
    /// sample: the first three samples of each read.
    pub open spec fn register_read_acks(self, k: nat, n: nat) -> Seq<Level>
        decreases n,
    {
        if n == 0 {
            Seq::empty()
        } else {
            self.register_read_acks(k, (n - 1) as nat) + self.levels_from((k + 11 * (n - 1)) as nat, 3)
        }
    }

    /// A bus with nothing driven yet, whose samples all read high.
    pub fn new() -> (bus: Self)
        ensures
            bus.wave() == Seq::<BusOp>::empty(),
            bus.input_levels() == Seq::<Level>::empty(),
            bus.samples_taken() == 0,
            bus.ack_log() == Seq::<Level>::empty(),
    {
        I2CBus { ops: Vec::new(), input: Vec::new(), sampled: 0, acks: Vec::new() }
    }

    /// A bus with nothing driven yet, whose samples read `input` in order.
    pub fn with_input(input: Vec<Level>) -> (bus: Self)
        ensures
            bus.wave() == Seq::<BusOp>::empty(),
            bus.input_levels() == input@,
            bus.samples_taken() == 0,
            bus.ack_log() == Seq::<Level>::empty(),
    {
        I2CBus { ops: Vec::new(), input, sampled: 0, acks: Vec::new() }
    }

    /// The waveform driven so far.
    pub fn ops(&self) -> (ops: &Vec<BusOp>)
        ensures
            ops@ == self.wave(),
    {
        &self.ops
    }

    /// How many samples have been taken.
    pub fn samples(&self) -> (n: usize)
        ensures
            n == self.samples_taken(),
    {
        self.sampled
    }

    /// The acknowledge levels received so far, in order (high is a NACK).
    pub fn ack_levels(&self) -> (acks: &Vec<Level>)
        ensures
            acks@ == self.ack_log(),
    {
        &self.acks
    }

    fn log_ack(self, level: Level) -> (bus: Self)
        ensures
            self.drove(bus, Seq::empty(), 0, seq![level]),
    {
        proof { use_type_invariant(&self); }
        let I2CBus { mut ops, input, sampled, mut acks } = self;
        let ghost before = acks@;
        acks.push(level);
        assert(acks@ =~= before + seq![level]);
        assert(ops@ =~= ops@ + Seq::<BusOp>::empty());
        I2CBus { ops, input, sampled, acks }
    }

    fn drive(self, op: BusOp) -> (bus: Self)
        requires
            op != BusOp::SampleSda,
        ensures
            self.drove(bus, seq![op], 0, Seq::empty()),
    {
        proof { use_type_invariant(&self); }
        let I2CBus { mut ops, input, sampled, acks } = self;
        let ghost before = ops@;
        ops.push(op);
        assert(ops@ =~= before + seq![op]);
        assert(acks@ =~= acks@ + Seq::<Level>::empty());
        I2CBus { ops, input, sampled, acks }
    }

    fn sample(self) -> (res: (Self, Level))
        ensures
            self.drove(res.0, seq![BusOp::SampleSda], 1, Seq::empty()),
            res.1 == self.line_level(self.samples_taken()),
    {
        proof { use_type_invariant(&self); }
        let I2CBus { mut ops, input, sampled, acks } = self;
        let ghost before = ops@;
        ops.push(BusOp::SampleSda);
        assert(ops@ =~= before + seq![BusOp::SampleSda]);
        assert(acks@ =~= acks@ + Seq::<Level>::empty());
        let driven = ops.len();
        assert(sampled < driven);
        let level = if sampled < input.len() { input[sampled] } else { Level::High };
        (I2CBus { ops, input, sampled: sampled + 1, acks }, level)
    }

    fn set_scl(self, level: Level) -> (bus: Self)
        ensures
            self.drove(bus, seq![BusOp::SetScl(level)], 0, Seq::empty()),
    {
        self.drive(BusOp::SetScl(level))
    }

    fn set_sda(self, level: Level) -> (bus: Self)
        ensures
            self.drove(bus, seq![BusOp::SetSda(level)], 0, Seq::empty()),
    {
        self.drive(BusOp::SetSda(level))
    }

    fn sleep_ms(self, ms: u64) -> (bus: Self)
        ensures
            self.drove(bus, seq![BusOp::SleepMs(ms)], 0, Seq::empty()),
    {
        self.drive(BusOp::SleepMs(ms))
    }

    /// Drives a START condition: SDA high, SCL high, SDA low, SCL low, 10 ms apart.
    pub fn send_start_cond(self) -> (bus: Self)
        ensures
            self.drove(bus, start_wave(), 0, Seq::empty()),
    {
        let b1 = self.set_sda(Level::High);
        let b2 = b1.sleep_ms(10);
        let b3 = b2.set_scl(Level::High);
        let b4 = b3.sleep_ms(10);
        let b5 = b4.set_sda(Level::Low);
        let b6 = b5.sleep_ms(10);
        let b7 = b6.set_scl(Level::Low);
        let b8 = b7.sleep_ms(10);
        assert(b8.wave() =~= self.wave() + start_wave());
        b8
    }

    /// Drives a STOP condition: SCL low, SDA low, SCL high, SDA high, 10 ms apart.
    pub fn send_stop_cond(self) -> (bus: Self)
        ensures
            self.drove(bus, stop_wave(), 0, Seq::empty()),
    {
        let b1 = self.set_scl(Level::Low);
        let b2 = b1.sleep_ms(10);
        let b3 = b2.set_sda(Level::Low);
        let b4 = b3.sleep_ms(10);
        let b5 = b4.set_scl(Level::High);
        let b6 = b5.sleep_ms(10);
        let b7 = b6.set_sda(Level::High);
        let b8 = b7.sleep_ms(10);
        assert(b8.wave() =~= self.wave() + stop_wave());
        b8
    }

    /// Sends the acknowledge bit `data` (`0` ACK, `1` NACK) as one clock pulse.
    pub fn send_ack(self, data: u8) -> (bus: Self)
        ensures
            self.drove(bus, bit_wave(data), 0, Seq::empty()),
    {
        self.send_bit(data)
    }

    /// Sends one bit as a clock pulse: SDA is high during the pulse when `data`
    /// is `1` and low otherwise; SDA is left low.
    pub fn send_bit(self, data: u8) -> (bus: Self)
        ensures
            self.drove(bus, bit_wave(data), 0, Seq::empty()),
    {
        let b1 = self.set_sda(Level::Low);
        let b2 = b1.sleep_ms(1);
        let b3 = b2.set_scl(Level::Low);
        let b4 = b3.sleep_ms(1);
        let level = if data == 1 { Level::High } else { Level::Low };
        let b5 = b4.set_sda(level);
        let b6 = b5.sleep_ms(1);
        let b7 = b6.set_scl(Level::High);
        let b8 = b7.sleep_ms(1);
        let b9 = b8.set_scl(Level::Low);
        let b10 = b9.sleep_ms(1);
        let b11 = b10.set_sda(Level::Low);
        let b12 = b11.sleep_ms(1);
        assert(b12.wave() =~= self.wave() + bit_wave(data));
        b12
    }

    /// Sends the eight bits of `data`, most significant first.
    pub fn send_byte(self, data: u8) -> (bus: Self)
        ensures
            self.drove(bus, byte_wave(data), 0, Seq::empty()),
    {
        let mut bus = self;
        let mut mask: u8 = 0x80;
        let mut i: u8 = 0;
        assert(bus.wave() =~= self.wave() + byte_wave_prefix(data, 0));
        assert(0x80u8 >> 0u8 == 0x80u8) by (bit_vector);
        while i < 8
            invariant
                i <= 8,
                mask == 0x80u8 >> i,
                self.drove(bus, byte_wave_prefix(data, i as nat), 0, Seq::empty()),
            decreases 8 - i,
        {
            let ghost prev = bus;
            if data & mask != 0 {
                bus = bus.send_bit(1);
            } else {
                bus = bus.send_bit(0);
            }
            assert(bus.wave() =~= self.wave() + byte_wave_prefix(data, (i + 1) as nat)) by {
                assert(msb_bit(data, i as nat) == (if data & mask != 0 { 1u8 } else { 0u8 }));
            }
            assert((0x80u8 >> i) >> 1u8 == 0x80u8 >> ((i + 1) as u8)) by (bit_vector)
                requires
                    i < 8,
            ;
            mask = mask >> 1;
            i = i + 1;
        }
        bus
    }

    /// Sends the address byte: the 7-bit device address shifted left, with
    /// the direction bit `rw` (`0` write, `1` read) below it.
    pub fn send_device_address_rw(self, device_address: u8, rw: u8) -> (bus: Self)
        ensures
            self.drove(bus, byte_wave(address_byte(device_address, rw)), 0, Seq::empty()),
            device_address < 128 && rw < 2 ==> address_byte(device_address, rw) == 2 * device_address + rw,
    {
        if device_address < 128 && rw < 2 {
            proof { lemma_address_byte(device_address, rw); }
        }
        let data = (device_address << 1) | rw;
        self.send_byte(data)
    }

    /// Receives the acknowledge bit of the device: SDA released during one
    /// clock pulse and sampled while SCL is high, then driven low again.
    /// Returns the sampled level (low is ACK, high NACK).
    pub fn recv_ack(self) -> (res: (Self, Level))
        ensures
            self.drove(res.0, ack_in_wave(), 1, seq![self.line_level(self.samples_taken())]),
            res.1 == self.line_level(self.samples_taken()),
    {
        let b1 = self.set_scl(Level::Low);
        let b2 = b1.drive(BusOp::ReleaseSda);
        let b3 = b2.sleep_ms(1);
        let b4 = b3.set_scl(Level::High);
        let b5 = b4.sleep_ms(1);
        let (b6a, level) = b5.sample();
        let b6 = b6a.log_ack(level);
        let b7 = b6.sleep_ms(1);
        let b8 = b7.set_scl(Level::Low);
        let b9 = b8.sleep_ms(1);
        let b10 = b9.drive(BusOp::ReclaimSda);
        let b11 = b10.set_sda(Level::Low);
        assert(b11.wave() =~= self.wave() + ack_in_wave());
        assert(b11.ack_log() =~= self.ack_log() + seq![level]);
        (b11, level)
    }

    /// Receives a byte: SDA released, eight clock pulses each sampled while
    /// SCL is high, most significant bit first, then SDA driven low again.
    pub fn recv_byte(self) -> (res: (Self, u8))
        ensures
            self.drove(res.0, byte_in_wave(), 8, Seq::empty()),
            res.1 == self.byte_from(self.samples_taken()),
    {
        let ghost k0 = self.samples_taken();
        let mut data: u8 = 0;
        let mut bus = self.drive(BusOp::ReleaseSda);
        let mut i: u8 = 0;
        assert(bus.wave() =~= self.wave() + seq![BusOp::ReleaseSda] + read_slots(0));
        assert(self.levels_from(k0, 0) =~= Seq::<Level>::empty());
        while i < 8
            invariant
                i <= 8,
                self.drove(bus, seq![BusOp::ReleaseSda] + read_slots(i as nat), i as nat, Seq::empty()),
                data as nat == levels_value(self.levels_from(k0, i as nat)),
                k0 == self.samples_taken(),
            decreases 8 - i,
        {
            let b1 = bus.set_scl(Level::Low);
            let b2 = b1.sleep_ms(1);
            let b3 = b2.set_scl(Level::High);
            let b4 = b3.sleep_ms(1);
            proof {
                lemma_levels_value_below_128(self.levels_from(k0, i as nat));
            }
            assert(data < 128 ==> data << 1u8 == data * 2) by (bit_vector);
            data = data << 1;
            let (b5, level) = b4.sample();
            if level == Level::High {
                data = data + 1;
            }
            let b6 = b5.sleep_ms(1);
            let b7 = b6.set_scl(Level::Low);
            let b8 = b7.sleep_ms(1);
            assert(b8.wave() =~= self.wave() + (seq![BusOp::ReleaseSda] + read_slots((i + 1) as nat)));
            assert(self.levels_from(k0, (i + 1) as nat).drop_last() =~= self.levels_from(k0, i as nat));
            bus = b8;
            i = i + 1;
        }
        let b1 = bus.drive(BusOp::ReclaimSda);
        let b2 = b1.set_sda(Level::Low);
        assert(b2.wave() =~= self.wave() + byte_in_wave());
        (b2, data)
    }

    /// Reads one register of a device: START, address with write bit,
    /// register address, repeated START, address with read bit, the data
    /// byte, NACK, STOP. The acknowledge levels are read and not acted on.
    pub fn read_register(self, device_address: u8, register_address: u8) -> (res: (Self, u8))
        ensures
            self.drove(res.0, read_register_wave(device_address, register_address), samples_per_register_read(),
                self.levels_from(self.samples_taken(), 3)),
            res.1 == self.byte_from(self.samples_taken() + 3),
    {
        let b1 = self.send_start_cond();
        let b2 = b1.send_device_address_rw(device_address, 0);
        let (b3, _level) = b2.recv_ack();
        let b4 = b3.send_byte(register_address);
        let (b5, _level) = b4.recv_ack();
        let b6 = b5.send_start_cond();
        let b7 = b6.send_device_address_rw(device_address, 1);
        let (b8, _level) = b7.recv_ack();
        let (b9, data) = b8.recv_byte();
        assert(b8.levels_from(b8.samples_taken(), 8) =~= self.levels_from(self.samples_taken() + 3, 8));
        let b10 = b9.send_ack(1);
        let b11 = b10.send_stop_cond();
        assert(b11.wave() =~= self.wave() + read_register_wave(device_address, register_address));
        assert(b11.ack_log() =~= self.ack_log() + self.levels_from(self.samples_taken(), 3));
        (b11, data)
    }

    /// Writes `data` to one register of a device: START, address with write
    /// bit, register address, data, each acknowledged, then STOP.
    pub fn write_register(self, device_address: u8, register_address: u8, data: u8) -> (bus: Self)
        ensures
            self.drove(bus, write_register_wave(device_address, register_address, data), 3,
                self.levels_from(self.samples_taken(), 3)),
    {
        let b1 = self.send_start_cond();
        let b2 = b1.send_device_address_rw(device_address, 0);
        let (b3, _level) = b2.recv_ack();
        let b4 = b3.send_byte(register_address);
        let (b5, _level) = b4.recv_ack();
        let b6 = b5.send_byte(data);
        let (b7, _level) = b6.recv_ack();
        let b8 = b7.send_stop_cond();
        assert(b8.wave() =~= self.wave() + write_register_wave(device_address, register_address, data));
        assert(b8.ack_log() =~= self.ack_log() + self.levels_from(self.samples_taken(), 3));
        b8
    }

    /// Reads `size` registers of a device, one register read each, from
    /// `register_address` upwards.
    pub fn read_registers(self, device_address: u8, register_address: u8, size: u8) -> (res: (Self, Vec<u8>))
        requires
            size == 0 || register_address + size <= 255,
        ensures
            self.drove(res.0, read_registers_wave(device_address, register_address, size as nat),
                samples_per_register_read() * (size as nat),
                self.register_read_acks(self.samples_taken(), size as nat)),
            res.1@.len() == size,
            forall|k: int| 0 <= k < size ==>
                #[trigger] res.1@[k] == self.byte_from((self.samples_taken() + 11 * k + 3) as nat),
            forall|k: nat| k < size ==>
                #[trigger] res.0.wave().subrange((self.wave().len() + k * register_read_len()) as int,
                    (self.wave().len() + (k + 1) * register_read_len()) as int)
                    == read_register_wave(device_address, (register_address + k) as u8),
    {
        let mut values: Vec<u8> = Vec::new();
        let mut bus = self;
        let mut address = register_address;
        let mut n: u8 = 0;
        assert(bus.wave() =~= self.wave() + read_registers_wave(device_address, register_address, 0));
        assert(bus.ack_log() =~= self.ack_log() + self.register_read_acks(self.samples_taken(), 0));
        while n < size
            invariant
                n <= size,
                size == 0 || register_address + size <= 255,
                address == register_address + n,
                self.drove(bus, read_registers_wave(device_address, register_address, n as nat),
                    samples_per_register_read() * (n as nat),
                    self.register_read_acks(self.samples_taken(), n as nat)),
                values@.len() == n,
                forall|k: int| 0 <= k < n ==>
                    #[trigger] values@[k] == self.byte_from((self.samples_taken() + 11 * k + 3) as nat),
            decreases size - n,
        {
            let (next, data) = bus.read_register(device_address, address);
            assert(bus.levels_from(bus.samples_taken() + 3, 8)
                =~= self.levels_from((self.samples_taken() + 11 * n + 3) as nat, 8));
            let ghost before = values@;
            values.push(data);
            assert(forall|k: int| 0 <= k < n ==> values@[k] == before[k]);
            assert(next.wave() =~= self.wave() + read_registers_wave(device_address, register_address, (n + 1) as nat));
            assert(bus.levels_from(bus.samples_taken(), 3)
                =~= self.levels_from((self.samples_taken() + 11 * n) as nat, 3));
            assert(next.ack_log() =~= self.ack_log() + self.register_read_acks(self.samples_taken(), (n + 1) as nat));
            bus = next;
            address = address + 1;
            n = n + 1;
        }
        proof {
            assert forall|k: nat| k < size implies
                #[trigger] bus.wave().subrange((self.wave().len() + k * register_read_len()) as int,
                    (self.wave().len() + (k + 1) * register_read_len()) as int)
                    == read_register_wave(device_address, (register_address + k) as u8) by {
                let w = read_registers_wave(device_address, register_address, size as nat);
                lemma_read_registers_in_order(device_address, register_address, size as nat, k);
                lemma_read_registers_wave_len(device_address, register_address, size as nat);
                assert(bus.wave().subrange((self.wave().len() + k * 424) as int, (self.wave().len() + (k + 1) * 424) as int)
                    =~= w.subrange((k * 424) as int, ((k + 1) * 424) as int));
            }
        }
        (bus, values)
    }
}

} // verus!
