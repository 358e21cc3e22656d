//! What a waveform means on the wire: the I2C conditions that a receiver
//! on the bus sees, and the laws that the master's waveforms obey.
use vstd::prelude::*;
use crate::soft_i2c::{
    lemma_address_byte,
    levels_value,
    address_byte, bit_wave, byte_wave, byte_wave_prefix, byte_in_wave, ack_in_wave, level_of_bit, msb_bit,
    read_register_wave, read_registers_wave, read_slot, read_slots, start_wave, stop_wave,
    write_register_wave, BusOp, I2CBus, Level,
};

verus! {

/// The state of the two lines as the master leaves them.
#[derive(Clone, Copy, Debug, PartialEq, Eq, Structural)]
pub struct LineState {
    pub scl: Level,
    pub sda: Level,
    /// Whether the master drives SDA (else it is released to the device).
    pub driven: bool,
    /// Whether SDA has kept its level since SCL last rose.
    pub clean: bool,
}

/// A condition on the bus, as a receiver sees it.
#[derive(Clone, Copy, Debug, PartialEq, Eq, Structural)]
pub enum BusEvent {
    /// SDA fell while SCL was high and the master drove SDA.
    Start,
    /// SDA rose while SCL was high and the master drove SDA.
    Stop,
    /// A clock pulse ended with SDA driven by the master and steady at this level.
    Write(Level),
    /// The master sampled SDA, released to the device, during a clock pulse.
    Read,
}

/// The line state after one step of the waveform.
pub open spec fn step_line(st: LineState, op: BusOp) -> LineState {
    match op {
        BusOp::SetScl(l) => LineState {
            scl: l,
            sda: st.sda,
            driven: st.driven,
            clean: if st.scl == Level::Low && l == Level::High { true } else { st.clean },
        },
        BusOp::SetSda(l) => LineState {
            scl: st.scl,
            sda: l,
            driven: st.driven,
            clean: if st.driven && st.scl == Level::High && l != st.sda { false } else { st.clean },
        },
        BusOp::ReleaseSda => LineState { scl: st.scl, sda: st.sda, driven: false, clean: st.clean },
        BusOp::ReclaimSda => LineState { scl: st.scl, sda: st.sda, driven: true, clean: st.clean },
        BusOp::SleepMs(_) => st,
        BusOp::SampleSda => st,
    }
}

/// The bus conditions that one step of the waveform produces.
pub open spec fn step_events(st: LineState, op: BusOp) -> Seq<BusEvent> {
    match op {
        BusOp::SetScl(l) => if st.scl == Level::High && l == Level::Low && st.clean && st.driven {
            seq![BusEvent::Write(st.sda)]
        } else {
            Seq::empty()
        },
        BusOp::SetSda(l) => if st.driven && st.scl == Level::High && l != st.sda {
            if l == Level::Low { seq![BusEvent::Start] } else { seq![BusEvent::Stop] }
        } else {
            Seq::empty()
        },
        BusOp::SampleSda => if st.scl == Level::High && !st.driven && st.clean {
            seq![BusEvent::Read]
        } else {
            Seq::empty()
        },
        _ => Seq::empty(),
    }
}

/// The bus conditions that a waveform produces from line state `st`.
pub open spec fn wave_events(ops: Seq<BusOp>, st: LineState) -> Seq<BusEvent>
    decreases ops.len(),
{
    if ops.len() == 0 {
        Seq::empty()
    } else {
        step_events(st, ops[0]) + wave_events(ops.drop_first(), step_line(st, ops[0]))
    }
}

/// The line state after a waveform, from line state `st`.
pub open spec fn wave_end(ops: Seq<BusOp>, st: LineState) -> LineState
    decreases ops.len(),
{
    if ops.len() == 0 {
        st
    } else {
        wave_end(ops.drop_first(), step_line(st, ops[0]))
    }
}

/// SDA changes hands only while SCL is low: every release of SDA to the
/// device and every taking back happens with SCL low, and the master sets
/// SDA only while it drives it. With this, the master changes SDA under a
/// high SCL only where the waveform produces a START or a STOP.
pub open spec fn sda_handovers_clocked(ops: Seq<BusOp>, st: LineState) -> bool
    decreases ops.len(),
{
    if ops.len() == 0 {
        true
    } else {
        &&& (ops[0] == BusOp::ReleaseSda || ops[0] == BusOp::ReclaimSda) ==> st.scl == Level::Low
        &&& (ops[0] is SetSda) ==> st.driven
        &&& sda_handovers_clocked(ops.drop_first(), step_line(st, ops[0]))
    }
}

/// Both lines high and driven: the bus is free.
pub open spec fn idle_line() -> LineState {
    LineState { scl: Level::High, sda: Level::High, driven: true, clean: false }
}

/// Both lines low and driven, after a clean clock pulse.
pub open spec fn low_line() -> LineState {
    LineState { scl: Level::Low, sda: Level::Low, driven: true, clean: true }
}

/// Both lines low and driven, right after a START.
pub open spec fn started_line() -> LineState {
    LineState { scl: Level::Low, sda: Level::Low, driven: true, clean: false }
}

/// A START can be driven from here without first producing a STOP:
/// the master drives SDA, and SDA is not held low under a high SCL.
pub open spec fn may_start(st: LineState) -> bool {
    st.driven && !(st.scl == Level::High && st.sda == Level::Low)
}

/// The levels of the eight bits of `data`, most significant first.
pub open spec fn byte_levels(data: u8) -> Seq<Level> {
    Seq::new(8, |i: int| level_of_bit(msb_bit(data, i as nat)))
}

/// The eight bits of `data`, written most significant first.
pub open spec fn written_byte(data: u8) -> Seq<BusEvent> {
    Seq::new(8, |i: int| BusEvent::Write(byte_levels(data)[i]))
}

/// `n` reads.
pub open spec fn reads(n: nat) -> Seq<BusEvent> {
    Seq::new(n, |i: int| BusEvent::Read)
}

/// The I2C frame of a register read.
pub open spec fn read_register_frame(device_address: u8, register_address: u8) -> Seq<BusEvent> {
    seq![BusEvent::Start] + written_byte(address_byte(device_address, 0)) + reads(1)
        + written_byte(register_address) + reads(1)
        + seq![BusEvent::Start] + written_byte(address_byte(device_address, 1)) + reads(1)
        + reads(8) + seq![BusEvent::Write(Level::High)] + seq![BusEvent::Stop]
}

/// The I2C frame of a register write.
pub open spec fn write_register_frame(device_address: u8, register_address: u8, data: u8) -> Seq<BusEvent> {
    seq![BusEvent::Start] + written_byte(address_byte(device_address, 0)) + reads(1)
        + written_byte(register_address) + reads(1)
        + written_byte(data) + reads(1)
        + seq![BusEvent::Stop]
}

/// Running two waveforms one after the other produces the conditions of
/// the first, then those of the second from where the first left the lines.
pub proof fn lemma_wave_concat(a: Seq<BusOp>, b: Seq<BusOp>, st: LineState)
    ensures
        wave_events(a + b, st) == wave_events(a, st) + wave_events(b, wave_end(a, st)),
        wave_end(a + b, st) == wave_end(b, wave_end(a, st)),
        sda_handovers_clocked(a + b, st)
            == (sda_handovers_clocked(a, st) && sda_handovers_clocked(b, wave_end(a, st))),
    decreases a.len(),
{
    if a.len() == 0 {
        assert(a + b =~= b);
        assert(wave_events(a, st) + wave_events(b, st) =~= wave_events(b, st));
    } else {
        assert((a + b).drop_first() =~= a.drop_first() + b);
        assert((a + b)[0] == a[0]);
        lemma_wave_concat(a.drop_first(), b, step_line(st, a[0]));
        assert(wave_events(a + b, st) =~= wave_events(a, st) + wave_events(b, wave_end(a, st)));
    }
}

/// A START waveform, driven when a START may be, produces exactly one START.
pub proof fn lemma_start_wave(st: LineState)
    requires
        may_start(st),
    ensures
        sda_handovers_clocked(start_wave(), st),
        wave_events(start_wave(), st) == seq![BusEvent::Start],
        wave_end(start_wave(), st) == started_line(),
{
    reveal_with_fuel(wave_events, 9);
    reveal_with_fuel(wave_end, 9);
    reveal_with_fuel(sda_handovers_clocked, 9);
    assert(wave_events(start_wave(), st) =~= seq![BusEvent::Start]);
}

/// A STOP waveform, driven while SCL is low, produces exactly one STOP and
/// leaves the bus free.
pub proof fn lemma_stop_wave(st: LineState)
    requires
        st.driven,
        st.scl == Level::Low,
    ensures
        sda_handovers_clocked(stop_wave(), st),
        wave_events(stop_wave(), st) == seq![BusEvent::Stop],
        wave_end(stop_wave(), st) == idle_line(),
{
    reveal_with_fuel(wave_events, 9);
    reveal_with_fuel(wave_end, 9);
    reveal_with_fuel(sda_handovers_clocked, 9);
    assert(wave_events(stop_wave(), st) =~= seq![BusEvent::Stop]);
}

/// One bit pulse, driven while SCL is low, writes exactly that bit.
pub proof fn lemma_bit_wave(data: u8, st: LineState)
    requires
        st.driven,
        st.scl == Level::Low,
    ensures
        sda_handovers_clocked(bit_wave(data), st),
        wave_events(bit_wave(data), st) == seq![BusEvent::Write(level_of_bit(data))],
        wave_end(bit_wave(data), st) == low_line(),
{
    reveal_with_fuel(wave_events, 13);
    reveal_with_fuel(wave_end, 13);
    reveal_with_fuel(sda_handovers_clocked, 13);
    assert(wave_events(bit_wave(data), st) =~= seq![BusEvent::Write(level_of_bit(data))]);
}

proof fn lemma_byte_wave_prefix(data: u8, n: nat, st: LineState)
    requires
        st.driven,
        st.scl == Level::Low,
        n <= 8,
    ensures
        sda_handovers_clocked(byte_wave_prefix(data, n), st),
        wave_events(byte_wave_prefix(data, n), st) == written_byte(data).take(n as int),
        n > 0 ==> wave_end(byte_wave_prefix(data, n), st) == low_line(),
        n == 0 ==> wave_end(byte_wave_prefix(data, n), st) == st,
    decreases n,
{
    if n == 0 {
        assert(written_byte(data).take(0) =~= Seq::<BusEvent>::empty());
        assert(byte_wave_prefix(data, 0) =~= Seq::<BusOp>::empty());
    } else {
        let m = (n - 1) as nat;
        lemma_byte_wave_prefix(data, m, st);
        let mid = wave_end(byte_wave_prefix(data, m), st);
        lemma_wave_concat(byte_wave_prefix(data, m), bit_wave(msb_bit(data, m)), st);
        lemma_bit_wave(msb_bit(data, m), mid);
        assert(written_byte(data).take(n as int) =~= written_byte(data).take(m as int)
            + seq![BusEvent::Write(level_of_bit(msb_bit(data, m)))]);
    }
}

/// A byte, driven while SCL is low, writes its eight bits most significant first.
pub proof fn lemma_byte_wave(data: u8, st: LineState)
    requires
        st.driven,
        st.scl == Level::Low,
    ensures
        sda_handovers_clocked(byte_wave(data), st),
        wave_events(byte_wave(data), st) == written_byte(data),
        wave_end(byte_wave(data), st) == low_line(),
{
    lemma_byte_wave_prefix(data, 8, st);
    assert(written_byte(data).take(8) =~= written_byte(data));
}

/// An acknowledge slot, driven while SCL is low, reads exactly once.
pub proof fn lemma_ack_in_wave(st: LineState)
    requires
        st.driven,
        st.scl == Level::Low,
    ensures
        sda_handovers_clocked(ack_in_wave(), st),
        wave_events(ack_in_wave(), st) == reads(1),
        wave_end(ack_in_wave(), st) == low_line(),
{
    reveal_with_fuel(wave_events, 12);
    reveal_with_fuel(wave_end, 12);
    reveal_with_fuel(sda_handovers_clocked, 12);
    assert(wave_events(ack_in_wave(), st) =~= reads(1));
}

proof fn lemma_read_slot(st: LineState)
    requires
        !st.driven,
        st.scl == Level::Low,
    ensures
        sda_handovers_clocked(read_slot(), st),
        wave_events(read_slot(), st) == reads(1),
        wave_end(read_slot(), st) == (LineState { scl: Level::Low, sda: st.sda, driven: false, clean: true }),
{
    reveal_with_fuel(wave_events, 9);
    reveal_with_fuel(wave_end, 9);
    reveal_with_fuel(sda_handovers_clocked, 9);
    assert(wave_events(read_slot(), st) =~= reads(1));
}

proof fn lemma_read_slots(n: nat, st: LineState)
    requires
        !st.driven,
        st.scl == Level::Low,
    ensures
        sda_handovers_clocked(read_slots(n), st),
        wave_events(read_slots(n), st) == reads(n),
        wave_end(read_slots(n), st).scl == Level::Low,
        !wave_end(read_slots(n), st).driven,
        wave_end(read_slots(n), st).sda == st.sda,
        n > 0 ==> wave_end(read_slots(n), st).clean,
    decreases n,
{
    if n == 0 {
        assert(wave_events(read_slots(0), st) =~= reads(0));
    } else {
        let m = (n - 1) as nat;
        lemma_read_slots(m, st);
        lemma_wave_concat(read_slots(m), read_slot(), st);
        lemma_read_slot(wave_end(read_slots(m), st));
        assert(reads(n) =~= reads(m) + reads(1));
    }
}

/// Receiving a byte, driven while SCL is low, reads exactly eight times.
pub proof fn lemma_byte_in_wave(st: LineState)
    requires
        st.driven,
        st.scl == Level::Low,
    ensures
        sda_handovers_clocked(byte_in_wave(), st),
        wave_events(byte_in_wave(), st) == reads(8),
        wave_end(byte_in_wave(), st) == low_line(),
{
    let release = seq![BusOp::ReleaseSda];
    let reclaim = seq![BusOp::ReclaimSda, BusOp::SetSda(Level::Low)];
    reveal_with_fuel(wave_events, 3);
    reveal_with_fuel(wave_end, 3);
    reveal_with_fuel(sda_handovers_clocked, 3);
    let st1 = wave_end(release, st);
    assert(wave_events(release, st) =~= Seq::<BusEvent>::empty());
    lemma_read_slots(8, st1);
    let st2 = wave_end(read_slots(8), st1);
    lemma_wave_concat(release, read_slots(8), st);
    lemma_wave_concat(release + read_slots(8), reclaim, st);
    assert(wave_events(reclaim, st2) =~= Seq::<BusEvent>::empty());
    assert(wave_end(reclaim, st2) == low_line());
    assert(wave_events(byte_in_wave(), st) =~= reads(8));
}

/// A register read, driven when a START may be, is on the wire exactly an
/// I2C register read: START, the address byte with the write bit, an
/// acknowledge read, the register address, an acknowledge read, a repeated
/// START, the address byte with the read bit, an acknowledge read, eight
/// data reads, a NACK and a STOP; it leaves the bus free.
pub proof fn lemma_read_register_frame(device_address: u8, register_address: u8, st: LineState)
    requires
        may_start(st),
    ensures
        sda_handovers_clocked(read_register_wave(device_address, register_address), st),
        wave_events(read_register_wave(device_address, register_address), st)
            == read_register_frame(device_address, register_address),
        wave_end(read_register_wave(device_address, register_address), st) == idle_line(),
{
    let a_w = address_byte(device_address, 0);
    let a_r = address_byte(device_address, 1);
    let w1 = start_wave();
    lemma_start_wave(st);
    let w2 = w1 + byte_wave(a_w);
    lemma_wave_concat(w1, byte_wave(a_w), st);
    lemma_byte_wave(a_w, wave_end(w1, st));
    let w3 = w2 + ack_in_wave();
    lemma_wave_concat(w2, ack_in_wave(), st);
    lemma_ack_in_wave(wave_end(w2, st));
    let w4 = w3 + byte_wave(register_address);
    lemma_wave_concat(w3, byte_wave(register_address), st);
    lemma_byte_wave(register_address, wave_end(w3, st));
    let w5 = w4 + ack_in_wave();
    lemma_wave_concat(w4, ack_in_wave(), st);
    lemma_ack_in_wave(wave_end(w4, st));
    let w6 = w5 + start_wave();
    lemma_wave_concat(w5, start_wave(), st);
    lemma_start_wave(wave_end(w5, st));
    let w7 = w6 + byte_wave(a_r);
    lemma_wave_concat(w6, byte_wave(a_r), st);
    lemma_byte_wave(a_r, wave_end(w6, st));
    let w8 = w7 + ack_in_wave();
    lemma_wave_concat(w7, ack_in_wave(), st);
    lemma_ack_in_wave(wave_end(w7, st));
    let w9 = w8 + byte_in_wave();
    lemma_wave_concat(w8, byte_in_wave(), st);
    lemma_byte_in_wave(wave_end(w8, st));
    let w10 = w9 + bit_wave(1);
    lemma_wave_concat(w9, bit_wave(1), st);
    lemma_bit_wave(1, wave_end(w9, st));
    let w11 = w10 + stop_wave();
    lemma_wave_concat(w10, stop_wave(), st);
    lemma_stop_wave(wave_end(w10, st));
    assert(w11 == read_register_wave(device_address, register_address));
    assert(wave_events(w11, st) =~= read_register_frame(device_address, register_address));
}

/// A register write, driven when a START may be, is on the wire exactly an
/// I2C register write: START, the address byte with the write bit, the
/// register address and the data, each followed by an acknowledge read,
/// then STOP; it leaves the bus free.
pub proof fn lemma_write_register_frame(device_address: u8, register_address: u8, data: u8, st: LineState)
    requires
        may_start(st),
    ensures
        sda_handovers_clocked(write_register_wave(device_address, register_address, data), st),
        wave_events(write_register_wave(device_address, register_address, data), st)
            == write_register_frame(device_address, register_address, data),
        wave_end(write_register_wave(device_address, register_address, data), st) == idle_line(),
{
    let a_w = address_byte(device_address, 0);
    let w1 = start_wave();
    lemma_start_wave(st);
    let w2 = w1 + byte_wave(a_w);
    lemma_wave_concat(w1, byte_wave(a_w), st);
    lemma_byte_wave(a_w, wave_end(w1, st));
    let w3 = w2 + ack_in_wave();
    lemma_wave_concat(w2, ack_in_wave(), st);
    lemma_ack_in_wave(wave_end(w2, st));
    let w4 = w3 + byte_wave(register_address);
    lemma_wave_concat(w3, byte_wave(register_address), st);
    lemma_byte_wave(register_address, wave_end(w3, st));
    let w5 = w4 + ack_in_wave();
    lemma_wave_concat(w4, ack_in_wave(), st);
    lemma_ack_in_wave(wave_end(w4, st));
    let w6 = w5 + byte_wave(data);
    lemma_wave_concat(w5, byte_wave(data), st);
    lemma_byte_wave(data, wave_end(w5, st));
    let w7 = w6 + ack_in_wave();
    lemma_wave_concat(w6, ack_in_wave(), st);
    lemma_ack_in_wave(wave_end(w6, st));
    let w8 = w7 + stop_wave();
    lemma_wave_concat(w7, stop_wave(), st);
    lemma_stop_wave(wave_end(w7, st));
    assert(w8 == write_register_wave(device_address, register_address, data));
    assert(wave_events(w8, st) =~= write_register_frame(device_address, register_address, data));
}

/// The frames of `size` register reads at consecutive addresses.
pub open spec fn read_registers_frames(device_address: u8, register_address: u8, size: nat) -> Seq<BusEvent>
    decreases size,
{
    if size == 0 {
        Seq::empty()
    } else {
        read_registers_frames(device_address, register_address, (size - 1) as nat)
            + read_register_frame(device_address, (register_address + size - 1) as u8)
    }
}

/// Reading several registers, driven when a START may be, is on the wire
/// one complete register read per register, in order of address.
pub proof fn lemma_read_registers_frames(device_address: u8, register_address: u8, size: nat, st: LineState)
    requires
        may_start(st),
    ensures
        sda_handovers_clocked(read_registers_wave(device_address, register_address, size), st),
        wave_events(read_registers_wave(device_address, register_address, size), st)
            == read_registers_frames(device_address, register_address, size),
        size > 0 ==> wave_end(read_registers_wave(device_address, register_address, size), st) == idle_line(),
        size == 0 ==> wave_end(read_registers_wave(device_address, register_address, size), st) == st,
    decreases size,
{
    if size == 0 {
        assert(wave_events(Seq::<BusOp>::empty(), st) =~= Seq::<BusEvent>::empty());
    } else {
        let m = (size - 1) as nat;
        let reg = (register_address + size - 1) as u8;
        lemma_read_registers_frames(device_address, register_address, m, st);
        let mid = wave_end(read_registers_wave(device_address, register_address, m), st);
        lemma_wave_concat(read_registers_wave(device_address, register_address, m),
            read_register_wave(device_address, reg), st);
        lemma_read_register_frame(device_address, reg, mid);
    }
}

/// Every register read frame has the same number of conditions.
pub proof fn lemma_read_register_frame_len(device_address: u8, register_address: u8)
    ensures
        read_register_frame(device_address, register_address).len() == 39,
{
}

proof fn lemma_read_registers_frames_len(device_address: u8, register_address: u8, size: nat)
    ensures
        read_registers_frames(device_address, register_address, size).len() == size * 39,
    decreases size,
{
    if size > 0 {
        lemma_read_registers_frames_len(device_address, register_address, (size - 1) as nat);
    }
}

/// On the wire, reading `size` registers from `register_address` is one
/// register read frame after the other, the k-th addressed to register
/// `register_address + k`.
pub proof fn lemma_read_registers_frames_in_order(device_address: u8, register_address: u8, size: nat, k: nat)
    requires
        k < size,
        register_address + size <= 256,
    ensures
        read_registers_frames(device_address, register_address, size).subrange((k * 39) as int, ((k + 1) * 39) as int)
            == read_register_frame(device_address, (register_address + k) as u8),
    decreases size,
{
    let m = (size - 1) as nat;
    let a = read_registers_frames(device_address, register_address, m);
    let b = read_register_frame(device_address, (register_address + m) as u8);
    lemma_read_registers_frames_len(device_address, register_address, m);
    assert(read_registers_frames(device_address, register_address, size) == a + b);
    if k < m {
        lemma_read_registers_frames_in_order(device_address, register_address, m, k);
        assert((a + b).subrange((k * 39) as int, ((k + 1) * 39) as int) =~= a.subrange((k * 39) as int, ((k + 1) * 39) as int));
    } else {
        assert((a + b).subrange((k * 39) as int, ((k + 1) * 39) as int) =~= b);
    }
}

/// The level that a written bit put on SDA (low for any other condition).
pub open spec fn write_level(e: BusEvent) -> Level {
    match e {
        BusEvent::Write(l) => l,
        _ => Level::Low,
    }
}

/// The value that a receiver reads from written bits, most significant first.
pub open spec fn written_value(events: Seq<BusEvent>) -> nat {
    levels_value(events.map_values(|e: BusEvent| write_level(e)))
}

proof fn lemma_written_byte_value(data: u8)
    ensures
        written_value(written_byte(data)) == data,
        forall|i: int| 0 <= i < 8 ==> (#[trigger] written_byte(data)[i]) is Write,
{
    assert(written_byte(data).map_values(|e: BusEvent| write_level(e)) =~= byte_levels(data));
    lemma_byte_levels_value(data);
}

/// What a receiver reads from a register read frame of a device with a
/// 7-bit address: a START; eight written bits whose value is twice the
/// address (the write direction); an acknowledge read; eight written bits
/// whose value is the register address; an acknowledge read; a repeated
/// START; eight written bits whose value is twice the address plus one (the
/// read direction); an acknowledge read; eight data reads; a NACK; a STOP.
pub proof fn lemma_read_register_frame_decodes(device_address: u8, register_address: u8)
    requires
        device_address < 128,
    ensures
        ({
            let f = read_register_frame(device_address, register_address);
            &&& f.len() == 39
            &&& f[0] == BusEvent::Start
            &&& forall|i: int| 1 <= i < 9 ==> (#[trigger] f[i]) is Write
            &&& written_value(f.subrange(1, 9)) == 2 * device_address
            &&& f[9] == BusEvent::Read
            &&& forall|i: int| 10 <= i < 18 ==> (#[trigger] f[i]) is Write
            &&& written_value(f.subrange(10, 18)) == register_address
            &&& f[18] == BusEvent::Read
            &&& f[19] == BusEvent::Start
            &&& forall|i: int| 20 <= i < 28 ==> (#[trigger] f[i]) is Write
            &&& written_value(f.subrange(20, 28)) == 2 * device_address + 1
            &&& f[28] == BusEvent::Read
            &&& forall|i: int| 29 <= i < 37 ==> #[trigger] f[i] == BusEvent::Read
            &&& f[37] == BusEvent::Write(Level::High)
            &&& f[38] == BusEvent::Stop
        }),
{
    let f = read_register_frame(device_address, register_address);
    let a_w = address_byte(device_address, 0);
    let a_r = address_byte(device_address, 1);
    lemma_address_byte(device_address, 0);
    lemma_address_byte(device_address, 1);
    lemma_written_byte_value(a_w);
    lemma_written_byte_value(register_address);
    lemma_written_byte_value(a_r);
    assert(f.subrange(1, 9) =~= written_byte(a_w));
    assert(f.subrange(10, 18) =~= written_byte(register_address));
    assert(f.subrange(20, 28) =~= written_byte(a_r));
    assert forall|i: int| 1 <= i < 9 implies (#[trigger] f[i]) is Write by {
        assert(f[i] == written_byte(a_w)[i - 1]);
    }
    assert forall|i: int| 10 <= i < 18 implies (#[trigger] f[i]) is Write by {
        assert(f[i] == written_byte(register_address)[i - 10]);
    }
    assert forall|i: int| 20 <= i < 28 implies (#[trigger] f[i]) is Write by {
        assert(f[i] == written_byte(a_r)[i - 20]);
    }
}

/// What a receiver reads from a register write frame of a device with a
/// 7-bit address: a START; eight written bits whose value is twice the
/// address; an acknowledge read; eight written bits whose value is the
/// register address; an acknowledge read; eight written bits whose value
/// is the data; an acknowledge read; a STOP.
pub proof fn lemma_write_register_frame_decodes(device_address: u8, register_address: u8, data: u8)
    requires
        device_address < 128,
    ensures
        ({
            let f = write_register_frame(device_address, register_address, data);
            &&& f.len() == 29
            &&& f[0] == BusEvent::Start
            &&& forall|i: int| 1 <= i < 9 ==> (#[trigger] f[i]) is Write
            &&& written_value(f.subrange(1, 9)) == 2 * device_address
            &&& f[9] == BusEvent::Read
            &&& forall|i: int| 10 <= i < 18 ==> (#[trigger] f[i]) is Write
            &&& written_value(f.subrange(10, 18)) == register_address
            &&& f[18] == BusEvent::Read
            &&& forall|i: int| 19 <= i < 27 ==> (#[trigger] f[i]) is Write
            &&& written_value(f.subrange(19, 27)) == data
            &&& f[27] == BusEvent::Read
            &&& f[28] == BusEvent::Stop
        }),
{
    let f = write_register_frame(device_address, register_address, data);
    let a_w = address_byte(device_address, 0);
    lemma_address_byte(device_address, 0);
    lemma_written_byte_value(a_w);
    lemma_written_byte_value(register_address);
    lemma_written_byte_value(data);
    assert(f.subrange(1, 9) =~= written_byte(a_w));
    assert(f.subrange(10, 18) =~= written_byte(register_address));
    assert(f.subrange(19, 27) =~= written_byte(data));
    assert forall|i: int| 1 <= i < 9 implies (#[trigger] f[i]) is Write by {
        assert(f[i] == written_byte(a_w)[i - 1]);
    }
    assert forall|i: int| 10 <= i < 18 implies (#[trigger] f[i]) is Write by {
        assert(f[i] == written_byte(register_address)[i - 10]);
    }
    assert forall|i: int| 19 <= i < 27 implies (#[trigger] f[i]) is Write by {
        assert(f[i] == written_byte(data)[i - 19]);
    }
}

/// A byte written most significant bit first and read back most
/// significant bit first is the same byte.
pub proof fn lemma_byte_levels_value(data: u8)
    ensures
        levels_value(byte_levels(data)) == data,
{
    let s = byte_levels(data);
    reveal_with_fuel(levels_value, 9);
    assert(s.drop_last().drop_last().drop_last().drop_last().drop_last().drop_last().drop_last().drop_last()
        =~= Seq::<Level>::empty());
    assert(data == (if data & 0x80u8 != 0 { 128u8 } else { 0u8 }) + (if data & 0x40u8 != 0 { 64u8 } else { 0u8 })
        + (if data & 0x20u8 != 0 { 32u8 } else { 0u8 }) + (if data & 0x10u8 != 0 { 16u8 } else { 0u8 })
        + (if data & 0x08u8 != 0 { 8u8 } else { 0u8 }) + (if data & 0x04u8 != 0 { 4u8 } else { 0u8 })
        + (if data & 0x02u8 != 0 { 2u8 } else { 0u8 }) + (if data & 0x01u8 != 0 { 1u8 } else { 0u8 }))
        by (bit_vector);
    assert(0x80u8 >> 0u8 == 0x80u8 && 0x80u8 >> 1u8 == 0x40u8 && 0x80u8 >> 2u8 == 0x20u8
        && 0x80u8 >> 3u8 == 0x10u8 && 0x80u8 >> 4u8 == 0x08u8 && 0x80u8 >> 5u8 == 0x04u8
        && 0x80u8 >> 6u8 == 0x02u8 && 0x80u8 >> 7u8 == 0x01u8) by (bit_vector);
}

/// A byte that the device puts on SDA most significant bit first, one bit
/// per sample, is the byte the master receives.
pub proof fn lemma_received_byte(bus: I2CBus, k: nat, data: u8)
    requires
        bus.levels_from(k, 8) == byte_levels(data),
    ensures
        bus.byte_from(k) == data,
{
    lemma_byte_levels_value(data);
}

} // verus!
