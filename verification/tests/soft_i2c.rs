use iaq_monitor::soft_i2c::{BusOp, I2CBus, Level};

/// What a receiver on the bus sees (the same reading of the lines as the
/// library's line semantics): START, STOP, a written bit, a read.
#[derive(Debug, PartialEq, Clone, Copy)]
enum Seen {
    Start,
    Stop,
    Write(Level),
    Read,
}

fn seen(ops: &[BusOp]) -> Vec<Seen> {
    let (mut scl, mut sda, mut driven, mut clean) = (Level::High, Level::High, true, false);
    let mut out = Vec::new();
    for op in ops {
        match *op {
            BusOp::SetScl(l) => {
                if scl == Level::High && l == Level::Low && clean && driven {
                    out.push(Seen::Write(sda));
                }
                if scl == Level::Low && l == Level::High {
                    clean = true;
                }
                scl = l;
            }
            BusOp::SetSda(l) => {
                if driven && scl == Level::High && l != sda {
                    out.push(if l == Level::Low { Seen::Start } else { Seen::Stop });
                    clean = false;
                }
                sda = l;
            }
            BusOp::SampleSda => {
                if scl == Level::High && !driven && clean {
                    out.push(Seen::Read);
                }
            }
            BusOp::ReleaseSda => driven = false,
            BusOp::ReclaimSda => driven = true,
            BusOp::SleepMs(_) => {}
        }
    }
    out
}

fn bits(byte: u8) -> Vec<Level> {
    (0..8).map(|i| if byte & (0x80 >> i) != 0 { Level::High } else { Level::Low }).collect()
}

fn writes(byte: u8) -> Vec<Seen> {
    bits(byte).into_iter().map(Seen::Write).collect()
}

#[test]
fn start_condition_waveform() {
    let bus = I2CBus::new().send_start_cond();
    assert_eq!(
        bus.ops().clone(),
        vec![
            BusOp::SetSda(Level::High), BusOp::SleepMs(10),
            BusOp::SetScl(Level::High), BusOp::SleepMs(10),
            BusOp::SetSda(Level::Low), BusOp::SleepMs(10),
            BusOp::SetScl(Level::Low), BusOp::SleepMs(10),
        ]
    );
    assert_eq!(seen(bus.ops()), vec![Seen::Start]);
}

#[test]
fn stop_condition_waveform() {
    let bus = I2CBus::new().send_start_cond().send_stop_cond();
    assert_eq!(bus.ops().len(), 16);
    assert_eq!(bus.ops()[8], BusOp::SetScl(Level::Low));
    assert_eq!(bus.ops()[14], BusOp::SetSda(Level::High));
    assert_eq!(seen(bus.ops()), vec![Seen::Start, Seen::Stop]);
    assert_eq!(bus.samples(), 0);
}

#[test]
fn bit_one_is_high_during_the_pulse() {
    let bus = I2CBus::new().send_start_cond().send_bit(1);
    assert_eq!(bus.ops()[8 + 4], BusOp::SetSda(Level::High));
    assert_eq!(bus.ops().len(), 8 + 12);
    assert_eq!(seen(bus.ops()), vec![Seen::Start, Seen::Write(Level::High)]);
}

#[test]
fn bit_other_than_one_is_low() {
    let bus = I2CBus::new().send_start_cond().send_bit(2);
    assert_eq!(bus.ops()[8 + 4], BusOp::SetSda(Level::Low));
    assert_eq!(seen(bus.ops()), vec![Seen::Start, Seen::Write(Level::Low)]);
}

#[test]
fn ack_is_a_bit() {
    let a = I2CBus::new().send_start_cond().send_ack(1);
    let b = I2CBus::new().send_start_cond().send_bit(1);
    assert_eq!(a.ops(), b.ops());
}

#[test]
fn byte_is_sent_msb_first() {
    let bus = I2CBus::new().send_start_cond().send_byte(0xA5);
    assert_eq!(bus.ops().len(), 8 + 8 * 12);
    let mut expected = vec![Seen::Start];
    expected.extend(writes(0xA5));
    assert_eq!(seen(bus.ops()), expected);
}

#[test]
fn device_address_with_direction_bit() {
    let a = I2CBus::new().send_start_cond().send_device_address_rw(0x70, 1);
    let b = I2CBus::new().send_start_cond().send_byte(0xE1);
    assert_eq!(a.ops(), b.ops());
    let c = I2CBus::new().send_start_cond().send_device_address_rw(0x62, 0);
    let d = I2CBus::new().send_start_cond().send_byte(0xC4);
    assert_eq!(c.ops(), d.ops());
}

#[test]
fn ack_reads_the_next_level() {
    let (bus, level) = I2CBus::with_input(vec![Level::Low]).send_start_cond().recv_ack();
    assert_eq!(level, Level::Low);
    assert_eq!(bus.samples(), 1);
    assert_eq!(seen(bus.ops()), vec![Seen::Start, Seen::Read]);
    let (_, level) = I2CBus::new().send_start_cond().recv_ack();
    assert_eq!(level, Level::High);
}

#[test]
fn byte_is_received_msb_first() {
    let (bus, data) = I2CBus::with_input(bits(0x5D)).send_start_cond().recv_byte();
    assert_eq!(data, 0x5D);
    assert_eq!(bus.samples(), 8);
    let mut expected = vec![Seen::Start];
    expected.extend(vec![Seen::Read; 8]);
    assert_eq!(seen(bus.ops()), expected);
    let (_, data) = I2CBus::new().recv_byte();
    assert_eq!(data, 0xFF);
}

#[test]
fn received_byte_round_trip() {
    for b in 0..=255u8 {
        let (_, data) = I2CBus::with_input(bits(b)).recv_byte();
        assert_eq!(data, b);
    }
}

fn register_read_input(acks: [Level; 3], value: u8) -> Vec<Level> {
    let mut input = acks.to_vec();
    input.extend(bits(value));
    input
}

#[test]
fn register_read_frame() {
    let (bus, value) = I2CBus::with_input(register_read_input([Level::Low; 3], 0x42)).read_register(0x70, 0xD1);
    assert_eq!(value, 0x42);
    assert_eq!(bus.samples(), 11);
    let mut expected = vec![Seen::Start];
    expected.extend(writes(0xE0));
    expected.push(Seen::Read);
    expected.extend(writes(0xD1));
    expected.push(Seen::Read);
    expected.push(Seen::Start);
    expected.extend(writes(0xE1));
    expected.push(Seen::Read);
    expected.extend(vec![Seen::Read; 8]);
    expected.push(Seen::Write(Level::High));
    expected.push(Seen::Stop);
    assert_eq!(seen(bus.ops()), expected);
}

#[test]
fn register_read_ignores_nacks() {
    let (_, value) = I2CBus::with_input(register_read_input([Level::High; 3], 0x17)).read_register(0x70, 0x00);
    assert_eq!(value, 0x17);
}

#[test]
fn waveform_does_not_depend_on_input() {
    let (a, _) = I2CBus::new().read_register(0x70, 0xF7);
    let (b, _) = I2CBus::with_input(register_read_input([Level::Low; 3], 0x99)).read_register(0x70, 0xF7);
    assert_eq!(a.ops(), b.ops());
}

#[test]
fn register_write_frame() {
    let bus = I2CBus::with_input(vec![Level::Low; 3]).write_register(0x70, 0xF4, 0x93);
    assert_eq!(bus.samples(), 3);
    let mut expected = vec![Seen::Start];
    expected.extend(writes(0xE0));
    expected.push(Seen::Read);
    expected.extend(writes(0xF4));
    expected.push(Seen::Read);
    expected.extend(writes(0x93));
    expected.push(Seen::Read);
    expected.push(Seen::Stop);
    assert_eq!(seen(bus.ops()), expected);
}

#[test]
fn consecutive_registers_are_read_in_order() {
    let mut input = register_read_input([Level::Low; 3], 0x11);
    input.extend(register_read_input([Level::Low; 3], 0x22));
    input.extend(register_read_input([Level::Low; 3], 0x33));
    let (bus, values) = I2CBus::with_input(input).read_registers(0x70, 0xF7, 3);
    assert_eq!(values, vec![0x11, 0x22, 0x33]);
    assert_eq!(bus.samples(), 33);
    let (one, _) = I2CBus::new().read_register(0x70, 0xF7);
    let (two, _) = one.read_register(0x70, 0xF8);
    let (three, _) = two.read_register(0x70, 0xF9);
    let (all, _) = I2CBus::new().read_registers(0x70, 0xF7, 3);
    assert_eq!(all.ops(), three.ops());
}

#[test]
fn reading_no_registers_drives_nothing() {
    let (bus, values) = I2CBus::new().read_registers(0x70, 0xFF, 0);
    assert!(values.is_empty());
    assert!(bus.ops().is_empty());
}

#[test]
fn acknowledge_levels_are_kept() {
    let (bus, level) = I2CBus::with_input(vec![Level::High]).recv_ack();
    assert_eq!(level, Level::High);
    assert_eq!(bus.ack_levels().clone(), vec![Level::High]);
    let (bus, _) = I2CBus::new().recv_byte();
    assert!(bus.ack_levels().is_empty());
}

#[test]
fn register_read_keeps_its_three_acknowledges() {
    let input = register_read_input([Level::Low, Level::High, Level::Low], 0x42);
    let (bus, value) = I2CBus::with_input(input).read_register(0x70, 0xD1);
    assert_eq!(value, 0x42);
    assert_eq!(bus.ack_levels().clone(), vec![Level::Low, Level::High, Level::Low]);
}

#[test]
fn register_write_keeps_its_three_acknowledges() {
    let bus = I2CBus::with_input(vec![Level::Low, Level::Low, Level::High]).write_register(0x70, 0xF4, 0x93);
    assert_eq!(bus.ack_levels().clone(), vec![Level::Low, Level::Low, Level::High]);
    let absent = I2CBus::new().write_register(0x70, 0xF4, 0x93);
    assert_eq!(absent.ack_levels().clone(), vec![Level::High; 3]);
}

#[test]
fn consecutive_reads_keep_acknowledges_in_order() {
    let mut input = register_read_input([Level::Low, Level::Low, Level::Low], 0x11);
    input.extend(register_read_input([Level::High, Level::Low, Level::High], 0x22));
    let (bus, _) = I2CBus::with_input(input).read_registers(0x70, 0xF7, 2);
    assert_eq!(
        bus.ack_levels().clone(),
        vec![Level::Low, Level::Low, Level::Low, Level::High, Level::Low, Level::High]
    );
}

#[test]
fn sda_changes_hands_only_while_scl_is_low() {
    let (read, _) = I2CBus::new().read_register(0x70, 0xD1);
    let write = I2CBus::new().write_register(0x70, 0xF4, 0x93);
    for ops in [read.ops().clone(), write.ops().clone()] {
        let mut scl = Level::High;
        for op in ops {
            match op {
                BusOp::SetScl(l) => scl = l,
                BusOp::ReleaseSda | BusOp::ReclaimSda => assert_eq!(scl, Level::Low),
                _ => {}
            }
        }
    }
}
