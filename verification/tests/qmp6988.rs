use iaq_monitor::qmp6988::{
    centered, raw_value, temp_press_offsets, Qmp6988, CTRL_MEAS_NORMAL, QMP6988_CHIP_ID, REG_CHIP_ID,
};
use iaq_monitor::soft_i2c::{I2CBus, Level};

fn bits(byte: u8) -> Vec<Level> {
    (0..8).map(|i| if byte & (0x80 >> i) != 0 { Level::High } else { Level::Low }).collect()
}

fn answer(values: &[u8]) -> Vec<Level> {
    let mut input = Vec::new();
    for v in values {
        input.extend(vec![Level::Low; 3]);
        input.extend(bits(*v));
    }
    input
}

#[test]
fn connection_check_recognises_the_chip() {
    let qmp = Qmp6988 { i2c: I2CBus::with_input(answer(&[QMP6988_CHIP_ID])) };
    let (qmp, status) = qmp.connection_check();
    assert_eq!(status, 1);
    let (expected, _) = I2CBus::new().read_register(0x70, REG_CHIP_ID);
    assert_eq!(qmp.i2c.ops(), expected.ops());
}

#[test]
fn connection_check_rejects_other_chips() {
    let (_, status) = Qmp6988 { i2c: I2CBus::with_input(answer(&[0x60])) }.connection_check();
    assert_eq!(status, 0);
    let (_, status) = Qmp6988 { i2c: I2CBus::new() }.connection_check();
    assert_eq!(status, 0);
}

#[test]
fn start_writes_the_measurement_control() {
    let qmp = Qmp6988 { i2c: I2CBus::new() }.start();
    let expected = I2CBus::new().write_register(0x70, 0xF4, 0x93);
    assert_eq!(qmp.i2c.ops(), expected.ops());
    assert_eq!(CTRL_MEAS_NORMAL, 0b100_100_11);
}

#[test]
fn reads_a_register() {
    let (qmp, value) = Qmp6988 { i2c: I2CBus::with_input(answer(&[0xAB])) }.read_register(0xF3);
    assert_eq!(value, 0xAB);
    assert_eq!(qmp.i2c.samples(), 11);
}

#[test]
fn reads_the_data_registers() {
    let data = [0x80, 0x00, 0x10, 0x7F, 0xFF, 0xF0];
    let (qmp, values) = Qmp6988 { i2c: I2CBus::with_input(answer(&data)) }.read_data_registers();
    assert_eq!(values, data.to_vec());
    assert_eq!(qmp.i2c.samples(), 66);
}

#[test]
fn raw_values_are_big_endian() {
    assert_eq!(raw_value(0x12, 0x34, 0x56), 0x123456);
    assert_eq!(raw_value(0xFF, 0xFF, 0xFF), 0xFF_FFFF);
    assert_eq!(raw_value(0, 0, 0), 0);
}

#[test]
fn centered_subtracts_half_scale() {
    assert_eq!(centered(0x80_0000), 0);
    assert_eq!(centered(0), -8_388_608);
    assert_eq!(centered(0xFF_FFFF), 8_388_607);
}

#[test]
fn offsets_take_temperature_from_the_last_three_registers() {
    let values = vec![0x80, 0x00, 0x10, 0x7F, 0xFF, 0xF0];
    assert_eq!(temp_press_offsets(&values), (-16, 16));
}
