//! The QMP6988 barometric pressure sensor, on the bit-banged I2C bus.
use vstd::prelude::*;
use crate::soft_i2c::{read_registers_wave, write_register_wave, I2CBus};

verus! {

/// The sensor's I2C address.
pub const QMP6988_I2C_ADDRESS: u8 = 0x70;
/// First of the six data registers: pressure (3 bytes, most significant
/// first), then temperature (3 bytes).
pub const REG_PRESS_TXD2: u8 = 0xF7;
pub const REG_IO_SETUP: u8 = 0xF5;
/// Measurement control: averaging of temperature and pressure, power mode.
pub const REG_CTRL_MEAS: u8 = 0xF4;
pub const REG_DEVICE_STAT: u8 = 0xF3;
/// The register that holds the chip identifier.
pub const REG_CHIP_ID: u8 = 0xD1;
/// The identifier of a QMP6988.
pub const QMP6988_CHIP_ID: u8 = 0x5D;
/// Measurement control value written at start: temperature averaging 8
/// (bits 7..5 = 0b100), pressure averaging 8 (bits 4..2 = 0b100), normal
/// power mode (bits 1..0 = 0b11).
pub const CTRL_MEAS_NORMAL: u8 = 0x93;
/// How many data registers a measurement reads.
pub const DATA_REGISTER_COUNT: u8 = 6;

/// The value of a 24-bit reading sent in three bytes, most significant first.
pub open spec fn raw24(msb: u8, lsb: u8, xlsb: u8) -> int {
    msb * 65536 + lsb * 256 + xlsb
}

/// A 24-bit reading splits back into its three bytes: the most significant
/// is the value divided by 65536, the least significant its remainder
/// modulo 256.
pub proof fn lemma_raw24_bytes(msb: u8, lsb: u8, xlsb: u8)
    ensures
        0 <= raw24(msb, lsb, xlsb) < 0x100_0000,
        raw24(msb, lsb, xlsb) / 65536 == msb,
        (raw24(msb, lsb, xlsb) / 256) % 256 == lsb,
        raw24(msb, lsb, xlsb) % 256 == xlsb,
{
    let v = raw24(msb, lsb, xlsb);
    assert(v == msb * 65536 + (lsb * 256 + xlsb));
    assert(v / 256 == msb * 256 + lsb) by (nonlinear_arith)
        requires
            v == msb * 65536 + lsb * 256 + xlsb,
            0 <= xlsb < 256,
    ;
}

/// The half-scale offset of the sensor's 24-bit readings.
pub open spec fn half_scale() -> int {
    8388608
}

/// The sensor on its bus.
pub struct Qmp6988 {
    pub i2c: I2CBus,
}

impl Qmp6988 {
    /// The byte that the register read starting at the bus's k-th sample receives.
    pub open spec fn register_value(self, k: nat) -> u8 {
        self.i2c.byte_from(k + 3)
    }

    /// Reads the chip identifier register; `1` when it holds the QMP6988
    /// identifier, else `0`.
    pub fn connection_check(self) -> (res: (Self, u8))
        ensures
            self.i2c.drove(res.0.i2c, read_registers_wave(QMP6988_I2C_ADDRESS, REG_CHIP_ID, 1), 11,
                self.i2c.register_read_acks(self.i2c.samples_taken(), 1)),
            res.1 == (if self.register_value(self.i2c.samples_taken()) == QMP6988_CHIP_ID { 1u8 } else { 0u8 }),
    {
        let (i2c, values) = self.i2c.read_registers(QMP6988_I2C_ADDRESS, REG_CHIP_ID, 1);
        let connection: u8 = if values[0] == QMP6988_CHIP_ID { 1 } else { 0 };
        (Qmp6988 { i2c }, connection)
    }

    /// Starts measuring: writes the measurement control register with
    /// averaging 8 for temperature and pressure and the normal power mode.
    pub fn start(self) -> (qmp: Self)
        ensures
            self.i2c.drove(qmp.i2c, write_register_wave(QMP6988_I2C_ADDRESS, REG_CTRL_MEAS, CTRL_MEAS_NORMAL), 3,
                self.i2c.levels_from(self.i2c.samples_taken(), 3)),
    {
        let i2c = self.i2c.write_register(QMP6988_I2C_ADDRESS, REG_CTRL_MEAS, CTRL_MEAS_NORMAL);
        Qmp6988 { i2c }
    }

    /// Reads one register of the sensor. The register address is advanced
    /// past `addr` after the read, so `addr` is below 255.
    pub fn read_register(self, addr: u8) -> (res: (Self, u8))
        requires
            addr < 255,
        ensures
            self.i2c.drove(res.0.i2c, read_registers_wave(QMP6988_I2C_ADDRESS, addr, 1), 11,
                self.i2c.register_read_acks(self.i2c.samples_taken(), 1)),
            res.1 == self.register_value(self.i2c.samples_taken()),
    {
        let (i2c, values) = self.i2c.read_registers(QMP6988_I2C_ADDRESS, addr, 1);
        (Qmp6988 { i2c }, values[0])
    }

    /// Reads the six data registers from `REG_PRESS_TXD2`: pressure then
    /// temperature, each three bytes, most significant first.
    pub fn read_data_registers(self) -> (res: (Self, Vec<u8>))
        ensures
            self.i2c.drove(res.0.i2c,
                read_registers_wave(QMP6988_I2C_ADDRESS, REG_PRESS_TXD2, DATA_REGISTER_COUNT as nat), 66,
                self.i2c.register_read_acks(self.i2c.samples_taken(), 6)),
            res.1@.len() == 6,
            forall|k: int| 0 <= k < 6 ==>
                #[trigger] res.1@[k] == self.register_value((self.i2c.samples_taken() + 11 * k) as nat),
    {
        let (i2c, values) = self.i2c.read_registers(QMP6988_I2C_ADDRESS, REG_PRESS_TXD2, DATA_REGISTER_COUNT);
        (Qmp6988 { i2c }, values)
    }
}

/// Assembles a 24-bit reading from its three bytes, most significant first.
pub fn raw_value(msb: u8, lsb: u8, xlsb: u8) -> (raw: u32)
    ensures
        raw == raw24(msb, lsb, xlsb),
        raw < 0x100_0000,
        raw / 65536 == msb,
        (raw / 256) % 256 == lsb,
        raw % 256 == xlsb,
{
    proof { lemma_raw24_bytes(msb, lsb, xlsb); }
    let m = msb as u32;
    let l = lsb as u32;
    let x = xlsb as u32;
    assert(m < 256 ==> m << 16u32 == m * 65536) by (bit_vector);
    assert(l < 256 ==> l << 8u32 == l * 256) by (bit_vector);
    (m << 16) + (l << 8) + x
}

/// A 24-bit reading less half scale: the signed deviation from mid-range
/// that the compensation formulas take.
pub fn centered(raw: u32) -> (offset: i32)
    requires
        raw < 0x100_0000,
    ensures
        offset == raw - half_scale(),
        -half_scale() <= offset < half_scale(),
{
    (raw as i32) - 8388608
}

/// The temperature and pressure deviations `(dt, dp)` of the six data
/// registers (pressure bytes first, then temperature bytes).
pub fn temp_press_offsets(values: &Vec<u8>) -> (res: (i32, i32))
    requires
        values@.len() == 6,
    ensures
        res.0 == raw24(values@[3], values@[4], values@[5]) - half_scale(),
        res.1 == raw24(values@[0], values@[1], values@[2]) - half_scale(),
{
    let dt = centered(raw_value(values[3], values[4], values[5]));
    let dp = centered(raw_value(values[0], values[1], values[2]));
    (dt, dp)
}

} // verus!
