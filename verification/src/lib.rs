//! Indoor air quality monitor: the logic of its sensor drivers.
//!
//! * `soft_i2c`: a bit-banged I2C master, kept as the pin waveform it drives
//!   and the levels it samples back.
//! * `bus_events`: what such a waveform is on the wire (START, STOP, bits
//!   written, bits read), and the laws that the master's transactions obey.
//! * `qmp6988`: the QMP6988 barometric pressure sensor on that bus.
//! * `scd41`: the SCD41 CO2 sensor: the steps of its routines, the retry
//!   policy of its transfers, the decoding of its measurement frame.
//! * `thingspeak`: the topic under which readings are published.
pub mod soft_i2c;
pub mod bus_events;
pub mod qmp6988;
pub mod scd41;
pub mod thingspeak;
