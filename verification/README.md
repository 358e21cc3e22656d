# iaq_monitor

Indoor air quality monitor for an M5 Stamp C3 (ESP32-C3): an SCD41 (CO2,
humidity) on the hardware I2C bus and a QMP6988 (temperature, pressure) on a
bit-banged I2C bus; readings are published to ThingSpeak over MQTT.

* `src/` is the verified library. The bit-banged I2C master computes the pin
  waveform of each transaction and decodes the levels sampled back;
  `bus_events` gives that waveform its meaning on the wire and proves that
  each transaction is the I2C frame it should be. The SCD41 routines are
  lists of steps run under a verified retry policy.
* `app/` is the firmware around it: pins, the I2C driver, WiFi, MQTT, the
  main loop, and the floating-point scaling of the readings.
