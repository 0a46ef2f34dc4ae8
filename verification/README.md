# bus-exporter

A hardware bus metrics exporter: it polls Modbus RTU/TCP, I2C, SPI and I3C
devices and exports the values through an OTLP (protobuf over HTTP) push, a
Prometheus scrape endpoint and MQTT.

The decision logic is a Verus-verified library (`src/`); the program around it
(`app/`) does the I/O: configuration files, bus devices, HTTP, MQTT, logging
and the command line.

## Layout

- `src/` — the verified library
  - `config`, `validate` — the configuration model and its validation rules
  - `metrics_file` — merging metric definitions from metrics files and inline
  - `decoder`, `number` — register and byte decoding, integer-to-double bits
  - `batch` — coalescing Modbus register reads and running a batch poll
    (range reads, single-read fall-back, every metric's result)
  - `devices`, `enumeration` — I2C, SPI and I3C readers over device traits,
    I3C address resolution from the bus enumeration
  - `collector`, `poll`, `store`, `labels`, `internal` — the poll cycle's
    rules, the polling loop as a step function (connect, back off, poll,
    reconnect), the metric store and the exporter's own counters
  - `prometheus`, `otlp`, `mqtt` — exposition text, protobuf request bytes and
    retry policy, MQTT topics, endpoints and the publisher's loop
  - `filter`, `service`, `logging`, `text` — the `pull` selection, the systemd
    unit, logging settings and text helpers
- `tests/` — tests of the library
- `app/` — the `bus-exporter` program
