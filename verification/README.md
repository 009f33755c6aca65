# oxygn

A TCP reverse proxy with round-robin load balancing, per-client rate
limiting and background health checks, configured from `config.yaml`.

- `src/` is the verified library: the backend pool (`pool`), round-robin
  routing (`routing`), the rate limiters (`limiting`, with the `mini_moka`
  cache behind `cache` and the clocks behind `clock`), the health checks'
  request and reply handling (`health`), the refusal replies (`responses`),
  the configuration types and defaults (`config`) and decimal text (`text`).
- `app/` is the program around it: reading the configuration, the tokio
  accept loops and tunnels, and the health checker's network calls.
- `tests/` runs the library on concrete values.
