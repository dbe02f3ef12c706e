# protohackers

Nine small network services, with what they compute and decide proved in Verus.

- `src/` is the library. It does no input or output: it reads and writes messages, keeps the state
  of sessions, rooms and histories, and says what is to be done on each event.
  - `addresses`: a proxy that puts one payment address in the place of others
  - `chat`: a chat room
  - `database`: a key-value store spoken to in datagrams
  - `insecure_sockets`: a toy shop behind an improvised cipher
  - `line_reversal`: reversal of lines over sessions that run on datagrams
  - `prices`: mean prices over periods
  - `primes`: questions whether a number is prime, with `integers` for numbers of any size
  - `speed_daemon`: average speed limits, with cameras and dispatchers
  - `bytes`, `text`: numbers in bytes, and strings as sequences of characters
- `app/` runs the services: sockets, timers, channels, JSON and the log.
- `tests/` holds the library's tests.

What the library states of itself as a whole stands in the public proof functions whose names begin
with `law_`. What it takes from `num_bigint`, `regex` and the standard library without proof stands
in the functions marked `external_body` and in the `assume_specification` items.
