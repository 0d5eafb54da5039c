# telltale_pf

Passive network fingerprinting: what connects, by its operating system, its client
software and its TCP stack, without sending a packet.

Packets from any source are decoded, joined into sessions, and looked at by a set of
methods, each with a manifest and a database of its own. What the methods claim is
gathered into a profile for each endpoint.

```
source -> decode -> sessions -> methods -> profiles -> text
                        |
                        +-> events -> engine -> results
```

## Layout

`src/` is the library. Its functions have contracts over sequences, maps and plain
numbers, which Verus checks; what holds of several functions together is stated in
public proof functions. Three things are not checked:

- Seven functions are taken at their word: in `wire`, the five that read headers with
  `pnet`; in `http`, `std::str::from_utf8`; in `text`, `String::push`. Each says above it
  what is relied on.
- What a `Method` finds for an event is its own affair, so `Method::extract` promises
  nothing. The one in `ja4` does.
- The implementations that `derive` writes.

| Modules | Role |
| ------- | ---- |
| `wire`, `decode`, `source` | Bytes to observations; live captures and capture files. |
| `observation`, `session`, `correlator`, `pipeline` | Sessions, how they grow and when they end. |
| `trigger`, `classifier`, `engine`, `result`, `update` | Protocol events, the methods they fire, and the results. |
| `manifest`, `method`, `registry`, `memory`, `adapters` | Methods, their order, and passes over a session. |
| `f0p`, `http`, `banner`, `fusion`, `tcp_syn`, `ja4` | The methods themselves. |
| `evidence`, `profile`, `consumer`, `report`, `render` | Claims, profiles, and how they are shown. |
| `config`, `db`, `error`, `pick` | Settings, databases, messages, the choice of an interface. |
| `text`, `time`, `address`, `table`, `order` | What the rest is built on. |

Scores are exact fractions, and thresholds are given in millionths.

`app/` is the program: command line, files, devices, threads, YAML and JSON.

`tests/` runs the library.
