# gemini_credentials

Credential failover for Gemini: which API key an interview uses, what a failed
call says about the key it was made with, and when a failed key comes back. The
library is written in Rust and verified with Verus.

- `src/keys.rs`: the keys of one interview and the order it turns to them in.
- `src/cooldown.rs`: the failures that the interviews of a process share.
- `src/failure.rs`: the classification of responses, close reasons and refused
  handshakes.
- `src/json.rs`: what is read of a JSON document, which `serde_json` parses.
- `src/redact.rs`: keeping keys out of what is printed.
- `src/config.rs`: reading the keys from the settings of a process.
- `src/text.rs`: searching, trimming and splitting texts.
- `src/laws.rs`: what holds across calls, as proof functions.
- `app/`: the clock, the shared lock and the error types around the library.

Moments are nanoseconds on the process's monotonic clock and are passed in, so
every contract is exact. A key is out until its deadline and back at it.
