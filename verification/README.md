# avalanche_types

Avalanche keys that are held in memory, verified with Verus: how a key is generated or loaded, how
it is written in CB58 and in hexadecimal, its addresses on the X, P and C chain and on Ethereum, and
which outputs a key or a keychain can spend.

- `src/` is the library. `soft_key` holds keys and `keychain` several of them; `secp256k1fx` the
  outputs that they spend; `formatting`, `base58`, `hexadecimal`, `eip55` and `prefix` the texts;
  `numeral` the arithmetic of digits under them; `curve` and `hashing` the calls into the
  cryptographic crates, whose results are named and trusted.
- `tests/` runs the library on known keys.
- `app/` keeps the texts of a key in a file, and gives the library's errors as errors of I/O.
