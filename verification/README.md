# passero

The core of a password manager for the `pass` password store format, with
its contracts proved by Verus.

- `src/` is the verified library: the settings model and its key/value
  storage (`config`), the password tree (`tree`), the store's listing and
  `.gpg-id` handling (`store`), gpg's colon listings and batch inputs
  (`gpg`), one-time passwords (`totp`), GitHub's device flow decisions
  (`github`), OpenPGP keys and encryption through sequoia (`crypto`), the
  mobile app's state and helpers (`ios`), and text and ordering utilities
  (`text`, `order`).
- `tests/` runs the library on concrete values.
- `app/` is the unverified shell: files, git, HTTP, the gpg command line,
  the clock, QR images, decryption, and serde copies of the library's types.
