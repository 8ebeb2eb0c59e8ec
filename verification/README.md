# cert-store

A command-line certificate store: keys and certificates live in a Git
repository, each certificate in a directory named by its common name, with its
key encrypted for the recipients chosen with GPG.

- `src/` is the library, verified with Verus: parsing of validity periods,
  of `gpg --list-keys --with-colons` listings, of the recipients prompt and
  of the recipients file; the profile of each kind of certificate; the paths,
  commit messages and command arguments of every change to the store; and
  the issuing of certificates around `rcgen`. The calls into `rcgen` (and
  what the certificates they write hold: subject, issuer, alternative names,
  extensions, validity, serial number, key identifier, public key and
  signature) are trusted contracts in `src/x509.rs`, not proofs; the code
  around them is verified against those contracts.
- `app/` is the command line around it: argument parsing, files, and the
  `git`, `gpg`, `openssl` and `xclip` processes.
- `tests/` runs the library on concrete values.
