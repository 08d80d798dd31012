# qsh

A remote shell over QUIC. Both ends authenticate with Ed25519 keys; the client
pins host keys by fingerprint and the server authorizes client keys one by one.

`src/` is the verified library. It holds the decisions: what a frame is and how
it is read, which certificates and keys are accepted, what an authorized key may
run, how privileges are dropped, what a session does with each event, how
addresses are raced, how command lines are read, how long each side waits.

- `proto`: frames, requests, exit statuses and their encoding
- `crypto`, `clock`: fingerprints, validity, identities, the steps of an atomic write
- `config`: directories, server configuration, authorized keys, known hosts
- `server`, `admission`: what a connection and a request get, and the limits on both
- `session`: the life of one session, from its pumps to its exit status
- `child`, `pty`, `cgroup`: accounts, dropping privileges, the environment, containment
- `client`, `net`: connecting, first contact, the escape character, transport limits
- `cli`, `admin`: command lines and the reports of both programs
- `text`, `path`, `order`: strings as sequences of characters, paths as bytes, their order

`app/` is the program around it: sockets, files, processes, terminals. It asks
the library what to do and does it. `tests/` runs the library on concrete values.

Functions marked `external_body` call into libc, postcard, rcgen, rustls-pemfile, sha2,
time, x509-parser and std. Their contracts are not proved; each says above it what
it claims of the call.
