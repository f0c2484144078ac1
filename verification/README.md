# qemu_harness

A small harness for booting QEMU guests in tests, with its decisions verified
in Verus.

- `src/process.rs`: the QEMU command line built from a `GuestConfig`, the
  configuration a guest is spawned with, socket path joining, the
  wait-for-socket decision, and `SerialWatch`, which decides when expected
  serial output has appeared.
- `src/util.rs`: MAC addresses in QEMU's `52:54:00` range and `SshConfig`.
- `src/test_params.rs`: the planning behind the `test_fn` attribute:
  `skip` handling, the cartesian product of parameter values, parameter
  bindings, labels and the names of the generated functions.
- `src/text.rs`: decimal formatting, substring search and character helpers.
- `app/`: the process, socket and serial I/O, the `syn`/`quote` side of
  `test_fn`, and `main`.
