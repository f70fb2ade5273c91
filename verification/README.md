# dsd

Listing and repair of decompiled ARM programs, verified with Verus.

* `src/` is the library. `illegal_code` spots instruction sequences that no real
  program holds, `functions` writes the assembly listing of one function, and
  `find_exceptix` names the exception table of a program. Each function states in
  its contract what it returns. `listing_laws`, `coverage_laws`, `entry_laws`,
  `module_laws` and `exception_laws` prove what holds of every listing and of every
  exception table.
* `tests/` runs the library, with the `unarm` decoder behind it.
* `app/` holds what is around the library: command arguments, output and the log.

What the library believes of `unarm` without proof is stated in `src/decoder.rs`.
