# embedded_template

The logic of an STM32 project template, as a verified library: the tools
that generate the template's chip tables and linker scripts, the pin
reference of a chip, the template checker's plan, and the update path of
the firmware (receiving an image, applying a signed one, signing keys).

- `src/` is the library. Every function in it is verified with Verus
  against its contract; the contracts speak of spec functions over `Seq`,
  `Map` and integers. Three calls into `salty`, one into `getrandom` and one
  into `object` stand behind trusted wrappers in `signing.rs` and
  `image.rs`.
- `app/` is the plain Rust around it: the command-line tools, file and
  process I/O, the async adapters for the bootloader and the settings
  store, and the awaiting OTA node.
- `tests/` runs the library on concrete values.

The update partition is driven through `ports::Recorded`, which keeps the
calls made on it, so that the contracts of `download`, `ota` and `update`
say which calls are made, in which order, and what comes of their answers.
