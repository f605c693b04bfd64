# abootimg_oxide

A verified parser for Android boot image headers (`boot.img`, versions 0 to 4)
and the `unpack_bootimg` tool built on it.

- `src/header.rs`: the header layouts, `Header::parse` on bytes, `Header::to_bytes`,
  the offsets of the parts of the image, and the laws that tie them together
  (bytes written parse back to the header; a parsed header writes back the bytes
  it was read from, where those hold in the header-size and reserved fields what
  `to_bytes` writes there; every part starts on a page boundary after the one
  before).
- `src/version.rs`: the packed OS version and patch level.
- `src/digest.rs`: the `id` digest over the parts (SHA-1 or SHA-256).
- `src/bytestring.rs`: null-terminated strings and their shell quoting.
- `src/text.rs`: decimal and hexadecimal renderings.
- `src/unpack.rs`: the parts to extract, the information listing and the
  `mkbootimg` arguments.
- `app/main.rs`: the command line tool: arguments, files, standard output.
