# smve_asset_pack

A moddable asset packing system. A directory of assets is compiled into one
pack file (`.smap`): a header with the format version and the digests of the
table of contents and of the directory list, the table of contents (path,
digest, flags, offset and size of every file), the directory list, and the
file data, optionally uncooked and compressed with LZ4. Packs are read back
from memory, checked against their digests, and grouped so that override and
built-in packs take precedence over the packs that a user enabled.

The library in `src/` is verified with Verus: every public function carries a
contract, and the laws of the format (a pack reads back what it was written
with, the pack of highest precedence serves a file, merging configurations
keeps the settings of the higher one, obfuscating text twice gives it back)
are proof functions. Compressing in memory always succeeds, and what the LZ4
decoder reads of a compressed file is what was stored; what the selected
uncooker answers is stored under the file's path with the uncooker's target
extension, and a file that no uncooker answers for is stored as it is.

Layout:

- `src/format.rs`, `src/pack_layout.rs`, `src/pack_spec.rs`: the pack format
  as bytes and as mathematical values.
- `src/compiling.rs`: writing a pack from the entries of an asset directory.
- `src/reading.rs`, `src/pack_front.rs`, `src/pack_reader.rs`,
  `src/file_reader.rs`: reading and checking a pack.
- `src/pack_laws.rs`: the read-back laws.
- `src/pack_group.rs`: groups of packs and their precedence.
- `src/walk.rs`, `src/config.rs`: the walk over an asset directory, ignore
  files and configuration files.
- `src/file_bundle.rs`: the simpler file bundle format.
- `app/`: the command line compiler, file and directory I/O, TOML
  configuration files and Lua uncookers.
