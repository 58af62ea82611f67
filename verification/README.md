# rom-mod

A cheat-to-patch workbench for NES, Super NES and Mega Drive ROM images, written as a
verified Verus library with a thin command-line and web front end.

- `src/` is the library. Every function is verified against its contract except ten small
  wrappers whose contracts are trusted: the calls into `sha1` and `crc32fast` (`hashes.rs`),
  into `serde_json` (`read_listing`, `read_tree`, `read_cache`, `write_strings` in
  `cheatdb.rs`), and into `String::push`, `str::to_lowercase`, `char::is_alphanumeric` and
  `String::from_utf8_lossy` (`text.rs`). The modules:
  - `codes`: Game Genie, raw and Pro Action Replay codes for the three platforms.
  - `rom`: platform detection, the iNES, Super NES and Mega Drive headers, CPU address
    mapping, checksums, `.smd` conversion, and the library listing order.
  - `patch`: resolving codes against an image, collecting non-overlapping writes, the
    patched image with its fixed checksum, IPS files, file names and RetroArch cheat files.
  - `cheatdb`: the libretro cheat database: name matching, `.cht` files, URLs and the cache.
  - `server`: how the workbench classifies a cheat, splits typed lines and guards its API.
  - `report`: the text the command line prints.
  - `text`, `number`, `hashes`: characters, numbers, and the SHA-1 and CRC-32 digests.
- `app/` holds `main`, file and network I/O, the HTTP server and the JSON copies of the
  library's types.
- `tests/` exercise the library on concrete images and codes.
