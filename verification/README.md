# webfishing_installer

A verified library for the Webfishing macOS installer: reading, editing and
writing Godot PCK archives, deciding which mods load, applying mods' diffs,
and the installer's own script fixes. `app/` is the installer program built
on it (Steam, downloads, files, the Godot decompiler).

- `src/pck.rs`: the archive format. `PCK::to_bytes` and `PCK::from_bytes`
  are specified against the byte layout (`pck_bytes`, `pck_read`);
  `law_write_then_read` and `law_resave_reproduces_bytes` relate them
  (`PCK::lemma_digests` gives the 16-byte digests they need), and the
  `add_file` laws cover lookups, distinct paths and adding twice.
- `src/reader.rs`: the `binary_reader` calls the parser makes.
- `src/mods.rs`, `src/manifest.rs`: manifests and dependency resolution, with
  its laws (closed under dependencies, only drops, drops no more than needed).
- `src/diff.rs`, `src/diff_text.rs`: unified diffs through `patch_apply`.
  Diff text is first held to a shape on which parsing either fails or
  consumes the whole text (hunk numbers that fit in a `u64`, only hunk lines
  after the first hunk header, lines ended by a line feed or a carriage
  return and a line feed, no other carriage return in the hunks); other text
  is refused. Hunks
  that start past the input's lines are refused before applying.
- `src/borderless.rs`: the options menu fix; every statement assigning
  `OS.window_borderless` or `OS.windowed_borderless` is removed, and
  `law_strip_leaves_no_assignment` shows none is left.
- `src/resources.rs`, `src/patches.rs`, `src/text.rs`: file names, resource
  paths, the network script edit, and the `str` operations they rest on.
- `src/install.rs`: the decisions of the wait for Steam to install the game.
