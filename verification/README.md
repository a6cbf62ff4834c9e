# scal

The verified core of SCAL, an animation system focused on code: animations
are written as Rust programs that hand a project to a runtime, which previews
or renders it. This crate holds the parts of that system that are plain
logic, each with a contract proved by Verus.

`src/` (verified):

- `color` – hexadecimal color strings and packed `0xAARRGGBB` values.
- `ansi` – SGR escape codes and the split of terminal output into colored spans.
- `terminal` – the simulated terminal: typed commands, captured output, how
  much of each is revealed, and the colored lines shown.
- `shell` – what a typed command does in a terminal session (`cd`, the text
  run by the shell) and the cleanup of what it prints.
- `theme` – highlight names and their palette colors.
- `atlas` – shelf packing of glyphs into an RGBA atlas, and strips of text labels.
- `controls` – the keyboard controls of the preview.
- `ipc` – the length-prefixed frame in which a project travels over a pipe.
- `settings` – codec names, configuration defaults and frame buffer sizes.
- `anim`, `text` – shared vocabulary and character/UTF-8 helpers.

`app/` is ordinary Rust around it: floating-point colors and easing, the
configuration file, process and pipe handling, and the glue that turns
animation progress into the state above.

`tests/` exercises the library on concrete values.
