# image_processor

Image transformations for the `ip` command-line tool and its two plugins,
verified with Verus.

- `src/` is the verified library:
  - `pixels` — layout of packed RGBA8 buffers and the lemmas about it;
  - `mirror` — horizontal and vertical flips and the mirror plugin's entry point;
  - `blur` — the separable box blur and the blur plugin's entry point;
  - `plugin_error` — the status codes that plugins return;
  - `args` — validation of the tool's arguments against the file system.
- `app/` is the `ip` binary: argument parsing, image files and loading the
  plugins from shared libraries at run time. `app/plugins.rs` holds the bodies
  of the plugins' `process_image` C entry points (over the library) and the
  floating-point Gaussian blur; the binary does not build the plugin
  libraries themselves.
- `tests/` exercise the library.
