# doubao_clean

Removes watermarks from pictures: it finds a mark, masks it, has the masked
area repaired, checks that nothing outside the mask changed, and writes the
result only if it did not.

`src/` is the verified library. It holds everything that decides or computes:

- numbers: `double`, `number`, `stats`, `shift` (medians)
- grids and pictures: `grid`, `components`, `raster`, `morph`, `masks`,
  `planes`, `fill`, `scaling`, `outline`, `codec`
- finding marks: `boxes`, `detect`, `template`, `refine`, `dbnet`, `placing`,
  `correlate`, `locating`
- profiles of marks: `watermark_profiles`, `learning`, `batch`, `discover`,
  `blur`, `inverse`
- repairing and checking: `lama`, `verify`, `review`, `photo_meta`
- running: `pipeline`, `names`, `fetch`, `cli`, `desktop`, `android`, `menu`,
  `i18n`, `text`

Arithmetic whose rounding decides (thresholds, coverages, residuals) is done on
`Double` and `Number`, which carry IEEE values in integers.

`app/` is the program around it: files, network, running the two models, the
weights of Gaussian blurs, numbers read and written as decimals, the window
(`desktop.rs`, built with `--cfg desktop_shell` and the window toolkit) and the
phone (`android.rs`).

`extras/profile.toml` holds build settings. On a damaged file the JPEG decoder
multiplies beyond 32 bits and means to wrap; a build with overflow checks, such
as a debug build, has it stop the program instead. With
`cargo --config extras/profile.toml` that crate is built without them.

`tests/` runs the library on concrete values.
