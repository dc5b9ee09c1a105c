# Input variants

A build tool that compiles one unit under changing environments wants to keep
every result, and to find the right one again. This library makes the decisions
behind that, and Verus proves them:

- which branch of a unit the observed inputs select, and what a finished build
  records (`input_variant`, `build_env_variants`, with `environment`, `tracking`
  and `variants`);
- what a retained unit owns on disk, and which outputs go when they are old or
  take too much room (`outputs`, `clean`, `clean_command`, and `outputs_v1` for
  records that list paths alone);
- which locks jobs take, in which order, and how they share them (`locking`);
- what dep-info files say, and when they are written (`output_depinfo`,
  `render`);
- which artifact families a build uses, which units belong to them, and what
  environment they run in (`artifact_family`, `features`, `membership`).

Paths and search paths are Unix's: `/` and `:` separate them, and a path of Windows
is no input. Only the recorded value of a variable can also be one of Windows, in
16-bit units.

Paths, orders, hashing and text stand in `path`, `path_buf`, `path_set`, `order`,
`sorted_map`, `name_map`, `hasher`, `framing`, `text`, `walk` and `reach`. What
holds of whole runs is proved in `clean_laws`, `clean_tree` and `depinfo_laws`, and
beside the functions elsewhere.

The library does no I/O. A run that alternates looking and deciding is a value
with a `step` function: it takes what was seen, and gives back the changes to
make and what to look at next. `app/` looks and changes: it holds the `clean
variants` command and the connection to the file system.

Three functions are trusted rather than proved: `text::utf8_text`
(`std::str::from_utf8`), `text::hex_encode` (`hex::encode`) and
`hasher::hash_bytes` (`rustc_stable_hash::StableSipHasher128`).
