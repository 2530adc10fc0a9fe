# FlatBak

FlatBak backs up the Flatpak applications on a machine, with their data, into one
`.flatbak` file, and restores them from it on another.

## Layout

- `src/` is the library, verified with Verus. It decides and computes; it reads no
  file and starts no program.
  - `util`, `path`, `text`, `natural`, `double`: sizes, paths, texts and the
    arithmetic behind them.
  - `appdata`: where an application's data is, and how much of it there is.
  - `flatpak`: the applications and remotes of a machine, the commands that list and
    install them, and what their output means.
  - `backup`: the archive. `container` is its framing, `manifest` what it says of its
    contents, `writer`, `create` and `links` how one is made, `reader`, `extract`, `confine`
    and `restore` how one is opened and put back, and `tree` what becomes of a whole
    data directory that way.
  - `recent`: the list of recent backups.
  - `ui`: what the pages show, and what is chosen on them.
- `app/` is the program around it: files, processes, TOML and the GTK user
  interface. Where an operation alternates between deciding and doing, as a restore
  does, the library holds a machine that says what to do next, and `app/` does it.
- `tests/` runs the library.

## What is proved

Every function of the library states what it returns for every input it accepts. Where
the clock, the time zone, a flag shared with another thread or the memory left for
compression decides, it states what holds of every outcome. Beside them stand the
properties that hold of several functions together, as public proof functions. Among
them:

- what a backup wrote can be opened, and says what the backup reported
  (`backup::create::lemma_created_archive_opens`);
- a data directory that is backed up and restored comes back as it was, without what
  a backup leaves out (`backup::tree::lemma_data_round_trips` and
  `backup::tree::lemma_restored_data_is_reported`);
- whatever an archive says, entries are only written below the data directory of an
  application that was asked for (`backup::extract::lemma_unpacked_below_data_dir`),
  also where links lie on the way (`backup::extract::lemma_unpacked_lands_inside`),
  and no link leads outside, whichever others it leads through
  (`backup::extract::lemma_written_links_stay_inside`);
- nothing is changed before the payload was found to match its checksum
  (`backup::restore::lemma_nothing_before_verification`), and data is only removed
  where the user chose to replace it
  (`backup::restore::lemma_removal_only_on_request`);
- links are stored so that they lead to the same place on another machine
  (`backup::links::lemma_absolute_links_are_rewritten`).

## What is trusted

Calls into other crates and into the parts of the standard library that have no
specification are wrapped in small functions, each marked
`#[verifier::external_body]`, with a comment that says what is claimed of the call:
compression (`zstd`), checksums (`crc32fast`, `sha2`), times (`chrono`), and a few
text functions.
