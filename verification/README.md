# proton_stream

A client for watching a video library that lives behind shared links: it reads
what a share holds, works out what each file is, remembers where playback left
off, asks a metadata provider about each title, and streams a file to the player
block by block.

* `src/` is the library. It computes and decides, and touches nothing outside:
  every function states what it returns in its contract, and Verus proves it.
  Where an outside crate does part of the work (`lru`, `sha2`, `serde_json`, the
  Unicode tables of the standard library), the call stands behind an item whose
  contract says what is believed of it. `src/lib.rs` lists the modules.
* `app/` is what stands around it: files, the credential store, the database, the
  network, the player and the graphics driver. It asks the library what to do
  next and hands back what came of it.
* `tests/` runs the library on concrete values.

Laws that hold across several functions are public proof functions whose names
start with `law_`.
