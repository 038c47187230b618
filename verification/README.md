# hunk_diff

Keeps track of the diff hunks that a text editor shows inline ("expanded" hunks), and
decides what has to happen to them when the user toggles a hunk, expands all of them or
clears them, and when the diff is computed anew.

- `src/` is the library, verified with Verus. It works on plain values: the host says where
  anchors and hunks stand in a snapshot of the text and the screen, and the library answers
  with its new state and with what is to be done.
  - `anchor`, `hunk`, `diff_base`: positions, hunks, and the texts that buffers are compared
    with.
  - `expanded`, `editor`: the expanded hunks, and the requests that change them.
  - `toggle`, `sync`, `expand`: toggling hunks, synchronizing them with a diff, and putting a
    hunk among the expanded ones.
  - `block`, `menu`, `effect`: what shows a hunk.
  - `order`, `toggle_laws`, `sync_laws`, `expand_laws`, `joint_laws`: what holds of all this,
    step by step and of several steps in a row, with proofs.
- `app/` drives the library on behalf of a host application.
- `tests/` are ordinary tests of the library.
