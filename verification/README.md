# etv_station

The scheduling core of a television station, written in Verus: executable Rust whose
behaviour is stated in contracts and proved.

A channel is a list of blocks. A block plays authored entries, or draws from pools by a
pattern, or hands its pools to a script. One generation resolves the blocks against a
snapshot of the catalog into a flat list of items, keeps items apart that must not come close
together, cuts the list to the window that is still to be filled, and says what the next
generation resumes from.

- `src/` is the verified library.
  - `config`, `item`, `catalog`: what is authored, and what the catalog knows.
  - `pool`, `draw`, `progress`, `pattern`, `sequence`, `continuity`, `airtime`: pools of
    series, how a pattern visits them, how much of it a window takes, and what carries over
    from one generation to the next.
  - `constrain`, `orders`, `window`, `resolve`, `channel`, `generate`, `resolutions`: from
    blocks to a list, and what holds of one such list beside another.
  - `engine`, `script`, `score`, `rank`, `arrange`, `sources`, `datastore`: plugins.
  - `resume`, `history`: what is remembered between generations.
  - `rule`, `playout`, `scan`, `reconcile`, `timed`: items on the clock, and the files they
    are written to.
  - `overlay_supervisor`, `overlay_timeline`: what is drawn over a channel.
  - `profile`, `tautulli`, `report`: taste profiles, watch history, and reports.
- `tests/` runs the library.
- `app/` is the program around it: command line, files, processes, network.

The library asks for what it cannot compute itself. A query that was not put to the catalog,
an ordering that was not made, a script that was not read, a question that a plugin put to a
datastore, or an error card that was not drawn comes back as an error that names it; the caller
provides the answer and asks again.
