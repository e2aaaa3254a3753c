# spanda

A general-purpose animation library in two parts.

- `src/` is the core, whose functions carry proved contracts:
  - `integrations/split_text` splits text into characters and words
    (words are the maximal runs of non-white-space characters);
  - `svg_path` tokenizes SVG path `d` strings and groups their numbers into
    commands (implicit repeats, line-tos after a move-to, closes), handing
    every coordinate out as the byte range of a literal that parses;
  - `driver` keeps the animations of a driver under ids that are never
    reused, with add / cancel / cancel-all / retain-running;
  - `keyframe` (loop modes and what ends an iteration), `tween` and
    `timeline` (lifecycle states), `path` (Bezier segments), `drag`,
    `gesture` (enums) and `clock` (the wall clock's laps).
- `app/` is ordinary Rust around it: easing curves, tweens, keyframe
  tracks, timelines, springs, inertia, motion paths, layout and gesture
  recognition, all of which compute in floating point.

`tests/` exercises the verified core.
