# wayzoom

A small **view-only** screen magnifier for Wayland, with a verified core.

Requires a compositor that supports `wlr-layer-shell`, `wlr-screencopy`, and
`wp_viewporter` (most wlroots-based compositors and similar).

It maps a fullscreen overlay with a colored border, grabs a single frozen frame of
the current output via `wlr-screencopy`, and lets you pan/zoom it with the mouse.
While the overlay is up it grabs input — you can't interact with apps underneath
(that's what the border reminds you of). Scaling is done by the compositor via
`wp_viewporter`, so panning stays smooth.

## Controls

| Input            | Action                          |
| ---------------- | ------------------------------- |
| Mouse wheel up   | Zoom in                         |
| Mouse wheel down | Zoom out                        |
| Move mouse       | Pan                             |
| `Esc`            | Zoom out, then quit             |

Options:

- `--no-border` — don't draw the reminder border around the overlay.

There is one instance per output. Launching wayzoom again for an output that already
has one signals the running instance to exit (the same graceful zoom-out as `Esc`), so
a single global shortcut can both open and close it.

## Layout

- `src/` is the library. Every decision of the overlay is taken here, and proved with
  Verus: the state machine (`state`, `input`, `screencopy`), the zoom and its animation
  (`zoom`, `easing`, `stepping`), the geometry (`axis`, `crop`), pixels (`image`, `capture`,
  `border`, `render`) and the command line (`args`).
- `src/number/` is the floating-point arithmetic that zoom and geometry are computed
  with: single and double precision, correctly rounded, with the bits of the
  interchange formats.
- `app/` is the program: it connects to the compositor, hands its events to the
  library, and does what the library says. The exponential and the power function of
  the animation are taken from the platform here.
- `tests/` runs the library, and compares its arithmetic with the machine's.

What holds of the overlay as a whole is stated in public proof functions, among them:

- the shown part never leaves the frozen frame, and at a zoom of one it is all of it
  (`crop`, `axis`, `view`);
- a view of the size of its source is the source, and no view has brighter or darker
  colors than its source (`fidelity`, `view`);
- every notch of the wheel moves the zoom, the right way, until it is at its end (`zoom`);
- the animation neither stalls nor jumps, and it ends within 70 frames of 16 milliseconds
  or more (`easing`, `stepping`);
- whatever happens, the zoom stays in its range, nothing that is left to do waits for
  anything but a pending frame, the output is captured at most once, and an overlay
  that is asked to go away does (`course`).
