# grapple

Rope, spring and grapple constraints for a two-dimensional game engine, verified with Verus.

- A **distance** or **spring constraint** gives the impulse that pulls a point back to a length from
  its anchor.
- A **grapple** is a rope to swing on. After the physics step it corrects the position and the
  velocity of a body that has gone beyond the rope's end.
- The **plugin** keeps the grapples of a scene by the names of the bodies that hang on them. It takes
  commands that attach, release and set them, and enforces all of them once a frame.

Numbers are IEEE 754 single-precision ones. The library computes them itself, from their bit
patterns, so every contract says exactly which number comes out, roundings, infinities and NaN
included. Nothing is trusted: there is no unverified item in `src/`.

| Module        | What it holds                                                            |
|---------------|--------------------------------------------------------------------------|
| `float`       | what a single-precision number is, and what its operations mean          |
| `rounding`    | facts about rounding to the nearest, ties to even                        |
| `scalar`      | the numbers at run time, with each operation proved correctly rounded    |
| `plane`       | points and vectors of the plane                                          |
| `arithmetic`  | facts about the operations: zero, one, order, error                      |
| `link`        | distance and spring constraints                                          |
| `grapple`     | grapples: settings, presets, and the correction for one frame            |
| `laws`        | what the constraints promise: rest, restoring, damping, stiffness, limit |
| `precision`   | how precisely pulls, the rope's length and the speed limit are kept      |
| `swing`       | how precisely a velocity is split and put together on the rope           |
| `names`       | a table from names to values that keeps the order of insertion           |
| `scene`       | what the plugin sees of a scene                                          |
| `plugin`      | the commands and the frame                                               |
| `plugin_laws` | what holds over several commands and frames                              |

`tests/` compares the numbers with the machine's own, bit for bit, and runs the constraints and the
plugin. `app/` binds the plugin to an engine that computes with machine floats.
