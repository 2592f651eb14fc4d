# bevy_worker

A Bevy app that runs in a web worker: a lit, spinning cube, drawn to an offscreen canvas.
The page turns and moves the camera, sets the cube's speed and colour, picks points on the
cube and reads the frame rate.

`src/` is the app's logic, verified with Verus:

- `app`: the state that the page's calls and the frames share, and the page's calls.
- `lifecycle`: what a frame does while the engine's plugins start up.
- `camera`, `controls`, `stats`: the orbit camera, the controls and the frame counts.
- `viewport`, `ray`, `pick`: where a click is, where a ray meets the cube, what was picked and
  the marker that shows it.
- `start`, `surface`, `symmetry`, `scaling`: laws of a hit. A ray from inside always hits, the
  hit lies on the face that is named, a mirrored ray hits the mirrored point, and the length
  of a direction does not matter.
- `orbit`: laws of where the camera is.
- `scene`, `transform`: the scene at the start, and poses.
- `window`, `adapter`: windows, the canvas' handle and the graphics adapter.
- `single`, `rounding`, `arithmetic`, `vector`: single-precision numbers by their bits, with
  IEEE 754 order and arithmetic.
- `accuracy`: how far a rounded result is from the exact one.

`app/` is the engine around it: the wasm handle, the systems of the schedule and the canvas
that stands in for a window. Sines, cosines and matrices are computed there.
