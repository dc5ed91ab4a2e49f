# nd_renderer

The decisions of an n-dimensional wireframe viewer, verified with Verus.

- `src/rotation_file.rs`: reading the rotation schedule (lines of unsigned
  numbers) and grouping its numbers into rotations.
- `src/segments.rs`: which piece of which edge is drawn, in drawing order.
- `src/controls.rs`: what keys, drags and the mouse wheel change.
- `src/recording.rs`: the image-sequence recording, frame by frame, and the
  names of the exported images.
- `app/`: the window, the input polling, the float geometry and colours, and
  the files; it calls the library for every decision above. It uses the
  program's scene, loader and math modules, which are not part of this
  repository.
