# space_game

The logic of a fullscreen arcade shooter, verified with Verus.

- `src/` is the library: the random-number generator, pixel and bitmap-text
  drawing, sprite blending, the high-score table and its file format,
  keyboard state, collision tests, the marching enemy grid, the choice of
  divers and stars, the heads-up display and overlays, and the flow between
  the game's screens. Each public function states what it does in its
  contract, and the laws that tie the functions together are proof
  functions beside them.
- `tests/` runs the library on concrete values.
- `app/` is the program around it: the window and event loop, the
  framebuffer, sound, the score file, and the parts of the game that move
  in fractional pixels (the ship's steering and gun heat, the waves' flight
  paths, beams, sparks and the falling stars).

The program reads its images from `png/` and its sounds from `sfx/`, and
keeps the high scores in `scores.txt`.
