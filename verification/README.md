# jelly_cursor

A spring-animated text caret. Each corner of the caret hangs on a critically damped spring; a
report of a new place retargets the four springs without discarding their velocities. The caret
is drawn into a BGRA buffer, settled or not.

The library is written in Verus. Its contracts state what each function computes, bit for bit:
numbers are IEEE 754 bit patterns, and their arithmetic is proved to give the exact result
rounded to the nearest number, ties to even. The exponential function and the length of a way
are given by the caller.

- `src/rounding.rs`, `src/float.rs`, `src/exact.rs`: rounding, the operations on magnitudes with
  a sign, and when they are exact.
- `src/accuracy.rs`, `src/approx.rs`: how large the results of the arithmetic are, how far from the
  exact ones, and how errors add up.
- `src/double.rs`, `src/single.rs`: numbers of 64 and of 32 bits.
- `src/geometry.rs`: corners, their bounds, and how fast each corner responds.
- `src/spring.rs`: the springs, and that every motion ends.
- `src/motion.rs`: the exact motion of a spring over the real numbers, and how near to it the
  springs stay.
- `src/steady.rs`, `src/frames.rs`: springs stay within bounds, whatever happens to them, and come to
  rest, frame by frame.
- `src/raster.rs`: filling a polygon with a gradient.
- `src/coverage.rs`, `src/shade.rs`: which pixels a polygon covers, and how near their colors are to
  the exact gradient.
- `src/color.rs`: hex colors and mixtures.
- `src/cursor.rs`: the caret.
- `app/`: the caret as an element of smithay's renderer.
