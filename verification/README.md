# pen_plotter

A verified toolkit for a small pen plotter, written in Verus.

The library (`src/`) holds the logic, each function proved against its
contract:

- `canvas`: the 900 x 600 raster canvas, single-pixel writes, filling, axes.
- `line`: the Bresenham line walk as a specification, with its laws (end
  points, connectivity, bounding box, number of points).
- `sketch`: the square brush, brush strokes, and the per-frame decisions of the
  free-hand drawing window.
- `replay`: one-pixel strokes, replay frames and the pausable replay clock.
- `trajectory`, `csv_text`: trajectory samples, the CSV format they are stored
  in (decimal integer grammar included) and the stable sort by timestamp.
- `packet`: motion segments and the ten-byte serial packet with its XOR
  checksum.
- `paths`, `config`: choosing the trajectory file and reading the sender's
  command line.
- `trail`: the bounded position trails of the motion demo.

`app/` is the program around it: windows (minifb, macroquad), files, the
serial port (serialport), the trajectory generator of the motion demo
(rsruckig) and the floating-point unit conversions. It runs as
`draw`, `replay [CSV]`, `send [--port DEV] [--baud N] [--csv PATH]` or `demo`.
