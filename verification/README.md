# Coinbath

Coinbath holds a sous vide bath at temperature with the waste heat of a
Bitcoin miner. It reads the water temperature, compares it to the
setpoint, and asks the miner for a share of its full power.

`src/` is the library, verified with Verus. It reads no clock, no file,
and no socket. It holds the arithmetic, the rules, and the decisions:

- `rounding`, `ieee`, `double`, `single`, `order`: binary floating point
  on integers, each operation stated as the exact result rounded to
  nearest, and what that does to the order of numbers.
- `number`, `squares`: formulas over rounded and exact numbers alike, and
  what the least squares behind a calibration achieve.
- `wording`, `address`: numbers in words, strings taken apart, and socket
  addresses told from other texts.
- `adc`, `thermistor`, `probes`, `calibration`: from converter codes to
  degrees, and the fit of a probe's coefficients.
- `document`, `config`: what a configuration says, and what is wrong with
  it.
- `state`, `api`: the snapshot, the commands that change it, and how a
  request is answered.
- `control`, `sim`: the control loop and its fail-safe, and a bath and a
  miner to run it against.
- `mujina`: what the miner's tree says, and when the power request is
  written.
- `history`, `screen`, `text`, `image`, `paint`, `display`, `touch`,
  `report`: what the display and the command line show, and what a tap
  means.

Each public function states in its contract what it returns or changes.
What holds across functions stands beside them as proof functions: that a
fault asks for nothing in either mode, that a refused command changes
nothing, that a request is written again after an outage.

`app/` is the program around it: channels, HTTP, I2C, the framebuffer,
and what works in the machine's own floats, which is the logarithm, the
rasterized fonts, the painted shapes, and the plotted sparklines. The
daemon and its client are one program, which goes by the name it is run
under. `tests/` runs the library from outside.
