# sudokoo-linux

A driver for the status panel of the Sudokoo SK700V CPU cooler (USB `381c:0003`), whose
logic is verified with Verus. The panel shows core frequency, load, package power and CPU
temperature; it powers up closed and blanks itself a few seconds after the last frame it
accepted.

The device never acknowledges anything, so a wrong frame looks like silence. What is sent,
when it is sent and what it is computed from is therefore decided by functions with proved
contracts.

## Layout

- `src/` is the verified library. `frame` builds the reports; `device` finds the panel and
  judges writes; `hwmon`, `powercap` and `cpustat` choose and read the sensors that
  `sensors` samples; `floats` rounds values into their fields from their bits; `options`
  reads the command line; `session` decides what a run does next; `console` words what is
  printed; `text`, `numbers`, `order` and `paths` are what these share.
- `app/` is the program: it reads files, writes to the device, catches signals, sleeps and
  computes in floating point, and does what the library decides.
- `tests/` runs the library on concrete values.

The library takes the kernel's directories and files as values: a listing, or the text of a
file that may be missing. Values that the device or the user gives in floating point are
carried as their bits. Proof functions whose names start with `law_` state what holds of the
library as a whole.
