# autoeq

Headphone equalisation: measurement files in, parametric and graphic
equaliser settings out.

- `src/` is the library, written and proved with Verus: reading measurement
  files (AutoEq, Room EQ Wizard, Crinacle and generic CSV), writing CSV,
  choosing equaliser configurations, the order in which the optimiser
  initialises its filters, its pseudo-random state, fast FFT lengths, the
  command line and the text of results and errors.
- `app/` is the program around it: the command line, the HTTP server, the C and
  WebAssembly interfaces, and the signal processing and optimisation, which
  compute on floating-point numbers.
- `tests/` runs the library on concrete inputs.
