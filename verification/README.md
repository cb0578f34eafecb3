# many_cord_pass

Drives an Elgato Stream Deck (or a simulated deck in a window) from a YAML configuration of
buttons and pages. Each button shows an image, another one while it is held down, and
triggers actions when it is released: clearing the keys to a colour, stopping the program,
an HTTP GET, switching an OBS scene, or sending an OSC message. Actions may name
environment variables as `${env:NAME}`.

Layout:

- `src/` is the library, verified with Verus: the action language (`action`), the
  configuration and its expansion of environment references (`config`), buttons and
  pages, the Stream Deck's state and the messages to and from the task that talks to the
  device (`deck_streamdeck`), the simulated deck, and the program's per-frame decisions
  (`many_cord_pass`). `trusted` holds the calls into `regex`, `urlencoding`, `rosc` and
  `std::sync::mpsc`, with the contracts that Verus takes on trust.
- Every deck keeps, in ghost state, the requests it was given with its answers. The contract
  of a frame (`ManyCordPass::update`) is stated over those logs: given what the decks answer,
  it fixes which requests each deck gets, in which order, and everything that follows.
- `app/` is the program around it: command line, reading the file, USB enumeration, the
  device task, the OBS, HTTP and OSC calls, and the frame loop.
- `tests/` runs the library on concrete values.
