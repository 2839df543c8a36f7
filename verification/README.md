# Trafalgar

A euclidean jam sequencer: four independent euclidean tracks turn a clock into MIDI notes,
mirrored over OSC, to drive your own synths.

- `src/` is the sequencer as a verified Verus library. Every function carries a contract,
  and what holds across functions stands as public proof functions named `law_...`.
- `app/` is the program around it: the CLAP/VST3 plugin and standalone, the window, the
  sockets, the MIDI port and the Link clock.
- `tests/` runs the library on concrete values, and holds its number formats against the
  hardware's.

## The library

| module | what it holds |
| --- | --- |
| `euclid` | euclidean patterns and their rotation |
| `scale`, `chance` | scale degrees as MIDI notes; the hit dice of percussive tracks |
| `single`, `double`, `rounding`, `order` | single and double precision on bit patterns, exact to the last bit, and that they keep order |
| `clock` | tempo and position as steps and release times; which transport is followed |
| `gesture`, `params`, `shared` | recorded loops, track parameters, the state that performers and sequencer share |
| `engine`, `laws` | the sequencer, and what holds of its output and memory |
| `route`, `midi`, `osc` | where output goes: host, MIDI messages, OSC messages; the OSC remote control |
| `editor`, `settings` | undo, buttons, pads, what is drawn; the settings popout |
| `text`, `standalone` | numbers and segments in text; the command line |

Floating-point numbers are held as their bit patterns, so that a step falls on the same
sample and a pad position on the same degree as in hardware arithmetic.

Encoding and decoding OSC is left to [rosc](https://crates.io/crates/rosc). The contracts of
the calls into it are trusted, not proved; they stand in `osc.rs`.
