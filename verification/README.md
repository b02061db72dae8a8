# reson

Control logic of a resonator-bank synthesizer, verified with Verus.

- `src/gcd.rs`: Euclid's greatest common divisor.
- `src/chord.rs`: chord-root detection from the held keys, and the rotations
  of a key pattern over a list of values.
- `src/layout.rs`: which resonator slot each (key, harmonic) pair owns.
- `src/tuning.rs`: the tuning schedule (table entry and octave) of a bank.
- `src/voicing.rs`: held keys, pressed slots, resonator decays, sounding
  harmonics and chord root, as a state machine.
- `src/excitation.rs`: the burst counters that excite each slot.
- `src/arith.rs`: a division fact shared by the counters.
- `app/lib.rs`: the `f32` complex arithmetic, the sample loops and the
  `Source` exported to JavaScript through `wasm-bindgen`.
