# adae

The model of the Adae audio engine, verified with Verus, and the program around it.

- `src/` is the verified library: timestamps and sample conversions, key allocation, the store
  of imported clips, the timeline's tracks and clips, the mixer's tracks, the audio tracks that
  pair them (`EngineCore`), and what the audio thread decides while it plays a track
  (`playback`). `mirror` proves that the audio thread's copy of a track follows the track.
- `app/` is ordinary Rust: decoding files (symphonia), resampling (rubato), the output device
  (cpal), the audio thread's rendering, mixing and level meters in floating point, and saving
  states (serde).
- `tests/` runs the library on concrete values.
