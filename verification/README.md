# spikefit

Peak detection on sampled signals, with its rules proved in Verus.

## Layout

- `src/` — the verified library. Signals are slices of `i64` samples.
  - `searcher.rs`: local maxima, the threshold rule for integer signals and
    the peak-finding pipeline (height → threshold → distance → prominence →
    width).
  - `distance.rs`: the distance filter (peaks decided from the highest down,
    each kept unless a kept one lies within the distance).
  - `prominence.rs`: the bases of peaks (on each side the lowest point before
    a higher sample or the edge), their prominences and the prominence mask
    of integer signals.
  - `widths.rs`: where the flanks of a peak cross a level.
  - `options.rs`: the width-measurement builder, the choice of peaks to
    measure (every local maximum when none are given) and the result type of
    widths.
  - `laws.rs`: properties of the library stated over several calls or over
    all inputs, with their proofs.
- `app/` — the floating-point interface (`f32`/`f64` signals). Samples reach
  the library as order-preserving `i64` codes; differences of samples,
  width levels and interpolation are computed there in floating point.
- `tests/` — tests of the library on integer signals and, through order
  codes, on floating-point signals.
