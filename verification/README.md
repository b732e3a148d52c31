# scattering

The core of a spectrum analyser for cheap SDR hardware, built around wavelet
scattering, written and proved in Verus.

## What it does

Two orders of scattering on complex baseband (I/Q) or real input:

```
S0        = |x| * phi
S1[l1]    = | x * psi_l1 | * phi
S2[l1,l2] = | |x * psi_l1| * psi_l2 | * phi
```

`S1` over `l1` is a constant-Q spectrum. In `S2` the inner modulus strips the
carrier and leaves the envelope of band `l1`, and the second wavelet asks how
fast that envelope fluctuates. So `l2` is a modulation rate in Hz, and `S2` read
as an image fingerprints a signal (pilot tones, symbol rates, pulse repetition
frequencies, mains-synchronous interference) without demodulating anything.

Report `2 * S2 / S1`, the modulation depth, rather than raw `S2`. It is
dimensionless and independent of receiver gain, so it means something without
any amplitude calibration.

It is not a replacement for a Welch periodogram. Use an FFT for resolving
narrowband tones and for calibrated power; use this for structure, modulation
and transients.

## Block length is the binding constraint

A filter may be a quarter as long as the block. Where constant-Q filters would
be longer, the bank keeps the narrowest width that fits and steps down linearly,
to one bandwidth above zero. Ask `Config::block_len_for` for a block length
rather than guessing, and read `Scattering::coverage` to find out what you got.

## Layout

- `src/` is the library. Every item in it is proved, with nothing taken on trust
  but what an arithmetic and an engine from outside the crate do.
  - `arithmetic` what values are computed in, `complex` pairs of them.
  - `fft` cached plans, normalised inverses and frequency-domain decimation.
  - `filterbank` Morlet filter banks and how they are planned.
  - `synth` signals with known answers.
  - `transform` configuration, the transform, and readings off its result;
    `coverage` what an analyser covers, in words.
  - `laws` what holds in any arithmetic: grids, bands, plans, block lengths.
  - `runs` two runs side by side, `gain` and `shift` blocks scaled and shifted.
  - `exact` what tones read, `modulation` what amplitude-modulated carriers read,
    and `leakage` what any envelope reads, up to what else the filters let
    through.
  - `tiling` where neighbouring filters cross, `subband` what the sub-band shortcut
    costs, `reals` and `sizing` how long edges and blocks are.
  - `depth` what a depth is a ratio of, `distance` how far results are apart, with
    `planes` on distances in the plane; `grid` what quantisation does.
  - `units` the unit each readout comes in.
- `tests/` runs it on double precision with `rustfft`, against signals whose
  coefficients can be worked out on paper.
- `app/` puts it on double precision, `rustfft` and the `rayon` thread pool.

The library is generic over an arithmetic and a transform engine. Contracts say
which operations are done on what, in which order; they hold for double
precision as for any other arithmetic, down to its rounding. Laws that need
more, such as that a tone reads its own amplitude, say what they need.
