//! Wavelet scattering for spectrum analysis.
//!
//! A scattering transform is a cascade of wavelet filter banks with a modulus
//! taken between each stage and a lowpass average at the end. The first order
//! is a constant-Q spectrum, which is familiar. The second order is the part
//! that earns its keep on radio signals: it reports, for each carrier band, the
//! rate at which that band's envelope fluctuates. Read as an image it is a
//! modulation spectrum, which fingerprints a signal (pilot tones, symbol rates,
//! pulse repetition frequencies, mains-synchronous interference) without
//! demodulating anything.
//!
//! # Scope, honestly stated
//!
//! This is not a replacement for an FFT-based power spectral density estimate.
//! Constant-Q means the resolution bandwidth grows with the carrier offset, so
//! two tones 10 kHz apart at a 1 MHz offset will not separate at `Q = 8`. Use
//! Welch for resolving narrowband tones and calibrated power; use this for
//! structure, modulation and transients. A spectrum analyser built on this
//! crate should show both.
//!
//! # Block length is the binding constraint
//!
//! A filter must be at most a quarter as long as the block, so that something
//! survives trimming the contaminated edges. Where a constant-Q filter would be
//! longer, the bank keeps the narrowest filter that fits and steps down
//! linearly instead; below one bandwidth of that filter there is nothing left
//! to build. That is a real constraint on any live display, not a tuning
//! detail: ask [`Config::block_len_for`] rather than guessing, and read
//! [`Scattering::coverage`] to find out what you actually got. An empty region
//! of the display means "not measured", never "quiet".
//!
//! # What computes, and in what
//!
//! The crate holds the rules of the transform and leaves two things to its
//! user. Values belong to an [`Arithmetic`](arithmetic::Arithmetic), most often
//! that of the machine, and transforms are done by an [`Engine`](fft::Engine),
//! most often an FFT library. Contracts say what is computed from what, in
//! which order, for any arithmetic and any engine. What follows from them is
//! stated
//!
//! - in [`laws`] of the rules alone, in [`runs`] of two runs side by side, in
//!   [`gain`] and [`shift`] of blocks scaled and shifted, in [`averaging`] of sums;
//! - in [`exact`] of tones, in [`modulation`] of amplitude-modulated carriers, which
//!   rests on [`phasors`], and in [`leakage`] of envelopes, up to what else the
//!   filters let through;
//! - in [`responses`] of what filters pass, in [`banks`] of where they lie, in
//!   [`tiling`] of neighbouring ones, in [`resolution`] of how fine they are;
//! - in [`grids`] of the grids an analyser lays out, in [`subband`] of the sub-band
//!   shortcut, in [`reals`], [`sizing`] and [`lengths`] of how long edges and blocks
//!   are;
//! - in [`pairs`] of which rates are read in which bands, in [`mirror`] of blocks
//!   conjugated, in [`marker`] and [`depth`] of what is read off a result;
//! - in [`distance`] of how far results are apart, in [`signals`] of what is
//!   synthesised, in [`grid`] of quantisation and in [`units`] of what readouts are
//!   measured in.

pub mod arithmetic;
pub mod averaging;
pub mod banks;
pub mod complex;
pub mod coverage;
pub mod depth;
pub mod distance;
pub mod exact;
pub mod fft;
pub mod filterbank;
pub mod gain;
pub mod grid;
pub mod grids;
pub mod laws;
pub mod leakage;
pub mod lengths;
pub mod marker;
pub mod mirror;
pub mod modulation;
pub mod pairs;
pub mod phasors;
pub mod planes;
pub mod powers;
pub mod reals;
pub mod resolution;
pub mod responses;
pub mod runs;
pub mod shift;
pub mod signals;
pub mod sizing;
pub mod subband;
pub mod synth;
pub mod tiling;
pub mod transform;
pub mod units;

pub use complex::Complex;
pub use filterbank::{min_xi_for_length, BankSpec, FilterBank, Wavelet};
pub use transform::{Config, ConfigError, Coverage, Geometry, Scattergram, Scattering};
