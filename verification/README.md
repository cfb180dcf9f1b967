# loopslcr

Sample-exact loop trimming. A rendered loop is cut on an exact bar grid —
every cut point is one rational product and one round-half-up, never a running
sum — framed back into a WAVE file with its `acid` and `smpl` tags, and,
on request, varispeeded onto a tempo at which the loop is a whole number of
samples.

## Layout

- `src/` — the verified library, every function with its contract:
  - `rational`, `arith`: exact fractions over `i128` and the gcd they rest on.
  - `timing`: time signatures, BPM units, tempi, speed ratios, the bar grid and
    the note-value table.
  - `naming`: tempo and bar counts read out of file names.
  - `wav`: the RIFF chunk layer, reading a WAVE file and framing one.
  - `analysis`, `pipeline`: what each render shape implies, and the decisions a
    cut is made of — tempo source, loop length, path, fade, dither, snapping.
  - `ops`: the exact side of the audio operations — dither decisions and its
    noise source, fade lengths, the resampler's configuration, the stepped play
    head of the live preview, the insert's switches.
  - `bridge`: the flat JSON that crosses to the Android side, the key-ordered
    table behind it, the run parameters read out of it, the words its reports
    use, and the word a preview motion travels in.
  - `preset`: the `loopslcr.args` preset grammar.
- `tests/` — the library's tests.
- `app/` — the command line, the Android call surface, and the sample domain:
  decoding and encoding samples, resampling, tape character, effects, the
  preview's playback — all floating point, built on the library's decisions.
