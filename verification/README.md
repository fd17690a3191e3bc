# hydrology

Procedural hydrology built on distance fields rather than erosion, written
in Verus with its contracts proved.

- `src/events.rs`: keyboard state (held, pressed, released keys) with its
  consistency invariant and the laws of its operations; one input event at a
  time.
- `src/landmass.rs`: continent generation — random scattering, the
  neighbourhood-counting automaton, and the clean-up of straggling land.
- `src/flood.rs`: the breadth-first layers of a flood over a grid and the
  facts about them shared by both distance fields.
- `src/wave.rs`: the wave-by-wave computation of a flood's distances over a
  grid, shared by both distance fields.
- `src/shore.rs`: the distance field from the shore, with the river starting
  points binned 10 by 10.
- `src/rivers.rs`: the distance field from the rivers over land.
- `src/render.rs`: painting a distance field into an RGB buffer.
- `src/random.rs`: the calls into `rand`.
- `app/main.rs`: the window, the event loop, timing, and the river tracing
  and bending, which work in floating point.
