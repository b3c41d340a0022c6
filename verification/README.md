# mixflow

Virtual audio routing and mixing for Windows (virtual lines such as Game,
Chat and Media routed to one or more output devices, per-app routing,
parametric EQ, ducking, profiles).

- `src/` — the verified library (Verus): the configuration model and every
  rule that edits it (lines, buses, routes, ducking rules, EQ presets,
  profiles, sanitising and start-up reconciliation, virtual-cable claims),
  stream planning for the audio engine, the application list, per-app
  routing decisions, icon encoding and the text rules these rely on. Gains
  and EQ values are carried as `f32` bit patterns.
- `tests/` — tests of the library on concrete values.
- `app/` — the desktop program around it: Tauri commands and persistence,
  the cpal audio engine and DSP (floating point), Windows COM calls.
