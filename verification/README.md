# steam_wrapper

A mouse input remapper driven by JSON5 profiles. The verified library (`src/`)
holds the profile model, output-binding resolution, the mapping engine and the
parsing and focus decisions; `app/` reads the profile and the command line,
talks to evdev/uinput, D-Bus and `xprop`, and feeds events to the engine.

- `src/engine.rs`: the engine, a state machine from input events to key actions.
- `src/output.rs`: default and rebound output bindings resolved to key codes.
- `src/profile.rs`, `src/mappings.rs`, `src/input.rs`: profile types, mapping tables, watchers.
- `src/codes.rs`, `src/flat.rs`: the calls into evdev and indexmap.
- `src/text.rs`, `src/device.rs`, `src/args.rs`, `src/wrapper.rs`: parsing and decisions.
