# harmonicon

The rules behind Harmonicon's harmonica jam and lesson screens, written in
Verus and proved against their contracts.

## Layout

- `src/` — the verified library.
  - `meter`, `meter_map`: time signatures and the map from ticks to bars
    and beats across meter changes.
  - `harmony`, `phrase`: pitch classes, how a note fits a chord and scale,
    and the seeded call-phrase generator of call-and-response.
  - `call_response`, `band`, `groove`, `session`, `stems`: the jam's
    call/response cycle, the listening band, the backing arrangement per
    genre, energy and chorus, the chorus-aligned ending, and stem mutes.
  - `hole_map`, `microphone`, `drawer`, `lesson_reader`, `lesson_widgets`,
    `localization`, `locale`, `text`: the smaller rules of the lesson,
    options and jam pages, and language negotiation.
- `tests/` — scenarios on concrete values, run against the compiled library.
- `app/` — the floating-point gain and clock shaping around the library,
  which Verus does not check.

Each module states its laws as public proof functions named `law_…`.
