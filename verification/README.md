# rosu_mania

osu!mania difficulty and performance for JavaScript, with a verified core.

- `src/` is the library, verified with Verus. A double is carried as its bits
  (`binary64`, `conversion`); the library orders, counts, converts and caches doubles, plans
  the curves of a map and takes the decisions of every search, and states what it does over
  exact integers. It does no arithmetic on doubles.
- `app/` holds the formulas on doubles and the bindings to JavaScript. The classes that
  JavaScript sees are compiled for `wasm32` only.
- `tests/` runs the library, with rosu-pp and rosu-mods linked.

| module | what it is about |
|---|---|
| `binary64`, `conversion` | doubles as bits: order, classes, conversions to integers |
| `order`, `ranking` | stable sorting, percentiles, moving averages |
| `timeline`, `interpolate` | corners of curves, searches among them, interpolation |
| `objects`, `notes`, `segments`, `strain`, `usage`, `variety`, `crossing`, `plan` | the structure of a map |
| `slides` | how long sliders can last for a conversion to mania |
| `mirror` | what a map and its mirror image have in common |
| `calculation` | the result of a difficulty calculation |
| `holds`, `windows`, `surface`, `search` | the judgement model and its inversion |
| `codec`, `input_state`, `attributes` | difficulty attributes and their cached form |
| `score`, `args`, `mods`, `beatmap` | scores, arguments, mods and maps |
