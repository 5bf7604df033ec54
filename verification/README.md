# openbse

Verified support library for the OpenBSE building energy simulation engine.

`src/` (verified with Verus):

- `calendar` — day-of-year and hour-of-year arithmetic over a month-length
  table, the simulated run period, and round-trip laws between the two
  conversions.
- `interpolate` — shape of Standard 205 performance-map grids: row-major
  strides, lookup-array size checks, query checks and the flat offsets of
  interpolation-cell corners, with the layout's bound and one-to-one laws.
- `a205` — Standard 205 file format detection, schema checks, the
  `metadata.schema` probe over decoded documents, the RS0001 cooling-map
  axis order and assembly-component selection.
- `airloop` — component kinds, coil roles (by kind, else by name) and HVAC modes.
- `equipment` — air-loop equipment lists: component names, fan and
  heat-recovery names, the hot-water plant loop, each zone's terminal box,
  and the end use an electric output is booked under.
- `plant` — the plant loops' dependency graph and their simulation order
  (Kahn's algorithm, first in first out, loops on dependency cycles last),
  with the laws that an acyclic graph is fully ordered and a self-dependent
  loop never is.
- `components` — component configuration enums and the default submeter.
- `paths` — resolution of file paths named inside an input file.

`app/` holds what works on floating-point values or files: reading and
decoding Standard 205 files, the performance-map interpolators, the HVAC
mode decision and the dual-duct mixing box, all built on the library.

Not carried over: the component physics models (boilers, chillers, coils,
towers, fans, heat exchangers, heat recovery, humidifiers, ducts,
evaporative coolers), the per-system control signal builders and the
command-line driver.  They compute on floating-point values and build on the
engine's core, input, envelope, psychrometrics and weather crates, which are
not part of this repository.
