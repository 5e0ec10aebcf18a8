# incline_watershed

Watershed delineation over HFX drainage fabrics: the logic of a portal that
finds the outlet nearest to a position, collects what drains into it, and reports
the watershed with its channel network.

The logic is a verified library in Verus. Its functions state in `requires` and
`ensures` what they do, and Verus proves it.

## Layout

- `src/` is the library.
  - `scalar`: measured numbers as bit patterns, and their order.
  - `fabric`, `staged`: identities of the fabric, and the values passed between
    the stages of a delineation.
  - `geometry`, `nearest`, `truncate`, `clip`, `outlet`: lines, rings, and where
    the terminal reach ends.
  - `measure`, `network`: lengths and perimeters, and the channel network.
  - `strahler`: stream orders.
  - `text`, `request`: request lines, queries and responses.
  - `delineate`: the course of a delineation, from the search for an outlet to a
    result or a refusal.
  - `geojson`, `report`: what a result shows.
- `tests/` runs the library with the geodesic and overlay crates.
- `app/` is the server: it reads requests, runs the engine and writes replies.

## Numbers

The library never computes with floating-point numbers. It compares them, and
asks its caller for distances, lengths and overlays through functions it is given.
Contracts speak of what those functions may return.
