# curve_fit_nd

Fits cubic bezier curves to N-dimensional polylines: a polygon is reduced to
a chain (open curves) or ring (closed curves) of knots, knots whose removal
keeps the fit within an error threshold are taken out, sharp turns may be
collapsed into corners, and the remaining knots are re-fitted.

## Layout

- `src/` — the verified library (Verus).
  - `span.rs`: walking index ranges of a cyclic point array.
  - `min_heap.rs`: an indexed binary min-heap keyed by `(key, id)`.
  - `knots.rs`: the knot list; its invariant keeps the active knots linked in
    index order whatever is removed, moved or brought back as a corner.
  - `refine.rs`: the removal and corner passes, driven by the heap, proved to
    keep the list consistent for any answers of the geometry they consult;
    each returns the removals or collapses it made, which the application
    applies to the handles.  The removal pass also records, as ghost state,
    the list and queue of each removal, showing it took the cheapest knot.
    `RefitQueue` holds the refit pass's targets and moves only knots whose
    target still lies between their neighbours.
  - `api.rs`: calculation flags, status codes, tracing modes.
- `app/` — the floating point geometry (vector math, single segment fitting,
  split point search, the re-fit pass whose progress depends on float errors)
  and the C entry points.
- `tests/` — tests of the library.
