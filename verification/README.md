# gre

Drawing helpers for pen-plotter art, as a verified Verus library.

- `src/path.rs`: pen paths (move/line commands) along routes, with the pen
  lifted over the segments a predicate refuses.
- `src/sampling.rs`: sampling of the cells of a square grid that a predicate
  keeps, shuffled with `rand`.
- `src/grouping.rs`: grouping of candidates by proximity.
- `src/spiral.rs`: spiral ordering of candidates by caller-computed keys.
- `src/tour.rs`: reordering of candidates along a tour.
- `src/document.rs`: Inkscape layers and A4 documents built with `svg`.

`app/` holds the floating-point side (colour formulas, geometry on `geo`
polygons, Voronoi cells, travelling-salesman tours, images) and converts
between `f64` points and the library's plain values.
