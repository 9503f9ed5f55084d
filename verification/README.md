# Infostop

Infostop finds **stops** in location **trajectories**: it groups consecutive
points that stay near one place into stays, connects stay medians that lie
near each other, and clusters the resulting network into stop locations with
a two-level Infomap search. Every input point gets a label: a stop id `>= 0`,
or `-1` (`NON_STOP`) when it belongs to no stop.

## Layout

- `src/` — the library, proved with Verus. It holds the discrete core of the
  pipeline:
  - `types`: labels, `NON_STOP`, `MetricKind`, `Error` and its messages;
  - `rng`: the xorshift64 generator that orders the community search
    (draws, Fisher–Yates shuffle);
  - `partition`: fresh module ids, dense relabeling, candidate modules of a
    node;
  - `stay`: grouping of points from join decisions and labeling of accepted
    stays;
  - `unique`: exact unique-ing of stay positions with inverse index and
    counts;
  - `neighbors`: sorted, symmetric neighbor lists from pair tests;
  - `cluster`: candidate edges and isolated nodes, dense numbering of
    clustered nodes, final stop labels around community detection;
  - `labels`: per-point labels of every trajectory, label buckets;
  - `plot`: map palette and page head.
- `app/` — the floating-point and I/O shell: points and timestamps,
  distances, medians, configuration checks, the map equation, the fitting
  model and map output. It calls the library for every discrete step.
- `tests/` — tests of the library on concrete values.
