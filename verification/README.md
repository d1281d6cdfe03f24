# floorplan

Floor plan design with a differentiable Voronoi diagram. Each site of the diagram
belongs to a room (or to none, `usize::MAX`); the cells of the sites of a room make up
the room.

- `src/` is the verified library: the combinatorics of the diagram and the rooms.
  - `voronoi2.rs`: `VoronoiInfo`, the connectivity of the cells, and its well-formedness.
  - `lib.rs`: the walls between rooms, the sites held fixed by the Lloyd relaxation, the
    site-to-room incidence used to sum room areas, the removal of sites too close to
    another site of their room, and the polygons and edges drawn for each cell.
  - `loss_topo.rs`: the grouping of the sites into the connected pieces of their rooms,
    the lists of sites and groups per room, and the attractions and edges that the
    topology losses pull on.
  - `elem2group.rs`: the call into `del_msh_core` that labels the connected pieces.
  - `sorted.rs`, `ordered.rs`: facts about sorted sequences and `BTreeSet<usize>`.
- `app/` holds what works on floating-point tensors and images: drawing into GIF and
  SVG canvases, the losses built with candle, and the optimization loop.

Cargo.toml pins `del-geo-core`, `del-geo-nalgebra` and `half` without calling them: newer
releases of these no longer build with del-msh-core 0.1.34 and candle-core 0.6.0.
