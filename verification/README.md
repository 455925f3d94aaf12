# gruid

A grid-based user interface library for roguelike games and terminal
applications, verified with Verus, and Shamogu, a small roguelike game built
on it.

Layout:

- `src/` — the library, every function with its contract:
  - `geom`, `cell`, `style`, `grid`, `messages`, `recording`, `app`, `tiles`:
    points and ranges, styled cells, grids with shared-buffer slices, input
    messages, the frame codec, the cancellation context and the application
    loop's decisions (when an effect stops it, when to draw and flush), the
    tile interface;
  - `term`: the decisions of the terminal back-end (key, mouse and style
    translation), apart from its input and output;
  - `paths`: breadth-first, Dijkstra, A* and jump-point search, connected
    components, neighbour enumeration;
  - `rl`: roguelike grids, event queues, vaults, field of vision (rays and
    symmetric shadow casting), cave generation;
  - `ui`: styled text, boxes, labels, text input, pager, menu, replay;
  - `shamogu`: the game — terrain, entities, combat, log, map, level
    generation, game rules and the display model.
- `tests/` — the library's tests.
- `app/` — the terminal program: the application loop, the crossterm
  driver's input and output, and `main`, which reads the vault files
  (`small-vaults.txt` and `big-vaults.txt`, from the directory given as
  argument, `data` by default) and runs the game.

Searches run over a user's `Pather`, whose answers nothing constrains, so
their contracts speak of the answers the search obtained: the neighbour
lists (`is_answer`, through `neighbor_list`) and step costs that the pather
gave. Over those answers, `bfs_map` gives the fewest steps, `dijkstra_map`
the least total cost, `cc_map` the exact flood of its start, `cc_map_all`
labels that match reachability when the lists go both ways, and
`astar_path` returns a walk along the lists or, with `None`, an exhausted
search that no walk it may follow leaves. `jps_path` with cardinal moves
is exhaustive in the same way. For a pather that always answers alike,
these are the usual statements about its graph.
