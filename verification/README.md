# Drone Mesh Networking Simulator

Drones explore an unknown area on their own, exchange encrypted map data in a
peer-to-peer mesh (Noise XX, AES-GCM), and coordinate so that they do not explore
the same ground twice.

The logic is a library verified with Verus (`src/`); `app/` is the program around
it: the window, the sockets, the clock and the study of many runs.

| Module | What it holds |
|--------|---------------|
| `geometry` | Points and rectangles in whole units of 2^-32 pixels |
| `environment` | The obstacles of a seed |
| `quadtree`, `quadtree_laws` | The map: scans, differences, merging, lookup |
| `grid` | The rasterized map and its frontiers |
| `pathing` | Steps, their costs, and paths found with A* |
| `autonomy` | Which frontier a drone heads for, and when it plans |
| `drone` | How a drone moves and what stops it |
| `single`, `wire`, `gossip` | Coordinates, messages and maps on the wire |
| `network` | Noise sessions |
| `mesh` | What a drone knows of its peers |
| `simulation`, `view` | Starting positions, reports, progress, and what the window shows |
| `study` | Planning many runs and summing them up |

Every length is a whole number of units of 2^-32 pixels, every time span one of
2^-32 seconds. Single-precision numbers occur on the wire only, as their bits.

## Controls

| Key | Action |
|-----|--------|
| `C` | Cycle camera between drones |
| `Z` | Toggle zoom (see full map) |
| `O` | Toggle map overlay (environment or explored map) |
| `V` | Toggle path and frontier visualization |
| `H` | Toggle heatmap |

`--headless` runs without a window, `--seed` and `--port` choose the map and the
ports, and `--study` runs many simulations and sums them up.
