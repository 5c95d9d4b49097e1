# netcluster

Fully dynamic hierarchical clustering of moving points on a map, and the logic of a server around
it, verified with [Verus](https://github.com/verus-lang/verus).

For every zoom level `z` the index keeps a net of the live points at scale
`r_z = radius / (extent * 2^z)`, with three invariants that every update repairs locally:

- **Nesting**: the centers of a level are centers of every finer one.
- **Separation**: distinct centers of a level are more than `r_z` apart.
- **Covering**: every center that a level does not have is within `r_z` of its parent, with slack.

Updates never rebuild it: inserting, moving, re-filing and removing a point each have an exact
contract, and the guarantees that follow from the invariants (how large a cluster can get, how many
there can be, that counts and centroids are exact) are proved as laws.

## Layout

`src/` is the verified library.

| module | |
|---|---|
| `net`, `forest`, `clusters`, `order`, `sums`, `register`, `calls`, `ratio`, `laws` | the mathematical model: nets, their trees, what a query shows and in which order, and what holds of all of them |
| `cellhash`, `cells`, `layouts`, `grid`, `decimal`, `geometry` | hash table, per-cell aggregates and their two layouts, neighbour grid, decimal order, distances |
| `index` | the index itself: updates, queries, tiles, handles, leaves, and a full audit |
| `schema`, `encoding`, `filters`, `config` | what a collection can filter by, and how values become cells |
| `collection` | devices by name: reports, patches, expiry, searches, listings, snapshots, figures |
| `positions`, `features`, `geojson` | what bodies of reports mean |
| `request`, `answers`, `api`, `admin` | query strings, answers, refusals, declarations, metrics |
| `mvt`, `tiles` | Mapbox vector tiles |
| `snapshot` | the snapshot format and its file names |
| `text`, `json`, `clock` | text, members of a JSON object, the time |

Coordinates are integers: the unit square of the Web Mercator world is `[0, 2^30]` on both axes.
Lengths and ratios of a configuration are in thousandths.

`app/` is the server: HTTP, environment, files, and degrees. `tests/` runs the library on concrete
values.

## What is trusted

A few calls into the standard library and `serde_json` have contracts that are believed rather than
proved. Each is marked `external_body` or `assume_specification`, and says above it what is claimed.
