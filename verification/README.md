# path_tree

A radix-tree router for URL paths, written in Verus and proved correct
against its specification.

Patterns such as `/users/:id`, `/files/*` or `/:org/:repo/releases/download/:tag/:filename.:ext`
are read into pieces, stored in a radix tree, and paths are matched against
the tree; a match gives the route (its id, value and pattern) and the text
each parameter captured.

## Layout

| Module        | What it holds |
| ------------- | ------------- |
| `parser`      | The pattern grammar as spec functions, and the parser proved to follow it. |
| `node`        | The tree, its model and well-formedness, and insertion of bytes and parameters. |
| `find`        | Matching, specified by `find_at` and proved for `Node::find`. |
| `router`      | `PathTree`: insertion of whole patterns, matching, routes and URLs. |
| `path`        | A matched route: its pattern written back, its parameters by name. |
| `drawing`     | The tree drawn as text. |
| `cloning`     | Copies of trees, patterns and routers. |
| `order`       | The order of literal children (`/` last). |
| `tree_laws`, `height`, `find_laws`, `keep`, `router_laws` | Laws: insertion keeps the tree well formed and routes every id; each piece deepens the tree by at most one level; a literal route, once inserted, is matched by its own path and stays so after every later insertion; literal routes are numbered in the order of insertion and found alike whatever that order; matches only find ids that have routes, and capture ranges within the path. |
| `fresh`       | Insertions add no literal route of their own; in a tree without parameters, matching finds exactly the literal routes. |
| `find_path`   | A match ends at a node below the one it started from, with one captured range per parameter node on the way. |
| `shape`       | The node that holds a route's id lies past as many parameter nodes as the route's pattern has parameters, so a match captures one text per parameter of its route. |
| `pattern_laws` | A parsed pattern, written back out, is the pattern itself (for patterns whose escapes and `?` are plain). |
| `small`, `text`, `bytes` | `smallvec` vectors seen through their contents, UTF-8 conversions, and byte helpers. |

## Checking

`verus` on `src/lib.rs` verifies the library; the tests under `tests/` run it.

## Tests

The tests under `tests/` include the router's scenario tests. Six older
scenarios (`new_tree`, `wildcards`, `catch_all_parameter`,
`static_and_catch_all_parameter`, `root_catch_all_parameter`,
`root_catch_all_parameter_1`) are not among them: they are written in an
earlier pattern syntax (`*name` for a named catch-all, `*` params named by an
empty string), where `/*any` now reads as an unnamed `*` followed by the
literal `any`. Their cases in the current syntax are in `tests/tree.rs`.
