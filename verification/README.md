# freeport_core

The whole-number core of a procedural planet's towns and roads, with its
behaviour stated as contracts and proved by Verus.

- `src/` is the verified library: the lattice hash; building kinds and the
  words of a building recipe; the marching cubes tables, generated by rule;
  the cube sphere's quadtree and the leaves a split rule selects; a town's
  street plan, its frontage, its lots and the kinds built on them; the
  street graph of a town and the circuits round its blocks; a town plan's
  rim, hull, box counts and pieces; the grading masks; the keys of the road
  grid, the stretches a road's tarmac is cut into, the trunks roads share,
  the way back to a town, and the road network as a graph with its steps,
  owners, neighbours and legs; and the store of what was built on each tile.
- `app/` is ordinary Rust around it: the parts that measure in metres or
  work in floating point and can be built here (noise, the marching mesh,
  the sphere's geometry, A* over the road graph, the trunk profiles, recipe
  reading and brushes, circuits and agents), handing the library whole
  numbers and taking whole numbers back. What stands on a planet's density
  field or on a building model (terrain, road routing over the ground,
  grading, meshes of roads and buildings) is not here.
- `tests/` runs the library on concrete values.
