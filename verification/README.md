# empyrean

An n-body gravity simulation built on a Barnes-Hut octree, split in two:

- `src/` is the verified library (Verus). It holds the logic that works on integers and
  indices:
  - `utils`: `partition`, which moves the items on which a predicate holds before the others,
    proved to permute the slice and to split it where the predicate's answers change;
  - `octree`: the octree's shape, generic over the payload of a node. `build` splits the bodies
    of every node holding more than `LEAF_CAPACITY` of them into eight children, by a side test
    that the caller supplies, and proves the tree's shape, the sorting of the bodies into the
    children, and a depth-first numbering of the nodes along which `advance` walks the tree;
  - `body`: `BodyId`, an index stored as its complement, and the validation of a body's data;
  - `simulation`: the validation of a simulation's settings and bodies, and the arrangement of
    body data by id;
  - `error`: the validation errors and their accumulator;
  - `bits`: the sign and finiteness tests of IEEE 754 binary64 numbers, on their bit patterns.
  Validation reads each floating-point number as its bit pattern (`f64::to_bits`).
- `app/` is the simulation itself: bodies, octants, masses and centers of mass, gravity,
  integrators and random body generators, all of which compute with floating-point numbers.
  It calls the library for the octree's shape, its walks, partitioning and validation.
- `tests/` exercises the library on concrete values.
