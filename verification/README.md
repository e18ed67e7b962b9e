# kinemagic

A library for modeling multibody mechanisms and preparing them for solving,
with its logic verified by Verus, and the `km` program around it.

## Layout

- `src/` is the verified library.
  - `model`: bodies, joints, markers and motions, and the checks that make
    a model valid (unique identifiers, joints between existing bodies, no
    self-connecting joint, every body connected to ground).
  - `graph`: reachability over body identifiers and counting of components.
  - `problem`: the breadth-first traversal from ground, the split of the
    joints into a spanning tree and closure joints, the assignment of
    motions to joints, and `prepare`, which does both.
  - `kinematics`: the directed kinematic tree (each joint from its I body to
    its J body).
  - `io::yaml`: the structure of the input document and its conversion into
    a model.
  - `cli`: the command-line grammar of `km`, and the decisions of `km check`
    and `km solve`.
  - `view`: the state machine of the terminal viewer.
- `tests/` holds the tests of the library.
- `app/` is the `km` program: reading files, parsing YAML with serde, the
  floating-point geometry and Newton solver, text output, and the terminal
  viewer's drawing and event loop.

## Commands

```text
km check <INPUT> [--view]
km solve <INPUT> [--progress] [--view[=after|live]]
```

`km check` reports a file valid, or views its reference geometry. `km solve`
writes the solved body poses to stdout, or views the frames after solving or
live.
