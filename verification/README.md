# sme-swp

Modulo scheduling for e-graph extraction, verified with Verus.

A loop body is given as a graph of operations: what each of them occupies, cycle by cycle, and how
many cycles and iterations lie between an operation and those it depends on. The library finds the
shortest initiation interval with which the loop can be software-pipelined on a machine with a
limited number of units of each resource. Where operations can be rewritten into equivalent ones,
the graph is an e-graph, and one operation of each class that is needed is chosen along the way.

## Layout

- `src/` is the library: code with contracts that Verus proves.
  - `tile`, `dep`, `graph`: operations, dependence graphs, and the classes of an e-graph.
  - `language`, `order`, `egraph`, `arrange`, `entries`: operations as a language of `egg`, how they
    are ordered, the e-graph that a dependence graph unfolds into, what its classes are, and which
    entries of the graph they come from.
  - `program`, `model`, `assemble`, `bounds`, `capacity`: integer linear programs, the one whose
    feasible points are the modulo schedules of a graph, and when its numbers fit the machine.
  - `schedule`, `operations`, `compare`: what a modulo schedule is. Every feasible point of the
    program is one, and it is stated exactly which of them are feasible points: a dependence of an
    operation that is not chosen is relaxed by a fixed number of cycles only. The schedules of the
    classes of a dependence graph are those of its operations, and more units or fewer roots keep
    every schedule.
  - `solver`, `extract`: handing the program to `good_lp` and reading its answer.
  - `collect`, `lanes`, `packing`, `palette`, `phases`, `number`, `canvas`, `picture`, `render`:
    drawing a schedule as a software pipeline with `svg`.
  - `text`, `words`, `swp`, `plan`: reading problems, and scheduling them.
- `app/` is the command line program.
- `tests/` runs the library on concrete values.

What is believed without proof are the contracts of the functions marked `external_body` and the
`assume_specification` items: what `egg`, `good_lp` and `svg` do. The solver computes with
floating-point numbers, so nothing is claimed of its answer but that it is the same for the same
program; what an answer means when it is a feasible point is stated in `schedule`.

## Problems

```
R <number of resource kinds> <r0> <r1> ... <r{S-1}>
N <num_nodes>
<name> <cost> <resource_kind>
...
E <num_edges>
<src_idx> <dst_idx> <d> <delta>
...
```

An operation uses one unit of its resource kind in each of `cost` cycles. An edge lets the operation
`dst_idx` start `d` cycles after the operation `src_idx` of `delta` iterations before. Two
operations that need each other in turn:

```
R 2 1 1
N 2
A 2 0
B 3 1
E 2
0 1 2 0
1 0 3 1
```

`sme-swp path/to/your.swp [dot_output_path] [svg_output_path]` prints `RESULT_II=<n>`, the shortest
initiation interval. It writes the e-graph for Graphviz and a diagram of the pipeline where paths are
given; the diagram is also converted to PNG with `rsvg-convert`.
