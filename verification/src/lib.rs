//! Modulo scheduling of the operations of an e-graph by integer linear programming.
//!
//! A dependence graph (`dep`) unfolds into an e-graph (`egraph`, `arrange`), whose classes are
//! read off as plain values (`graph`). An integer linear program (`model`, `assemble`) describes
//! the modulo schedules of these classes (`schedule`); it is handed to a solver (`solver`), and the
//! answer is read back as a schedule (`extract`). A schedule can be drawn as a software pipeline
//! (`collect`, `lanes`, `picture`, `render`), and problems can be read from a text (`swp`, `plan`).

pub mod arrange;
pub mod assemble;
pub mod bounds;
pub mod boxes;
pub mod canvas;
pub mod capacity;
pub mod collect;
pub mod compare;
pub mod demands;
pub mod dep;
pub mod egraph;
pub mod entries;
pub mod extract;
pub mod faithful;
pub mod graph;
pub mod handed;
pub mod lanes;
pub mod language;
pub mod lasting;
pub mod model;
pub mod number;
pub mod operations;
pub mod order;
pub mod packing;
pub mod palette;
pub mod phases;
pub mod picture;
pub mod plain;
pub mod plan;
pub mod program;
pub mod render;
pub mod schedule;
pub mod shortest;
pub mod solver;
pub mod spelling;
pub mod swp;
pub mod text;
pub mod tile;
pub mod words;
