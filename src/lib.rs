//! A simulation of nested grid containers ("autos") that hold items, stand on
//! terrain and carry out discrete actions, one attempt per tick.
pub mod act;
pub mod auto;
pub mod bitfield;
pub mod dir;
pub mod force;
pub mod kind;
pub mod names;
pub mod pattern;
pub mod program;
pub mod route;
pub mod text;
pub mod world;

