//! A fixed-timestep 2D physics micro-simulation: circular bodies fall under
//! gravity inside a circular cage, bounce elastically off the cage wall and
//! off each other, and the population grows stochastically when a body hits
//! the wall.
//!
//! All geometry is carried out over integer coordinates (`i128`), with an
//! integer square root for distances and truncating division where the real
//! arithmetic would divide.  Every contract states the resulting values
//! exactly; the elastic-reflection and penetration-resolution properties are
//! proved as lemmas over the same definitions the executable code meets.

pub mod math;
pub mod rng;
pub mod sim;
pub mod vec2;
