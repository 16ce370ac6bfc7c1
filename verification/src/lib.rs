//! A recursive Monte-Carlo path tracer over exact fixed-point arithmetic.
//!
//! Every geometric quantity is a real number held in micro-units: the
//! integer `n` stands for the real `n / 1_000_000`.  All arithmetic is
//! exact integer arithmetic with truncating rescaling, so every function
//! of the core carries a contract that pins its result down exactly.

pub mod fixed;
pub mod rtweekend;
pub mod vec3;
pub mod ray;
pub mod hittable;
pub mod material;
pub mod sphere;
pub mod hittable_list;
pub mod color;
pub mod camera;

pub use fixed::SCALE;
