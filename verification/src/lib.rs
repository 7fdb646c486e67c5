pub mod camera;
pub mod fx;
pub mod hittable;
pub mod material;
pub mod ray;
pub mod rng;
pub mod vec3;
