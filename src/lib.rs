//! Runtime core of a real-time 3D renderer: a hierarchical transform graph,
//! a per-frame instance-data arena and the assembly of draw instructions.
pub mod assets;
pub mod commands;
pub mod freecam;
pub mod instance_buffer;
pub mod renderer;
pub mod scene;
pub mod slots;
pub mod transform;
pub mod world;
