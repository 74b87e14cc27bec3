//! Verified core of the Summit Surveyor ski-resort game and of its
//! `sukakpak` rendering library: vertex layouts, reference counting and
//! deferred freeing of render resources, the bookkeeping of meshes and
//! textures, memory-type selection, the path-finding graph with Dijkstra's
//! algorithm, the skier decision tree, and the small state machines that
//! drive lift building and the GUI.
pub mod vertex;
pub mod ref_counter;
mod pqueue;
pub mod graph;
mod keys;
pub mod terrain;
pub mod lift;
pub mod model;
pub mod decision_tree;
pub mod freelist;
pub mod memory;
pub mod events;
pub mod gui;
pub mod semaphores;
mod arena;
pub mod resources;
pub mod shaders;
pub mod render;
pub mod webgl;
pub mod text;
