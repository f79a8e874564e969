//! Pixel-assignment solvers: rearrange the pixels of a source picture so that
//! it resembles a target picture.

pub mod auction;
pub mod candidates;
pub mod catalog;
pub mod cost;
pub mod drawing;
pub mod float;
pub mod genetic;
pub mod images;
pub mod job;
pub mod jonker_volgenant;
pub mod local_swap;
pub mod market;
pub mod modes;
pub mod morph;
pub mod multiscale;
pub mod patchmatch;
pub mod perm;
pub mod pipeline;
pub mod preset;
pub mod process;
pub mod progress;
pub mod pyramid;
pub mod recorder;
pub mod render;
pub mod rng;
pub mod settings;
pub mod single;
pub mod sinkhorn;
pub mod slices;
pub mod text;
pub mod web;
