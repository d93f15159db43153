//! Decisions of a process-priority daemon: which priority a process gets, which
//! cgroups are weighted, and how the kernel and audio events that drive those
//! decisions are decoded.

pub mod arrivals;
pub mod assignment;
pub mod btf;
pub mod bytes;
pub mod cgroup;
pub mod cgroup_weights;
pub mod children;
pub mod config;
pub mod document;
pub mod eevdf;
pub mod elf;
pub mod execsnoop;
pub mod foreground;
pub mod laws;
pub mod number;
pub mod pipewire;
pub mod probe;
pub mod process;
pub mod refresh;
pub mod scheduler;
pub mod service;
pub mod streams;
pub mod text;
pub mod text_map;
pub mod tracepoint;
pub mod weights;
