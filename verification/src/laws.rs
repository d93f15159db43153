//! What the operations of the library are for: what their results must satisfy, in terms of what goes into them.

pub mod arrivals;
pub mod assigning;
pub mod btf;
pub mod children;
pub mod choosing;
pub mod configuration;
pub mod documents;
pub mod elf;
pub mod events;
pub mod foreground;
pub mod paths;
pub mod pipewire;
pub mod processes;
pub mod refresh;
pub mod settings;
pub mod streams;
pub mod texts;
pub mod tracepoint;
pub mod tuning;
pub mod weights;
