pub mod text;
pub mod snapshot;
pub mod cli;
pub mod paths;
pub mod processes;
pub mod assoc;
pub mod rank;
pub mod group;
pub mod diff;
pub mod doctor;
pub mod disk;
