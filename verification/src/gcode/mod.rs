pub mod known_object;
pub mod lines;
pub mod object_tracker;
pub mod parser;
pub mod slicers;
