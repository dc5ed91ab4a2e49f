pub mod controls;
pub mod recording;
pub mod rotation_file;
pub mod segments;
