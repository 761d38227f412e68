pub mod playback;
pub mod sorting;
pub mod notes;
pub mod smf;
pub mod text;
pub mod clip;
pub mod message;
pub mod recording;
pub mod shell;
pub mod mixer;
pub mod project;
pub mod files;
pub mod render;
pub mod readback;
