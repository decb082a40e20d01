pub mod console;
pub mod error;
pub mod instance;
pub mod ipc;
pub mod state;
pub mod text;
