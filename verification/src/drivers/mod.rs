pub mod console;
pub mod framebuffer;
pub mod keyboard;
pub mod serial;
