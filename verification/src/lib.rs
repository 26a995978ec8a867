pub mod ata;
pub mod block_allocator;
pub mod bootinfo;
pub mod fat;
pub mod gp_utils;
pub mod idt;
pub mod kernel_loader;
pub mod memory;
pub mod pic;
pub mod platform;
pub mod port;
pub mod text_buffer;
pub mod vga_text;
