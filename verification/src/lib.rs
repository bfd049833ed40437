//! MachaOS kernel core: the data structures, parsers, protocol state
//! machines and rules of a small x86_64 operating system, with the
//! behaviour of its functions stated as contracts and proved.
//!
//! Nothing in this crate touches a port, a device register or raw memory:
//! the functions take what the hardware said as plain values and return
//! what should be done as plain values.

pub mod abi_laws;
pub mod acpi;
pub mod address_space;
pub mod ahci;
pub mod allocator;
pub mod ata;
pub mod boot;
pub mod bytes;
pub mod calculator;
pub mod clipboard;
pub mod console;
pub mod cpuid;
pub mod crashlog;
pub mod deflate;
pub mod deflate_laws;
pub mod desktop;
pub mod disk;
pub mod e1000;
pub mod e1000_ring;
pub mod elf;
pub mod explorer_model;
pub mod explorer_names;
pub mod explorer_view;
pub mod fat;
pub mod fat_laws;
pub mod fat_moves;
pub mod fat_room;
pub mod fat_store;
pub mod fatname;
pub mod fb;
pub mod file_explorer;
pub mod font;
pub mod fork;
pub mod gdt;
pub mod gfx;
pub mod gfx_laws;
pub mod idt;
pub mod image_viewer;
pub mod ime;
pub mod ime_laws;
pub mod inet;
pub mod inet_laws;
pub mod interrupts;
pub mod io;
pub mod keyboard;
pub mod linux_abi;
pub mod load;
pub mod mouse;
pub mod multiboot;
pub mod net;
pub mod net_laws;
pub mod paging;
pub mod paint;
pub mod pci;
pub mod pic;
pub mod pipe;
pub mod pit;
pub mod pmm;
pub mod png;
pub mod png_laws;
pub mod port;
pub mod power;
pub mod process;
pub mod process_laws;
pub mod queue;
pub mod rtc;
pub mod scene;
pub mod serial;
pub mod session;
pub mod settings;
pub mod settings_app;
pub mod spawn;
pub mod stack_laws;
pub mod text;
