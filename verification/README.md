# MachaOS

The logic of a small x86_64 operating system, verified with Verus: what the
functions of the library do is stated in contracts and proved.

- `src/` is the library. It holds no hardware access: where a device has to be
  touched, a function says which registers to write or which value it needs
  next, and takes the answer back.
  - boot and processor: `boot`, `multiboot`, `cpuid`, `gdt`, `idt`, `pic`,
    `pit`, `serial`, `port`, `pci`, `acpi`, `power`, `interrupts`
  - memory: `pmm`, `paging`, `address_space`, `allocator`
  - processes: `process`, `spawn`, `load`, `fork`, `elf`, `linux_abi`, `pipe`
  - disks and files: `ata`, `ahci`, `disk`, `fatname`, `fat` with the
    lemmas and laws in `fat_store`, `fat_laws`, `fat_room` and `fat_moves`,
    `crashlog`, `session`, `settings`
  - network: `e1000`, `e1000_ring`, `net`, `inet`
  - input and text: `keyboard`, `mouse`, `queue`, `ime`, `clipboard`, `text`,
    `bytes`, `io`, `rtc`
  - graphics and apps: `font`, `gfx`, `scene`, `fb`, `console`, `png`,
    `deflate`, `desktop`, `calculator`, `image_viewer`, `paint`,
    `settings_app`, and the file explorer in `explorer_names`,
    `explorer_model`, `explorer_view` and `file_explorer`
- `tests/` runs the library on concrete inputs.
- `app/` is the kernel around it: entry, interrupts, devices, the main loop and
  the applications it shows (the function keys choose one). It starts no
  programs.
- `extras/boot.s` is the assembly that calls into `app/`.

Public proof functions named `law_…` state what holds across functions: that
what was written to a file is read back, that allocations do not overlap, that
a signal handler's return undoes its delivery, and so on.
