# corrosium

Verified core of a small x86 boot chain and kernel: a BIOS second stage that
reads a FAT volume over ATA, a UEFI loader that maps an ELF kernel into the
upper half, and a kernel with a text console, an interrupt table and the 8259
interrupt controllers.

`src/` holds the logic, each function with a contract proved by Verus:

- `block_allocator`: the block allocator and its allocation table (first-fit
  runs of blocks, chained release).
- `platform`: addresses, page-table entries and virtual-address indices.
- `fat`: boot sector and directory entry decoding, header checks, root
  directory scans and the cluster reads that load a file.
- `text_buffer`, `vga_text`: the 80x25 text console, modelled as its cells.
- `pic`, `ata`, `port`: the port writes that program the interrupt
  controllers and start disk reads.
- `idt`: interrupt descriptors and their table.
- `kernel_loader`: the ELF load plan (parsing through the `elf` crate).
- `memory`: the page-table walk that maps the kernel's pages, as a step
  function over reads, new tables and entry writes, with a model of the
  tables in which each mapped page walks to its frame.
- `gp_utils`: the modular checksum.

`app/` is the glue that only hardware or firmware can do: port instructions,
VGA memory, disk reads, UEFI file access and page allocation, the heap's global allocator, and the host
checksum tool (`app/main.rs`).
