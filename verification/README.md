# qor_os

The data structures of a small RISC-V kernel, verified with Verus: its page
and byte allocators, its Sv39 page tables, its filesystems (Minix3, RAM disk,
/proc, /dev) with the device list and the index of paths, its teletype line
discipline and I/O control decisions, and the parsing and load plan of its
ELF loader.

## Layout

- `src/` — the verified library.
  - `bytes.rs` — little-endian reads and writes of byte buffers.
  - `elf.rs` — ELF header parsing, the segments to load and how they are
    loaded into a process (pages, file bytes, stack).
  - `mem/` — page bitmap, bump and page-map allocators, the global page
    allocator, the chunk and byte heap allocators, two page-table layouts
    (`mmu`, `pagetable`) and the kernel's identity map.
  - `fs/` — inode pointers and modes, the Minix3 driver over a block device
    held in memory, the RAM disk filesystems, /proc, /dev (its device
    files), the index of paths, and the teletype line discipline.
- `tests/` — tests of the library on concrete values.
- `app/` — a host program around the library: reads disk images and ELF
  files, prints listings, runs the line discipline over standard input.

## Notes

- The index of paths (`fs/vfs.rs`, `PathIndex`) keeps its two maps, path to
  inode and inode to path, as lists of pairs in which a later pair overrides
  an earlier one; `pairs_map` gives their meaning as maps. A `BTreeMap` keyed
  by strings or by inode pointers was not tried: nothing could be proved of
  its contents for such keys.
- The filesystem drivers answer a request for an inode of another mount
  with `UnmountedDevice`; handing such a request on to the filesystem that
  owns the inode is the virtual filesystem's work, which is not part of the
  library.
