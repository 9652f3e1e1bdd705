# stm32-mass-storage

A read-only USB mass-storage device that serves a ZX0-compressed FAT16 disk image, with the
tools that build the image and provide the emUSB-Device files. The library in `src/` is
verified with Verus.

- `src/zx0` — the ZX0 decompressor, which needs no more memory than one window.
- `src/image.rs`, `src/store.rs`, `src/pack.rs` — the chunked image: its layout, serving it
  chunk by chunk, and packing it.
- `src/scsi` — what each SCSI command is answered.
- `src/segger` — what the hooks of the emUSB-Device stack decide and compute.
- `src/fat` — the disk image: timestamps, the order of entries, the FAT16 volume, its dot
  entries and the partition table.
- `src/vendor` — the consumed emUSB-Device files, their lock file and their bundle.
- `src/bytes.rs`, `src/order.rs`, `src/text.rs` — byte slices, sorting and text.
- `app/` — the host tool and the firmware around the library.
