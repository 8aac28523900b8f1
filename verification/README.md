# rust_virtual_memory

A simulator of segmented, paged virtual memory, verified with Verus.

A 32-bit virtual address is split into a segment (bits 18 and up), a page
(bits 9..18) and a word (bits 0..9). Physical memory holds 1024 frames of 512
words; frames 0 and 1 hold the segment table (a size and a page-table location
per segment). A location that is negative names a block of the paging disk:
with demand paging the page table or page is brought into the smallest free
frame when it is first needed.

Layout:

- `src/constants.rs`: sizes, shifts and masks.
- `src/memory.rs`: physical memory, the disk, the free-frame stack.
- `src/translation.rs`: address decomposition, translation with and without
  demand paging, and their specifications.
- `src/text.rs`: words, integer reading and decimal numerals over characters.
- `src/io.rs`: the initialisation-file and address-file formats, the output
  format, and installing an image into memory and disk.
- `src/simulation.rs`: a run: install the image, translate, and the whole
  run from the input texts to the output text.
- `src/properties.rs`: properties proved about translation and demand paging.
- `src/vm_manager.rs`: a flat memory manager.
- `app/main.rs`: the command-line program (file reading and writing).
