# blocked-vec

A blocked vector is used like a file, but is held purely in memory. It has a cursor that can be
moved, also behind the end, and supports reading and writing at the cursor and at given positions,
with one buffer or with a slice of them, as well as `append`, `truncate`, `extend` and `resize`.

A vector is made of blocks, and a block of an array of continuous memory pages, whose size is that of
the machine's pages or of a given layout (`new_paged`, `with_len_paged`). The memory of a block is as
large as whole pages of the layout; it is not placed by the alignment of the layout.

What is stored beyond the last block makes up a new block. The blocks before it keep their bytes and
their bounds, and the last one keeps its bytes as the first ones of what it becomes: the law
`append_fills_blocks` says so. No contract speaks of addresses. That a byte stays where it is in
memory can be read off the code: the memory of a block is allocated at its full size when the block is
made, and is never resized.

## Layout

- `src/model.rs` is the mathematical value that a vector stands for: its bytes, the extents of its
  blocks and the position of its cursor. What each operation does is stated there.
- `src/imp.rs` is the vector itself. Each operation is proved to do to the vector what the model
  says.
- `src/block.rs`, `src/seeker.rs`, `src/iter.rs`, `src/io.rs` and `src/layout.rs` are the parts it is
  made of: blocks, the cursor, iterators, buffers, and the layout of pages.
- `src/page.rs` asks for the page size of the machine. The call is trusted, and nothing is claimed of
  the answer.
- `src/laws.rs` states and proves what holds of vectors as a whole: that what was written is what is
  read, for example.
- `app/` gives vectors the traits of `std::io` and of iterators.
