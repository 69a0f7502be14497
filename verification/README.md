# physalloc

A physical page-frame allocator for a small x86-64 kernel, verified with Verus.

One metadata record per 4 KiB physical page lives in a page array. Two
intrusive free lists are threaded through it by page index: a list of single
4 KiB pages and a list of 2 MiB superpages (512 consecutive pages). A 4 KiB
request is served from the 4 KiB list, splitting the first free superpage when
that list is empty; returning the last small page of a split superpage merges
it back.

The central invariant (`src/shape.rs`) says that the 4 KiB list is a doubly
linked list of exactly the `Free4K` pages, that the 2 MiB list is one of
exactly the free superpages, and that every superpage is wholly free, wholly
handed out, or split into small pages whose first page counts the free ones.
The allocator built at boot satisfies it, and every operation keeps it.

Layout:

- `src/page.rs` — page records, their states and record-update helpers.
- `src/model.rs` — the allocator as a mathematical state and the effect of each
  operation on it.
- `src/allocator.rs` — `PhysicalAllocator` and its operations, each proved to
  have exactly the effect its model step states, to keep the page array well
  linked and to keep the central invariant.
- `src/boot.rs` — boot-time layout: page counting, planning, building and
  installing the page array.
- `src/shape.rs` — the central invariant and how each step keeps it.
- `src/boot_shape.rs` — the allocator built at boot satisfies it.
- `src/laws.rs` — properties across operations: each operation keeps the
  invariant, hands out only free pages and leaves every other handed-out page
  alone, so live allocations never overlap; freeing undoes allocating; the
  last page or superpage returned is the next one handed out.
- `src/trace.rs` — runs of requests: from a valid allocator, whatever
  requests come (each release returning a live allocation), live allocations
  stay handed out and never share a page.
- `src/selftest.rs` — the allocation self checks run after boot.
- `app/main.rs` — the boot driver: memory map input, `GlobalAlloc` glue and
  reporting.
