# hzrd

Shared, mutable state by way of hazard pointers, verified with Verus.

The main type is `HzrdCell`, which is like the standard library's `Cell` but can be read while somebody
else writes to it. Whoever reads a cell stores the address of the value in a hazard pointer; whoever
writes to it swaps the old value out and retires it. A retired value is freed once no hazard pointer
holds its address.

Everything that is shared is in a `Region`: the values, the cells that hold their addresses, and a
domain with the hazard pointers and the retired values. Cells of several types share a region whose
values are one of these types each; see `src/kinds.rs`.

How much garbage it takes for memory to be reclaimed, and whether buffers are kept, is in a `Config`. It
can be set until somebody goes by it. A `GlobalConfig` is one for all the regions of a program that go
by it.

```rust
use hzrd::domains::GlobalDomain;
use hzrd::region::Region;
use hzrd::HzrdCell;

let mut region = Region::new(GlobalDomain::new());
let cell = HzrdCell::new(vec![1, 2, 3], &mut region);

let handle = cell.read(&mut region);
cell.set(&mut region, Vec::new());
assert_eq!(*handle.deref(&region), [1, 2, 3]);
handle.drop(&mut region);
```

## Layout

- `src/heap.rs`: memory, in which objects are found by address, and what a domain needs of it
- `src/linked_list.rs`, `src/stack.rs`, `src/ptr.rs`: what the domains are made of
- `src/hazard.rs`: hazard pointers, retired pointers, reads, and the `Domain` trait
- `src/domains.rs`: the global, the shared and the local domain
- `src/kinds.rs`: cells of several types in one region
- `src/region.rs`: regions, and the states that they go through
- `src/lib.rs`: `HzrdCell` and `HzrdReader`
- `src/value.rs`, `src/cell.rs`, `src/pair.rs`, `src/gc.rs`: values with hazard pointers of their own
- `src/interleaving.rs`: why reads are safe in whatever order the accesses of several parties come
- `src/operations.rs`: the operations are made of such accesses
- `src/schedule.rs`: several parties at work on one region, one access at a time
- `src/pushes.rs`: why overlapping pushes to a stack lose nothing, and iterating ignores them
- `src/laws.rs`: what can be relied on
- `app/`: regions behind a lock, for threads
