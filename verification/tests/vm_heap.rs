//! The virtual-address heap: first-fit behaviour, alignment,
//! exhaustion, and return to the initial state.

use nil_copy::vm::VM;

#[test]
fn freed_range_is_reused_first_fit() {
    // new(0x1000, 0x1000); a = alloc(0x100, 0x100);
    // b = alloc(0x200, 0x200); free(a, 0x100); c = alloc(0x100, 0x100):
    // first fit hands the freed range out again, c == a.
    let mut vm = VM::new(0x1000, 0x1000);
    let a = vm.allocate(0x100, 0x100).unwrap().address();
    let b = vm.allocate(0x200, 0x200).unwrap().address();
    assert_eq!(a, 0x1000);
    assert_eq!(b, 0x1200);
    vm.free(a, 0x100);
    let c = vm.allocate(0x100, 0x100).unwrap().address();
    assert_eq!(c, a);
}

#[test]
fn alignment_is_respected() {
    let mut vm = VM::new(0x1008, 0xff8);
    let a = vm.allocate(0x10, 0x100).unwrap().address();
    assert_eq!(a % 0x100, 0);
    assert_eq!(a, 0x1100);
}

#[test]
fn exhaustion_returns_none() {
    let mut vm = VM::new(0x1000, 0x100);
    assert!(vm.allocate(0x101, 1).is_none());
    let a = vm.allocate(0x100, 1).unwrap().address();
    assert_eq!(a, 0x1000);
    assert!(vm.allocate(1, 1).is_none());
    vm.free(a, 0x100);
    assert!(vm.allocate(0x100, 1).is_some());
}

#[test]
fn never_returns_address_zero() {
    let mut vm = VM::new(0, 0x100);
    let a = vm.allocate(0x10, 0x10).unwrap().address();
    assert_ne!(a, 0);
    assert_eq!(a, 0x10);
}

#[test]
fn drained_heap_is_whole_again() {
    // Allocate in pieces, free them in a scrambled order, then the
    // whole range can be taken in one piece: the heap returned to its
    // initial free set.
    let mut vm = VM::new(0x4000, 0x400);
    let a = vm.allocate(0x100, 1).unwrap().address();
    let b = vm.allocate(0x80, 1).unwrap().address();
    let c = vm.allocate(0x280, 1).unwrap().address();
    assert!(vm.allocate(1, 1).is_none());
    vm.free(b, 0x80);
    vm.free(c, 0x280);
    vm.free(a, 0x100);
    let whole = vm.allocate(0x400, 1).unwrap().address();
    assert_eq!(whole, 0x4000);
}

#[test]
fn allocations_never_overlap() {
    let mut vm = VM::new(0x1000, 0x1000);
    let mut ranges: Vec<(u64, u64)> = Vec::new();
    let sizes = [0x40u64, 0x10, 0x200, 0x8, 0x100];
    for (i, s) in sizes.iter().enumerate() {
        let addr = vm.allocate(*s, 8).unwrap().address();
        assert_eq!(addr % 8, 0);
        for (o, os) in &ranges {
            assert!(addr + s <= *o || o + os <= addr, "range {i} overlaps");
        }
        ranges.push((addr, *s));
    }
    // Free the middle one and take it back.
    let (maddr, msize) = ranges[2];
    vm.free(maddr, msize);
    let again = vm.allocate(msize, 8).unwrap().address();
    assert_eq!(again, maddr);
}

#[test]
fn free_coalesces_neighbours() {
    let mut vm = VM::new(0x1000, 0x300);
    let a = vm.allocate(0x100, 1).unwrap().address();
    let b = vm.allocate(0x100, 1).unwrap().address();
    let c = vm.allocate(0x100, 1).unwrap().address();
    vm.free(a, 0x100);
    vm.free(c, 0x100);
    // Freeing b joins all three pieces; a whole-range block fits.
    vm.free(b, 0x100);
    assert_eq!(vm.allocate(0x300, 1).unwrap().address(), 0x1000);
}
