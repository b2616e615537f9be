use vstd::prelude::*;

verus! {

/// A value type with a smallest discrete step to the value that comes
/// immediately after it.
///
/// The step may be constant (the integers step by one) or may depend on the
/// value itself (a Fibonacci-like type steps by a different amount at each
/// position). Asking for it is pure: it neither fails nor changes the value.
pub trait AtomicStep: Ord + Eq + Sized {
    /// The step of this value as contracts see it. A type that does not
    /// state it here leaves it unspecified, and nothing is proved of it.
    open spec fn spec_atomic_step(&self) -> Self {
        arbitrary()
    }

    /// The smallest step from this value to the one immediately after it.
    fn atomic_step(&self) -> (r: Self)
        ensures
            r == self.spec_atomic_step(),
    ;
}

impl AtomicStep for usize {
    open spec fn spec_atomic_step(&self) -> usize {
        1
    }

    fn atomic_step(&self) -> (r: usize) {
        1
    }
}

impl AtomicStep for u8 {
    open spec fn spec_atomic_step(&self) -> u8 {
        1
    }

    fn atomic_step(&self) -> (r: u8) {
        1
    }
}

impl AtomicStep for u32 {
    open spec fn spec_atomic_step(&self) -> u32 {
        1
    }

    fn atomic_step(&self) -> (r: u32) {
        1
    }
}

impl AtomicStep for u64 {
    open spec fn spec_atomic_step(&self) -> u64 {
        1
    }

    fn atomic_step(&self) -> (r: u64) {
        1
    }
}

impl AtomicStep for u128 {
    open spec fn spec_atomic_step(&self) -> u128 {
        1
    }

    fn atomic_step(&self) -> (r: u128) {
        1
    }
}

impl AtomicStep for isize {
    open spec fn spec_atomic_step(&self) -> isize {
        1
    }

    fn atomic_step(&self) -> (r: isize) {
        1
    }
}

impl AtomicStep for i8 {
    open spec fn spec_atomic_step(&self) -> i8 {
        1
    }

    fn atomic_step(&self) -> (r: i8) {
        1
    }
}

impl AtomicStep for i32 {
    open spec fn spec_atomic_step(&self) -> i32 {
        1
    }

    fn atomic_step(&self) -> (r: i32) {
        1
    }
}

impl AtomicStep for i64 {
    open spec fn spec_atomic_step(&self) -> i64 {
        1
    }

    fn atomic_step(&self) -> (r: i64) {
        1
    }
}

impl AtomicStep for i128 {
    open spec fn spec_atomic_step(&self) -> i128 {
        1
    }

    fn atomic_step(&self) -> (r: i128) {
        1
    }
}

} // verus!
