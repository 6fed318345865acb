//! Fixed-width bit fields: small sets of numbered flags held in one machine
//! word.

use vstd::prelude::*;

verus! {

/// Maximum number of flags possible on a `BitField`
pub const MAX_NORMAL_FLAGS: u64 = 64;

/// Maximum number of flags possible on a `LargeBitField`
pub const MAX_LARGE_FLAGS: u128 = 128;

/// Occurs when trying to use a flag that does not fit within a bit field
#[derive(Clone, Copy, Debug, PartialEq, Eq, Structural)]
pub struct FlagTooLarge<N>(pub N, pub N);

/// Common methods for bit field implementations
pub trait BitFieldResolvable<N>: Sized {
    /// Whether a flag number fits in the field at all.
    spec fn flag_fits(flag: N) -> bool;

    /// Whether the field holds the given flag.
    spec fn spec_contains(&self, flag: N) -> bool;

    /// Returns `true` if the bit field contains the provided flag
    fn contains(&self, flag: N) -> (r: Result<bool, FlagTooLarge<N>>)
        ensures
            Self::flag_fits(flag) ==> r == Ok::<bool, FlagTooLarge<N>>(self.spec_contains(flag)),
            !Self::flag_fits(flag) ==> r is Err,
    ;

    /// Inserts the provided flag into the bit field
    fn insert(&mut self, flag: N) -> (r: Result<(), FlagTooLarge<N>>)
        ensures
            Self::flag_fits(flag) ==> {
                &&& r == Ok::<(), FlagTooLarge<N>>(())
                &&& final(self).spec_contains(flag)
                &&& forall|other: N|
                    Self::flag_fits(other) && other != flag ==> final(self).spec_contains(other)
                        == old(self).spec_contains(other)
            },
            !Self::flag_fits(flag) ==> r is Err && *final(self) == *old(self),
    ;

    /// Removes the provided flag from the bit field
    fn remove(&mut self, flag: N) -> (r: Result<(), FlagTooLarge<N>>)
        ensures
            Self::flag_fits(flag) ==> {
                &&& r == Ok::<(), FlagTooLarge<N>>(())
                &&& !final(self).spec_contains(flag)
                &&& forall|other: N|
                    Self::flag_fits(other) && other != flag ==> final(self).spec_contains(other)
                        == old(self).spec_contains(other)
            },
            !Self::flag_fits(flag) ==> r is Err && *final(self) == *old(self),
    ;

    /// Returns `true` if every provided flag is present within the bit field
    fn contains_all(&self, flags: &Vec<N>) -> (r: Result<bool, FlagTooLarge<N>>)
        ensures
            (forall|k: int| 0 <= k < flags@.len() ==> Self::flag_fits(#[trigger] flags@[k]))
                ==> r == Ok::<bool, FlagTooLarge<N>>(
                forall|k: int|
                    0 <= k < flags@.len() ==> self.spec_contains(#[trigger] flags@[k]),
            ),
    ;

    /// Returns `true` if any provided flag is present within the bit field
    fn contains_any(&self, flags: &Vec<N>) -> (r: Result<bool, FlagTooLarge<N>>)
        ensures
            (forall|k: int| 0 <= k < flags@.len() ==> Self::flag_fits(#[trigger] flags@[k]))
                ==> r == Ok::<bool, FlagTooLarge<N>>(
                exists|k: int|
                    0 <= k < flags@.len() && self.spec_contains(#[trigger] flags@[k]),
            ),
    ;
}

/// Bit field that may contain up to 64 flags
#[derive(Clone, Copy, Debug, PartialEq, Eq, Structural)]
pub struct BitField(u64);

impl BitField {
    /// Creates a new bit field
    pub fn new() -> (r: Self)
        ensures
            forall|flag: u64| flag < MAX_NORMAL_FLAGS ==> !r.spec_contains(flag),
    {
        let r = BitField(0);
        proof {
            assert forall|flag: u64| flag < MAX_NORMAL_FLAGS implies !r.spec_contains(flag) by {
                assert(0u64 & (1u64 << flag) == 0u64) by (bit_vector);
            }
        }
        r
    }
}

impl BitFieldResolvable<u64> for BitField {
    open spec fn flag_fits(flag: u64) -> bool {
        flag < MAX_NORMAL_FLAGS
    }

    closed spec fn spec_contains(&self, flag: u64) -> bool {
        self.0 & (1u64 << flag) != 0
    }

    fn contains(&self, flag: u64) -> (r: Result<bool, FlagTooLarge<u64>>) {
        if flag >= MAX_NORMAL_FLAGS {
            Err(FlagTooLarge(MAX_NORMAL_FLAGS, flag))
        } else {
            Ok(self.0 & (1u64 << flag) != 0)
        }
    }

    fn insert(&mut self, flag: u64) -> (r: Result<(), FlagTooLarge<u64>>) {
        if flag >= MAX_NORMAL_FLAGS {
            Err(FlagTooLarge(MAX_NORMAL_FLAGS, flag))
        } else {
            let ghost v = self.0;
            self.0 = self.0 | (1u64 << flag);
            proof {
                assert(flag < 64 ==> (v | (1u64 << flag)) & (1u64 << flag) != 0) by (bit_vector);
                assert forall|other: u64|
                    other < 64 && other != flag implies ((v | (1u64 << flag)) & (1u64 << other)
                    != 0) == (v & (1u64 << other) != 0) by {
                    assert(flag < 64 && other < 64 && other != flag ==> ((v | (1u64 << flag)) & (
                    1u64 << other) != 0) == (v & (1u64 << other) != 0)) by (bit_vector);
                }
            }
            Ok(())
        }
    }

    fn remove(&mut self, flag: u64) -> (r: Result<(), FlagTooLarge<u64>>) {
        if flag >= MAX_NORMAL_FLAGS {
            Err(FlagTooLarge(MAX_NORMAL_FLAGS, flag))
        } else {
            let ghost v = self.0;
            if self.0 & (1u64 << flag) != 0 {
                self.0 = self.0 ^ (1u64 << flag);
                proof {
                    assert(v & (1u64 << flag) != 0 ==> (v ^ (1u64 << flag)) & (1u64 << flag)
                        == 0) by (bit_vector);
                    assert forall|other: u64|
                        other < 64 && other != flag implies ((v ^ (1u64 << flag)) & (1u64
                        << other) != 0) == (v & (1u64 << other) != 0) by {
                        assert(flag < 64 && other < 64 && other != flag ==> ((v ^ (1u64 << flag))
                            & (1u64 << other) != 0) == (v & (1u64 << other) != 0)) by (bit_vector);
                    }
                }
            }
            Ok(())
        }
    }

    fn contains_all(&self, flags: &Vec<u64>) -> (r: Result<bool, FlagTooLarge<u64>>) {
        let n = flags.len();
        let mut i: usize = 0;
        while i < n
            invariant
                n == flags@.len(),
                0 <= i <= n,
                forall|k: int|
                    0 <= k < i ==> Self::flag_fits(#[trigger] flags@[k]) && self.spec_contains(
                        flags@[k],
                    ),
            decreases n - i,
        {
            match self.contains(flags[i]) {
                Ok(true) => {},
                Ok(false) => {
                    assert(!self.spec_contains(flags@[i as int]));
                    return Ok(false);
                },
                Err(e) => {
                    return Err(e);
                },
            }
            i = i + 1;
        }
        Ok(true)
    }

    fn contains_any(&self, flags: &Vec<u64>) -> (r: Result<bool, FlagTooLarge<u64>>) {
        let n = flags.len();
        let mut i: usize = 0;
        while i < n
            invariant
                n == flags@.len(),
                0 <= i <= n,
                forall|k: int|
                    0 <= k < i ==> Self::flag_fits(#[trigger] flags@[k]) && !self.spec_contains(
                        flags@[k],
                    ),
            decreases n - i,
        {
            match self.contains(flags[i]) {
                Ok(true) => {
                    assert(self.spec_contains(flags@[i as int]));
                    return Ok(true);
                },
                Ok(false) => {},
                Err(e) => {
                    return Err(e);
                },
            }
            i = i + 1;
        }
        Ok(false)
    }
}

/// Bit field that may contain up to 128 flags
#[derive(Clone, Copy, Debug, PartialEq, Eq, Structural)]
pub struct LargeBitField(u128);

impl LargeBitField {
    /// Creates a new large bit field
    pub fn new() -> (r: Self)
        ensures
            forall|flag: u128| flag < MAX_LARGE_FLAGS ==> !r.spec_contains(flag),
    {
        let r = LargeBitField(0);
        proof {
            assert forall|flag: u128| flag < MAX_LARGE_FLAGS implies !r.spec_contains(flag) by {
                assert(0u128 & (1u128 << flag) == 0u128) by (bit_vector);
            }
        }
        r
    }
}

impl BitFieldResolvable<u128> for LargeBitField {
    open spec fn flag_fits(flag: u128) -> bool {
        flag < MAX_LARGE_FLAGS
    }

    closed spec fn spec_contains(&self, flag: u128) -> bool {
        self.0 & (1u128 << flag) != 0
    }

    fn contains(&self, flag: u128) -> (r: Result<bool, FlagTooLarge<u128>>) {
        if flag >= MAX_LARGE_FLAGS {
            Err(FlagTooLarge(MAX_LARGE_FLAGS, flag))
        } else {
            Ok(self.0 & (1u128 << flag) != 0)
        }
    }

    fn insert(&mut self, flag: u128) -> (r: Result<(), FlagTooLarge<u128>>) {
        if flag >= MAX_LARGE_FLAGS {
            Err(FlagTooLarge(MAX_LARGE_FLAGS, flag))
        } else {
            let ghost v = self.0;
            self.0 = self.0 | (1u128 << flag);
            proof {
                assert(flag < 128 ==> (v | (1u128 << flag)) & (1u128 << flag) != 0) by (bit_vector);
                assert forall|other: u128|
                    other < 128 && other != flag implies ((v | (1u128 << flag)) & (1u128 << other)
                    != 0) == (v & (1u128 << other) != 0) by {
                    assert(flag < 128 && other < 128 && other != flag ==> ((v | (1u128 << flag))
                        & (1u128 << other) != 0) == (v & (1u128 << other) != 0)) by (bit_vector);
                }
            }
            Ok(())
        }
    }

    fn remove(&mut self, flag: u128) -> (r: Result<(), FlagTooLarge<u128>>) {
        if flag >= MAX_LARGE_FLAGS {
            Err(FlagTooLarge(MAX_LARGE_FLAGS, flag))
        } else {
            let ghost v = self.0;
            if self.0 & (1u128 << flag) != 0 {
                self.0 = self.0 ^ (1u128 << flag);
                proof {
                    assert(v & (1u128 << flag) != 0 ==> (v ^ (1u128 << flag)) & (1u128 << flag)
                        == 0) by (bit_vector);
                    assert forall|other: u128|
                        other < 128 && other != flag implies ((v ^ (1u128 << flag)) & (1u128
                        << other) != 0) == (v & (1u128 << other) != 0) by {
                        assert(flag < 128 && other < 128 && other != flag ==> ((v ^ (1u128
                            << flag)) & (1u128 << other) != 0) == (v & (1u128 << other) != 0))
                            by (bit_vector);
                    }
                }
            }
            Ok(())
        }
    }

    fn contains_all(&self, flags: &Vec<u128>) -> (r: Result<bool, FlagTooLarge<u128>>) {
        let n = flags.len();
        let mut i: usize = 0;
        while i < n
            invariant
                n == flags@.len(),
                0 <= i <= n,
                forall|k: int|
                    0 <= k < i ==> Self::flag_fits(#[trigger] flags@[k]) && self.spec_contains(
                        flags@[k],
                    ),
            decreases n - i,
        {
            match self.contains(flags[i]) {
                Ok(true) => {},
                Ok(false) => {
                    assert(!self.spec_contains(flags@[i as int]));
                    return Ok(false);
                },
                Err(e) => {
                    return Err(e);
                },
            }
            i = i + 1;
        }
        Ok(true)
    }

    fn contains_any(&self, flags: &Vec<u128>) -> (r: Result<bool, FlagTooLarge<u128>>) {
        let n = flags.len();
        let mut i: usize = 0;
        while i < n
            invariant
                n == flags@.len(),
                0 <= i <= n,
                forall|k: int|
                    0 <= k < i ==> Self::flag_fits(#[trigger] flags@[k]) && !self.spec_contains(
                        flags@[k],
                    ),
            decreases n - i,
        {
            match self.contains(flags[i]) {
                Ok(true) => {
                    assert(self.spec_contains(flags@[i as int]));
                    return Ok(true);
                },
                Ok(false) => {},
                Err(e) => {
                    return Err(e);
                },
            }
            i = i + 1;
        }
        Ok(false)
    }
}

} // verus!
