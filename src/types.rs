use vstd::prelude::*;

verus! {

/// Failures returned by the canvas operations.
#[derive(Clone, Copy, Debug, PartialEq, Eq, Structural)]
pub enum Error {
    OverflowValue,
    LowBalance,
    InvalidColor,
    EntryExists,
    InvalidPixelCount,
    TooManyPixels,
    NotInitialized,
    AlreadyInitialized,
    Unauthenticated,
}

/// Cell coordinates and colour of a placement record.
#[derive(Clone, Copy, Debug, PartialEq, Eq, Structural)]
pub struct PixelInfo {
    pub x: u32,
    pub y: u32,
    pub colour: u32,
}

/// An authenticated identity, held as the bytes of its textual address.
#[derive(Clone, Debug, PartialEq, Eq)]
pub struct Principal {
    pub key: Vec<u8>,
}

impl View for Principal {
    type V = Seq<u8>;

    open spec fn view(&self) -> Seq<u8> {
        self.key@
    }
}

impl Principal {
    /// An identical principal, held in fresh storage.
    pub fn copy_of(&self) -> (r: Principal)
        ensures
            r@ == self@,
    {
        let key = self.key.clone();
        assert(key@ =~= self.key@);
        Principal { key }
    }

    /// Whether two principals name the same identity.
    pub fn same_as(&self, other: &Principal) -> (r: bool)
        ensures
            r == (self@ == other@),
    {
        if self.key.len() != other.key.len() {
            return false;
        }
        let n = self.key.len();
        let mut i: usize = 0;
        while i < n
            invariant
                n == self.key.len(),
                n == other.key.len(),
                0 <= i <= n,
                forall|j: int| 0 <= j < i ==> self.key@[j] == other.key@[j],
            decreases n - i,
        {
            if self.key[i] != other.key[i] {
                return false;
            }
            i = i + 1;
        }
        assert(self.key@ =~= other.key@);
        true
    }
}

/// A principal with the number of cells it has painted.
#[derive(Clone, Debug, PartialEq, Eq)]
pub struct LeaderboardEntry {
    pub address: Principal,
    pub pixel_count: u32,
}

impl View for LeaderboardEntry {
    type V = (Seq<u8>, u32);

    open spec fn view(&self) -> (Seq<u8>, u32) {
        (self.address@, self.pixel_count)
    }
}

} // verus!
