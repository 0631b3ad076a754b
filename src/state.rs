use vstd::prelude::*;

use crate::codec::{cell_of, in_bounds, write_all, CANVAS_BYTES, MAX_COLOUR};
use crate::types::{Error, PixelInfo};

verus! {

/// Price of painting one cell, in base units of the payment asset.
pub const PIXEL_PRICE: i128 = 10000000;

/// Most cells that one batch may paint.
pub const MAX_PIXELS_PER_TX: u32 = 100;

/// Abstract persistent state of the canvas.
pub struct CanvasView {
    /// Packed cells, two per byte.
    pub bytes: Seq<u8>,
    /// The administrator, once initialized.
    pub admin: Option<Seq<u8>>,
    /// Every successful placement, oldest first.
    pub ledger: Seq<PixelInfo>,
    /// Principals that have painted, in first-paint order, with their counts.
    pub users: Seq<(Seq<u8>, u32)>,
}

/// No principal appears twice in the registry.
pub open spec fn distinct_keys(users: Seq<(Seq<u8>, u32)>) -> bool {
    forall|i: int, j: int|
        0 <= i < users.len() && 0 <= j < users.len() && #[trigger] users[i].0 == #[trigger] users[j].0
            ==> i == j
}

/// The principal has an entry in the registry.
pub open spec fn registered(users: Seq<(Seq<u8>, u32)>, p: Seq<u8>) -> bool {
    exists|i: int| 0 <= i < users.len() && #[trigger] users[i].0 == p
}

/// Position of the principal's entry, when it has one.
pub open spec fn entry_index(users: Seq<(Seq<u8>, u32)>, p: Seq<u8>) -> int {
    choose|i: int| 0 <= i < users.len() && #[trigger] users[i].0 == p
}

/// Cells painted by the principal; 0 for one never seen.
pub open spec fn count_of(users: Seq<(Seq<u8>, u32)>, p: Seq<u8>) -> u32 {
    if registered(users, p) {
        users[entry_index(users, p)].1
    } else {
        0
    }
}

/// The registry after `k` more cells are credited to the principal; a principal seen
/// for the first time is appended at the end.
pub open spec fn credit(users: Seq<(Seq<u8>, u32)>, p: Seq<u8>, k: u32) -> Seq<(Seq<u8>, u32)> {
    if registered(users, p) {
        let i = entry_index(users, p);
        users.update(i, (p, (users[i].1 + k) as u32))
    } else {
        users.push((p, k))
    }
}

impl CanvasView {
    /// Invariant of the stored state.
    pub open spec fn wf(&self) -> bool {
        &&& self.bytes.len() == CANVAS_BYTES
        &&& self.ledger.len() <= u32::MAX
        &&& distinct_keys(self.users)
        &&& forall|i: int|
            0 <= i < self.users.len() ==> 1 <= #[trigger] self.users[i].1 <= self.ledger.len()
        &&& self.admin is None ==> self.ledger.len() == 0 && self.users.len() == 0
    }
}

/// Why a single placement record is refused against the canvas, if it is.
pub open spec fn pixel_error(bytes: Seq<u8>, p: PixelInfo) -> Option<Error> {
    if !in_bounds(p.x as int, p.y as int) {
        Some(Error::OverflowValue)
    } else if p.colour == 0 || p.colour > MAX_COLOUR {
        Some(Error::InvalidColor)
    } else if cell_of(bytes, p.x as int, p.y as int) != 0 {
        Some(Error::EntryExists)
    } else {
        None
    }
}

/// The refusal of the first record at or after position `i` that is refused.
pub open spec fn first_error_from(bytes: Seq<u8>, pixels: Seq<PixelInfo>, i: int) -> Option<Error>
    decreases pixels.len() - i,
{
    if i < 0 || i >= pixels.len() {
        None
    } else if pixel_error(bytes, pixels[i]) is Some {
        pixel_error(bytes, pixels[i])
    } else {
        first_error_from(bytes, pixels, i + 1)
    }
}

/// Outcome of initializing with an administrator.
pub open spec fn init_outcome(v: CanvasView, authorized: bool) -> Result<(), Error> {
    if v.admin is Some {
        Err(Error::AlreadyInitialized)
    } else if !authorized {
        Err(Error::Unauthenticated)
    } else {
        Ok(())
    }
}

/// Outcome of the checks on one placement that come before the balance is consulted.
pub open spec fn place_precheck(v: CanvasView, p: PixelInfo, authorized: bool) -> Result<(), Error> {
    if !authorized {
        Err(Error::Unauthenticated)
    } else if v.admin is None {
        Err(Error::NotInitialized)
    } else if pixel_error(v.bytes, p) is Some {
        Err(pixel_error(v.bytes, p)->Some_0)
    } else {
        Ok(())
    }
}

/// Outcome of placing one cell, given whether the caller proved its identity and its
/// spendable balance.
pub open spec fn place_outcome(v: CanvasView, p: PixelInfo, authorized: bool, balance: i128) -> Result<(), Error> {
    if place_precheck(v, p, authorized) is Err {
        place_precheck(v, p, authorized)
    } else if PIXEL_PRICE > balance {
        Err(Error::LowBalance)
    } else {
        Ok(())
    }
}

/// Outcome of the checks on a batch that come before the balance is consulted; every
/// record is checked against the canvas as it stood before the batch.
pub open spec fn batch_precheck(v: CanvasView, pixels: Seq<PixelInfo>, authorized: bool) -> Result<(), Error> {
    if !authorized {
        Err(Error::Unauthenticated)
    } else if v.admin is None {
        Err(Error::NotInitialized)
    } else if pixels.len() == 0 {
        Err(Error::InvalidPixelCount)
    } else if pixels.len() > MAX_PIXELS_PER_TX {
        Err(Error::TooManyPixels)
    } else if first_error_from(v.bytes, pixels, 0) is Some {
        Err(first_error_from(v.bytes, pixels, 0)->Some_0)
    } else {
        Ok(())
    }
}

/// Outcome of placing a batch of cells, given whether the caller proved its identity and
/// its spendable balance.
pub open spec fn batch_outcome(v: CanvasView, pixels: Seq<PixelInfo>, authorized: bool, balance: i128) -> Result<(), Error> {
    if batch_precheck(v, pixels, authorized) is Err {
        batch_precheck(v, pixels, authorized)
    } else if PIXEL_PRICE * pixels.len() > i128::MAX {
        Err(Error::OverflowValue)
    } else if PIXEL_PRICE * pixels.len() > balance {
        Err(Error::LowBalance)
    } else {
        Ok(())
    }
}

/// The state after the records are painted in order by the principal: cells written,
/// records appended to the ledger, and the principal credited with one cell per record.
pub open spec fn commit(v: CanvasView, user: Seq<u8>, pixels: Seq<PixelInfo>) -> CanvasView {
    CanvasView {
        bytes: write_all(v.bytes, pixels),
        admin: v.admin,
        ledger: v.ledger + pixels,
        users: credit(v.users, user, pixels.len() as u32),
    }
}

/// What a read of the cell at (x, y) returns: its colour on the canvas, 0 off it.
pub open spec fn pixel_at(v: CanvasView, x: int, y: int) -> u32 {
    if in_bounds(x, y) {
        cell_of(v.bytes, x, y) as u32
    } else {
        0
    }
}

/// A refusal at some position is found by the scan from any earlier position; no refusal
/// from position `i` on means every record from `i` on is accepted.
pub proof fn lemma_first_error_none(bytes: Seq<u8>, pixels: Seq<PixelInfo>, i: int, j: int)
    requires
        0 <= i <= j < pixels.len(),
        first_error_from(bytes, pixels, i) is None,
    ensures
        pixel_error(bytes, pixels[j]) is None,
    decreases j - i,
{
    if i < j {
        lemma_first_error_none(bytes, pixels, i + 1, j);
    }
}

/// No principal has painted more cells than the ledger records.
pub proof fn lemma_count_within_ledger(v: CanvasView, p: Seq<u8>)
    requires
        v.wf(),
    ensures
        count_of(v.users, p) <= v.ledger.len(),
{
    if registered(v.users, p) {
        let i = entry_index(v.users, p);
        assert(1 <= v.users[i].1 <= v.ledger.len());
    }
}

/// Crediting a principal adds to its count alone, registers it once, and keeps every
/// count positive.
pub proof fn lemma_credit(users: Seq<(Seq<u8>, u32)>, p: Seq<u8>, k: u32)
    requires
        distinct_keys(users),
        forall|i: int| 0 <= i < users.len() ==> 1 <= #[trigger] users[i].1,
        1 <= k,
        count_of(users, p) + k <= u32::MAX,
    ensures
        distinct_keys(credit(users, p, k)),
        forall|i: int| 0 <= i < credit(users, p, k).len() ==> 1 <= #[trigger] credit(users, p, k)[i].1,
        registered(credit(users, p, k), p),
        count_of(credit(users, p, k), p) == count_of(users, p) + k,
        forall|q: Seq<u8>| q != p ==> count_of(credit(users, p, k), q) == count_of(users, q),
{
    let c = credit(users, p, k);
    if registered(users, p) {
        let i = entry_index(users, p);
        assert(c[i].0 == p);
        let j = entry_index(c, p);
        assert(c[j].0 == p);
        assert forall|q: Seq<u8>| q != p implies count_of(c, q) == count_of(users, q) by {
            if registered(users, q) {
                let a = entry_index(users, q);
                assert(c[a].0 == q);
                let b = entry_index(c, q);
                assert(c[b].0 == q);
            }
            if registered(c, q) {
                let b = entry_index(c, q);
                assert(users[b].0 == q);
            }
        }
    } else {
        let n = users.len() as int;
        assert(c[n].0 == p);
        let j = entry_index(c, p);
        assert(c[j].0 == p);
        assert forall|q: Seq<u8>| q != p implies count_of(c, q) == count_of(users, q) by {
            if registered(users, q) {
                let a = entry_index(users, q);
                assert(c[a].0 == q);
                let b = entry_index(c, q);
                assert(c[b].0 == q);
            }
            if registered(c, q) {
                let b = entry_index(c, q);
                assert(users[b].0 == q);
            }
        }
    }
}

/// Crediting `k` cells keeps every count within a bound that each old count plus `k`
/// already meets.
pub proof fn lemma_credit_bounded(users: Seq<(Seq<u8>, u32)>, p: Seq<u8>, k: u32, bound: int)
    requires
        forall|i: int| 0 <= i < users.len() ==> #[trigger] users[i].1 + k <= bound,
        k <= bound,
    ensures
        forall|i: int| 0 <= i < credit(users, p, k).len() ==> #[trigger] credit(users, p, k)[i].1 <= bound,
{
    let c = credit(users, p, k);
    if registered(users, p) {
        let i = entry_index(users, p);
        assert(users[i].1 + k <= bound);
        assert forall|j: int| 0 <= j < c.len() implies #[trigger] c[j].1 <= bound by {
            if j != i {
                assert(c[j] == users[j]);
                assert(users[j].1 + k <= bound);
            }
        }
    } else {
        assert forall|j: int| 0 <= j < c.len() implies #[trigger] c[j].1 <= bound by {
            if j < users.len() {
                assert(c[j] == users[j]);
                assert(users[j].1 + k <= bound);
            }
        }
    }
}


} // verus!
