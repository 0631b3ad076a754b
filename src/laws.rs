use vstd::prelude::*;

use crate::codec::{cell_of, in_bounds, lemma_write_cell, write_all, write_cell, CANVAS_BYTES, MAX_COLOUR};
use crate::state::{
    batch_outcome, commit, count_of, credit, distinct_keys, entry_index, first_error_from,
    init_outcome, lemma_count_within_ledger, lemma_credit, lemma_credit_bounded,
    lemma_first_error_none, pixel_error, place_outcome, registered, CanvasView, MAX_PIXELS_PER_TX,
};
use crate::types::{Error, PixelInfo};

verus! {

/// Every record lies on the canvas and carries a colour a cell can hold.
pub open spec fn all_writable(pixels: Seq<PixelInfo>) -> bool {
    forall|i: int|
        0 <= i < pixels.len() ==> in_bounds(#[trigger] pixels[i].x as int, pixels[i].y as int)
            && pixels[i].colour <= MAX_COLOUR
}

/// No two records name the same cell.
pub open spec fn distinct_cells(pixels: Seq<PixelInfo>) -> bool {
    forall|i: int, j: int|
        0 <= i < pixels.len() && 0 <= j < pixels.len() && i != j ==> (#[trigger] pixels[i].x
            != #[trigger] pixels[j].x || pixels[i].y != pixels[j].y)
}

/// The principal has exactly one entry in the registry.
pub open spec fn listed_once(users: Seq<(Seq<u8>, u32)>, p: Seq<u8>) -> bool {
    &&& exists|i: int| 0 <= i < users.len() && #[trigger] users[i].0 == p
    &&& forall|i: int, j: int|
        0 <= i < users.len() && 0 <= j < users.len() && #[trigger] users[i].0 == p
            && #[trigger] users[j].0 == p ==> i == j
}

/// Writing records that lie on the canvas keeps its size.
pub proof fn lemma_write_all_len(bytes: Seq<u8>, pixels: Seq<PixelInfo>)
    requires
        bytes.len() == CANVAS_BYTES,
        all_writable(pixels),
    ensures
        write_all(bytes, pixels).len() == CANVAS_BYTES,
    decreases pixels.len(),
{
    if pixels.len() > 0 {
        let rest = pixels.drop_last();
        let p = pixels.last();
        assert(p == pixels[pixels.len() - 1]);
        assert(all_writable(rest)) by {
            assert forall|k: int| 0 <= k < rest.len() implies in_bounds(#[trigger] rest[k].x as int, rest[k].y as int)
                && rest[k].colour <= MAX_COLOUR by {
                assert(rest[k] == pixels[k]);
            }
        }
        lemma_write_all_len(bytes, rest);
        lemma_write_cell(write_all(bytes, rest), p.x as int, p.y as int, p.colour as u8, p.x as int, p.y as int);
    }
}

/// Writing records keeps the canvas size, and a cell that no record names keeps its
/// colour; in particular a cell never written stays unpainted.
pub proof fn lemma_unwritten_cell_unchanged(bytes: Seq<u8>, pixels: Seq<PixelInfo>, x: int, y: int)
    requires
        bytes.len() == CANVAS_BYTES,
        all_writable(pixels),
        in_bounds(x, y),
        forall|i: int| 0 <= i < pixels.len() ==> !(#[trigger] pixels[i].x == x && pixels[i].y == y),
    ensures
        write_all(bytes, pixels).len() == CANVAS_BYTES,
        cell_of(write_all(bytes, pixels), x, y) == cell_of(bytes, x, y),
    decreases pixels.len(),
{
    if pixels.len() > 0 {
        let rest = pixels.drop_last();
        let p = pixels.last();
        assert(p == pixels[pixels.len() - 1]);
        assert forall|i: int| 0 <= i < rest.len() implies !(#[trigger] rest[i].x == x && rest[i].y == y) by {
            assert(rest[i] == pixels[i]);
        }
        assert(all_writable(rest)) by {
            assert forall|i: int| 0 <= i < rest.len() implies in_bounds(#[trigger] rest[i].x as int, rest[i].y as int)
                && rest[i].colour <= MAX_COLOUR by {
                assert(rest[i] == pixels[i]);
            }
        }
        lemma_unwritten_cell_unchanged(bytes, rest, x, y);
        assert(in_bounds(p.x as int, p.y as int));
        lemma_write_cell(write_all(bytes, rest), p.x as int, p.y as int, p.colour as u8, x, y);
    }
}

/// After records naming distinct cells are written, each of those cells reads back the
/// colour of its record.
pub proof fn lemma_write_all_reads_back(bytes: Seq<u8>, pixels: Seq<PixelInfo>, i: int)
    requires
        bytes.len() == CANVAS_BYTES,
        all_writable(pixels),
        distinct_cells(pixels),
        0 <= i < pixels.len(),
    ensures
        cell_of(write_all(bytes, pixels), pixels[i].x as int, pixels[i].y as int) == pixels[i].colour,
    decreases pixels.len(),
{
    let rest = pixels.drop_last();
    let n = pixels.len() - 1;
    let p = pixels[n];
    assert(all_writable(rest)) by {
        assert forall|k: int| 0 <= k < rest.len() implies in_bounds(#[trigger] rest[k].x as int, rest[k].y as int)
            && rest[k].colour <= MAX_COLOUR by {
            assert(rest[k] == pixels[k]);
        }
    }
    let x = pixels[i].x as int;
    let y = pixels[i].y as int;
    assert(in_bounds(pixels[i].x as int, pixels[i].y as int));
    assert(in_bounds(p.x as int, p.y as int));
    if i == n {
        lemma_write_all_len(bytes, rest);
        lemma_write_cell(write_all(bytes, rest), x, y, p.colour as u8, x, y);
    } else {
        assert(distinct_cells(rest)) by {
            assert forall|a: int, b: int|
                0 <= a < rest.len() && 0 <= b < rest.len() && a != b implies (#[trigger] rest[a].x
                    != #[trigger] rest[b].x || rest[a].y != rest[b].y) by {
                assert(rest[a] == pixels[a]);
                assert(rest[b] == pixels[b]);
            }
        }
        assert(rest[i] == pixels[i]);
        lemma_write_all_reads_back(bytes, rest, i);
        lemma_write_all_len(bytes, rest);
        assert(!(x == p.x && y == p.y));
        lemma_write_cell(write_all(bytes, rest), p.x as int, p.y as int, p.colour as u8, x, y);
    }
}

/// The state after each record is placed on its own by the principal, first to last.
pub open spec fn place_each(v: CanvasView, user: Seq<u8>, pixels: Seq<PixelInfo>) -> CanvasView
    decreases pixels.len(),
{
    if pixels.len() == 0 {
        v
    } else {
        commit(place_each(v, user, pixels.drop_last()), user, seq![pixels.last()])
    }
}

/// After N single placements by one principal, the ledger has grown by N, the
/// principal's count has grown by N, and the principal is listed exactly once.
pub proof fn lemma_placements_counted(v: CanvasView, user: Seq<u8>, pixels: Seq<PixelInfo>)
    requires
        v.wf(),
        v.ledger.len() + pixels.len() <= u32::MAX,
        1 <= pixels.len(),
    ensures
        place_each(v, user, pixels).ledger.len() == v.ledger.len() + pixels.len(),
        count_of(place_each(v, user, pixels).users, user) == count_of(v.users, user) + pixels.len(),
        listed_once(place_each(v, user, pixels).users, user),
{
    lemma_placements_counted_from(v, user, pixels);
    let w = place_each(v, user, pixels);
    let i = entry_index(w.users, user);
    assert(w.users[i].0 == user);
}

proof fn lemma_placements_counted_from(v: CanvasView, user: Seq<u8>, pixels: Seq<PixelInfo>)
    requires
        v.wf(),
        v.ledger.len() + pixels.len() <= u32::MAX,
    ensures
        place_each(v, user, pixels).ledger.len() == v.ledger.len() + pixels.len(),
        count_of(place_each(v, user, pixels).users, user) == count_of(v.users, user) + pixels.len(),
        distinct_keys(place_each(v, user, pixels).users),
        forall|i: int|
            0 <= i < place_each(v, user, pixels).users.len() ==> 1 <= #[trigger] place_each(v, user, pixels).users[i].1,
        pixels.len() > 0 ==> registered(place_each(v, user, pixels).users, user),
    decreases pixels.len(),
{
    if pixels.len() > 0 {
        let rest = pixels.drop_last();
        lemma_placements_counted_from(v, user, rest);
        let w = place_each(v, user, rest);
        if registered(v.users, user) {
            let i = entry_index(v.users, user);
            assert(v.users[i].0 == user);
        }
        lemma_credit(w.users, user, 1);
    }
}

/// Placing on a cell that a placement has just painted is refused as already painted.
pub proof fn lemma_place_twice_refused(
    v: CanvasView,
    user: Seq<u8>,
    pixel: PixelInfo,
    authorized: bool,
    balance: i128,
)
    requires
        v.wf(),
        place_outcome(v, pixel, authorized, balance) is Ok,
    ensures
        place_outcome(commit(v, user, seq![pixel]), pixel, authorized, balance) == Err::<(), Error>(
            Error::EntryExists,
        ),
{
    let s = seq![pixel];
    assert(s.drop_last() =~= Seq::<PixelInfo>::empty());
    assert(s.last() == pixel);
    assert(write_all(v.bytes, s.drop_last()) == v.bytes);
    let x = pixel.x as int;
    let y = pixel.y as int;
    assert(write_all(v.bytes, s) == write_cell(v.bytes, x, y, pixel.colour as u8));
    lemma_write_cell(v.bytes, x, y, pixel.colour as u8, x, y);
}

/// On an initialized canvas, an authenticated placement on the canvas with colour 0 or
/// above 15 is refused for its colour.
pub proof fn lemma_bad_colour_refused(v: CanvasView, pixel: PixelInfo, balance: i128)
    requires
        v.admin is Some,
        in_bounds(pixel.x as int, pixel.y as int),
        pixel.colour == 0 || pixel.colour > MAX_COLOUR,
    ensures
        place_outcome(v, pixel, true, balance) == Err::<(), Error>(Error::InvalidColor),
{
}

/// On an initialized canvas, an authenticated placement off the canvas is refused as an
/// overflow.
pub proof fn lemma_off_canvas_refused(v: CanvasView, pixel: PixelInfo, balance: i128)
    requires
        v.admin is Some,
        !in_bounds(pixel.x as int, pixel.y as int),
    ensures
        place_outcome(v, pixel, true, balance) == Err::<(), Error>(Error::OverflowValue),
{
}

/// On an initialized canvas, an authenticated batch of no records, or of more than 100,
/// is refused for its size.
pub proof fn lemma_batch_size_refused(v: CanvasView, pixels: Seq<PixelInfo>, balance: i128)
    requires
        v.admin is Some,
    ensures
        pixels.len() == 0 ==> batch_outcome(v, pixels, true, balance) == Err::<(), Error>(
            Error::InvalidPixelCount,
        ),
        pixels.len() > MAX_PIXELS_PER_TX ==> batch_outcome(v, pixels, true, balance) == Err::<(), Error>(
            Error::TooManyPixels,
        ),
{
}

/// A batch with one refused record is refused as a whole.
pub proof fn lemma_batch_bad_entry_refused(
    v: CanvasView,
    pixels: Seq<PixelInfo>,
    i: int,
    authorized: bool,
    balance: i128,
)
    requires
        0 <= i < pixels.len(),
        pixel_error(v.bytes, pixels[i]) is Some,
    ensures
        batch_outcome(v, pixels, authorized, balance) is Err,
{
    if first_error_from(v.bytes, pixels, 0) is None {
        lemma_first_error_none(v.bytes, pixels, 0, i);
    }
}

/// Painting records that lie on the canvas, on an initialized canvas, keeps the state's
/// invariant.
pub proof fn lemma_commit_wf(v: CanvasView, user: Seq<u8>, pixels: Seq<PixelInfo>)
    requires
        v.wf(),
        v.admin is Some,
        all_writable(pixels),
        1 <= pixels.len(),
        v.ledger.len() + pixels.len() <= u32::MAX,
    ensures
        commit(v, user, pixels).wf(),
{
    let k = pixels.len() as u32;
    let bound = (v.ledger.len() + pixels.len()) as int;
    lemma_write_all_len(v.bytes, pixels);
    lemma_count_within_ledger(v, user);
    lemma_credit(v.users, user, k);
    assert forall|i: int| 0 <= i < v.users.len() implies #[trigger] v.users[i].1 + k <= bound by {
        assert(v.users[i].1 <= v.ledger.len());
    }
    lemma_credit_bounded(v.users, user, k, bound);
}

/// No principal's count ever goes down: a successful initialization starts from a
/// registry with no counts, and painting only adds to the painter's count.
pub proof fn lemma_counts_never_decrease(v: CanvasView, user: Seq<u8>, pixels: Seq<PixelInfo>, q: Seq<u8>)
    requires
        v.wf(),
    ensures
        forall|authorized: bool|
            init_outcome(v, authorized) is Ok ==> count_of(v.users, q) == 0,
        v.ledger.len() + pixels.len() <= u32::MAX ==> count_of(commit(v, user, pixels).users, q)
            >= count_of(v.users, q),
{
    if !registered(v.users, q) {
    } else {
        let i = entry_index(v.users, q);
        assert(v.users[i].0 == q);
    }
    if v.ledger.len() + pixels.len() <= u32::MAX && pixels.len() >= 1 {
        lemma_count_within_ledger(v, user);
        lemma_credit(v.users, user, pixels.len() as u32);
    }
    if pixels.len() == 0 {
        let c = credit(v.users, user, 0);
        if registered(v.users, q) {
            let i = entry_index(v.users, q);
            assert(c[i].0 == q);
            let j = entry_index(c, q);
            assert(c[j].0 == q);
        }
    }
}

} // verus!
