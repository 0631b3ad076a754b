use vstd::prelude::*;

use crate::laws::{all_writable, lemma_commit_wf};
use crate::codec::{
    lemma_write_cell, byte_index, cell_of, in_bounds, is_high, lemma_index_bounds, write_all, write_cell,
    CANVAS_BYTES, CANVAS_HEIGHT, CANVAS_WIDTH, MAX_COLOUR,
};
use crate::state::{
    batch_outcome, commit, count_of, credit, distinct_keys, entry_index, first_error_from,
    init_outcome, lemma_count_within_ledger, lemma_first_error_none, pixel_at, pixel_error,
    place_outcome, place_precheck, batch_precheck, registered,
    CanvasView, MAX_PIXELS_PER_TX, PIXEL_PRICE,
};
use crate::types::{Error, LeaderboardEntry, PixelInfo, Principal};

verus! {

/// The shared canvas with its placement ledger and per-principal statistics.
pub struct Contract {
    bytes: Vec<u8>,
    admin: Option<Principal>,
    painted: Vec<PixelInfo>,
    users: Vec<LeaderboardEntry>,
}

impl View for Contract {
    type V = CanvasView;

    closed spec fn view(&self) -> CanvasView {
        CanvasView {
            bytes: self.bytes@,
            admin: match self.admin {
                Some(a) => Some(a@),
                None => None,
            },
            ledger: self.painted@,
            users: self.users@.map_values(|e: LeaderboardEntry| e@),
        }
    }
}

impl Contract {
    /// The stored state satisfies its invariant.
    pub open spec fn well_formed(&self) -> bool {
        self@.wf()
    }

    /// An empty canvas that has not been initialized: every cell unpainted, nothing
    /// recorded.
    pub fn new() -> (r: Contract)
        ensures
            r.well_formed(),
            r@.admin is None,
            r@.ledger.len() == 0,
            r@.users.len() == 0,
            forall|x: int, y: int| in_bounds(x, y) ==> cell_of(r@.bytes, x, y) == 0,
    {
        let mut bytes: Vec<u8> = Vec::new();
        while bytes.len() < CANVAS_BYTES
            invariant
                bytes.len() <= CANVAS_BYTES,
                forall|i: int| 0 <= i < bytes.len() ==> bytes@[i] == 0,
            decreases CANVAS_BYTES - bytes.len(),
        {
            bytes.push(0);
        }
        let r = Contract { bytes, admin: None, painted: Vec::new(), users: Vec::new() };
        assert(r@.users =~= Seq::<(Seq<u8>, u32)>::empty());
        assert forall|x: int, y: int| in_bounds(x, y) implies cell_of(r@.bytes, x, y) == 0 by {
            lemma_index_bounds(x, y);
            assert((0u8 >> 4u8) & 0x0Fu8 == 0) by (bit_vector);
            assert(0u8 & 0x0Fu8 == 0) by (bit_vector);
        }
        r
    }

    /// Rebuilds the state from its stored parts; `None` when they break the invariant
    /// (canvas of the wrong size, a principal listed twice, a count of zero or above the
    /// number of placements).
    pub fn from_parts(
        bytes: Vec<u8>,
        admin: Option<Principal>,
        painted: Vec<PixelInfo>,
        users: Vec<LeaderboardEntry>,
    ) -> (r: Option<Contract>)
        ensures
            match r {
                Some(c) => {
                    &&& c.well_formed()
                    &&& c@.bytes == bytes@
                    &&& c@.admin == match admin {
                        Some(a) => Some(a@),
                        None => None::<Seq<u8>>,
                    }
                    &&& c@.ledger == painted@
                    &&& c@.users == users@.map_values(|e: LeaderboardEntry| e@)
                },
                None => !(CanvasView {
                    bytes: bytes@,
                    admin: match admin {
                        Some(a) => Some(a@),
                        None => None::<Seq<u8>>,
                    },
                    ledger: painted@,
                    users: users@.map_values(|e: LeaderboardEntry| e@),
                }).wf(),
            },
    {
        let c = Contract { bytes, admin, painted, users };
        if c.check_invariant() {
            Some(c)
        } else {
            None
        }
    }

    fn check_invariant(&self) -> (r: bool)
        ensures
            r == self.well_formed(),
    {
        if self.bytes.len() != CANVAS_BYTES {
            return false;
        }
        if self.painted.len() > u32::MAX as usize {
            return false;
        }
        if self.admin.is_none() && (self.painted.len() != 0 || self.users.len() != 0) {
            return false;
        }
        let ghost users = self@.users;
        let n = self.users.len();
        let ledger_len = self.painted.len();
        let mut i: usize = 0;
        while i < n
            invariant
                n == self.users.len(),
                users == self@.users,
                ledger_len == self@.ledger.len(),
                0 <= i <= n,
                forall|a: int| 0 <= a < i ==> 1 <= #[trigger] users[a].1 <= ledger_len,
                forall|a: int, b: int| 0 <= a < i && a < b < n ==> #[trigger] users[a].0 != #[trigger] users[b].0,
            decreases n - i,
        {
            assert(users[i as int] == self.users@[i as int]@);
            let count = self.users[i].pixel_count;
            if count == 0 || count as usize > ledger_len {
                assert(users[i as int].1 == count);
                return false;
            }
            let mut j: usize = i + 1;
            while j < n
                invariant
                    n == self.users.len(),
                    users == self@.users,
                    0 <= i < n,
                    i + 1 <= j <= n,
                    forall|b: int| i < b < j ==> users[i as int].0 != #[trigger] users[b].0,
                decreases n - j,
            {
                assert(users[i as int] == self.users@[i as int]@);
                assert(users[j as int] == self.users@[j as int]@);
                if self.users[i].address.same_as(&self.users[j].address) {
                    assert(users[i as int].0 == users[j as int].0);
                    assert(!distinct_keys(users));
                    return false;
                }
                j = j + 1;
            }
            i = i + 1;
        }
        assert(distinct_keys(users)) by {
            assert forall|a: int, b: int|
                0 <= a < users.len() && 0 <= b < users.len() && #[trigger] users[a].0 == #[trigger] users[b].0
                    implies a == b by {
                if a < b {
                    assert(users[a].0 != users[b].0);
                } else if b < a {
                    assert(users[b].0 != users[a].0);
                }
            }
        }
        true
    }

    /// The packed canvas bytes, for storage.
    pub fn packed_bytes(&self) -> (r: Vec<u8>)
        ensures
            r@ == self@.bytes,
    {
        let r = self.bytes.clone();
        assert(r@ =~= self.bytes@);
        r
    }

    /// The recorded administrator; fails with `NotInitialized` before initialization.
    pub fn get_admin(&self) -> (r: Result<Principal, Error>)
        ensures
            match r {
                Ok(a) => self@.admin == Some(a@),
                Err(e) => self@.admin is None && e == Error::NotInitialized,
            },
    {
        match &self.admin {
            Some(a) => Ok(a.copy_of()),
            None => Err(Error::NotInitialized),
        }
    }

    /// Whether an administrator has been recorded.
    pub fn is_initialized(&self) -> (r: bool)
        ensures
            r == (self@.admin is Some),
    {
        self.admin.is_some()
    }

    /// Records the administrator and starts an empty ledger and registry. Fails when an
    /// administrator is already recorded, or when the administrator did not prove its
    /// identity (`authorized`).
    pub fn init(&mut self, admin: Principal, authorized: bool) -> (r: Result<(), Error>)
        requires
            old(self).well_formed(),
        ensures
            final(self).well_formed(),
            r == init_outcome(old(self)@, authorized),
            r is Ok ==> final(self)@ == (CanvasView {
                bytes: old(self)@.bytes,
                admin: Some(admin@),
                ledger: Seq::empty(),
                users: Seq::empty(),
            }),
            r is Err ==> final(self)@ == old(self)@,
    {
        if self.admin.is_some() {
            return Err(Error::AlreadyInitialized);
        }
        if !authorized {
            return Err(Error::Unauthenticated);
        }
        self.admin = Some(admin);
        self.painted = Vec::new();
        self.users = Vec::new();
        assert(self@.users =~= Seq::<(Seq<u8>, u32)>::empty());
        assert(self@.ledger =~= Seq::<PixelInfo>::empty());
        Ok(())
    }

    /// Packed byte and nibble of the cell at (x, y): the byte is half the row-major
    /// position, and even positions use the upper four bits.
    pub fn get_pixel_location(x: u32, y: u32) -> (r: (u32, bool))
        requires
            in_bounds(x as int, y as int),
        ensures
            r.0 == byte_index(x as int, y as int),
            r.1 == is_high(x as int, y as int),
    {
        proof {
            lemma_index_bounds(x as int, y as int);
        }
        let pixel_index = y * CANVAS_WIDTH + x;
        let byte_index = pixel_index / 2;
        let is_high_nibble = pixel_index % 2 == 0;
        (byte_index, is_high_nibble)
    }

    fn get_pixel_internal(&self, x: u32, y: u32) -> (r: u32)
        requires
            self.well_formed(),
            in_bounds(x as int, y as int),
        ensures
            r == cell_of(self@.bytes, x as int, y as int),
    {
        let (byte_index, is_high_nibble) = Self::get_pixel_location(x, y);
        proof {
            lemma_index_bounds(x as int, y as int);
        }
        let byte = self.bytes[byte_index as usize];
        let cell = if is_high_nibble {
            (byte >> 4u8) & 0x0Fu8
        } else {
            byte & 0x0Fu8
        };
        cell as u32
    }

    fn set_pixel_internal(&mut self, x: u32, y: u32, colour: u32)
        requires
            old(self).bytes@.len() == CANVAS_BYTES,
            in_bounds(x as int, y as int),
            colour <= MAX_COLOUR,
        ensures
            final(self).bytes@ == write_cell(old(self).bytes@, x as int, y as int, colour as u8),
            forall|x2: int, y2: int|
                in_bounds(x2, y2) ==> #[trigger] cell_of(final(self).bytes@, x2, y2) == if x2 == x
                    && y2 == y {
                    colour as u8
                } else {
                    cell_of(old(self).bytes@, x2, y2)
                },
            final(self).admin == old(self).admin,
            final(self).painted == old(self).painted,
            final(self).users == old(self).users,
    {
        let (byte_index, is_high_nibble) = Self::get_pixel_location(x, y);
        proof {
            lemma_index_bounds(x as int, y as int);
        }
        let current = self.bytes[byte_index as usize];
        let c = colour as u8;
        let updated = if is_high_nibble {
            (current & 0x0Fu8) | (c << 4u8)
        } else {
            (current & 0xF0u8) | c
        };
        self.bytes.set(byte_index as usize, updated);
        proof {
            assert forall|x2: int, y2: int| in_bounds(x2, y2) implies #[trigger] cell_of(self.bytes@, x2, y2)
                == if x2 == x && y2 == y {
                colour as u8
            } else {
                cell_of(old(self).bytes@, x2, y2)
            } by {
                lemma_write_cell(old(self).bytes@, x as int, y as int, colour as u8, x2, y2);
            }
        }
    }

    fn find_user(&self, user: &Principal) -> (r: Option<usize>)
        ensures
            match r {
                Some(i) => i < self.users.len() && self.users@[i as int].address@ == user@,
                None => forall|i: int|
                    0 <= i < self.users.len() ==> self.users@[i].address@ != user@,
            },
    {
        let mut i: usize = 0;
        while i < self.users.len()
            invariant
                0 <= i <= self.users.len(),
                forall|j: int| 0 <= j < i ==> self.users@[j].address@ != user@,
            decreases self.users.len() - i,
        {
            if self.users[i].address.same_as(user) {
                return Some(i);
            }
            i = i + 1;
        }
        None
    }

    fn update_user_pixel_count(&mut self, user: &Principal, pixels_added: u32)
        requires
            old(self)@.wf(),
            count_of(old(self)@.users, user@) + pixels_added <= u32::MAX,
        ensures
            final(self)@ == (CanvasView {
                users: credit(old(self)@.users, user@, pixels_added),
                ..old(self)@
            }),
    {
        let ghost old_users = self@.users;
        match self.find_user(user) {
            Some(i) => {
                let current = self.users[i].pixel_count;
                assert(old_users[i as int] == self.users@[i as int]@);
                assert(old_users[i as int].0 == user@);
                assert(registered(old_users, user@));
                let ghost j = entry_index(old_users, user@);
                assert(old_users[j].0 == user@);
                assert(i as int == j);
                let entry = LeaderboardEntry { address: user.copy_of(), pixel_count: current + pixels_added };
                self.users.set(i, entry);
                assert(self@.users =~= credit(old_users, user@, pixels_added));
            },
            None => {
                assert forall|k: int| 0 <= k < old_users.len() implies old_users[k].0 != user@ by {
                    assert(old_users[k] == self.users@[k]@);
                }
                assert(!registered(old_users, user@));
                let entry = LeaderboardEntry { address: user.copy_of(), pixel_count: pixels_added };
                self.users.push(entry);
                assert(self@.users =~= credit(old_users, user@, pixels_added));
            },
        }
        assert(self@.bytes == old(self)@.bytes);
    }
    /// The checks of `place` that come before the balance is consulted: the caller
    /// proved its identity, the canvas is initialized, the cell lies on the canvas, the
    /// colour is 1 to 15 and the cell is unpainted.
    pub fn check_place(&self, x: u32, y: u32, colour: u32, authorized: bool) -> (r: Result<(), Error>)
        requires
            self.well_formed(),
        ensures
            r == place_precheck(self@, PixelInfo { x, y, colour }, authorized),
    {
        if !authorized {
            return Err(Error::Unauthenticated);
        }
        if !self.is_initialized() {
            return Err(Error::NotInitialized);
        }
        if x >= CANVAS_WIDTH || y >= CANVAS_HEIGHT {
            return Err(Error::OverflowValue);
        }
        if colour > MAX_COLOUR || colour == 0 {
            return Err(Error::InvalidColor);
        }
        if self.get_pixel_internal(x, y) != 0 {
            return Err(Error::EntryExists);
        }
        Ok(())
    }

    /// Paints the cell at (x, y) for `user`. `authorized` says whether the user proved
    /// its identity and `balance` is its spendable balance in the payment asset. The cell
    /// must lie on the canvas, the colour must be 1 to 15, the cell must be unpainted and
    /// the balance must cover one cell's price. On success the cell is written, the
    /// record appended to the ledger and the user credited; on failure nothing changes.
    pub fn place(&mut self, user: Principal, x: u32, y: u32, colour: u32, authorized: bool, balance: i128) -> (r: Result<bool, Error>)
        requires
            old(self).well_formed(),
            old(self)@.ledger.len() < u32::MAX,
        ensures
            final(self).well_formed(),
            r == match place_outcome(old(self)@, PixelInfo { x, y, colour }, authorized, balance) {
                Ok(()) => Ok::<bool, Error>(true),
                Err(e) => Err(e),
            },
            r is Ok ==> final(self)@ == commit(old(self)@, user@, seq![PixelInfo { x, y, colour }]),
            r is Err ==> final(self)@ == old(self)@,
    {
        match self.check_place(x, y, colour, authorized) {
            Ok(()) => {},
            Err(e) => {
                return Err(e);
            },
        }
        let cost: i128 = PIXEL_PRICE;
        if cost > balance {
            return Err(Error::LowBalance);
        }
        let ghost v0 = self@;
        let pixel = PixelInfo { x, y, colour };
        self.set_pixel_internal(x, y, colour);
        self.painted.push(pixel);
        proof {
            let s = seq![pixel];
            assert(s.drop_last() =~= Seq::<PixelInfo>::empty());
            assert(write_all(v0.bytes, s.drop_last()) == v0.bytes);
            assert(s.last() == pixel);
            assert(write_all(v0.bytes, s) == write_cell(v0.bytes, x as int, y as int, colour as u8));
            assert(self@.ledger =~= v0.ledger + s);
            assert(self@.users == v0.users);
        }
        proof {
            lemma_count_within_ledger(v0, user@);
        }
        self.update_user_pixel_count(&user, 1);
        proof {
            assert(all_writable(seq![pixel])) by {
                assert(seq![pixel][0] == pixel);
            }
            lemma_commit_wf(v0, user@, seq![pixel]);
        }
        Ok(true)
    }

    /// The checks of `place_multiple` that come before the balance is consulted: the
    /// caller proved its identity, the canvas is initialized, the batch holds 1 to 100
    /// records, and each record passes the checks of `check_place` against the canvas as
    /// it stands; the first record that fails decides the error.
    pub fn check_batch(&self, pixels: &Vec<PixelInfo>, authorized: bool) -> (r: Result<(), Error>)
        requires
            self.well_formed(),
        ensures
            r == batch_precheck(self@, pixels@, authorized),
    {
        if !authorized {
            return Err(Error::Unauthenticated);
        }
        if !self.is_initialized() {
            return Err(Error::NotInitialized);
        }
        let pixel_count = pixels.len();
        if pixel_count == 0 {
            return Err(Error::InvalidPixelCount);
        }
        if pixel_count > MAX_PIXELS_PER_TX as usize {
            return Err(Error::TooManyPixels);
        }
        let mut i: usize = 0;
        while i < pixel_count
            invariant
                self.well_formed(),
                pixel_count == pixels.len(),
                1 <= pixel_count <= MAX_PIXELS_PER_TX,
                authorized,
                self@.admin is Some,
                0 <= i <= pixel_count,
                first_error_from(self@.bytes, pixels@, 0) == first_error_from(self@.bytes, pixels@, i as int),
            decreases pixel_count - i,
        {
            let pixel = pixels[i];
            let ghost found = first_error_from(self@.bytes, pixels@, i as int);
            assert(found == if pixel_error(self@.bytes, pixel) is Some {
                pixel_error(self@.bytes, pixel)
            } else {
                first_error_from(self@.bytes, pixels@, i + 1)
            });
            if pixel.x >= CANVAS_WIDTH || pixel.y >= CANVAS_HEIGHT {
                return Err(Error::OverflowValue);
            }
            if pixel.colour > MAX_COLOUR || pixel.colour == 0 {
                return Err(Error::InvalidColor);
            }
            if self.get_pixel_internal(pixel.x, pixel.y) != 0 {
                return Err(Error::EntryExists);
            }
            i = i + 1;
        }
        Ok(())
    }

    /// Paints every record of `pixels`, in order, for `user`. The batch must hold 1 to
    /// 100 records, each record must pass the single-cell checks against the canvas as
    /// it stood before the batch, and the balance must cover the price of every record.
    /// Two records of one batch may name the same cell: the later one is written last,
    /// and both are recorded and credited. On failure nothing changes.
    pub fn place_multiple(&mut self, user: Principal, pixels: &Vec<PixelInfo>, authorized: bool, balance: i128) -> (r: Result<bool, Error>)
        requires
            old(self).well_formed(),
            old(self)@.ledger.len() + pixels@.len() <= u32::MAX,
        ensures
            final(self).well_formed(),
            r == match batch_outcome(old(self)@, pixels@, authorized, balance) {
                Ok(()) => Ok::<bool, Error>(true),
                Err(e) => Err(e),
            },
            r is Ok ==> final(self)@ == commit(old(self)@, user@, pixels@),
            r is Err ==> final(self)@ == old(self)@,
    {
        match self.check_batch(pixels, authorized) {
            Ok(()) => {},
            Err(e) => {
                return Err(e);
            },
        }
        let pixel_count = pixels.len();
        let total_cost = match PIXEL_PRICE.checked_mul(pixel_count as i128) {
            Some(c) => c,
            None => {
                return Err(Error::OverflowValue);
            },
        };
        if total_cost > balance {
            return Err(Error::LowBalance);
        }
        let ghost v0 = self@;
        let mut k: usize = 0;
        while k < pixel_count
            invariant
                pixel_count == pixels.len(),
                1 <= pixel_count <= MAX_PIXELS_PER_TX,
                0 <= k <= pixel_count,
                v0.wf(),
                v0.ledger.len() + pixel_count <= u32::MAX,
                first_error_from(v0.bytes, pixels@, 0) is None,
                self@.bytes == write_all(v0.bytes, pixels@.subrange(0, k as int)),
                self@.bytes.len() == CANVAS_BYTES,
                self@.ledger == v0.ledger + pixels@.subrange(0, k as int),
                self@.admin == v0.admin,
                self@.users == v0.users,
            decreases pixel_count - k,
        {
            let pixel = pixels[k];
            proof {
                lemma_first_error_none(v0.bytes, pixels@, 0, k as int);
            }
            self.set_pixel_internal(pixel.x, pixel.y, pixel.colour);
            self.painted.push(pixel);
            proof {
                let s = pixels@.subrange(0, k as int + 1);
                assert(s.drop_last() =~= pixels@.subrange(0, k as int));
                assert(self@.ledger =~= v0.ledger + s);
            }
            k = k + 1;
        }
        proof {
            assert(pixels@.subrange(0, pixel_count as int) =~= pixels@);
        }
        proof {
            lemma_count_within_ledger(v0, user@);
        }
        self.update_user_pixel_count(&user, pixel_count as u32);
        proof {
            assert forall|j: int| 0 <= j < pixels@.len() implies in_bounds(#[trigger] pixels@[j].x as int, pixels@[j].y as int)
                && pixels@[j].colour <= MAX_COLOUR by {
                lemma_first_error_none(v0.bytes, pixels@, 0, j);
            }
            lemma_commit_wf(v0, user@, pixels@);
        }
        Ok(true)
    }

    /// Colour of the cell at (x, y); 0 for an unpainted cell or one off the canvas.
    pub fn get_pixel(&self, x: u32, y: u32) -> (r: u32)
        requires
            self.well_formed(),
        ensures
            r == pixel_at(self@, x as int, y as int),
    {
        if x >= CANVAS_WIDTH || y >= CANVAS_HEIGHT {
            return 0;
        }
        self.get_pixel_internal(x, y)
    }

    /// Colours of the given cells, position by position, as `get_pixel` reads them.
    pub fn get_pixels(&self, coords: &Vec<(u32, u32)>) -> (r: Vec<u32>)
        requires
            self.well_formed(),
        ensures
            r@.len() == coords@.len(),
            forall|i: int|
                0 <= i < coords@.len() ==> #[trigger] r@[i] == pixel_at(
                    self@,
                    coords@[i].0 as int,
                    coords@[i].1 as int,
                ),
    {
        let mut result: Vec<u32> = Vec::new();
        let mut i: usize = 0;
        while i < coords.len()
            invariant
                self.well_formed(),
                0 <= i <= coords@.len(),
                result@.len() == i,
                forall|j: int|
                    0 <= j < i ==> #[trigger] result@[j] == pixel_at(
                        self@,
                        coords@[j].0 as int,
                        coords@[j].1 as int,
                    ),
            decreases coords@.len() - i,
        {
            let coord = coords[i];
            if coord.0 < CANVAS_WIDTH && coord.1 < CANVAS_HEIGHT {
                result.push(self.get_pixel_internal(coord.0, coord.1));
            } else {
                result.push(0);
            }
            i = i + 1;
        }
        result
    }

    /// Every successful placement, oldest first.
    pub fn list_painted_pixels(&self) -> (r: Vec<PixelInfo>)
        ensures
            r@ == self@.ledger,
    {
        let r = self.painted.clone();
        assert(r@ =~= self.painted@);
        r
    }

    /// Number of successful placements.
    pub fn get_pixel_count(&self) -> (r: u32)
        requires
            self.well_formed(),
        ensures
            r == self@.ledger.len(),
    {
        self.painted.len() as u32
    }

    /// Cells painted by `user`; 0 for a principal that never painted.
    pub fn get_user_pixel_count(&self, user: Principal) -> (r: u32)
        requires
            self.well_formed(),
        ensures
            r == count_of(self@.users, user@),
    {
        let ghost users = self@.users;
        match self.find_user(&user) {
            Some(i) => {
                assert(users[i as int] == self.users@[i as int]@);
                assert(users[i as int].0 == user@);
                assert(registered(users, user@));
                let ghost j = entry_index(users, user@);
                assert(users[j].0 == user@);
                assert(i as int == j);
                self.users[i].pixel_count
            },
            None => {
                assert forall|k: int| 0 <= k < users.len() implies users[k].0 != user@ by {
                    assert(users[k] == self.users@[k]@);
                }
                0
            },
        }
    }

    /// Each principal that has painted, in first-paint order, with its current count.
    pub fn get_leaderboard(&self) -> (r: Vec<LeaderboardEntry>)
        ensures
            r@.map_values(|e: LeaderboardEntry| e@) == self@.users,
    {
        let mut entries: Vec<LeaderboardEntry> = Vec::new();
        let mut i: usize = 0;
        while i < self.users.len()
            invariant
                0 <= i <= self.users.len(),
                entries@.len() == i,
                forall|j: int| 0 <= j < i ==> #[trigger] entries@[j]@ == self.users@[j]@,
            decreases self.users.len() - i,
        {
            let entry = LeaderboardEntry {
                address: self.users[i].address.copy_of(),
                pixel_count: self.users[i].pixel_count,
            };
            entries.push(entry);
            i = i + 1;
        }
        assert(entries@.map_values(|e: LeaderboardEntry| e@) =~= self@.users);
        entries
    }

    /// A greeting followed by `to`.
    pub fn hello(to: String) -> (r: Vec<String>)
        ensures
            r@.len() == 2,
            r@[0]@ == "Hello!"@,
            r@[1] == to,
    {
        let greeting = "Hello!".to_owned();
        vec![greeting, to]
    }
}

} // verus!
