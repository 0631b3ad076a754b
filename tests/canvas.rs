use pixelfun::{Contract, Error, LeaderboardEntry, PixelInfo, Principal};

const PRICE: i128 = 10_000_000;
const RICH: i128 = 1_000_000_000_000;

fn principal(name: &str) -> Principal {
    Principal { key: name.as_bytes().to_vec() }
}

fn ready() -> (Contract, Principal) {
    let mut c = Contract::new();
    let admin = principal("GADMIN");
    assert_eq!(c.init(admin.clone(), true), Ok(()));
    (c, admin)
}

fn px(x: u32, y: u32, colour: u32) -> PixelInfo {
    PixelInfo { x, y, colour }
}

#[test]
fn fresh_canvas_is_unpainted() {
    let (c, _) = ready();
    for &(x, y) in &[(0u32, 0u32), (1, 0), (361, 361), (180, 200), (0, 361)] {
        assert_eq!(c.get_pixel(x, y), 0);
    }
    assert_eq!(c.get_pixel_count(), 0);
    assert!(c.get_leaderboard().is_empty());
    assert!(c.list_painted_pixels().is_empty());
}

#[test]
fn pixel_location_packs_two_cells_per_byte() {
    assert_eq!(Contract::get_pixel_location(0, 0), (0, true));
    assert_eq!(Contract::get_pixel_location(1, 0), (0, false));
    assert_eq!(Contract::get_pixel_location(2, 0), (1, true));
    assert_eq!(Contract::get_pixel_location(0, 1), (181, true));
    assert_eq!(Contract::get_pixel_location(361, 361), (65521, false));
}

#[test]
fn set_cell_keeps_byte_neighbour() {
    let (mut c, _) = ready();
    let u = principal("GUSER");
    assert_eq!(c.place(u.clone(), 0, 0, 5, true, RICH), Ok(true));
    assert_eq!(c.get_pixel(0, 0), 5);
    assert_eq!(c.get_pixel(1, 0), 0);
    assert_eq!(c.place(u.clone(), 1, 0, 9, true, RICH), Ok(true));
    assert_eq!(c.get_pixel(0, 0), 5);
    assert_eq!(c.get_pixel(1, 0), 9);
    assert_eq!(c.place(u.clone(), 361, 361, 15, true, RICH), Ok(true));
    assert_eq!(c.get_pixel(360, 361), 0);
    assert_eq!(c.get_pixel(361, 361), 15);
}

#[test]
fn second_place_on_same_cell_fails_entry_exists() {
    let (mut c, _) = ready();
    let u = principal("GUSER");
    assert_eq!(c.place(u.clone(), 10, 20, 3, true, RICH), Ok(true));
    let ledger = c.list_painted_pixels();
    assert_eq!(c.place(u.clone(), 10, 20, 3, true, RICH), Err(Error::EntryExists));
    assert_eq!(c.place(u.clone(), 10, 20, 4, true, RICH), Err(Error::EntryExists));
    assert_eq!(c.get_pixel(10, 20), 3);
    assert_eq!(c.list_painted_pixels(), ledger);
    assert_eq!(c.get_user_pixel_count(u.clone()), 1);
    assert_eq!(c.get_pixel_count(), 1);
}

#[test]
fn invalid_colour_fails_without_effect() {
    let (mut c, _) = ready();
    let u = principal("GUSER");
    assert_eq!(c.place(u.clone(), 5, 5, 0, true, RICH), Err(Error::InvalidColor));
    assert_eq!(c.place(u.clone(), 5, 5, 16, true, RICH), Err(Error::InvalidColor));
    assert_eq!(c.get_pixel(5, 5), 0);
    assert_eq!(c.get_pixel_count(), 0);
    assert_eq!(c.get_user_pixel_count(u.clone()), 0);
    assert!(c.get_leaderboard().is_empty());
}

#[test]
fn off_canvas_place_fails_overflow() {
    let (mut c, _) = ready();
    let u = principal("GUSER");
    assert_eq!(c.place(u.clone(), 362, 0, 1, true, RICH), Err(Error::OverflowValue));
    assert_eq!(c.place(u.clone(), 0, 362, 1, true, RICH), Err(Error::OverflowValue));
    assert_eq!(c.place(u.clone(), u32::MAX, u32::MAX, 1, true, RICH), Err(Error::OverflowValue));
    assert_eq!(c.get_pixel_count(), 0);
    assert!(c.get_leaderboard().is_empty());
}

#[test]
fn off_canvas_is_checked_before_colour() {
    let (mut c, _) = ready();
    let u = principal("GUSER");
    assert_eq!(c.place(u.clone(), 400, 0, 0, true, RICH), Err(Error::OverflowValue));
}

#[test]
fn batch_size_limits() {
    let (mut c, _) = ready();
    let u = principal("GUSER");
    assert_eq!(c.place_multiple(u.clone(), &vec![], true, RICH), Err(Error::InvalidPixelCount));
    let too_many: Vec<PixelInfo> = (0..101).map(|i| px(i, 0, 1)).collect();
    assert_eq!(c.place_multiple(u.clone(), &too_many, true, RICH), Err(Error::TooManyPixels));
    assert_eq!(c.get_pixel(0, 0), 0);
    assert_eq!(c.get_pixel_count(), 0);
    let exactly: Vec<PixelInfo> = (0..100).map(|i| px(i, 0, 1)).collect();
    assert_eq!(c.place_multiple(u.clone(), &exactly, true, RICH), Ok(true));
    assert_eq!(c.get_pixel_count(), 100);
}

#[test]
fn batch_with_one_bad_entry_commits_nothing() {
    let (mut c, _) = ready();
    let u = principal("GUSER");
    let mut pixels: Vec<PixelInfo> = (0..60).map(|i| px(i, 7, 2)).collect();
    pixels[50].colour = 16;
    assert_eq!(c.place_multiple(u.clone(), &pixels, true, RICH), Err(Error::InvalidColor));
    for i in 0..60 {
        assert_eq!(c.get_pixel(i, 7), 0);
    }
    assert_eq!(c.get_pixel_count(), 0);
    assert_eq!(c.get_user_pixel_count(u.clone()), 0);
    assert!(c.get_leaderboard().is_empty());
}

#[test]
fn batch_errors_by_kind() {
    let (mut c, _) = ready();
    let u = principal("GUSER");
    assert_eq!(c.place(u.clone(), 3, 3, 1, true, RICH), Ok(true));
    let off = vec![px(0, 0, 1), px(0, 400, 1)];
    assert_eq!(c.place_multiple(u.clone(), &off, true, RICH), Err(Error::OverflowValue));
    let painted = vec![px(0, 0, 1), px(3, 3, 2)];
    assert_eq!(c.place_multiple(u.clone(), &painted, true, RICH), Err(Error::EntryExists));
    let first_wins = vec![px(3, 3, 0), px(500, 0, 1)];
    assert_eq!(c.place_multiple(u.clone(), &first_wins, true, RICH), Err(Error::InvalidColor));
    assert_eq!(c.get_pixel(0, 0), 0);
    assert_eq!(c.get_pixel_count(), 1);
}

#[test]
fn single_placements_are_counted() {
    let (mut c, _) = ready();
    let u = principal("GPAINTER");
    for i in 0..100u32 {
        assert_eq!(c.place(u.clone(), i % 50, i / 50, 1 + i % 15, true, RICH), Ok(true));
    }
    assert_eq!(c.get_user_pixel_count(u.clone()), 100);
    assert_eq!(c.get_pixel_count(), 100);
    let board = c.get_leaderboard();
    assert_eq!(board.iter().filter(|e| e.address == u).count(), 1);
    assert_eq!(board, vec![LeaderboardEntry { address: u.clone(), pixel_count: 100 }]);
}

#[test]
fn out_of_bounds_reads_are_zero() {
    let (mut c, _) = ready();
    let u = principal("GUSER");
    assert_eq!(c.place(u.clone(), 0, 0, 4, true, RICH), Ok(true));
    assert_eq!(c.get_pixel(362, 0), 0);
    assert_eq!(c.get_pixel(0, 362), 0);
    assert_eq!(c.get_pixel(u32::MAX, u32::MAX), 0);
}

#[test]
fn many_distinct_cells_round_trip() {
    let (mut c, _) = ready();
    let u = principal("GBULK");
    let total: u64 = 362 * 362;
    let mut seed: u64 = 0x2545_f491_4f6c_dd1d;
    let mut expected: Vec<(u32, u32, u32)> = Vec::new();
    let mut batch: Vec<PixelInfo> = Vec::new();
    for k in 0..100_000u64 {
        // 7919 is prime and does not divide 131044, so k * 7919 visits distinct cells.
        let cell = (k * 7919) % total;
        let (x, y) = ((cell % 362) as u32, (cell / 362) as u32);
        seed = seed.wrapping_mul(6364136223846793005).wrapping_add(1442695040888963407);
        let colour = 1 + ((seed >> 33) % 15) as u32;
        expected.push((x, y, colour));
        batch.push(px(x, y, colour));
        if batch.len() == 100 {
            assert_eq!(c.place_multiple(u.clone(), &batch, true, RICH), Ok(true));
            batch.clear();
        }
    }
    for &(x, y, colour) in &expected {
        assert_eq!(c.get_pixel(x, y), colour);
    }
    assert_eq!(c.get_pixel_count(), 100_000);
    assert_eq!(c.get_user_pixel_count(u.clone()), 100_000);
}

#[test]
fn init_rules() {
    let mut c = Contract::new();
    let admin = principal("GADMIN");
    assert!(!c.is_initialized());
    assert_eq!(c.init(admin.clone(), false), Err(Error::Unauthenticated));
    assert!(!c.is_initialized());
    assert_eq!(c.init(admin.clone(), true), Ok(()));
    assert!(c.is_initialized());
    assert_eq!(c.init(principal("GOTHER"), true), Err(Error::AlreadyInitialized));
    assert_eq!(c.init(principal("GOTHER"), false), Err(Error::AlreadyInitialized));
}

#[test]
fn placing_before_init_fails() {
    let mut c = Contract::new();
    let u = principal("GUSER");
    assert_eq!(c.place(u.clone(), 1, 1, 1, true, RICH), Err(Error::NotInitialized));
    assert_eq!(c.place_multiple(u.clone(), &vec![px(1, 1, 1)], true, RICH), Err(Error::NotInitialized));
    assert_eq!(c.get_pixel(1, 1), 0);
}

#[test]
fn unauthenticated_caller_is_refused_first() {
    let mut c = Contract::new();
    let u = principal("GUSER");
    assert_eq!(c.place(u.clone(), 1, 1, 1, false, RICH), Err(Error::Unauthenticated));
    assert_eq!(c.place_multiple(u.clone(), &vec![], false, RICH), Err(Error::Unauthenticated));
    let (mut c, _) = ready();
    assert_eq!(c.place(u.clone(), 1, 1, 1, false, RICH), Err(Error::Unauthenticated));
    assert_eq!(c.get_pixel(1, 1), 0);
}

#[test]
fn balance_must_cover_the_price() {
    let (mut c, _) = ready();
    let u = principal("GUSER");
    assert_eq!(c.place(u.clone(), 1, 1, 1, true, PRICE - 1), Err(Error::LowBalance));
    assert_eq!(c.get_pixel(1, 1), 0);
    assert_eq!(c.place(u.clone(), 1, 1, 1, true, PRICE), Ok(true));
    let three = vec![px(2, 2, 1), px(3, 3, 1), px(4, 4, 1)];
    assert_eq!(c.place_multiple(u.clone(), &three, true, 3 * PRICE - 1), Err(Error::LowBalance));
    assert_eq!(c.get_pixel(2, 2), 0);
    assert_eq!(c.place_multiple(u.clone(), &three, true, 3 * PRICE), Ok(true));
    assert_eq!(c.get_pixel(4, 4), 1);
}

#[test]
fn duplicate_cells_in_one_batch_overwrite_and_double_count() {
    let (mut c, _) = ready();
    let u = principal("GUSER");
    let dup = vec![px(8, 8, 3), px(8, 8, 11)];
    assert_eq!(c.place_multiple(u.clone(), &dup, true, RICH), Ok(true));
    assert_eq!(c.get_pixel(8, 8), 11);
    assert_eq!(c.list_painted_pixels(), dup);
    assert_eq!(c.get_user_pixel_count(u.clone()), 2);
}

#[test]
fn batch_appends_ledger_in_order() {
    let (mut c, _) = ready();
    let u = principal("GUSER");
    assert_eq!(c.place(u.clone(), 9, 9, 2, true, RICH), Ok(true));
    let batch = vec![px(1, 2, 3), px(4, 5, 6)];
    assert_eq!(c.place_multiple(u.clone(), &batch, true, RICH), Ok(true));
    assert_eq!(c.list_painted_pixels(), vec![px(9, 9, 2), px(1, 2, 3), px(4, 5, 6)]);
    assert_eq!(c.get_pixel_count(), 3);
}

#[test]
fn get_pixels_follows_input_order() {
    let (mut c, _) = ready();
    let u = principal("GUSER");
    assert_eq!(c.place(u.clone(), 1, 1, 7, true, RICH), Ok(true));
    assert_eq!(c.place(u.clone(), 2, 1, 12, true, RICH), Ok(true));
    let coords = vec![(2, 1), (400, 1), (1, 1), (0, 0)];
    assert_eq!(c.get_pixels(&coords), vec![12, 0, 7, 0]);
    assert!(c.get_pixels(&vec![]).is_empty());
}

#[test]
fn leaderboard_keeps_first_paint_order() {
    let (mut c, _) = ready();
    let a = principal("GALICE");
    let b = principal("GBOB");
    assert_eq!(c.place(b.clone(), 0, 0, 1, true, RICH), Ok(true));
    assert_eq!(c.place_multiple(a.clone(), &vec![px(1, 0, 1), px(2, 0, 1), px(3, 0, 1)], true, RICH), Ok(true));
    assert_eq!(c.place(b.clone(), 4, 0, 1, true, RICH), Ok(true));
    assert_eq!(
        c.get_leaderboard(),
        vec![
            LeaderboardEntry { address: b.clone(), pixel_count: 2 },
            LeaderboardEntry { address: a.clone(), pixel_count: 3 },
        ]
    );
    assert_eq!(c.get_user_pixel_count(a.clone()), 3);
    assert_eq!(c.get_user_pixel_count(b.clone()), 2);
    assert_eq!(c.get_user_pixel_count(principal("GNOBODY")), 0);
}

#[test]
fn hello_greets() {
    let r = Contract::hello(String::from("world"));
    assert_eq!(r, vec![String::from("Hello!"), String::from("world")]);
}

#[test]
fn cells_pack_into_bytes() {
    let (mut c, _) = ready();
    let u = principal("GUSER");
    assert_eq!(c.place(u.clone(), 0, 0, 5, true, RICH), Ok(true));
    assert_eq!(c.packed_bytes()[0], 0x50);
    assert_eq!(c.place(u.clone(), 1, 0, 9, true, RICH), Ok(true));
    assert_eq!(c.packed_bytes()[0], 0x59);
    assert_eq!(c.place(u.clone(), 361, 361, 12, true, RICH), Ok(true));
    assert_eq!(c.packed_bytes()[65521], 0x0c);
    assert_eq!(c.packed_bytes().len(), 65522);
}

#[test]
fn admin_is_recorded_once() {
    let mut c = Contract::new();
    assert_eq!(c.get_admin(), Err(Error::NotInitialized));
    assert_eq!(c.init(principal("GADMIN"), true), Ok(()));
    assert_eq!(c.get_admin(), Ok(principal("GADMIN")));
}

#[test]
fn state_rebuilds_from_parts() {
    let (mut c, admin) = ready();
    let a = principal("GALICE");
    assert_eq!(c.place_multiple(a.clone(), &vec![px(5, 6, 7), px(8, 9, 10)], true, RICH), Ok(true));
    let rebuilt = Contract::from_parts(
        c.packed_bytes(),
        Some(admin.clone()),
        c.list_painted_pixels(),
        c.get_leaderboard(),
    )
    .expect("consistent parts");
    assert_eq!(rebuilt.get_pixel(5, 6), 7);
    assert_eq!(rebuilt.get_pixel(8, 9), 10);
    assert_eq!(rebuilt.get_user_pixel_count(a.clone()), 2);
    assert_eq!(rebuilt.get_pixel_count(), 2);
    assert_eq!(rebuilt.get_admin(), Ok(admin));
}

#[test]
fn inconsistent_parts_are_refused() {
    let (mut c, admin) = ready();
    let a = principal("GALICE");
    assert_eq!(c.place(a.clone(), 1, 1, 1, true, RICH), Ok(true));
    let entry = LeaderboardEntry { address: a.clone(), pixel_count: 1 };
    let some_admin = Some(admin.clone());
    assert!(Contract::from_parts(vec![0; 10], some_admin.clone(), vec![], vec![]).is_none());
    let twice = vec![entry.clone(), entry.clone()];
    assert!(Contract::from_parts(c.packed_bytes(), some_admin.clone(), c.list_painted_pixels(), twice).is_none());
    let zero = vec![LeaderboardEntry { address: a.clone(), pixel_count: 0 }];
    assert!(Contract::from_parts(c.packed_bytes(), some_admin.clone(), c.list_painted_pixels(), zero).is_none());
    let too_many = vec![LeaderboardEntry { address: a.clone(), pixel_count: 2 }];
    assert!(Contract::from_parts(c.packed_bytes(), some_admin.clone(), c.list_painted_pixels(), too_many).is_none());
    assert!(Contract::from_parts(c.packed_bytes(), some_admin.clone(), c.list_painted_pixels(), vec![entry.clone()]).is_some());
}

#[test]
fn parts_without_admin_must_be_empty() {
    let (mut c, _) = ready();
    let a = principal("GALICE");
    assert_eq!(c.place(a.clone(), 1, 1, 1, true, RICH), Ok(true));
    let entry = LeaderboardEntry { address: a.clone(), pixel_count: 1 };
    assert!(Contract::from_parts(c.packed_bytes(), None, c.list_painted_pixels(), vec![entry]).is_none());
    assert!(Contract::from_parts(c.packed_bytes(), None, c.list_painted_pixels(), vec![]).is_none());
    assert!(Contract::from_parts(c.packed_bytes(), None, vec![], vec![]).is_some());
}

#[test]
fn counts_survive_every_call() {
    let (mut c, admin) = ready();
    let a = principal("GALICE");
    assert_eq!(c.place(a.clone(), 1, 1, 1, true, RICH), Ok(true));
    assert_eq!(c.init(admin.clone(), true), Err(Error::AlreadyInitialized));
    assert_eq!(c.place(a.clone(), 1, 1, 2, true, RICH), Err(Error::EntryExists));
    assert_eq!(c.get_user_pixel_count(a.clone()), 1);
    assert_eq!(c.get_pixel_count(), 1);
}

#[test]
fn checks_before_balance() {
    let (mut c, _) = ready();
    let a = principal("GALICE");
    assert_eq!(c.check_place(5, 5, 3, true), Ok(()));
    assert_eq!(c.check_place(5, 5, 3, false), Err(Error::Unauthenticated));
    assert_eq!(c.check_place(362, 5, 3, true), Err(Error::OverflowValue));
    assert_eq!(c.check_place(5, 5, 16, true), Err(Error::InvalidColor));
    assert_eq!(c.place(a.clone(), 5, 5, 3, true, RICH), Ok(true));
    assert_eq!(c.check_place(5, 5, 3, true), Err(Error::EntryExists));
    assert_eq!(c.check_batch(&vec![px(6, 6, 1)], true), Ok(()));
    assert_eq!(c.check_batch(&vec![], true), Err(Error::InvalidPixelCount));
    assert_eq!(c.check_batch(&vec![px(6, 6, 1), px(5, 5, 1)], true), Err(Error::EntryExists));
    assert_eq!(c.check_batch(&vec![px(6, 6, 1)], false), Err(Error::Unauthenticated));
    assert_eq!(c.get_pixel(6, 6), 0);
    let fresh = Contract::new();
    assert_eq!(fresh.check_place(1, 1, 1, true), Err(Error::NotInitialized));
    assert_eq!(fresh.check_batch(&vec![px(1, 1, 1)], true), Err(Error::NotInitialized));
}
