use slider::{Board, BoardArray, BoardError, BoardHash, SomeBoard, HASH_LIMIT, START_BOARD};

const REVERSED: BoardArray = [15, 14, 13, 12, 11, 10, 9, 8, 7, 6, 5, 4, 3, 2, 1, 0];

fn pack(ba: &BoardArray) -> BoardHash {
    Board::array_to_hash(ba).unwrap()
}

fn unpack(bh: BoardHash) -> BoardArray {
    Board::hash_to_array(&bh).unwrap()
}

#[test]
fn board_conversions_0() {
    let start_board = Board::start();
    {
        let SomeBoard::Complete { bh, ba } = start_board.myboard;
        assert_eq!(bh, 0);
        assert_eq!(Board::array_to_hash(&Board::hash_to_array(&bh).unwrap()).unwrap(), bh);
        assert_eq!(Board::hash_to_array(&Board::array_to_hash(&ba).unwrap()).unwrap(), ba);
        assert_eq!(Board::array_to_hash(&ba).unwrap(), bh);
        assert_eq!(Board::hash_to_array(&bh).unwrap(), ba);
    }
}

#[test]
fn board_conversions_1() {
    let end_ba: [i8; 16] = [15, 14, 13, 12, 11, 10, 9, 8, 7, 6, 5, 4, 3, 2, 1, 0];
    let end_bh: u64 = 0x0001_b977_89ab_cdefu64;
    {
        let rt_bd = Board::hash_to_array(&Board::array_to_hash(&end_ba).unwrap()).unwrap();
        assert_eq!(rt_bd, end_ba);

        assert_eq!(
            format!(
                "0x{:013x}",
                Board::array_to_hash(&Board::hash_to_array(&end_bh).unwrap()).unwrap()
            ),
            format!("0x{:013x}", &end_bh)
        );
    }
    {
        let eh = Board::array_to_hash(&end_ba).unwrap();
        assert_eq!(format!("0x{:013x}", eh), format!("0x{:013x}", end_bh));
    }
}

#[test]
fn start_holds_the_identity_in_both_forms() {
    let SomeBoard::Complete { bh, ba } = Board::start().myboard;
    assert_eq!(bh, 0);
    assert_eq!(ba, [0, 1, 2, 3, 4, 5, 6, 7, 8, 9, 10, 11, 12, 13, 14, 15]);
    assert_eq!(ba, START_BOARD);
}

#[test]
fn identity_packs_to_zero_and_back() {
    assert_eq!(Board::array_to_hash(&START_BOARD), Ok(0));
    assert_eq!(Board::hash_to_array(&0), Ok(START_BOARD));
}

#[test]
fn reversed_board_packs_to_its_literal() {
    assert_eq!(Board::array_to_hash(&REVERSED), Ok(0x0001_b977_89ab_cdef));
}

#[test]
fn reversed_literal_unpacks_to_the_reversed_board() {
    assert_eq!(Board::hash_to_array(&0x0001_b977_89ab_cdef), Ok(REVERSED));
}

#[test]
fn packing_stores_the_distance_above_the_lowest_free_symbol() {
    assert_eq!(pack(&[4, 3, 2, 1, 0, 5, 6, 7, 8, 9, 10, 11, 12, 13, 14, 15]), 0x1234);
    assert_eq!(
        pack(&[3, 2, 1, 0, 7, 6, 5, 4, 11, 10, 9, 8, 15, 14, 13, 12]),
        0x1_b053_0123_0123
    );
    assert_eq!(
        pack(&[1, 0, 3, 2, 5, 4, 7, 6, 9, 8, 11, 10, 13, 12, 15, 14]),
        0x1_1041_0101_0101
    );
    assert_eq!(
        pack(&[0, 1, 2, 3, 4, 5, 6, 7, 8, 9, 10, 11, 12, 13, 15, 14]),
        0x1_0000_0000_0000
    );
    // Tile 2 at position 1 lies two above the lowest free symbol, 0, though
    // only one free symbol is below it.
    assert_eq!(pack(&[1, 2, 0, 3, 4, 5, 6, 7, 8, 9, 10, 11, 12, 13, 14, 15]), 0x21);
}

#[test]
fn unpacking_takes_the_nth_free_symbol_of_each_field() {
    assert_eq!(unpack(0xe0), [0, 15, 1, 2, 3, 4, 5, 6, 7, 8, 9, 10, 11, 12, 13, 14]);
    assert_eq!(unpack(0x21), [1, 3, 0, 2, 4, 5, 6, 7, 8, 9, 10, 11, 12, 13, 14, 15]);
    assert_eq!(unpack(6 << 35), [0, 1, 2, 3, 4, 5, 6, 7, 8, 15, 9, 10, 11, 12, 13, 14]);
    assert_eq!(unpack(4 << 41), [0, 1, 2, 3, 4, 5, 6, 7, 8, 9, 10, 15, 11, 12, 13, 14]);
    assert_eq!(unpack(3 << 44), [0, 1, 2, 3, 4, 5, 6, 7, 8, 9, 10, 11, 15, 12, 13, 14]);
    assert_eq!(unpack(2 << 46), [0, 1, 2, 3, 4, 5, 6, 7, 8, 9, 10, 11, 12, 15, 13, 14]);
    assert_eq!(unpack(1 << 48), [0, 1, 2, 3, 4, 5, 6, 7, 8, 9, 10, 11, 12, 13, 15, 14]);
}

#[test]
fn gap_free_boards_come_back() {
    let boards: [BoardArray; 6] = [
        START_BOARD,
        REVERSED,
        [4, 3, 2, 1, 0, 5, 6, 7, 8, 9, 10, 11, 12, 13, 14, 15],
        [3, 2, 1, 0, 7, 6, 5, 4, 11, 10, 9, 8, 15, 14, 13, 12],
        [1, 0, 3, 2, 5, 4, 7, 6, 9, 8, 11, 10, 13, 12, 15, 14],
        [13, 12, 11, 10, 9, 8, 7, 6, 5, 4, 3, 2, 1, 0, 15, 14],
    ];
    for ba in boards.iter() {
        let bh = pack(ba);
        assert!(bh < (1 << 49));
        assert!(bh < HASH_LIMIT);
        assert_eq!(unpack(bh), *ba);
        assert_eq!(pack(&unpack(bh)), bh);
    }
}

#[test]
fn a_board_with_a_gap_does_not_come_back() {
    let ba: BoardArray = [1, 2, 0, 3, 4, 5, 6, 7, 8, 9, 10, 11, 12, 13, 14, 15];
    let back = unpack(pack(&ba));
    assert_eq!(back, [1, 3, 0, 2, 4, 5, 6, 7, 8, 9, 10, 11, 12, 13, 14, 15]);
    assert_ne!(back, ba);
}

#[test]
fn a_packed_word_can_pass_the_limit() {
    let ba: BoardArray = [14, 13, 12, 11, 10, 9, 8, 7, 6, 5, 4, 3, 2, 1, 15, 0];
    let bh = pack(&ba);
    assert_eq!(bh, 0xf_672e_789a_bcde);
    assert!(bh >= HASH_LIMIT);
    // Bits 49 and above belong to no field, so the board still comes back.
    assert_eq!(unpack(bh), ba);
}

#[test]
fn the_limit_is_two_to_the_fiftieth() {
    assert_eq!(HASH_LIMIT, 1u64 << 50);
}

#[test]
fn array_with_a_repeated_value_is_refused() {
    let mut ba = START_BOARD;
    ba[15] = 0;
    assert_eq!(Board::array_to_hash(&ba), Err(BoardError::InvalidPermutation));
    let mut ba = START_BOARD;
    ba[0] = 1;
    assert_eq!(Board::array_to_hash(&ba), Err(BoardError::InvalidPermutation));
    assert_eq!(Board::array_to_hash(&[7; 16]), Err(BoardError::InvalidPermutation));
}

#[test]
fn array_with_a_value_out_of_range_is_refused() {
    for bad in [16i8, 17, 31, 32, 127, -1, -16, -128] {
        for at in 0..16 {
            let mut ba = START_BOARD;
            ba[at] = bad;
            assert_eq!(Board::array_to_hash(&ba), Err(BoardError::InvalidPermutation));
        }
    }
}

#[test]
fn word_with_an_overfull_field_is_refused() {
    assert_eq!(Board::hash_to_array(&0xf0), Err(BoardError::InvalidHash));
    assert_eq!(Board::hash_to_array(&(7 << 35)), Err(BoardError::InvalidHash));
    assert_eq!(Board::hash_to_array(&(3 << 46)), Err(BoardError::InvalidHash));
    assert_eq!(Board::hash_to_array(&0x3_ffff_ffff_ffff), Err(BoardError::InvalidHash));
    assert_eq!(Board::hash_to_array(&u64::MAX), Err(BoardError::InvalidHash));
}

#[test]
fn each_field_is_refused_from_its_own_bound() {
    let shifts: [u32; 16] = [0, 4, 8, 12, 16, 20, 24, 28, 32, 35, 38, 41, 44, 46, 48, 49];
    let masks: [u64; 16] = [15, 15, 15, 15, 15, 15, 15, 15, 7, 7, 7, 7, 3, 3, 1, 0];
    for i in 0..16 {
        for value in 0..=masks[i] {
            let bh = value << shifts[i];
            let r = Board::hash_to_array(&bh);
            if value < 16 - i as u64 {
                let ba = r.unwrap();
                assert_eq!(ba[i] as u64, i as u64 + value);
            } else {
                assert_eq!(r, Err(BoardError::InvalidHash));
            }
        }
    }
}

#[test]
fn bits_above_the_fields_are_not_looked_at() {
    assert_eq!(unpack(1 << 49), START_BOARD);
    assert_eq!(unpack(1 << 50), START_BOARD);
    assert_eq!(unpack(0xffff << 49), START_BOARD);
    assert_eq!(unpack((1 << 50) | 0x21), unpack(0x21));
    assert_eq!(unpack((1 << 63) | 0x0001_b977_89ab_cdef), REVERSED);
}

// What follows holds the library to a second, plainer way of computing the
// same things, over boards and words drawn from a fixed sequence.

fn next_draw(state: &mut u64) -> u64 {
    *state = state.wrapping_mul(6364136223846793005).wrapping_add(1442695040888963407);
    *state >> 33
}

fn shuffled(state: &mut u64) -> BoardArray {
    let mut ba = START_BOARD;
    for i in (1..16).rev() {
        let j = (next_draw(state) % (i as u64 + 1)) as usize;
        ba.swap(i, j);
    }
    ba
}

fn free_before(ba: &BoardArray, i: usize) -> Vec<i8> {
    (0..16i8).filter(|v| !ba[..i].contains(v)).collect()
}

fn plain_pack(ba: &BoardArray) -> u64 {
    let shifts: [u32; 16] = [0, 4, 8, 12, 16, 20, 24, 28, 32, 35, 38, 41, 44, 46, 48, 49];
    let mut bh: u64 = 0;
    for i in 0..16 {
        let lowest = free_before(ba, i)[0];
        bh |= ((ba[i] - lowest) as u64) << shifts[i];
    }
    bh
}

fn plain_unpack(bh: u64) -> Option<BoardArray> {
    let shifts: [u32; 16] = [0, 4, 8, 12, 16, 20, 24, 28, 32, 35, 38, 41, 44, 46, 48, 49];
    let masks: [u64; 16] = [15, 15, 15, 15, 15, 15, 15, 15, 7, 7, 7, 7, 3, 3, 1, 0];
    let mut ba: BoardArray = [0; 16];
    for i in 0..16 {
        let wanted = ((bh >> shifts[i]) & masks[i]) as usize;
        let free = free_before(&ba, i);
        if wanted >= free.len() {
            return None;
        }
        ba[i] = free[wanted];
    }
    Some(ba)
}

fn is_gap_free(ba: &BoardArray) -> bool {
    (0..16).all(|i| {
        let lowest = free_before(ba, i)[0];
        (0..i).all(|j| !(lowest < ba[j] && ba[j] < ba[i]))
    })
}

#[test]
fn packing_agrees_with_the_plain_computation() {
    let mut state: u64 = 1;
    for _ in 0..2000 {
        let ba = shuffled(&mut state);
        assert_eq!(pack(&ba), plain_pack(&ba));
    }
}

#[test]
fn unpacking_agrees_with_the_plain_computation() {
    let mut state: u64 = 2;
    let mut accepted = 0;
    for round in 0..4000 {
        let mut bh = (next_draw(&mut state) << 31) ^ next_draw(&mut state);
        if round % 2 == 0 {
            // Thin the word out so that more of them are accepted.
            bh &= (next_draw(&mut state) << 31) ^ next_draw(&mut state);
            bh &= 0x1_2492_7777_7777;
        }
        match plain_unpack(bh) {
            Some(ba) => {
                accepted += 1;
                assert_eq!(Board::hash_to_array(&bh), Ok(ba));
            }
            None => assert_eq!(Board::hash_to_array(&bh), Err(BoardError::InvalidHash)),
        }
    }
    assert!(accepted > 100);
}

#[test]
fn every_unpacked_board_holds_each_symbol_once() {
    let mut state: u64 = 3;
    for _ in 0..2000 {
        let ba = shuffled(&mut state);
        if let Ok(back) = Board::hash_to_array(&pack(&ba)) {
            let mut seen = [false; 16];
            for v in back {
                assert!((0..16).contains(&v));
                assert!(!seen[v as usize]);
                seen[v as usize] = true;
            }
        }
    }
}

#[test]
fn a_board_comes_back_exactly_where_its_fields_hold_its_ranks() {
    let shifts: [u32; 16] = [0, 4, 8, 12, 16, 20, 24, 28, 32, 35, 38, 41, 44, 46, 48, 49];
    let masks: [u64; 16] = [15, 15, 15, 15, 15, 15, 15, 15, 7, 7, 7, 7, 3, 3, 1, 0];
    let mut state: u64 = 4;
    let mut came_back = 0;
    let mut gap_free = 0;
    for round in 0..6000 {
        let mut ba = shuffled(&mut state);
        if round % 2 == 0 {
            // Sorting a stretch downwards makes a gap-free board likelier.
            ba.sort();
            let cut = (next_draw(&mut state) % 16) as usize;
            ba[..cut].reverse();
        }
        let bh = pack(&ba);
        let reads_back = (0..16).all(|i| {
            let rank = free_before(&ba, i).iter().filter(|v| **v < ba[i]).count() as u64;
            (bh >> shifts[i]) & masks[i] == rank
        });
        let back = Board::hash_to_array(&bh);
        assert_eq!(back == Ok(ba), reads_back);
        if reads_back {
            came_back += 1;
        }
        if is_gap_free(&ba) {
            gap_free += 1;
            assert!(reads_back);
            assert!(bh < (1 << 49));
        }
    }
    assert!(came_back > 100);
    assert!(gap_free > 100);
}

#[test]
fn a_packed_word_is_under_the_limit_exactly_by_its_last_two_tiles() {
    let mut state: u64 = 5;
    let mut over = 0;
    for _ in 0..4000 {
        let ba = shuffled(&mut state);
        let under = pack(&ba) < HASH_LIMIT;
        assert_eq!(under, ba[14] < ba[15] + 4);
        if !under {
            over += 1;
        }
    }
    assert!(over > 100);
}

#[test]
fn the_stored_values_are_the_ranks_exactly_on_gap_free_boards() {
    let mut state: u64 = 6;
    let mut with_gap = 0;
    let mut without = 0;
    for round in 0..6000 {
        let mut ba = shuffled(&mut state);
        if round % 2 == 0 {
            ba.sort();
            let cut = (next_draw(&mut state) % 16) as usize;
            ba[cut..].reverse();
        }
        let stores_ranks = (0..16).all(|i| {
            let free = free_before(&ba, i);
            let rank = free.iter().filter(|v| **v < ba[i]).count() as i8;
            ba[i] - free[0] == rank
        });
        assert_eq!(stores_ranks, is_gap_free(&ba));
        if stores_ranks {
            without += 1;
        } else {
            with_gap += 1;
        }
    }
    assert!(with_gap > 100);
    assert!(without > 100);
}
