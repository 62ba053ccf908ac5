use minicact::HIDDEN;
use minicact::board::{Board, BoardError, min_4};
use minicact::transform::Transform;

const H: u8 = HIDDEN;

fn board(cells: [u8; 9]) -> Board {
    match Board::try_new(cells) {
        Ok(b) => b,
        Err(_) => panic!("cells should form a board"),
    }
}

#[test]
fn try_new_accepts_valid_cells() {
    let b = board([0, H, H, 3, H, 6, H, 8, H]);
    assert_eq!(b.state, [0, H, H, 3, H, 6, H, 8, H]);
    assert_eq!(b.remaining_digits(), 5);
    assert!(b.unused_nums.contains(1));
    assert!(!b.unused_nums.contains(0));
}

#[test]
fn try_new_rejects_out_of_range_cell() {
    assert!(matches!(Board::try_new([9, H, H, H, H, H, H, H, H]), Err(BoardError::CellOutOfRange)));
    assert!(matches!(Board::try_new([H, H, 254, H, H, H, H, H, H]), Err(BoardError::CellOutOfRange)));
}

#[test]
fn try_new_rejects_duplicate_digit() {
    assert!(matches!(Board::try_new([4, H, H, H, 4, H, H, H, H]), Err(BoardError::DuplicateDigit)));
}

#[test]
fn starting_board_is_fully_hidden() {
    let b = Board::starting();
    assert_eq!(b.state, [H; 9]);
    assert_eq!(b.remaining_digits(), 9);
}

#[test]
fn child_places_digit_and_removes_it() {
    let b = Board::starting();
    let c = b.child(4, 7);
    assert_eq!(c.state[4], 7);
    assert_eq!(c.remaining_digits(), 8);
    assert!(!c.unused_nums.contains(7));
    // the parent is untouched
    assert_eq!(b.state, [H; 9]);
    assert_eq!(b.remaining_digits(), 9);
}

#[test]
fn min_4_picks_least() {
    assert_eq!(min_4(3, 7, 1, 8), 1);
    assert_eq!(min_4(H, H, H, H), H);
    assert_eq!(min_4(H, 0, H, H), 0);
}

#[test]
fn corner_board_canonicalizes_from_every_orientation() {
    // digits 0, 3, 6 along the left column, shown to the canonicalizer in
    // each of the 8 orientations: all must give one canonical key.
    let orientations: [[u8; 9]; 8] = [
        [0, H, H, 3, H, H, 6, H, H],
        [H, H, 0, H, H, 3, H, H, 6],
        [6, 3, 0, H, H, H, H, H, H],
        [H, H, H, H, H, H, 0, 3, 6],
        [H, H, 6, H, H, 3, H, H, 0],
        [0, 3, 6, H, H, H, H, H, H],
        [6, H, H, 3, H, H, 0, H, H],
        [H, H, H, H, H, H, 6, 3, 0],
    ];
    let (key0, _) = board(orientations[0]).simplify_compress();
    for cells in orientations {
        let (key, _) = board(cells).simplify_compress();
        assert_eq!(key, key0);
        let (canon, _) = board(cells).simplify();
        assert_eq!(canon.state, [0, 3, 6, H, H, H, H, H, H]);
    }
    assert_eq!(key0, 0xE0000360);
}

#[test]
fn compress_packs_mask_and_digits() {
    // reveal mask in the top 9 bits, digit fields from bit 12 down
    let (key, _) = board([0, 3, 6, H, H, H, H, H, H]).simplify_compress();
    assert_eq!(key, 0xE0000360);
    let b = Board::starting();
    let (key_empty, t) = b.simplify_compress();
    assert_eq!(key_empty, 0);
    assert_eq!(t, Transform::Identity);
}

#[test]
fn simplify_returns_index_translation() {
    // a board with 0 at the top-right corner rotates so that 0 reaches the
    // top-left; the returned transform maps canonical indices back.
    let b = board([H, H, 0, H, H, H, H, H, H]);
    let (canon, inv) = b.simplify();
    assert_eq!(canon.state, [0, H, H, H, H, H, H, H, H]);
    // canonical cell 0 is cell 2 of the original board
    assert_eq!(inv.apply_to_index(0), 2);
}

#[test]
fn transform_inverses_cancel() {
    let cells: [u8; 9] = [0, 1, 2, 3, 4, 5, 6, 7, 8];
    let transforms = [
        Transform::Identity,
        Transform::RotateLeft,
        Transform::RotateRight,
        Transform::Rotate180,
        Transform::FlipHorizontal,
        Transform::FlipVertical,
        Transform::FlipMainDiagonal,
        Transform::FlipAntiDiagonal,
    ];
    for t in transforms {
        let once = t.apply(&cells);
        let back = t.inverse().apply(&once);
        assert_eq!(back, cells);
        for i in 0..9 {
            // cell i of the original is found again where the transform put it
            assert_eq!(once[t.apply_to_index(i)], cells[i]);
        }
    }
}
