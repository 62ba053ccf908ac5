use minicact::HIDDEN;
use minicact::board::Board;
use minicact::lines::{compute_best_line, compute_best_line_rec};
use minicact::payout::payout_amount;
use minicact::solver::Solver;

const H: u8 = HIDDEN;

fn board(cells: [u8; 9]) -> Board {
    match Board::try_new(cells) {
        Ok(b) => b,
        Err(_) => panic!("cells should form a board"),
    }
}

#[test]
fn line_stage_tally_of_three_hidden_cells() {
    // remaining digits {1, 4, 7} into the cells 4, 6 and 8: six orderings,
    // and every line's distribution sums to six.
    let b = board([0, 2, 3, 5, H, 6, H, 8, H]);
    let tally = compute_best_line_rec(&b);
    for l in 0..8 {
        let total: u32 = tally[l].iter().sum();
        assert_eq!(total, 6);
    }
    // the bottom row (cells 6, 7, 8) hides two of the three digits around the
    // revealed 8: sums 13, 16 and 19, two orderings each.
    assert_eq!(tally[0], [2, 0, 2, 0, 0, 0, 2, 0, 0, 0, 0, 0, 0, 0, 0, 0]);
    // the top row is fully revealed with sum 5: all six orderings pay 360.
    assert_eq!(tally[2], [0, 0, 0, 0, 0, 0, 0, 0, 0, 0, 0, 6, 0, 0, 0, 0]);
}

#[test]
fn line_stage_picks_the_guaranteed_line() {
    let b = board([0, 2, 3, 5, H, 6, H, 8, H]);
    let (line, dist) = compute_best_line(&b);
    assert_eq!(line, 2);
    assert_eq!(dist, [0, 0, 0, 0, 0, 0, 0, 0, 0, 0, 0, 6, 0, 0, 0, 0]);
}

#[test]
fn line_stage_on_five_hidden_cells_counts_all_orderings() {
    let b = board([0, 5, H, H, 3, H, 7, H, H]);
    let tally = compute_best_line_rec(&b);
    for l in 0..8 {
        let total: u32 = tally[l].iter().sum();
        assert_eq!(total, 120);
    }
    let (line, dist) = compute_best_line(&b);
    assert!(line < 8);
    let total: u32 = dist.iter().sum();
    assert_eq!(total, 120);
}

#[test]
fn uncover_on_center_board() {
    // only the center revealed: by symmetry every corner ties, and the first
    // corner wins; the distribution counts all 8! orderings.
    let mut solver = Solver::new();
    let b = board([H, H, H, H, 4, H, H, H, H]);
    let (choice, dist) = solver.compute_best_uncover(&b);
    assert_eq!(choice, 0);
    assert_eq!(
        dist,
        [
            2976, 2136, 5112, 1512, 2712, 3600, 792, 4464, 2688, 1872, 1296, 744, 3792, 1632,
            2208, 2784,
        ],
    );
    let total: u32 = dist.iter().sum();
    assert_eq!(total, 40320);
}

#[test]
fn uncover_choice_is_a_hidden_cell_and_keys_agree() {
    // one board shown in two orientations: same key, same distribution, and
    // each recommendation lands on a hidden cell of its own orientation.
    let mut solver = Solver::new();
    let b = board([0, 5, H, H, H, H, H, H, H]);
    let rotated = board([H, H, H, 5, H, H, 0, H, H]);
    let (key_b, _) = b.simplify_compress();
    let (key_r, _) = rotated.simplify_compress();
    assert_eq!(key_b, key_r);
    let (choice_b, dist_b) = solver.compute_best_uncover(&b);
    let (choice_r, dist_r) = solver.compute_best_uncover(&rotated);
    assert_eq!(dist_b, dist_r);
    assert_eq!(b.state[choice_b], H);
    assert_eq!(rotated.state[choice_r], H);
    assert_eq!(choice_b, 6);
    assert_eq!(choice_r, 8);
    let total: u32 = dist_b.iter().sum();
    assert_eq!(total, 5040);
    assert_eq!(
        dist_b,
        [648, 180, 372, 96, 264, 432, 144, 444, 192, 480, 96, 432, 348, 48, 384, 480],
    );
}

#[test]
fn uncover_is_idempotent() {
    // the identical board solved twice, once fresh and once from the memo,
    // returns identical output; a fresh solver agrees as well.
    let mut solver = Solver::new();
    let b = board([H, 8, H, H, 2, H, H, H, 0]);
    let first = solver.compute_best_uncover(&b);
    let second = solver.compute_best_uncover(&b);
    assert_eq!(first, second);
    let mut fresh = Solver::new();
    assert_eq!(fresh.compute_best_uncover(&b), first);
}

#[test]
fn uncover_outcome_counts_match_orderings() {
    // boards with one, two and three reveals: the distribution sums to the
    // factorial of the number of hidden digits.
    let mut solver = Solver::new();
    let one = board([H, H, H, H, H, 3, H, H, H]);
    let (_, d1) = solver.compute_best_uncover(&one);
    assert_eq!(d1.iter().sum::<u32>(), 40320);
    let two = board([H, 7, H, 1, H, H, H, H, H]);
    let (_, d2) = solver.compute_best_uncover(&two);
    assert_eq!(d2.iter().sum::<u32>(), 5040);
    let three = board([6, H, H, H, 4, H, H, H, 2]);
    let (_, d3) = solver.compute_best_uncover(&three);
    assert_eq!(d3.iter().sum::<u32>(), 720);
}

#[test]
fn full_distribution_baseline() {
    // the whole-game precomputation: 9 * 9! outcomes in total, and the known
    // expected return of optimal play of about 1484.98 per ticket.
    let mut solver = Solver::new();
    let (total, dist) = solver.compute_full_distribution();
    assert_eq!(total, 3265920);
    assert_eq!(
        dist,
        [
            214500, 147672, 332712, 159696, 202272, 209244, 94020, 290616, 179112, 158856,
            175464, 148944, 252360, 165708, 234000, 300744,
        ],
    );
    let mut dot: u64 = 0;
    for t in 0..16 {
        dot += (dist[t] as u64) * (payout_amount(t + 1) as u64);
    }
    assert_eq!(dot, 4849838484);
    // mean payout in thousandths, rounded down: 1484.983
    assert_eq!(dot * 1000 / (total as u64), 1484983);
}
