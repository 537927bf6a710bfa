use num_bigint::BigUint;
use zpp::bignum::BigNum;
use zpp::controller::{checked, Shared, Verdict};
use zpp::engines::backward::BackwardEngine;
use zpp::engines::bitset_dp::BitsetDpEngine;
use zpp::engines::density_split::DensitySplitEngine;
use zpp::engines::digit_filter::DigitFilterEngine;
use zpp::engines::gradient::GradientSolver;
use zpp::engines::group_decompose::GroupDecomposeEngine;
use zpp::engines::hash_mitm::HashMitmEngine;
use zpp::engines::md_mitm::{digit_compatible, MdMitmEngine};
use zpp::engines::micro_decompose::MicroDecomposeEngine;
use zpp::engines::mitm::MitmEngine;
use zpp::profile::Profile;

fn small(x: u64) -> BigNum {
    BigNum::from_u32_digits(BigUint::from(x).to_u32_digits())
}

fn value(b: &BigNum) -> BigUint {
    BigUint::new(b.to_u32_digits())
}

fn shared(nums: &[u64], target: u64) -> Shared {
    Shared::new(Profile::new(nums.iter().map(|x| small(*x)).collect(), small(target), false))
}

/// Whether `sol` is drawn from `nums` and sums to `target`.
fn valid(sol: &[BigNum], nums: &[u64], target: u64) -> bool {
    let mut pool: Vec<u64> = nums.to_vec();
    for b in sol {
        let v = value(b);
        match pool.iter().position(|x| BigUint::from(*x) == v) {
            Some(i) => {
                pool.remove(i);
            },
            None => return false,
        }
    }
    sol.iter().map(value).sum::<BigUint>() == BigUint::from(target)
}

/// Found answers are right; returns whether one was found.
fn sound(v: Verdict, nums: &[u64], target: u64) -> bool {
    match v {
        Verdict::Found(sol) => {
            assert!(valid(&sol, nums, target));
            true
        },
        Verdict::Impossible => panic!("instance has an answer"),
        Verdict::Unknown => false,
    }
}

const SMALL: [u64; 6] = [3, 34, 4, 12, 5, 2];

fn twenty() -> Vec<u64> {
    (1..=20u64).map(|i| i * i + 7).collect()
}

fn forty() -> Vec<u64> {
    (1..=40u64).map(|i| i * i * 3 + 11 * i + 5).collect()
}

#[test]
fn mitm_finds_and_refutes() {
    assert!(sound(MitmEngine::solve(&shared(&SMALL, 9)), &SMALL, 9));
    assert!(matches!(MitmEngine::solve(&shared(&SMALL, 31)), Verdict::Impossible));
}

#[test]
fn bitset_dp_finds_and_refutes() {
    assert!(sound(BitsetDpEngine::solve(&shared(&SMALL, 9)), &SMALL, 9));
    assert!(sound(BitsetDpEngine::solve(&shared(&SMALL, 60)), &SMALL, 60));
    assert!(matches!(BitsetDpEngine::solve(&shared(&SMALL, 31)), Verdict::Impossible));
}

#[test]
fn backward_answers_are_sound() {
    sound(BackwardEngine::solve(&shared(&SMALL, 9)), &SMALL, 9);
    assert!(sound(BackwardEngine::solve(&shared(&SMALL, 60)), &SMALL, 60));
    assert!(matches!(BackwardEngine::solve(&shared(&SMALL, 61)), Verdict::Unknown));
}

#[test]
fn digit_filter_refutes_by_last_digits() {
    let tens = [10u64, 20, 30, 40];
    assert!(matches!(DigitFilterEngine::solve(&shared(&tens, 15)), Verdict::Impossible));
    assert!(!sound(DigitFilterEngine::solve(&shared(&SMALL, 9)), &SMALL, 9));
}

#[test]
fn digit_filter_reachability_of_last_digits() {
    let nums = vec![small(10), small(21), small(32)];
    assert!(DigitFilterEngine::last_2_digits_reachable(&nums, &small(53), &BigNum::zero()));
    assert!(!DigitFilterEngine::last_2_digits_reachable(&nums, &small(54), &BigNum::zero()));
    assert!(DigitFilterEngine::last_2_digits_reachable(&nums, &small(63), &small(10)));
    assert!(!DigitFilterEngine::last_2_digits_reachable(&nums, &small(63), &small(63)));
}

#[test]
fn hash_mitm_finds_on_twenty() {
    let nums = twenty();
    let t = nums[0] + nums[5] + nums[19];
    assert!(sound(HashMitmEngine::solve(&shared(&nums, t)), &nums, t));
}

#[test]
fn hash_mitm_finds_on_forty() {
    let nums = forty();
    let t = nums[1] + nums[9] + nums[22] + nums[38];
    sound(HashMitmEngine::solve(&shared(&nums, t)), &nums, t);
}

#[test]
fn micro_decompose_answers_are_sound() {
    let nums = twenty();
    let t = nums[2] + nums[3] + nums[11];
    sound(MicroDecomposeEngine::solve(&shared(&nums, t)), &nums, t);
    assert!(matches!(MicroDecomposeEngine::solve(&shared(&SMALL, 9)), Verdict::Unknown));
}

#[test]
fn group_decompose_answers_are_sound() {
    let nums = twenty();
    let t = nums[4] + nums[7] + nums[15] + nums[18];
    sound(GroupDecomposeEngine::solve(&shared(&nums, t)), &nums, t);
    assert!(matches!(GroupDecomposeEngine::solve(&shared(&SMALL, 9)), Verdict::Unknown));
}

#[test]
fn md_mitm_answers_are_sound() {
    let nums = twenty();
    let t = nums[0] + nums[19];
    sound(MdMitmEngine::solve(&shared(&nums, t)), &nums, t);
    sound(MdMitmEngine::solve(&shared(&SMALL, 9)), &SMALL, 9);
}

#[test]
fn gradient_answers_are_sound() {
    let nums = twenty();
    let t = nums[1] + nums[2] + nums[3];
    sound(GradientSolver::solve(&shared(&nums, t)), &nums, t);
    assert!(matches!(GradientSolver::solve(&shared(&[1, 2, 3], 3)), Verdict::Unknown));
}

#[test]
fn density_split_answers_are_sound() {
    let nums: Vec<u64> = (1..=24u64).map(|i| 3 * i + 1).collect();
    let t = nums[0] + nums[10] + nums[23];
    sound(DensitySplitEngine::solve_split(&shared(&nums, t), 12), &nums, t);
    assert!(matches!(DensitySplitEngine::solve_split(&shared(&SMALL, 9), 3), Verdict::Unknown));
}

#[test]
fn digits_compatible_modulo_ten_thousand() {
    assert!(digit_compatible(&small(12_345), &small(20_001), &small(2_346)));
    assert!(!digit_compatible(&small(12_345), &small(20_001), &small(2_347)));
}

#[test]
fn checked_keeps_only_exact_answers() {
    let p = Profile::new(vec![small(4), small(6)], small(10), false);
    assert!(matches!(checked(vec![small(4), small(6)], &p), Verdict::Found(_)));
    assert!(matches!(checked(vec![small(4)], &p), Verdict::Unknown));
}

#[test]
fn shared_keeps_first_exact_report() {
    let sh = shared(&SMALL, 9);
    assert!(!sh.stopped());
    assert!(!sh.report(vec![small(3), small(5)], "Wrong"));
    assert!(sh.report(vec![small(4), small(5)], "First"));
    assert!(sh.stopped());
    assert!(!sh.report(vec![small(3), small(4), small(2)], "Second"));
    let (sol, name, proved) = sh.finish();
    assert_eq!(name, "First");
    assert!(!proved);
    assert_eq!(sol.unwrap().iter().map(value).collect::<Vec<_>>(), vec![BigUint::from(4u32), BigUint::from(5u32)]);
}

#[test]
fn shared_impossible_and_timeout_outcomes() {
    let sh = shared(&SMALL, 31);
    let (sol, name, _) = sh.finish();
    assert!(sol.is_none());
    assert_eq!(name, "Timeout");
    sh.prove_impossible();
    assert!(sh.stopped());
    let (sol, name, proved) = sh.finish();
    assert!(sol.is_none() && proved);
    assert_eq!(name, "IMPOSSIBLE");
}

#[test]
fn mitm_takes_nothing_for_zero_on_one_element() {
    assert!(sound(MitmEngine::solve(&shared(&[7], 0)), &[7], 0));
    assert!(sound(MitmEngine::solve(&shared(&[], 0)), &[], 0));
}

#[test]
fn group_decompose_finds_a_single_element_equal_to_the_target() {
    let nums = twenty();
    let t = nums[7];
    match GroupDecomposeEngine::solve(&shared(&nums, t)) {
        Verdict::Found(sol) => {
            assert_eq!(sol.len(), 1);
            assert_eq!(value(&sol[0]), BigUint::from(t));
        },
        _ => panic!("expected an answer"),
    }
}

#[test]
fn gradient_takes_everything_when_the_total_is_the_target() {
    let nums: Vec<u64> = vec![3, 5, 8, 13, 21, 34];
    let t: u64 = nums.iter().sum();
    match GradientSolver::solve(&shared(&nums, t)) {
        Verdict::Found(sol) => assert_eq!(sol.len(), nums.len()),
        _ => panic!("expected an answer"),
    }
    assert!(matches!(GradientSolver::solve(&shared(&nums, t + 1)), Verdict::Unknown));
}

#[test]
fn mitm_decides_when_not_stopped() {
    let (v, stopped) = MitmEngine::decide(&shared(&SMALL, 9));
    assert!(!stopped);
    assert!(sound(v, &SMALL, 9));
    let (v, stopped) = MitmEngine::decide(&shared(&SMALL, 31));
    assert!(!stopped);
    assert!(matches!(v, Verdict::Impossible));
}

#[test]
fn backward_decides_when_not_stopped() {
    let (v, stopped) = BackwardEngine::decide(&shared(&SMALL, 55));
    assert!(!stopped);
    assert!(sound(v, &SMALL, 55));
    let (v, stopped) = BackwardEngine::decide(&shared(&SMALL, 59));
    assert!(!stopped);
    assert!(matches!(v, Verdict::Unknown));
}

#[test]
fn bitset_dp_decides_when_not_stopped() {
    let (v, stopped) = BitsetDpEngine::decide(&shared(&SMALL, 9));
    assert!(!stopped);
    assert!(sound(v, &SMALL, 9));
    let (v, stopped) = BitsetDpEngine::decide(&shared(&SMALL, 31));
    assert!(!stopped);
    assert!(matches!(v, Verdict::Impossible));
}

#[test]
fn hash_mitm_decides_forty_when_not_stopped() {
    let nums = forty();
    let t = nums[0] + nums[5] + nums[20] + nums[33];
    let (v, stopped) = HashMitmEngine::decide(&shared(&nums, t));
    assert!(!stopped);
    assert!(sound(v, &nums, t));
}

#[test]
fn group_decompose_answers_sum_to_the_target_on_forty() {
    let nums = forty();
    let t = nums[1] + nums[9] + nums[30];
    if let Verdict::Found(sol) = GroupDecomposeEngine::solve(&shared(&nums, t)) {
        assert!(valid(&sol, &nums, t));
    }
}

#[test]
fn group_decompose_decides_twenty_when_not_stopped() {
    let nums = twenty();
    let t = nums[2] + nums[11] + nums[17];
    let (v, stopped) = GroupDecomposeEngine::decide(&shared(&nums, t));
    assert!(!stopped);
    assert!(sound(v, &nums, t));
}

#[test]
fn md_mitm_decides_sixty_when_not_stopped() {
    let nums: Vec<u64> = (1..=60u64).map(|i| i * i + 7).collect();
    let t = nums[0] + nums[1] + nums[2];
    let (v, stopped, full) = MdMitmEngine::decide(&shared(&nums, t));
    assert!(!stopped);
    assert!(!full);
    assert!(sound(v, &nums, t));
}

#[test]
fn gradient_greedy_descent_answers_directly() {
    match GradientSolver::solve(&shared(&[5, 4, 3, 2, 1], 9)) {
        Verdict::Found(sol) => {
            let got: Vec<BigUint> = sol.iter().map(value).collect();
            assert_eq!(got, vec![BigUint::from(4u32), BigUint::from(3u32), BigUint::from(2u32)]);
        },
        _ => panic!("the greedy descent reaches the target"),
    }
}

#[test]
fn micro_decompose_decides_twenty_when_not_stopped() {
    let nums = twenty();
    let t = nums[2] + nums[3] + nums[11];
    let (v, stopped, capped) = MicroDecomposeEngine::decide(&shared(&nums, t));
    assert!(!stopped);
    assert!(!capped);
    assert!(sound(v, &nums, t));
}

#[test]
fn density_split_decides_when_the_sides_meet() {
    let nums: Vec<u64> = (1..=24u64).map(|i| 3 * i + 1).collect();
    let t = nums[0] + nums[10] + nums[23];
    let (v, stopped) = DensitySplitEngine::decide_split(&shared(&nums, t), 12);
    assert!(!stopped);
    assert!(sound(v, &nums, t));
    let (v, stopped) = DensitySplitEngine::decide_split(&shared(&nums, t), 2);
    assert!(!stopped);
    assert!(matches!(v, Verdict::Unknown));
    let (v, stopped) = DensitySplitEngine::decide_split(&shared(&nums, t), 22);
    assert!(!stopped);
    assert!(matches!(v, Verdict::Unknown));
}

#[test]
fn hash_mitm_decides_twenty_when_not_stopped() {
    let nums = twenty();
    let t = nums[3] + nums[8] + nums[16];
    let (v, stopped) = HashMitmEngine::decide(&shared(&nums, t));
    assert!(!stopped);
    assert!(sound(v, &nums, t));
}

#[test]
fn group_decompose_decides_forty_when_the_groups_fit() {
    let nums = forty();
    let t = nums[1] + nums[9] + nums[30];
    let (v, stopped) = GroupDecomposeEngine::decide(&shared(&nums, t));
    assert!(!stopped);
    assert!(sound(v, &nums, t));
}

#[test]
fn hash_mitm_decides_thirty_eight_when_not_stopped() {
    let nums: Vec<u64> = (1..=38u64).map(|i| i * i * 3 + 11 * i + 5).collect();
    let t = nums[4] + nums[17] + nums[29] + nums[37];
    let (v, stopped) = HashMitmEngine::decide(&shared(&nums, t));
    assert!(!stopped);
    assert!(sound(v, &nums, t));
}

#[test]
fn gradient_restart_phase_follows_the_seed() {
    let nums = [10u128, 7, 5, 3, 2];
    let sh = shared(&[10, 7, 5, 3, 2], 13);
    let (found, stopped) = GradientSolver::restart_phase(&sh, &nums, 13, vec![false; 5], 0, 0);
    assert!(!stopped);
    let got: Vec<BigUint> = found.expect("the walk reaches 13").iter().map(value).collect();
    assert_eq!(got, vec![BigUint::from(10u32), BigUint::from(3u32)]);
    let (found, stopped) = GradientSolver::restart_phase(&sh, &nums, 12, vec![false; 5], 0, 0);
    assert!(!stopped);
    assert!(found.is_none());
}
