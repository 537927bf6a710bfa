use num_bigint::BigUint;
use zpp::bignum::BigNum;
use zpp::controller::{cap_engines, pick_engines};
use zpp::profile::Profile;
use zpp::scheduler::{all_engine_names, schedule, EngineId, HardwareProfile, StructureInfo, ValDist};

fn small(x: u64) -> BigNum {
    BigNum::from_u32_digits(BigUint::from(x).to_u32_digits())
}

fn profile(nums: &[u64], target: u64, sat: bool) -> Profile {
    Profile::new(nums.iter().map(|x| small(*x)).collect(), small(target), sat)
}

fn info(val_dist: ValDist) -> StructureInfo {
    StructureInfo {
        val_dist,
        linear_favorable: 0,
        has_gap_split: false,
        is_arithmetic: false,
        is_geometric: false,
        all_distinct: true,
        redundancy_ratio: 0,
    }
}

fn machine() -> HardwareProfile {
    HardwareProfile { cpu_cores: 8, max_bitset_target: 1 << 30, tail: Vec::new() }
}

const DEMO: [u64; 14] = [1, 3, 7, 21, 50, 200, 400, 499, 1000, 1500, 2000, 5000, 10000, 25000];

#[test]
fn schedule_of_demo_instance() {
    let p = profile(&DEMO, 5570, false);
    let s = schedule(&p, &info(ValDist::Exponential), &machine(), &[]);
    assert_eq!(
        s,
        vec![
            "Residue", "DigitFilter", "Dominance", "GreedyPlus", "Greedy", "Backward", "GradientSolver", "GDEP",
            "BitsetDP", "MITM", "Schroeppel-Shamir", "RecursiveDensity", "Genetic",
        ]
    );
}

#[test]
fn schedule_of_sat_encoded_instance_ends_after_phase_one() {
    let p = profile(&[3, 5, 9, 14, 20], 17, true);
    let s = schedule(&p, &info(ValDist::Uniform), &machine(), &[]);
    assert_eq!(
        s,
        vec![
            "Residue", "TinyBrute", "DigitFilter", "Dominance", "GreedyPlus", "ColumnSAT", "GDEP", "Backward",
            "TurboSpecEngine", "CascadeEngine",
        ]
    );
}

#[test]
fn schedule_always_has_fast_checks_and_no_repeats() {
    for n in [1usize, 5, 13, 25, 40, 66, 90, 120] {
        let nums: Vec<u64> = (1..=n as u64).collect();
        let p = profile(&nums, 7, false);
        let s = schedule(&p, &info(ValDist::Spread), &machine(), &[]);
        assert!(s.contains(&"Residue") && s.contains(&"DigitFilter") && s.contains(&"Dominance"));
        for i in 0..s.len() {
            for j in i + 1..s.len() {
                assert_ne!(s[i], s[j]);
            }
        }
        let known = all_engine_names();
        assert!(s.iter().all(|e| known.contains(e)));
    }
}

#[test]
fn no_bitset_beyond_one_hundred_elements() {
    let nums: Vec<u64> = (1..=101).collect();
    let p = profile(&nums, 50, false);
    let s = schedule(&p, &info(ValDist::DenseSmall), &machine(), &[]);
    assert!(!s.contains(&"BitsetDP"));
    let small_n: Vec<u64> = (1..=30).collect();
    let q = profile(&small_n, 50, false);
    assert!(schedule(&q, &info(ValDist::DenseSmall), &machine(), &[]).contains(&"BitsetDP"));
}

#[test]
fn bitset_dropped_when_target_exceeds_memory() {
    let p = profile(&DEMO, 5570, false);
    let hw = HardwareProfile { cpu_cores: 8, max_bitset_target: 1000, tail: Vec::new() };
    assert!(!schedule(&p, &info(ValDist::Exponential), &hw, &[]).contains(&"BitsetDP"));
}

#[test]
fn pick_engines_keeps_lean_engines_for_mid_sizes() {
    let nums: Vec<u64> = (1..=40).collect();
    let p = profile(&nums, 100, false);
    let e = pick_engines(&p, &info(ValDist::Spread), &machine(), &[]);
    assert_eq!(e, vec!["Residue", "DigitFilter", "Dominance", "HashMITM"]);
}

#[test]
fn pick_engines_is_the_schedule_elsewhere() {
    let p = profile(&DEMO, 5570, false);
    let i = info(ValDist::Exponential);
    assert_eq!(pick_engines(&p, &i, &machine(), &[]), schedule(&p, &i, &machine(), &[]));
}

#[test]
fn all_engine_names_lists_the_catalogue() {
    let names = all_engine_names();
    assert_eq!(names.len(), 38);
    assert_eq!(names[0], "Residue");
    assert_eq!(names[13], "Schroeppel-Shamir");
    assert_eq!(names[37], "RecursiveDensity");
}

#[test]
fn cap_keeps_two_survivors_then_others() {
    let names = vec![
        EngineId::Residue,
        EngineId::GroupDecompose,
        EngineId::HashMitm,
        EngineId::SchroeppelShamir,
        EngineId::Mitm,
        EngineId::Backward,
        EngineId::Bridge,
        EngineId::GroupDecompose,
    ];
    assert_eq!(
        cap_engines(&names, 60),
        vec![EngineId::GroupDecompose, EngineId::SchroeppelShamir, EngineId::Residue, EngineId::HashMitm]
    );
    assert_eq!(
        cap_engines(&names, 45),
        vec![
            EngineId::GroupDecompose,
            EngineId::SchroeppelShamir,
            EngineId::Residue,
            EngineId::HashMitm,
            EngineId::Mitm,
            EngineId::Backward,
        ]
    );
    assert_eq!(cap_engines(&names, 39), names);
}

#[test]
fn cap_leaves_short_lists_alone() {
    let names = vec![EngineId::Mitm, EngineId::Residue, EngineId::GroupDecompose];
    assert_eq!(cap_engines(&names, 70), names);
}

#[test]
fn no_cryptanalytic_engines_beyond_seventy() {
    let nums: Vec<u64> = (1..=80).collect();
    let p = profile(&nums, 500, false);
    let s = schedule(&p, &info(ValDist::Spread), &machine(), &[]);
    for e in ["Schroeppel-Shamir", "BCJ", "HGJ", "Bonnetain"] {
        assert!(!s.contains(&e));
    }
    let fewer: Vec<u64> = (1..=40).collect();
    let q = profile(&fewer, 500, false);
    assert!(schedule(&q, &info(ValDist::Spread), &machine(), &[]).contains(&"BCJ"));
}

#[test]
fn cap_from_sixty_keeps_at_most_four() {
    let names = vec![
        EngineId::SchroeppelShamir,
        EngineId::Residue,
        EngineId::DigitFilter,
        EngineId::Dominance,
        EngineId::GroupDecompose,
        EngineId::HashMitm,
    ];
    let c = cap_engines(&names, 64);
    assert!(c.len() <= 4);
    assert!(c.contains(&EngineId::SchroeppelShamir) && c.contains(&EngineId::GroupDecompose));
    assert!(c.iter().all(|e| names.contains(e)));
}
