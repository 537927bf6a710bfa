//! The order in which engines race on an instance.
//!
//! Every candidate engine gets a score; the schedule lists each engine once,
//! by its best score, highest first. Scores are counted in ten-thousandths so
//! that all the arithmetic is exact.
use crate::profile::Profile;
use crate::profile::super_increasing;
use vstd::prelude::*;

verus! {

/// The engines that the scheduler knows by name.
#[derive(Clone, Copy, Debug, PartialEq, Eq, Structural)]
pub enum EngineId {
    Residue,
    DigitFilter,
    Dominance,
    TinyBrute,
    GreedyPlus,
    SplitSolver,
    Greedy,
    Backward,
    Gdep,
    BitsetDp,
    TurboSpec,
    Bridge,
    Mitm,
    SchroeppelShamir,
    Decompose,
    DualCollapse,
    ColumnSat,
    Cascade,
    Randomized,
    MdMitm,
    PmasBalance,
    PmasDifference,
    Apde,
    Bcj,
    Hgj,
    Bonnetain,
    BigUintBcj,
    BigUintHgj,
    BigUintBonnetain,
    GroupDecompose,
    AdaptiveFunnel,
    MicroDecompose,
    HashMitm,
    Genetic,
    GradientSolver,
    DensitySplit,
    LllSolver,
    RecursiveDensity,
}

impl EngineId {
    /// The engine's name.
    pub open spec fn label(self) -> &'static str {
        match self {
            EngineId::Residue => "Residue",
            EngineId::DigitFilter => "DigitFilter",
            EngineId::Dominance => "Dominance",
            EngineId::TinyBrute => "TinyBrute",
            EngineId::GreedyPlus => "GreedyPlus",
            EngineId::SplitSolver => "SplitSolver",
            EngineId::Greedy => "Greedy",
            EngineId::Backward => "Backward",
            EngineId::Gdep => "GDEP",
            EngineId::BitsetDp => "BitsetDP",
            EngineId::TurboSpec => "TurboSpecEngine",
            EngineId::Bridge => "Bridge",
            EngineId::Mitm => "MITM",
            EngineId::SchroeppelShamir => "Schroeppel-Shamir",
            EngineId::Decompose => "Decompose",
            EngineId::DualCollapse => "DualCollapse",
            EngineId::ColumnSat => "ColumnSAT",
            EngineId::Cascade => "CascadeEngine",
            EngineId::Randomized => "Randomized",
            EngineId::MdMitm => "MD-MITM",
            EngineId::PmasBalance => "PMAS-Balance",
            EngineId::PmasDifference => "PMAS-Difference",
            EngineId::Apde => "APDE",
            EngineId::Bcj => "BCJ",
            EngineId::Hgj => "HGJ",
            EngineId::Bonnetain => "Bonnetain",
            EngineId::BigUintBcj => "BigUintBcj",
            EngineId::BigUintHgj => "BigUintHgj",
            EngineId::BigUintBonnetain => "BigUintBonnetain",
            EngineId::GroupDecompose => "GroupDecompose",
            EngineId::AdaptiveFunnel => "AdaptiveFunnel",
            EngineId::MicroDecompose => "MicroDecompose",
            EngineId::HashMitm => "HashMITM",
            EngineId::Genetic => "Genetic",
            EngineId::GradientSolver => "GradientSolver",
            EngineId::DensitySplit => "DensitySplit",
            EngineId::LllSolver => "LLLSolver",
            EngineId::RecursiveDensity => "RecursiveDensity",
        }
    }

    /// The engine's place in the catalogue.
    pub open spec fn ord(self) -> nat {
        match self {
            EngineId::Residue => 0,
            EngineId::DigitFilter => 1,
            EngineId::Dominance => 2,
            EngineId::TinyBrute => 3,
            EngineId::GreedyPlus => 4,
            EngineId::SplitSolver => 5,
            EngineId::Greedy => 6,
            EngineId::Backward => 7,
            EngineId::Gdep => 8,
            EngineId::BitsetDp => 9,
            EngineId::TurboSpec => 10,
            EngineId::Bridge => 11,
            EngineId::Mitm => 12,
            EngineId::SchroeppelShamir => 13,
            EngineId::Decompose => 14,
            EngineId::DualCollapse => 15,
            EngineId::ColumnSat => 16,
            EngineId::Cascade => 17,
            EngineId::Randomized => 18,
            EngineId::MdMitm => 19,
            EngineId::PmasBalance => 20,
            EngineId::PmasDifference => 21,
            EngineId::Apde => 22,
            EngineId::Bcj => 23,
            EngineId::Hgj => 24,
            EngineId::Bonnetain => 25,
            EngineId::BigUintBcj => 26,
            EngineId::BigUintHgj => 27,
            EngineId::BigUintBonnetain => 28,
            EngineId::GroupDecompose => 29,
            EngineId::AdaptiveFunnel => 30,
            EngineId::MicroDecompose => 31,
            EngineId::HashMitm => 32,
            EngineId::Genetic => 33,
            EngineId::GradientSolver => 34,
            EngineId::DensitySplit => 35,
            EngineId::LllSolver => 36,
            EngineId::RecursiveDensity => 37,
        }
    }

    /// The engine's place in the catalogue.
    pub fn index(&self) -> (r: usize)
        ensures
            r == self.ord(),
    {
        match self {
            EngineId::Residue => 0,
            EngineId::DigitFilter => 1,
            EngineId::Dominance => 2,
            EngineId::TinyBrute => 3,
            EngineId::GreedyPlus => 4,
            EngineId::SplitSolver => 5,
            EngineId::Greedy => 6,
            EngineId::Backward => 7,
            EngineId::Gdep => 8,
            EngineId::BitsetDp => 9,
            EngineId::TurboSpec => 10,
            EngineId::Bridge => 11,
            EngineId::Mitm => 12,
            EngineId::SchroeppelShamir => 13,
            EngineId::Decompose => 14,
            EngineId::DualCollapse => 15,
            EngineId::ColumnSat => 16,
            EngineId::Cascade => 17,
            EngineId::Randomized => 18,
            EngineId::MdMitm => 19,
            EngineId::PmasBalance => 20,
            EngineId::PmasDifference => 21,
            EngineId::Apde => 22,
            EngineId::Bcj => 23,
            EngineId::Hgj => 24,
            EngineId::Bonnetain => 25,
            EngineId::BigUintBcj => 26,
            EngineId::BigUintHgj => 27,
            EngineId::BigUintBonnetain => 28,
            EngineId::GroupDecompose => 29,
            EngineId::AdaptiveFunnel => 30,
            EngineId::MicroDecompose => 31,
            EngineId::HashMitm => 32,
            EngineId::Genetic => 33,
            EngineId::GradientSolver => 34,
            EngineId::DensitySplit => 35,
            EngineId::LllSolver => 36,
            EngineId::RecursiveDensity => 37,
        }
    }

    /// The engine's name.
    pub fn name(&self) -> (r: &'static str)
        ensures
            r == self.label(),
    {
        match self {
            EngineId::Residue => "Residue",
            EngineId::DigitFilter => "DigitFilter",
            EngineId::Dominance => "Dominance",
            EngineId::TinyBrute => "TinyBrute",
            EngineId::GreedyPlus => "GreedyPlus",
            EngineId::SplitSolver => "SplitSolver",
            EngineId::Greedy => "Greedy",
            EngineId::Backward => "Backward",
            EngineId::Gdep => "GDEP",
            EngineId::BitsetDp => "BitsetDP",
            EngineId::TurboSpec => "TurboSpecEngine",
            EngineId::Bridge => "Bridge",
            EngineId::Mitm => "MITM",
            EngineId::SchroeppelShamir => "Schroeppel-Shamir",
            EngineId::Decompose => "Decompose",
            EngineId::DualCollapse => "DualCollapse",
            EngineId::ColumnSat => "ColumnSAT",
            EngineId::Cascade => "CascadeEngine",
            EngineId::Randomized => "Randomized",
            EngineId::MdMitm => "MD-MITM",
            EngineId::PmasBalance => "PMAS-Balance",
            EngineId::PmasDifference => "PMAS-Difference",
            EngineId::Apde => "APDE",
            EngineId::Bcj => "BCJ",
            EngineId::Hgj => "HGJ",
            EngineId::Bonnetain => "Bonnetain",
            EngineId::BigUintBcj => "BigUintBcj",
            EngineId::BigUintHgj => "BigUintHgj",
            EngineId::BigUintBonnetain => "BigUintBonnetain",
            EngineId::GroupDecompose => "GroupDecompose",
            EngineId::AdaptiveFunnel => "AdaptiveFunnel",
            EngineId::MicroDecompose => "MicroDecompose",
            EngineId::HashMitm => "HashMITM",
            EngineId::Genetic => "Genetic",
            EngineId::GradientSolver => "GradientSolver",
            EngineId::DensitySplit => "DensitySplit",
            EngineId::LllSolver => "LLLSolver",
            EngineId::RecursiveDensity => "RecursiveDensity",
        }
    }
}

/// Every engine the scheduler knows, in catalogue order.
pub open spec fn catalogue() -> Seq<EngineId> {
    seq![
        EngineId::Residue, EngineId::DigitFilter, EngineId::Dominance, EngineId::TinyBrute,
        EngineId::GreedyPlus, EngineId::SplitSolver, EngineId::Greedy, EngineId::Backward,
        EngineId::Gdep, EngineId::BitsetDp, EngineId::TurboSpec, EngineId::Bridge,
        EngineId::Mitm, EngineId::SchroeppelShamir, EngineId::Decompose, EngineId::DualCollapse,
        EngineId::ColumnSat, EngineId::Cascade, EngineId::Randomized,
        EngineId::MdMitm, EngineId::PmasBalance, EngineId::PmasDifference, EngineId::Apde,
        EngineId::Bcj, EngineId::Hgj, EngineId::Bonnetain,
        EngineId::BigUintBcj, EngineId::BigUintHgj, EngineId::BigUintBonnetain,
        EngineId::GroupDecompose, EngineId::AdaptiveFunnel, EngineId::MicroDecompose,
        EngineId::HashMitm, EngineId::Genetic, EngineId::GradientSolver, EngineId::DensitySplit,
        EngineId::LllSolver, EngineId::RecursiveDensity,
    ]
}

/// Every engine the scheduler knows, in catalogue order.
pub fn all_engines() -> (r: Vec<EngineId>)
    ensures
        r@ == catalogue(),
{
    let r = vec![
        EngineId::Residue, EngineId::DigitFilter, EngineId::Dominance, EngineId::TinyBrute,
        EngineId::GreedyPlus, EngineId::SplitSolver, EngineId::Greedy, EngineId::Backward,
        EngineId::Gdep, EngineId::BitsetDp, EngineId::TurboSpec, EngineId::Bridge,
        EngineId::Mitm, EngineId::SchroeppelShamir, EngineId::Decompose, EngineId::DualCollapse,
        EngineId::ColumnSat, EngineId::Cascade, EngineId::Randomized,
        EngineId::MdMitm, EngineId::PmasBalance, EngineId::PmasDifference, EngineId::Apde,
        EngineId::Bcj, EngineId::Hgj, EngineId::Bonnetain,
        EngineId::BigUintBcj, EngineId::BigUintHgj, EngineId::BigUintBonnetain,
        EngineId::GroupDecompose, EngineId::AdaptiveFunnel, EngineId::MicroDecompose,
        EngineId::HashMitm, EngineId::Genetic, EngineId::GradientSolver, EngineId::DensitySplit,
        EngineId::LllSolver, EngineId::RecursiveDensity,
    ];
    assert(r@ =~= catalogue());
    r
}

/// The names of a list of engines, in the same order.
pub fn names_of(ids: &Vec<EngineId>) -> (r: Vec<&'static str>)
    ensures
        r@.len() == ids@.len(),
        forall|i: int| 0 <= i < r@.len() ==> r@[i] == (#[trigger] ids@[i]).label(),
{
    let mut r: Vec<&'static str> = Vec::new();
    for i in 0..ids.len()
        invariant
            r@.len() == i,
            forall|j: int| 0 <= j < i ==> r@[j] == (#[trigger] ids@[j]).label(),
    {
        r.push(ids[i].name());
    }
    r
}

/// Every engine name the scheduler knows (for a settings screen).
pub fn all_engine_names() -> (r: Vec<&'static str>)
    ensures
        r@.len() == catalogue().len(),
        forall|i: int| 0 <= i < r@.len() ==> r@[i] == (#[trigger] catalogue()[i]).label(),
{
    names_of(&all_engines())
}

/// How the values of an instance are spread.
#[derive(Clone, Copy, Debug, PartialEq, Eq, Structural)]
pub enum ValDist {
    Exponential,
    DenseSmall,
    Spread,
    Bimodal,
    Clustered,
    Uniform,
}

/// What the structure analysis found out about the values of an instance.
/// Ratios are counted in ten-thousandths (10000 stands for 1).
#[derive(Clone, Copy, Debug)]
pub struct StructureInfo {
    pub val_dist: ValDist,
    /// How well the linear-time engines are expected to fare.
    pub linear_favorable: u32,
    /// The sorted values have a gap that splits them in two.
    pub has_gap_split: bool,
    pub is_arithmetic: bool,
    pub is_geometric: bool,
    pub all_distinct: bool,
    /// Share of repeated values.
    pub redundancy_ratio: u32,
}

/// What the scheduler needs to know about the machine.
pub struct HardwareProfile {
    pub cpu_cores: usize,
    /// Largest target that a dynamic-programming bitset may take here.
    pub max_bitset_target: u64,
    /// Engines that suit this machine for the instance; they go last.
    pub tail: Vec<EngineId>,
}

/// A candidate engine and its score.
pub type Cand = (EngineId, u128);

/// Score of the given phase (0 to 4) plus an offset; earlier phases score
/// higher.
pub open spec fn ps(phase: int, offset: int) -> u128 {
    (20_000_000 - 1_000_000 * phase + offset) as u128
}

fn phase_score(phase: u128, offset: u128) -> (r: u128)
    requires
        phase <= 4,
        offset <= 2_000_000,
    ensures
        r == ps(phase as int, offset as int),
{
    20_000_000 - 1_000_000 * phase + offset
}

/// Every score stays below `2^40` until the boosts are added.
pub open spec fn capped(s: Seq<Cand>) -> bool {
    forall|i: int| 0 <= i < s.len() ==> (#[trigger] s[i]).1 < 0x100_0000_0000
}

/// Phase 0: the universal fast checks, and the linear-time engines.
pub open spec fn fast_checks(s: Seq<Cand>, n: int, info: StructureInfo, superinc: bool) -> Seq<Cand> {
    let s = s.push((EngineId::Residue, ps(0, 990_000))).push(
        (EngineId::DigitFilter, ps(0, 950_000)),
    ).push((EngineId::Dominance, ps(0, 900_000)));
    let s = if n <= 12 {
        s.push((EngineId::TinyBrute, ps(0, 980_000)))
    } else {
        s
    };
    let lf = info.linear_favorable as int;
    let base = ps(0, 500_000) as int;
    let s = if lf > 5000 {
        s.push((EngineId::GreedyPlus, (base + 99 * lf) as u128))
    } else {
        s
    };
    let s = if lf > 0 && info.has_gap_split && n > 20 {
        s.push((EngineId::SplitSolver, (base + 95 * lf) as u128))
    } else {
        s
    };
    let s = if lf > 0 && superinc {
        s.push((EngineId::Greedy, (base + 970_000) as u128))
    } else {
        s
    };
    if n <= 20 && lf <= 5000 {
        s.push((EngineId::GreedyPlus, ps(0, 800_000)))
    } else {
        s
    }
}

fn add_fast_checks(v: &mut Vec<Cand>, n: usize, info: &StructureInfo, superinc: bool)
    requires
        capped(old(v)@),
    ensures
        final(v)@ == fast_checks(old(v)@, n as int, *info, superinc),
        capped(final(v)@),
{
    v.push((EngineId::Residue, phase_score(0, 990_000)));
    v.push((EngineId::DigitFilter, phase_score(0, 950_000)));
    v.push((EngineId::Dominance, phase_score(0, 900_000)));
    if n <= 12 {
        v.push((EngineId::TinyBrute, phase_score(0, 980_000)));
    }
    let lf = info.linear_favorable as u128;
    let base = phase_score(0, 500_000);
    if lf > 5000 {
        v.push((EngineId::GreedyPlus, base + 99 * lf));
    }
    if lf > 0 && info.has_gap_split && n > 20 {
        v.push((EngineId::SplitSolver, base + 95 * lf));
    }
    if lf > 0 && superinc {
        v.push((EngineId::Greedy, base + 970_000));
    }
    if n <= 20 && lf <= 5000 {
        v.push((EngineId::GreedyPlus, phase_score(0, 800_000)));
    }
}

/// Phase 1: the engines that suit how the values are spread.
pub open spec fn by_distribution(s: Seq<Cand>, info: StructureInfo) -> Seq<Cand> {
    match info.val_dist {
        ValDist::Exponential => s.push((EngineId::GreedyPlus, ps(1, 990_000))).push(
            (EngineId::Greedy, ps(1, 980_000)),
        ).push((EngineId::Backward, ps(1, 920_000))).push((EngineId::Gdep, ps(1, 880_000))),
        ValDist::DenseSmall => s.push((EngineId::BitsetDp, ps(1, 990_000))).push(
            (EngineId::TurboSpec, ps(1, 920_000)),
        ).push((EngineId::Bridge, ps(1, 850_000))).push((EngineId::Backward, ps(1, 800_000))),
        ValDist::Spread => {
            let s = s.push((EngineId::GroupDecompose, ps(1, 990_000))).push(
                (EngineId::AdaptiveFunnel, ps(1, 970_000)),
            ).push((EngineId::Gdep, ps(1, 950_000))).push((EngineId::Decompose, ps(1, 930_000))).push(
                (EngineId::DualCollapse, ps(1, 880_000)),
            ).push((EngineId::Bridge, ps(1, 860_000)));
            let s = if info.has_gap_split {
                s.push((EngineId::SplitSolver, ps(1, 940_000)))
            } else {
                s
            };
            s.push((EngineId::SchroeppelShamir, ps(1, 800_000)))
        },
        ValDist::Bimodal => s.push((EngineId::TurboSpec, ps(1, 990_000))).push(
            (EngineId::ColumnSat, ps(1, 920_000)),
        ).push((EngineId::Cascade, ps(1, 880_000))).push((EngineId::Bridge, ps(1, 820_000))),
        ValDist::Clustered => s.push((EngineId::Cascade, ps(1, 980_000))).push(
            (EngineId::Bridge, ps(1, 920_000)),
        ).push((EngineId::Dominance, ps(1, 880_000))).push((EngineId::DualCollapse, ps(1, 820_000))),
        ValDist::Uniform => s.push((EngineId::Gdep, ps(1, 920_000))).push(
            (EngineId::Backward, ps(1, 850_000)),
        ).push((EngineId::TurboSpec, ps(1, 820_000))),
    }
}

fn add_by_distribution(v: &mut Vec<Cand>, info: &StructureInfo)
    requires
        capped(old(v)@),
    ensures
        final(v)@ == by_distribution(old(v)@, *info),
        capped(final(v)@),
{
    match info.val_dist {
        ValDist::Exponential => {
            v.push((EngineId::GreedyPlus, phase_score(1, 990_000)));
            v.push((EngineId::Greedy, phase_score(1, 980_000)));
            v.push((EngineId::Backward, phase_score(1, 920_000)));
            v.push((EngineId::Gdep, phase_score(1, 880_000)));
        },
        ValDist::DenseSmall => {
            v.push((EngineId::BitsetDp, phase_score(1, 990_000)));
            v.push((EngineId::TurboSpec, phase_score(1, 920_000)));
            v.push((EngineId::Bridge, phase_score(1, 850_000)));
            v.push((EngineId::Backward, phase_score(1, 800_000)));
        },
        ValDist::Spread => {
            v.push((EngineId::GroupDecompose, phase_score(1, 990_000)));
            v.push((EngineId::AdaptiveFunnel, phase_score(1, 970_000)));
            v.push((EngineId::Gdep, phase_score(1, 950_000)));
            v.push((EngineId::Decompose, phase_score(1, 930_000)));
            v.push((EngineId::DualCollapse, phase_score(1, 880_000)));
            v.push((EngineId::Bridge, phase_score(1, 860_000)));
            if info.has_gap_split {
                v.push((EngineId::SplitSolver, phase_score(1, 940_000)));
            }
            v.push((EngineId::SchroeppelShamir, phase_score(1, 800_000)));
        },
        ValDist::Bimodal => {
            v.push((EngineId::TurboSpec, phase_score(1, 990_000)));
            v.push((EngineId::ColumnSat, phase_score(1, 920_000)));
            v.push((EngineId::Cascade, phase_score(1, 880_000)));
            v.push((EngineId::Bridge, phase_score(1, 820_000)));
        },
        ValDist::Clustered => {
            v.push((EngineId::Cascade, phase_score(1, 980_000)));
            v.push((EngineId::Bridge, phase_score(1, 920_000)));
            v.push((EngineId::Dominance, phase_score(1, 880_000)));
            v.push((EngineId::DualCollapse, phase_score(1, 820_000)));
        },
        ValDist::Uniform => {
            v.push((EngineId::Gdep, phase_score(1, 920_000)));
            v.push((EngineId::Backward, phase_score(1, 850_000)));
            v.push((EngineId::TurboSpec, phase_score(1, 820_000)));
        },
    }
}

/// Phase 1: the engines for arithmetic and geometric progressions.
pub open spec fn by_progression(s: Seq<Cand>, info: StructureInfo) -> Seq<Cand> {
    let s = if info.is_arithmetic {
        s.push((EngineId::Gdep, ps(1, 990_000))).push((EngineId::BitsetDp, ps(1, 950_000))).push(
            (EngineId::Greedy, ps(1, 900_000)),
        )
    } else {
        s
    };
    if info.is_geometric {
        s.push((EngineId::Gdep, ps(1, 990_000))).push((EngineId::Greedy, ps(1, 950_000))).push(
            (EngineId::Backward, ps(1, 900_000)),
        )
    } else {
        s
    }
}

fn add_by_progression(v: &mut Vec<Cand>, info: &StructureInfo)
    requires
        capped(old(v)@),
    ensures
        final(v)@ == by_progression(old(v)@, *info),
        capped(final(v)@),
{
    if info.is_arithmetic {
        v.push((EngineId::Gdep, phase_score(1, 990_000)));
        v.push((EngineId::BitsetDp, phase_score(1, 950_000)));
        v.push((EngineId::Greedy, phase_score(1, 900_000)));
    }
    if info.is_geometric {
        v.push((EngineId::Gdep, phase_score(1, 990_000)));
        v.push((EngineId::Greedy, phase_score(1, 950_000)));
        v.push((EngineId::Backward, phase_score(1, 900_000)));
    }
}

/// Phase 1: the shortcut for instances that come from a SAT encoding.
pub open spec fn sat_shortcut(s: Seq<Cand>) -> Seq<Cand> {
    s.push((EngineId::ColumnSat, ps(1, 990_000))).push((EngineId::Cascade, ps(1, 800_000)))
}

/// Phase 2: the engines that suit the number of elements. `fits64` tells
/// whether the target is below `2^64`.
pub open spec fn by_size(s: Seq<Cand>, n: int, fits64: bool) -> Seq<Cand> {
    let b = ps(2, 0) as int;
    if n <= 10 {
        s.push((EngineId::BitsetDp, (b + 980_000) as u128)).push((EngineId::Mitm, (b + 950_000) as u128))
    } else if n <= 15 {
        s.push((EngineId::BitsetDp, (b + 970_000) as u128)).push((EngineId::Mitm, (b + 960_000) as u128)).push(
            (EngineId::SchroeppelShamir, (b + 930_000) as u128),
        )
    } else if n <= 20 {
        s.push((EngineId::Mitm, (b + 960_000) as u128)).push((EngineId::BitsetDp, (b + 940_000) as u128)).push(
            (EngineId::SchroeppelShamir, (b + 920_000) as u128),
        )
    } else if n <= 30 {
        s.push((EngineId::Mitm, (b + 950_000) as u128)).push((EngineId::BitsetDp, (b + 900_000) as u128)).push(
            (EngineId::Backward, (b + 880_000) as u128),
        )
    } else if n <= 50 {
        s.push((EngineId::GroupDecompose, (b + 990_000) as u128)).push(
            (EngineId::HashMitm, (b + 985_000) as u128),
        ).push((EngineId::AdaptiveFunnel, (b + 970_000) as u128)).push(
            (EngineId::Gdep, (b + 950_000) as u128),
        ).push((EngineId::Backward, (b + 910_000) as u128)).push((EngineId::Bridge, (b + 880_000) as u128)).push(
            (EngineId::TurboSpec, (b + 860_000) as u128),
        ).push((EngineId::MdMitm, (b + 840_000) as u128)).push(
            (EngineId::PmasBalance, (b + 800_000) as u128),
        ).push((EngineId::SchroeppelShamir, (b + 780_000) as u128))
    } else if n <= 64 {
        s.push((EngineId::HashMitm, (b + 1_100_000) as u128)).push(
            (EngineId::GroupDecompose, (b + 1_080_000) as u128),
        ).push((EngineId::SchroeppelShamir, (b + 1_060_000) as u128)).push(
            (EngineId::Gdep, (b + 940_000) as u128),
        ).push((EngineId::Backward, (b + 900_000) as u128)).push((EngineId::Bridge, (b + 880_000) as u128)).push(
            (EngineId::TurboSpec, (b + 840_000) as u128),
        ).push((EngineId::MdMitm, (b + 820_000) as u128)).push(
            (EngineId::PmasBalance, (b + 780_000) as u128),
        ).push((EngineId::Apde, (b + 740_000) as u128))
    } else if n <= 70 {
        s.push((EngineId::GroupDecompose, (b + 1_100_000) as u128)).push(
            (EngineId::SchroeppelShamir, (b + 1_090_000) as u128),
        ).push((EngineId::Gdep, (b + 940_000) as u128)).push((EngineId::Backward, (b + 900_000) as u128)).push(
            (EngineId::Bridge, (b + 880_000) as u128),
        ).push((EngineId::TurboSpec, (b + 840_000) as u128)).push((EngineId::MdMitm, (b + 820_000) as u128)).push(
            (EngineId::PmasBalance, (b + 780_000) as u128),
        ).push((EngineId::Apde, (b + 740_000) as u128))
    } else if n <= 100 {
        s.push((EngineId::Backward, (b + 900_000) as u128)).push((EngineId::Bridge, (b + 880_000) as u128)).push(
            (EngineId::Randomized, (b + 850_000) as u128),
        ).push((EngineId::TurboSpec, (b + 830_000) as u128)).push((EngineId::MdMitm, (b + 800_000) as u128)).push(
            (EngineId::PmasBalance, (b + 760_000) as u128),
        ).push((EngineId::PmasDifference, (b + 740_000) as u128)).push((EngineId::Apde, (b + 720_000) as u128))
    } else {
        let s = if fits64 {
            s.push((EngineId::BitsetDp, (b + 930_000) as u128))
        } else {
            s
        };
        s.push((EngineId::Backward, (b + 880_000) as u128)).push((EngineId::Bridge, (b + 860_000) as u128)).push(
            (EngineId::Randomized, (b + 840_000) as u128),
        ).push((EngineId::TurboSpec, (b + 820_000) as u128)).push((EngineId::MdMitm, (b + 780_000) as u128)).push(
            (EngineId::PmasBalance, (b + 740_000) as u128),
        ).push((EngineId::Apde, (b + 700_000) as u128))
    }
}

fn add_by_size(v: &mut Vec<Cand>, n: usize, fits64: bool)
    requires
        capped(old(v)@),
    ensures
        final(v)@ == by_size(old(v)@, n as int, fits64),
        capped(final(v)@),
{
    let b = phase_score(2, 0);
    if n <= 10 {
        v.push((EngineId::BitsetDp, b + 980_000));
        v.push((EngineId::Mitm, b + 950_000));
    } else if n <= 15 {
        v.push((EngineId::BitsetDp, b + 970_000));
        v.push((EngineId::Mitm, b + 960_000));
        v.push((EngineId::SchroeppelShamir, b + 930_000));
    } else if n <= 20 {
        v.push((EngineId::Mitm, b + 960_000));
        v.push((EngineId::BitsetDp, b + 940_000));
        v.push((EngineId::SchroeppelShamir, b + 920_000));
    } else if n <= 30 {
        v.push((EngineId::Mitm, b + 950_000));
        v.push((EngineId::BitsetDp, b + 900_000));
        v.push((EngineId::Backward, b + 880_000));
    } else if n <= 50 {
        v.push((EngineId::GroupDecompose, b + 990_000));
        v.push((EngineId::HashMitm, b + 985_000));
        v.push((EngineId::AdaptiveFunnel, b + 970_000));
        v.push((EngineId::Gdep, b + 950_000));
        v.push((EngineId::Backward, b + 910_000));
        v.push((EngineId::Bridge, b + 880_000));
        v.push((EngineId::TurboSpec, b + 860_000));
        v.push((EngineId::MdMitm, b + 840_000));
        v.push((EngineId::PmasBalance, b + 800_000));
        v.push((EngineId::SchroeppelShamir, b + 780_000));
    } else if n <= 64 {
        v.push((EngineId::HashMitm, b + 1_100_000));
        v.push((EngineId::GroupDecompose, b + 1_080_000));
        v.push((EngineId::SchroeppelShamir, b + 1_060_000));
        v.push((EngineId::Gdep, b + 940_000));
        v.push((EngineId::Backward, b + 900_000));
        v.push((EngineId::Bridge, b + 880_000));
        v.push((EngineId::TurboSpec, b + 840_000));
        v.push((EngineId::MdMitm, b + 820_000));
        v.push((EngineId::PmasBalance, b + 780_000));
        v.push((EngineId::Apde, b + 740_000));
    } else if n <= 70 {
        v.push((EngineId::GroupDecompose, b + 1_100_000));
        v.push((EngineId::SchroeppelShamir, b + 1_090_000));
        v.push((EngineId::Gdep, b + 940_000));
        v.push((EngineId::Backward, b + 900_000));
        v.push((EngineId::Bridge, b + 880_000));
        v.push((EngineId::TurboSpec, b + 840_000));
        v.push((EngineId::MdMitm, b + 820_000));
        v.push((EngineId::PmasBalance, b + 780_000));
        v.push((EngineId::Apde, b + 740_000));
    } else if n <= 100 {
        v.push((EngineId::Backward, b + 900_000));
        v.push((EngineId::Bridge, b + 880_000));
        v.push((EngineId::Randomized, b + 850_000));
        v.push((EngineId::TurboSpec, b + 830_000));
        v.push((EngineId::MdMitm, b + 800_000));
        v.push((EngineId::PmasBalance, b + 760_000));
        v.push((EngineId::PmasDifference, b + 740_000));
        v.push((EngineId::Apde, b + 720_000));
    } else {
        if fits64 {
            v.push((EngineId::BitsetDp, b + 930_000));
        }
        v.push((EngineId::Backward, b + 880_000));
        v.push((EngineId::Bridge, b + 860_000));
        v.push((EngineId::Randomized, b + 840_000));
        v.push((EngineId::TurboSpec, b + 820_000));
        v.push((EngineId::MdMitm, b + 780_000));
        v.push((EngineId::PmasBalance, b + 740_000));
        v.push((EngineId::Apde, b + 700_000));
    }
}

/// The engines of the cryptanalytic family, which only small instances get.
pub open spec fn crypto_engines() -> Set<EngineId> {
    set![EngineId::SchroeppelShamir, EngineId::Bcj, EngineId::Hgj, EngineId::Bonnetain]
}

/// `s` without the candidates whose engine is in `gone`, in order.
pub open spec fn dropped(s: Seq<Cand>, gone: Set<EngineId>) -> Seq<Cand>
    decreases s.len(),
{
    if s.len() == 0 {
        s
    } else if gone.contains(s.last().0) {
        dropped(s.drop_last(), gone)
    } else {
        dropped(s.drop_last(), gone).push(s.last())
    }
}

/// `s` without the cryptanalytic engines (`crypto`), or without BitsetDP.
fn drop_engines(s: &Vec<Cand>, crypto: bool) -> (r: Vec<Cand>)
    requires
        capped(s@),
    ensures
        r@ == dropped(
            s@,
            if crypto {
                crypto_engines()
            } else {
                set![EngineId::BitsetDp]
            },
        ),
        capped(r@),
{
    let ghost gone = if crypto {
        crypto_engines()
    } else {
        set![EngineId::BitsetDp]
    };
    let mut r: Vec<Cand> = Vec::new();
    for i in 0..s.len()
        invariant
            gone == (if crypto {
                crypto_engines()
            } else {
                set![EngineId::BitsetDp]
            }),
            capped(s@),
            capped(r@),
            r@ == dropped(s@.take(i as int), gone),
    {
        let c = s[i];
        let out = match c.0 {
            EngineId::SchroeppelShamir | EngineId::Bcj | EngineId::Hgj | EngineId::Bonnetain => crypto,
            EngineId::BitsetDp => !crypto,
            _ => false,
        };
        proof {
            assert(s@.take(i + 1).drop_last() =~= s@.take(i as int));
            assert(s@.take(i + 1).last() == c);
        }
        if !out {
            r.push(c);
        }
    }
    proof {
        assert(s@.take(s@.len() as int) =~= s@);
    }
    r
}

/// Phase 2: the cryptanalytic engines for distinct values, and none of
/// that family beyond 70 elements.
pub open spec fn by_crypto(s: Seq<Cand>, n: int, info: StructureInfo) -> Seq<Cand> {
    let b = ps(2, 0) as int;
    let s = if info.all_distinct && 15 < n <= 70 {
        let s = s.push((EngineId::SchroeppelShamir, (b + 920_000) as u128));
        if n >= 30 {
            s.push((EngineId::Bcj, (b + 800_000) as u128)).push((EngineId::Hgj, (b + 780_000) as u128)).push(
                (EngineId::Bonnetain, (b + 760_000) as u128),
            )
        } else {
            s
        }
    } else {
        s
    };
    if n > 70 {
        dropped(s, crypto_engines())
    } else {
        s
    }
}

fn add_by_crypto(v: Vec<Cand>, n: usize, info: &StructureInfo) -> (r: Vec<Cand>)
    requires
        capped(v@),
    ensures
        r@ == by_crypto(v@, n as int, *info),
        capped(r@),
{
    let mut v = v;
    let b = phase_score(2, 0);
    if info.all_distinct && 15 < n && n <= 70 {
        v.push((EngineId::SchroeppelShamir, b + 920_000));
        if n >= 30 {
            v.push((EngineId::Bcj, b + 800_000));
            v.push((EngineId::Hgj, b + 780_000));
            v.push((EngineId::Bonnetain, b + 760_000));
        }
    }
    if n > 70 {
        drop_engines(&v, true)
    } else {
        v
    }
}

/// Phase 2: the engines tied to size ranges of 128-bit instances, and the
/// one for repeated values. `safe` tells whether the instance fits the
/// 128-bit engines.
pub open spec fn by_range(s: Seq<Cand>, n: int, info: StructureInfo, safe: bool) -> Seq<Cand> {
    let b = ps(2, 0) as int;
    let s = if info.redundancy_ratio > 1500 {
        s.push((EngineId::BitsetDp, (b + 960_000) as u128))
    } else {
        s
    };
    let s = if 4 <= n <= 25 && safe {
        s.push((EngineId::RecursiveDensity, ps(2, 800_000)))
    } else {
        s
    };
    let s = if 24 <= n <= 44 && safe {
        s.push((EngineId::DensitySplit, ps(2, 750_000)))
    } else {
        s
    };
    let s = if 5 <= n <= 50 && safe {
        s.push((EngineId::GradientSolver, ps(1, 890_000)))
    } else {
        s
    };
    let s = if 10 <= n <= 50 && safe {
        s.push((EngineId::Genetic, ps(2, 700_000)))
    } else {
        s
    };
    let s = if 20 <= n <= 64 && safe {
        s.push((EngineId::HashMitm, ps(2, 999_000)))
    } else {
        s
    };
    let s = if 20 <= n <= 60 && safe {
        s.push((EngineId::MicroDecompose, ps(2, 995_000)))
    } else {
        s
    };
    let s = if 28 <= n <= 70 && safe {
        s.push((EngineId::GroupDecompose, (b + 750_000) as u128))
    } else {
        s
    };
    if 20 <= n <= 60 && safe {
        s.push((EngineId::AdaptiveFunnel, (b + 720_000) as u128))
    } else {
        s
    }
}

fn add_by_range(v: &mut Vec<Cand>, n: usize, info: &StructureInfo, safe: bool)
    requires
        capped(old(v)@),
    ensures
        final(v)@ == by_range(old(v)@, n as int, *info, safe),
        capped(final(v)@),
{
    let b = phase_score(2, 0);
    if info.redundancy_ratio > 1500 {
        v.push((EngineId::BitsetDp, b + 960_000));
    }
    if 4 <= n && n <= 25 && safe {
        v.push((EngineId::RecursiveDensity, phase_score(2, 800_000)));
    }
    if 24 <= n && n <= 44 && safe {
        v.push((EngineId::DensitySplit, phase_score(2, 750_000)));
    }
    if 5 <= n && n <= 50 && safe {
        v.push((EngineId::GradientSolver, phase_score(1, 890_000)));
    }
    if 10 <= n && n <= 50 && safe {
        v.push((EngineId::Genetic, phase_score(2, 700_000)));
    }
    if 20 <= n && n <= 64 && safe {
        v.push((EngineId::HashMitm, phase_score(2, 999_000)));
    }
    if 20 <= n && n <= 60 && safe {
        v.push((EngineId::MicroDecompose, phase_score(2, 995_000)));
    }
    if 28 <= n && n <= 70 && safe {
        v.push((EngineId::GroupDecompose, b + 750_000));
    }
    if 20 <= n && n <= 60 && safe {
        v.push((EngineId::AdaptiveFunnel, b + 720_000));
    }
}

/// Phase 3 (the big-number engines, for instances beyond the 128-bit
/// engines) and phase 4 (the engines that suit the machine).
pub open spec fn by_machine(s: Seq<Cand>, safe: bool, tail: Seq<EngineId>) -> Seq<Cand> {
    let b = ps(3, 0) as int;
    let s = if !safe {
        s.push((EngineId::BigUintBcj, (b + 700_000) as u128)).push(
            (EngineId::BigUintHgj, (b + 680_000) as u128),
        ).push((EngineId::BigUintBonnetain, (b + 660_000) as u128))
    } else {
        s
    };
    s + Seq::new(tail.len(), |i: int| (tail[i], ps(4, 700_000)))
}

fn add_by_machine(v: &mut Vec<Cand>, safe: bool, tail: &Vec<EngineId>)
    requires
        capped(old(v)@),
    ensures
        final(v)@ == by_machine(old(v)@, safe, tail@),
        capped(final(v)@),
{
    let b = phase_score(3, 0);
    if !safe {
        v.push((EngineId::BigUintBcj, b + 700_000));
        v.push((EngineId::BigUintHgj, b + 680_000));
        v.push((EngineId::BigUintBonnetain, b + 660_000));
    }
    let ghost start = v@;
    let score = phase_score(4, 700_000);
    for i in 0..tail.len()
        invariant
            score == ps(4, 700_000),
            v@ == start + Seq::new(i as nat, |j: int| (tail@[j], ps(4, 700_000))),
            capped(v@),
    {
        v.push((tail[i], score));
        proof {
            assert(v@ =~= start + Seq::new((i + 1) as nat, |j: int| (tail@[j], ps(4, 700_000))));
        }
    }
    proof {
        assert(v@ =~= start + Seq::new(tail@.len(), |j: int| (tail@[j], ps(4, 700_000))));
    }
}

/// `t` capped at the largest `u64`.
pub open spec fn clamp64(t: int) -> int {
    if t <= u64::MAX {
        t
    } else {
        u64::MAX as int
    }
}

/// The filters: no BitsetDP when the target exceeds what the machine's
/// bitset may take or beyond 100 elements; at most 16 engines on a machine
/// with two cores or fewer.
pub open spec fn filtered(s: Seq<Cand>, n: int, target: int, hw: HardwareProfile) -> Seq<Cand> {
    let s = if clamp64(target) > hw.max_bitset_target {
        dropped(s, set![EngineId::BitsetDp])
    } else {
        s
    };
    let s = if n > 100 {
        dropped(s, set![EngineId::BitsetDp])
    } else {
        s
    };
    if hw.cpu_cores <= 2 && s.len() > 16 {
        s.take(16)
    } else {
        s
    }
}

/// GreedyPlus gains ten times the linear-favourability.
pub open spec fn greedy_boosted(s: Seq<Cand>, lf: int) -> Seq<Cand> {
    Seq::new(
        s.len(),
        |i: int|
            if s[i].0 == EngineId::GreedyPlus {
                (s[i].0, (s[i].1 + 10 * lf) as u128)
            } else {
                s[i]
            },
    )
}

/// The learned boost of an engine: its entry in `boosts`, by catalogue
/// place, or nothing.
pub open spec fn boost_of(boosts: Seq<u64>, e: EngineId) -> int {
    if e.ord() < boosts.len() {
        boosts[e.ord() as int] as int
    } else {
        0
    }
}

/// Each engine gains its learned boost.
pub open spec fn learned(s: Seq<Cand>, boosts: Seq<u64>) -> Seq<Cand> {
    Seq::new(s.len(), |i: int| (s[i].0, (s[i].1 + boost_of(boosts, s[i].0)) as u128))
}

fn apply_filters(v: Vec<Cand>, n: usize, target: &crate::bignum::BigNum, hw: &HardwareProfile) -> (r: Vec<Cand>)
    requires
        capped(v@),
    ensures
        r@ == filtered(v@, n as int, target@ as int, *hw),
        capped(r@),
{
    let clamped: u64 = match target.to_u128() {
        Some(t) => if t <= 0xffff_ffff_ffff_ffff {
            t as u64
        } else {
            0xffff_ffff_ffff_ffff
        },
        None => 0xffff_ffff_ffff_ffff,
    };
    let mut v = v;
    if clamped > hw.max_bitset_target {
        v = drop_engines(&v, false);
    }
    if n > 100 {
        v = drop_engines(&v, false);
    }
    if hw.cpu_cores <= 2 && v.len() > 16 {
        v.truncate(16);
    }
    v
}

fn boost_greedy(v: &mut Vec<Cand>, lf: u32)
    requires
        capped(old(v)@),
    ensures
        final(v)@ == greedy_boosted(old(v)@, lf as int),
        forall|i: int| 0 <= i < final(v)@.len() ==> (#[trigger] final(v)@[i]).1 < 0x200_0000_0000,
{
    let ghost start = v@;
    let add = 10 * (lf as u128);
    let mut i: usize = 0;
    while i < v.len()
        invariant
            i <= v@.len(),
            v@.len() == start.len(),
            capped(start),
            add == 10 * lf,
            forall|j: int| 0 <= j < i ==> #[trigger] v@[j] == greedy_boosted(start, lf as int)[j],
            forall|j: int| i <= j < v@.len() ==> #[trigger] v@[j] == start[j],
        decreases v@.len() - i,
    {
        let c = v[i];
        if c.0 == EngineId::GreedyPlus {
            v.set(i, (c.0, c.1 + add));
        }
        i = i + 1;
    }
    proof {
        assert(v@ =~= greedy_boosted(start, lf as int));
    }
}

fn add_learned(v: &mut Vec<Cand>, boosts: &[u64])
    requires
        forall|i: int| 0 <= i < old(v)@.len() ==> (#[trigger] old(v)@[i]).1 < 0x200_0000_0000,
    ensures
        final(v)@ == learned(old(v)@, boosts@),
{
    let ghost start = v@;
    let mut i: usize = 0;
    while i < v.len()
        invariant
            i <= v@.len(),
            v@.len() == start.len(),
            forall|j: int| 0 <= j < start.len() ==> (#[trigger] start[j]).1 < 0x200_0000_0000,
            forall|j: int| 0 <= j < i ==> #[trigger] v@[j] == learned(start, boosts@)[j],
            forall|j: int| i <= j < v@.len() ==> #[trigger] v@[j] == start[j],
        decreases v@.len() - i,
    {
        let c = v[i];
        let k = c.0.index();
        let b: u64 = if k < boosts.len() {
            boosts[k]
        } else {
            0
        };
        v.set(i, (c.0, c.1 + b as u128));
        i = i + 1;
    }
    proof {
        assert(v@ =~= learned(start, boosts@));
    }
}

/// Number of leading entries of `s` that score at least `score`.
pub open spec fn slot(s: Seq<Cand>, score: u128) -> nat
    decreases s.len(),
{
    if s.len() == 0 || s[0].1 < score {
        0
    } else {
        1 + slot(s.drop_first(), score)
    }
}

/// `s` sorted by score, highest first, a stable sort: candidates with equal
/// scores keep their order.
pub open spec fn by_score(s: Seq<Cand>) -> Seq<Cand>
    decreases s.len(),
{
    if s.len() == 0 {
        s
    } else {
        let t = by_score(s.drop_last());
        t.insert(slot(t, s.last().1) as int, s.last())
    }
}

/// The engines of `s` in order, each at its first appearance only.
pub open spec fn first_seen(s: Seq<Cand>) -> Seq<EngineId>
    decreases s.len(),
{
    if s.len() == 0 {
        Seq::empty()
    } else {
        let d = first_seen(s.drop_last());
        if d.contains(s.last().0) {
            d
        } else {
            d.push(s.last().0)
        }
    }
}

/// The engines of `s` by their best score, highest first; among equal best
/// scores, the one whose best came first goes first.
pub open spec fn ranked(s: Seq<Cand>) -> Seq<EngineId> {
    first_seen(by_score(s))
}

proof fn lemma_slot_len(s: Seq<Cand>, score: u128)
    ensures
        slot(s, score) <= s.len(),
    decreases s.len(),
{
    if s.len() > 0 && s[0].1 >= score {
        lemma_slot_len(s.drop_first(), score);
    }
}

proof fn lemma_by_score_len(s: Seq<Cand>)
    ensures
        by_score(s).len() == s.len(),
    decreases s.len(),
{
    if s.len() > 0 {
        lemma_by_score_len(s.drop_last());
        lemma_slot_len(by_score(s.drop_last()), s.last().1);
    }
}

fn contains_id(v: &Vec<EngineId>, id: EngineId) -> (r: bool)
    ensures
        r == v@.contains(id),
{
    for i in 0..v.len()
        invariant
            forall|j: int| 0 <= j < i ==> v@[j] != id,
    {
        if v[i] == id {
            assert(v@[i as int] == id);
            return true;
        }
    }
    false
}

/// The engines of `s` ranked by best score (see `ranked`).
pub fn rank(s: &Vec<Cand>) -> (r: Vec<EngineId>)
    ensures
        r@ == ranked(s@),
{
    let mut sorted: Vec<Cand> = Vec::new();
    for k in 0..s.len()
        invariant
            sorted@ == by_score(s@.take(k as int)),
    {
        let x = s[k];
        proof {
            lemma_by_score_len(s@.take(k as int));
        }
        let mut p: usize = 0;
        assert(sorted@.subrange(0, sorted@.len() as int) =~= sorted@);
        while p < sorted.len() && sorted[p].1 >= x.1
            invariant
                p <= sorted@.len(),
                slot(sorted@, x.1) == p + slot(sorted@.subrange(p as int, sorted@.len() as int), x.1),
            decreases sorted@.len() - p,
        {
            proof {
                let rest = sorted@.subrange(p as int, sorted@.len() as int);
                assert(rest.drop_first() =~= sorted@.subrange(p + 1, sorted@.len() as int));
            }
            p = p + 1;
        }
        proof {
            let rest = sorted@.subrange(p as int, sorted@.len() as int);
            if p == sorted@.len() {
                assert(rest.len() == 0);
            }
            assert(s@.take(k + 1).drop_last() =~= s@.take(k as int));
            assert(s@.take(k + 1).last() == x);
        }
        sorted.insert(p, x);
    }
    proof {
        assert(s@.take(s@.len() as int) =~= s@);
    }
    let mut out: Vec<EngineId> = Vec::new();
    for k in 0..sorted.len()
        invariant
            out@ == first_seen(sorted@.take(k as int)),
    {
        let id = sorted[k].0;
        proof {
            assert(sorted@.take(k + 1).drop_last() =~= sorted@.take(k as int));
            assert(sorted@.take(k + 1).last() == sorted@[k as int]);
        }
        if !contains_id(&out, id) {
            out.push(id);
        }
    }
    proof {
        assert(sorted@.take(sorted@.len() as int) =~= sorted@);
    }
    out
}

/// Every candidate engine for an instance, with its score, before ranking.
/// An instance marked as coming from a SAT encoding stops after phase 1.
pub open spec fn candidates(p: Profile, info: StructureInfo, hw: HardwareProfile, boosts: Seq<u64>) -> Seq<Cand> {
    let n = p.values().len() as int;
    let s = by_progression(
        by_distribution(fast_checks(Seq::empty(), n, info, super_increasing(p.values())), info),
        info,
    );
    if p.sat_flag() {
        sat_shortcut(s)
    } else {
        let t = p.target_value();
        let s = by_range(
            by_crypto(by_size(s, n, t < 0x1_0000_0000_0000_0000), n, info),
            n,
            info,
            p.safe(),
        );
        let s = filtered(by_machine(s, p.safe(), hw.tail@), n, t, hw);
        let s = if info.linear_favorable > 4000 {
            greedy_boosted(s, info.linear_favorable as int)
        } else {
            s
        };
        learned(s, boosts)
    }
}

/// The engines to race on an instance, best first, each once.
pub open spec fn planned(p: Profile, info: StructureInfo, hw: HardwareProfile, boosts: Seq<u64>) -> Seq<EngineId> {
    ranked(candidates(p, info, hw, boosts))
}

/// The engines to race on an instance, best first, each once: see
/// `candidates` for the scores and `ranked` for the order. `boosts` holds the
/// learned boost of each engine by its place in the catalogue.
pub fn schedule_ids(p: &Profile, info: &StructureInfo, hw: &HardwareProfile, boosts: &[u64]) -> (r: Vec<EngineId>)
    ensures
        r@ == planned(*p, *info, *hw, boosts@),
{
    let n = p.n();
    let mut v: Vec<Cand> = Vec::new();
    add_fast_checks(&mut v, n, info, p.is_super_increasing());
    add_by_distribution(&mut v, info);
    add_by_progression(&mut v, info);
    if p.looks_sat_encoded() {
        v.push((EngineId::ColumnSat, phase_score(1, 990_000)));
        v.push((EngineId::Cascade, phase_score(1, 800_000)));
        return rank(&v);
    }
    let fits64 = match p.target().to_u128() {
        Some(t) => t <= 0xffff_ffff_ffff_ffff,
        None => false,
    };
    add_by_size(&mut v, n, fits64);
    let mut v = add_by_crypto(v, n, info);
    let safe = p.u128_safe();
    add_by_range(&mut v, n, info, safe);
    add_by_machine(&mut v, safe, &hw.tail);
    let mut v = apply_filters(v, n, p.target(), hw);
    if info.linear_favorable > 4000 {
        boost_greedy(&mut v, info.linear_favorable);
    }
    add_learned(&mut v, boosts);
    rank(&v)
}

/// The names of the engines to race on an instance, best first, each once
/// (see `schedule_ids`).
pub fn schedule(p: &Profile, info: &StructureInfo, hw: &HardwareProfile, boosts: &[u64]) -> (r: Vec<
    &'static str,
>)
    ensures
        r@.len() == planned(*p, *info, *hw, boosts@).len(),
        forall|i: int| 0 <= i < r@.len() ==> r@[i] == (#[trigger] planned(*p, *info, *hw, boosts@)[i]).label(),
{
    names_of(&schedule_ids(p, info, hw, boosts))
}

/// Some candidate of `s` is `c`.
pub open spec fn appears(s: Seq<Cand>, c: Cand) -> bool {
    exists|i: int| 0 <= i < s.len() && s[i] == c
}

/// Some candidate of `s` is engine `e`.
pub open spec fn has_engine(s: Seq<Cand>, e: EngineId) -> bool {
    exists|i: int| 0 <= i < s.len() && s[i].0 == e
}

proof fn lemma_by_score_elems(s: Seq<Cand>)
    ensures
        by_score(s).len() == s.len(),
        forall|j: int| 0 <= j < s.len() ==> appears(s, #[trigger] by_score(s)[j]),
        forall|i: int| 0 <= i < s.len() ==> appears(by_score(s), #[trigger] s[i]),
    decreases s.len(),
{
    if s.len() > 0 {
        let s2 = s.drop_last();
        let t = by_score(s2);
        let x = s.last();
        lemma_by_score_elems(s2);
        lemma_slot_len(t, x.1);
        let k = slot(t, x.1) as int;
        t.insert_ensures(k, x);
        assert(by_score(s) == t.insert(k, x));
        assert forall|j: int| 0 <= j < s.len() implies appears(s, #[trigger] by_score(s)[j]) by {
            if j < k {
                assert(appears(s2, t[j]));
                let i = choose|i: int| 0 <= i < s2.len() && s2[i] == t[j];
                assert(s[i] == s2[i]);
            } else if j == k {
                assert(s[s.len() - 1] == x);
            } else {
                assert(by_score(s)[j] == t[j - 1]);
                assert(appears(s2, t[j - 1]));
                let i = choose|i: int| 0 <= i < s2.len() && s2[i] == t[j - 1];
                assert(s[i] == s2[i]);
            }
        }
        assert forall|i: int| 0 <= i < s.len() implies appears(by_score(s), #[trigger] s[i]) by {
            if i == s.len() - 1 {
                assert(by_score(s)[k] == x);
            } else {
                assert(s[i] == s2[i]);
                assert(appears(t, s2[i]));
                let j = choose|j: int| 0 <= j < t.len() && t[j] == s2[i];
                if j < k {
                    assert(by_score(s)[j] == t[j]);
                } else {
                    assert(by_score(s)[j + 1] == t[j]);
                }
            }
        }
    }
}

proof fn lemma_first_seen(s: Seq<Cand>)
    ensures
        forall|i: int| 0 <= i < s.len() ==> first_seen(s).contains(#[trigger] s[i].0),
        forall|k: int| 0 <= k < first_seen(s).len() ==> has_engine(s, #[trigger] first_seen(s)[k]),
        forall|a: int, b: int|
            0 <= a < b < first_seen(s).len() ==> #[trigger] first_seen(s)[a] != #[trigger] first_seen(s)[b],
    decreases s.len(),
{
    if s.len() > 0 {
        let s2 = s.drop_last();
        let d = first_seen(s2);
        lemma_first_seen(s2);
        assert forall|i: int| 0 <= i < s.len() implies first_seen(s).contains(#[trigger] s[i].0) by {
            if i < s.len() - 1 {
                assert(s[i] == s2[i]);
                assert(d.contains(s2[i].0));
                let k = choose|k: int| 0 <= k < d.len() && d[k] == s2[i].0;
                assert(first_seen(s)[k] == d[k]);
            } else if !d.contains(s.last().0) {
                assert(first_seen(s)[d.len() as int] == s.last().0);
            }
        }
        assert forall|k: int| 0 <= k < first_seen(s).len() implies has_engine(s, #[trigger] first_seen(s)[k]) by {
            if k < d.len() {
                assert(has_engine(s2, d[k]));
                let i = choose|i: int| 0 <= i < s2.len() && s2[i].0 == d[k];
                assert(s[i] == s2[i]);
            } else {
                assert(s[s.len() - 1] == s.last());
            }
        }
    }
}

/// The engines in `ranked(s)` are exactly those of `s`, each once.
proof fn lemma_ranked(s: Seq<Cand>)
    ensures
        forall|i: int| 0 <= i < s.len() ==> ranked(s).contains(#[trigger] s[i].0),
        forall|e: EngineId| ranked(s).contains(e) ==> has_engine(s, e),
        forall|a: int, b: int|
            0 <= a < b < ranked(s).len() ==> #[trigger] ranked(s)[a] != #[trigger] ranked(s)[b],
{
    let t = by_score(s);
    lemma_by_score_elems(s);
    lemma_first_seen(t);
    assert forall|i: int| 0 <= i < s.len() implies ranked(s).contains(#[trigger] s[i].0) by {
        assert(appears(t, s[i]));
        let j = choose|j: int| 0 <= j < t.len() && t[j] == s[i];
        assert(first_seen(t).contains(t[j].0));
    }
    assert forall|e: EngineId| ranked(s).contains(e) implies has_engine(s, e) by {
        let k = choose|k: int| 0 <= k < ranked(s).len() && ranked(s)[k] == e;
        assert(has_engine(t, first_seen(t)[k]));
        let j = choose|j: int| 0 <= j < t.len() && t[j].0 == e;
        assert(appears(s, t[j]));
        let i = choose|i: int| 0 <= i < s.len() && s[i] == t[j];
        assert(s[i].0 == e);
    }
}

/// `s` starts with the three universal fast checks.
pub open spec fn starts_with_checks(s: Seq<Cand>) -> bool {
    &&& s.len() >= 3
    &&& s[0].0 == EngineId::Residue
    &&& s[1].0 == EngineId::DigitFilter
    &&& s[2].0 == EngineId::Dominance
}

proof fn lemma_dropped(s: Seq<Cand>, gone: Set<EngineId>)
    ensures
        dropped(s, gone).len() <= s.len(),
        forall|j: int| 0 <= j < dropped(s, gone).len() ==> !gone.contains(#[trigger] dropped(s, gone)[j].0),
    decreases s.len(),
{
    if s.len() > 0 {
        lemma_dropped(s.drop_last(), gone);
    }
}

proof fn lemma_dropped_prefix(s: Seq<Cand>, gone: Set<EngineId>, k: int)
    requires
        0 <= k <= s.len(),
        forall|i: int| 0 <= i < k ==> !gone.contains(#[trigger] s[i].0),
    ensures
        dropped(s, gone).len() >= k,
        forall|i: int| 0 <= i < k ==> #[trigger] dropped(s, gone)[i] == s[i],
    decreases s.len(),
{
    if s.len() > 0 {
        let s2 = s.drop_last();
        lemma_dropped(s2, gone);
        if k == s.len() {
            assert(s[k - 1] == s.last());
            assert forall|i: int| 0 <= i < k - 1 implies !gone.contains(#[trigger] s2[i].0) by {
                assert(s2[i] == s[i]);
            }
            lemma_dropped_prefix(s2, gone, k - 1);
        } else {
            assert forall|i: int| 0 <= i < k implies !gone.contains(#[trigger] s2[i].0) by {
                assert(s2[i] == s[i]);
            }
            lemma_dropped_prefix(s2, gone, k);
        }
    }
}

/// `t` begins with all of `s`.
pub open spec fn extends(s: Seq<Cand>, t: Seq<Cand>) -> bool {
    t.len() >= s.len() && forall|i: int| 0 <= i < s.len() ==> #[trigger] t[i] == s[i]
}

proof fn lemma_phase1_extends(s: Seq<Cand>, info: StructureInfo)
    ensures
        extends(s, by_distribution(s, info)),
        extends(s, by_progression(s, info)),
        extends(s, sat_shortcut(s)),
{
}

proof fn lemma_by_size_extends(s: Seq<Cand>, n: int, fits64: bool)
    ensures
        extends(s, by_size(s, n, fits64)),
{
}

proof fn lemma_by_range_extends(s: Seq<Cand>, n: int, info: StructureInfo, safe: bool)
    ensures
        extends(s, by_range(s, n, info, safe)),
{
}

proof fn lemma_by_machine_extends(s: Seq<Cand>, safe: bool, tail: Seq<EngineId>)
    ensures
        extends(s, by_machine(s, safe, tail)),
{
}

proof fn lemma_by_crypto_start(s: Seq<Cand>, n: int, info: StructureInfo)
    requires
        starts_with_checks(s),
    ensures
        starts_with_checks(by_crypto(s, n, info)),
{
    let b = ps(2, 0) as int;
    let s1 = if info.all_distinct && 15 < n <= 70 {
        let s = s.push((EngineId::SchroeppelShamir, (b + 920_000) as u128));
        if n >= 30 {
            s.push((EngineId::Bcj, (b + 800_000) as u128)).push((EngineId::Hgj, (b + 780_000) as u128)).push(
                (EngineId::Bonnetain, (b + 760_000) as u128),
            )
        } else {
            s
        }
    } else {
        s
    };
    assert(starts_with_checks(s1));
    lemma_dropped_prefix(s1, crypto_engines(), 3);
}

proof fn lemma_filtered_start(s: Seq<Cand>, n: int, t: int, hw: HardwareProfile)
    requires
        starts_with_checks(s),
    ensures
        starts_with_checks(filtered(s, n, t, hw)),
{
    let only = set![EngineId::BitsetDp];
    lemma_dropped_prefix(s, only, 3);
    let sa = if clamp64(t) > hw.max_bitset_target {
        dropped(s, only)
    } else {
        s
    };
    assert(starts_with_checks(sa));
    lemma_dropped_prefix(sa, only, 3);
}

proof fn lemma_candidates_start(p: Profile, info: StructureInfo, hw: HardwareProfile, boosts: Seq<u64>)
    ensures
        starts_with_checks(candidates(p, info, hw, boosts)),
{
    let n = p.values().len() as int;
    let s0 = fast_checks(Seq::empty(), n, info, super_increasing(p.values()));
    assert(starts_with_checks(s0));
    lemma_phase1_extends(s0, info);
    let s1 = by_distribution(s0, info);
    lemma_phase1_extends(s1, info);
    let s2 = by_progression(s1, info);
    lemma_phase1_extends(s2, info);
    assert(starts_with_checks(s2));
    if !p.sat_flag() {
        let t = p.target_value();
        let s3 = by_size(s2, n, t < 0x1_0000_0000_0000_0000);
        lemma_by_size_extends(s2, n, t < 0x1_0000_0000_0000_0000);
        lemma_by_crypto_start(s3, n, info);
        let s4 = by_crypto(s3, n, info);
        let s5 = by_range(s4, n, info, p.safe());
        lemma_by_range_extends(s4, n, info, p.safe());
        let s6 = by_machine(s5, p.safe(), hw.tail@);
        lemma_by_machine_extends(s5, p.safe(), hw.tail@);
        lemma_filtered_start(s6, n, t, hw);
        let s7 = filtered(s6, n, t, hw);
        let s8 = if info.linear_favorable > 4000 {
            greedy_boosted(s7, info.linear_favorable as int)
        } else {
            s7
        };
        assert(starts_with_checks(s8));
        assert(starts_with_checks(learned(s8, boosts)));
    }
}

/// The universal fast checks (Residue, DigitFilter, Dominance) are scheduled
/// for every instance.
pub proof fn law_fast_checks_scheduled(p: Profile, info: StructureInfo, hw: HardwareProfile, boosts: Seq<u64>)
    ensures
        planned(p, info, hw, boosts).contains(EngineId::Residue),
        planned(p, info, hw, boosts).contains(EngineId::DigitFilter),
        planned(p, info, hw, boosts).contains(EngineId::Dominance),
{
    let c = candidates(p, info, hw, boosts);
    lemma_candidates_start(p, info, hw, boosts);
    lemma_ranked(c);
    assert(ranked(c).contains(c[0].0));
    assert(ranked(c).contains(c[1].0));
    assert(ranked(c).contains(c[2].0));
}

/// No engine is scheduled twice.
pub proof fn law_schedule_distinct(p: Profile, info: StructureInfo, hw: HardwareProfile, boosts: Seq<u64>)
    ensures
        forall|a: int, b: int|
            0 <= a < b < planned(p, info, hw, boosts).len() ==> #[trigger] planned(p, info, hw, boosts)[a]
                != #[trigger] planned(p, info, hw, boosts)[b],
{
    lemma_ranked(candidates(p, info, hw, boosts));
}

/// No candidate of `s` is an engine of `gone`.
pub open spec fn lacks(s: Seq<Cand>, gone: Set<EngineId>) -> bool {
    forall|j: int| 0 <= j < s.len() ==> !gone.contains(#[trigger] s[j].0)
}

proof fn lemma_lacks_push(s: Seq<Cand>, gone: Set<EngineId>, c: Cand)
    requires
        lacks(s, gone),
        !gone.contains(c.0),
    ensures
        lacks(s.push(c), gone),
{
    assert forall|j: int| 0 <= j < s.push(c).len() implies !gone.contains(#[trigger] s.push(c)[j].0) by {
        if j < s.len() {
            assert(s.push(c)[j] == s[j]);
        }
    }
}

/// The filters, the GreedyPlus boost and the learned boosts keep what a
/// candidate list lacks.
proof fn lemma_lacks_after_filters(
    s: Seq<Cand>,
    gone: Set<EngineId>,
    n: int,
    t: int,
    hw: HardwareProfile,
    info: StructureInfo,
    boosts: Seq<u64>,
)
    requires
        lacks(s, gone),
    ensures
        lacks(
            learned(
                if info.linear_favorable > 4000 {
                    greedy_boosted(filtered(s, n, t, hw), info.linear_favorable as int)
                } else {
                    filtered(s, n, t, hw)
                },
                boosts,
            ),
            gone,
        ),
{
    let only = set![EngineId::BitsetDp];
    lemma_dropped(s, only);
    let sa = if clamp64(t) > hw.max_bitset_target {
        dropped(s, only)
    } else {
        s
    };
    lemma_dropped_keeps(s, only, gone);
    lemma_dropped(sa, only);
    lemma_dropped_keeps(sa, only, gone);
    let sb = if n > 100 {
        dropped(sa, only)
    } else {
        sa
    };
    let f = filtered(s, n, t, hw);
    assert(lacks(sb, gone));
    assert(lacks(f, gone));
    let g = if info.linear_favorable > 4000 {
        greedy_boosted(f, info.linear_favorable as int)
    } else {
        f
    };
    assert(lacks(g, gone));
    assert(lacks(learned(g, boosts), gone));
}

/// Dropping candidates keeps what a list lacks.
proof fn lemma_dropped_keeps(s: Seq<Cand>, only: Set<EngineId>, gone: Set<EngineId>)
    ensures
        lacks(s, gone) ==> lacks(dropped(s, only), gone),
    decreases s.len(),
{
    if s.len() > 0 {
        lemma_dropped_keeps(s.drop_last(), only, gone);
        if lacks(s, gone) {
            assert forall|j: int| 0 <= j < s.drop_last().len() implies !gone.contains(#[trigger] s.drop_last()[j].0) by {
                assert(s.drop_last()[j] == s[j]);
            }
            if !only.contains(s.last().0) {
                lemma_lacks_push(dropped(s.drop_last(), only), gone, s.last());
            }
        }
    }
}

/// BitsetDP is never scheduled beyond 100 elements, nor for a target above
/// what the machine's bitset may take, unless the instance comes from a SAT
/// encoding (whose schedule ends after phase 1).
pub proof fn law_no_bitset_beyond_limits(p: Profile, info: StructureInfo, hw: HardwareProfile, boosts: Seq<u64>)
    requires
        p.values().len() > 100 || clamp64(p.target_value()) > hw.max_bitset_target,
        !p.sat_flag(),
    ensures
        !planned(p, info, hw, boosts).contains(EngineId::BitsetDp),
{
    let n = p.values().len() as int;
    let t = p.target_value();
    let s = by_progression(
        by_distribution(fast_checks(Seq::empty(), n, info, super_increasing(p.values())), info),
        info,
    );
    let s = by_range(by_crypto(by_size(s, n, t < 0x1_0000_0000_0000_0000), n, info), n, info, p.safe());
    let s = by_machine(s, p.safe(), hw.tail@);
    let only = set![EngineId::BitsetDp];
    lemma_dropped(s, only);
    let sa = if clamp64(t) > hw.max_bitset_target {
        dropped(s, only)
    } else {
        s
    };
    lemma_dropped(sa, only);
    let sb = if n > 100 {
        dropped(sa, only)
    } else {
        sa
    };
    assert(lacks(sb, only));
    let f = filtered(s, n, t, hw);
    assert(lacks(f, only));
    let g = if info.linear_favorable > 4000 {
        greedy_boosted(f, info.linear_favorable as int)
    } else {
        f
    };
    assert(lacks(g, only));
    let c = candidates(p, info, hw, boosts);
    assert(c == learned(g, boosts));
    assert(lacks(c, only));
    lemma_ranked(c);
    assert(planned(p, info, hw, boosts) == ranked(c));
    if ranked(c).contains(EngineId::BitsetDp) {
        assert(has_engine(c, EngineId::BitsetDp));
    }
}

/// Beyond 70 elements the small-set cryptanalytic engines
/// (Schroeppel-Shamir, BCJ, HGJ, Bonnetain) are not scheduled, unless the
/// instance comes from a SAT encoding or the machine's own list names them.
pub proof fn law_no_crypto_beyond_70(p: Profile, info: StructureInfo, hw: HardwareProfile, boosts: Seq<u64>)
    requires
        p.values().len() > 70,
        !p.sat_flag(),
        forall|i: int| 0 <= i < hw.tail@.len() ==> !crypto_engines().contains(#[trigger] hw.tail@[i]),
    ensures
        forall|e: EngineId| crypto_engines().contains(e) ==> !planned(p, info, hw, boosts).contains(e),
{
    let n = p.values().len() as int;
    let t = p.target_value();
    let gone = crypto_engines();
    let s0 = by_progression(
        by_distribution(fast_checks(Seq::empty(), n, info, super_increasing(p.values())), info),
        info,
    );
    let s1 = by_crypto(by_size(s0, n, t < 0x1_0000_0000_0000_0000), n, info);
    lemma_dropped(by_size(s0, n, t < 0x1_0000_0000_0000_0000), gone);
    assert(lacks(s1, gone));
    let s2 = by_range(s1, n, info, p.safe());
    assert(lacks(s2, gone)) by {
        assert forall|j: int| 0 <= j < s2.len() implies !gone.contains(#[trigger] s2[j].0) by {
            if j >= s1.len() {
                assert(s2[j].0 != EngineId::SchroeppelShamir && s2[j].0 != EngineId::Bcj && s2[j].0 != EngineId::Hgj
                    && s2[j].0 != EngineId::Bonnetain);
            } else {
                assert(s2[j] == s1[j]);
            }
        }
    }
    let s3 = by_machine(s2, p.safe(), hw.tail@);
    assert(lacks(s3, gone)) by {
        assert forall|j: int| 0 <= j < s3.len() implies !gone.contains(#[trigger] s3[j].0) by {
            if j < s2.len() {
                assert(s3[j] == s2[j]);
            } else if !p.safe() && j < s2.len() + 3 {
            } else {
                let k = if p.safe() {
                    j - s2.len()
                } else {
                    j - s2.len() - 3
                };
                assert(s3[j].0 == hw.tail@[k]);
            }
        }
    }
    lemma_lacks_after_filters(s3, gone, n, t, hw, info, boosts);
    let c = candidates(p, info, hw, boosts);
    assert(lacks(c, gone));
    lemma_ranked(c);
    assert forall|e: EngineId| crypto_engines().contains(e) implies !planned(p, info, hw, boosts).contains(e) by {
        if ranked(c).contains(e) {
            assert(has_engine(c, e));
        }
    }
}

/// Some entry for engine `e` in `s` scores at least `x`.
pub open spec fn scores_at_least(s: Seq<Cand>, e: EngineId, x: int) -> bool {
    exists|i: int| 0 <= i < s.len() && s[i].0 == e && s[i].1 >= x
}

proof fn lemma_slot(t: Seq<Cand>, score: u128)
    ensures
        slot(t, score) <= t.len(),
        forall|i: int| 0 <= i < slot(t, score) ==> (#[trigger] t[i]).1 >= score,
        slot(t, score) < t.len() ==> t[slot(t, score) as int].1 < score,
    decreases t.len(),
{
    if t.len() > 0 && t[0].1 >= score {
        lemma_slot(t.drop_first(), score);
        assert forall|i: int| 0 <= i < slot(t, score) implies (#[trigger] t[i]).1 >= score by {
            if i > 0 {
                assert(t[i] == t.drop_first()[i - 1]);
            }
        }
    }
}

/// `by_score` orders by score, highest first.
proof fn lemma_by_score_sorted(s: Seq<Cand>)
    ensures
        forall|i: int, j: int| 0 <= i < j < by_score(s).len() ==> #[trigger] by_score(s)[i].1 >= #[trigger] by_score(s)[j].1,
    decreases s.len(),
{
    if s.len() > 0 {
        let t = by_score(s.drop_last());
        let x = s.last();
        lemma_by_score_sorted(s.drop_last());
        lemma_slot(t, x.1);
        let k = slot(t, x.1) as int;
        let u = t.insert(k, x);
        assert(by_score(s) == u);
        assert forall|i: int, j: int| 0 <= i < j < u.len() implies #[trigger] u[i].1 >= #[trigger] u[j].1 by {
            if j < k {
                assert(u[i] == t[i] && u[j] == t[j]);
            } else if j == k {
                assert(u[i] == t[i]);
            } else if i < k {
                assert(u[i] == t[i] && u[j] == t[j - 1]);
            } else if i == k {
                assert(u[j] == t[j - 1]);
                if j - 1 > k {
                    assert(t[k].1 >= t[j - 1].1);
                }
            } else {
                assert(u[i] == t[i - 1] && u[j] == t[j - 1]);
            }
        }
    }
}

/// Engine `e` occurs in `s` before position `j`.
pub open spec fn occurs_before(s: Seq<Cand>, e: EngineId, j: int) -> bool {
    exists|i: int| 0 <= i < j && s[i].0 == e
}

/// An engine that `first_seen` lists earlier occurs in `s` before every
/// occurrence of an engine it lists later.
proof fn lemma_first_seen_order(s: Seq<Cand>)
    ensures
        forall|a: int, b: int, j: int|
            #![trigger first_seen(s)[a], first_seen(s)[b], s[j]]
            0 <= a < b < first_seen(s).len() && 0 <= j < s.len() && s[j].0 == first_seen(s)[b] ==> occurs_before(
                s,
                first_seen(s)[a],
                j,
            ),
    decreases s.len(),
{
    if s.len() > 0 {
        let s2 = s.drop_last();
        let d = first_seen(s2);
        let f = first_seen(s);
        lemma_first_seen_order(s2);
        lemma_first_seen(s2);
        assert forall|a: int, b: int, j: int|
            #![trigger f[a], f[b], s[j]]
            0 <= a < b < f.len() && 0 <= j < s.len() && s[j].0 == f[b] implies occurs_before(s, f[a], j) by {
            assert(f[a] == d[a]);
            if b < d.len() {
                assert(f[b] == d[b]);
                if j < s.len() - 1 {
                    assert(s2[j] == s[j]);
                    assert(occurs_before(s2, d[a], j));
                    let i = choose|i: int| 0 <= i < j && s2[i].0 == d[a];
                    assert(s[i] == s2[i]);
                } else {
                    assert(has_engine(s2, d[b]));
                    let j2 = choose|j2: int| 0 <= j2 < s2.len() && s2[j2].0 == d[b];
                    assert(occurs_before(s2, d[a], j2));
                    let i = choose|i: int| 0 <= i < j2 && s2[i].0 == d[a];
                    assert(s[i] == s2[i]);
                }
            } else {
                assert(!d.contains(s.last().0));
                assert(f[b] == s.last().0);
                if j < s.len() - 1 {
                    assert(s2[j] == s[j]);
                    assert(d.contains(s2[j].0));
                }
                assert(has_engine(s2, d[a]));
                let i = choose|i: int| 0 <= i < s2.len() && s2[i].0 == d[a];
                assert(s[i] == s2[i]);
            }
        }
    }
}

/// The engines are scheduled in order of their best scores: whatever score
/// an engine scheduled later gets, an engine scheduled earlier gets one at
/// least as high.
pub proof fn law_schedule_by_best_score(p: Profile, info: StructureInfo, hw: HardwareProfile, boosts: Seq<u64>)
    ensures
        forall|a: int, b: int, j: int|
            0 <= a < b < planned(p, info, hw, boosts).len() && 0 <= j < candidates(p, info, hw, boosts).len()
                && #[trigger] candidates(p, info, hw, boosts)[j].0 == #[trigger] planned(p, info, hw, boosts)[b]
                ==> scores_at_least(
                candidates(p, info, hw, boosts),
                #[trigger] planned(p, info, hw, boosts)[a],
                candidates(p, info, hw, boosts)[j].1 as int,
            ),
{
    let c = candidates(p, info, hw, boosts);
    let t = by_score(c);
    let r = planned(p, info, hw, boosts);
    assert(r == ranked(c));
    lemma_by_score_elems(c);
    lemma_by_score_sorted(c);
    lemma_first_seen_order(t);
    assert forall|a: int, b: int, j: int|
        0 <= a < b < r.len() && 0 <= j < c.len() && #[trigger] c[j].0 == #[trigger] r[b] implies scores_at_least(
        c,
        #[trigger] r[a],
        c[j].1 as int,
    ) by {
        assert(appears(t, c[j]));
        let j2 = choose|j2: int| 0 <= j2 < t.len() && t[j2] == c[j];
        assert(t[j2].0 == first_seen(t)[b]);
        assert(occurs_before(t, first_seen(t)[a], j2));
        let i = choose|i: int| 0 <= i < j2 && t[i].0 == first_seen(t)[a];
        assert(t[i].1 >= t[j2].1);
        assert(appears(c, t[i]));
        let i2 = choose|i2: int| 0 <= i2 < c.len() && c[i2] == t[i];
        assert(c[i2].0 == r[a] && c[i2].1 >= c[j].1);
    }
}


proof fn lemma_has_extends(s: Seq<Cand>, t: Seq<Cand>, e: EngineId)
    requires
        extends(s, t),
        has_engine(s, e),
    ensures
        has_engine(t, e),
{
    let i = choose|i: int| 0 <= i < s.len() && s[i].0 == e;
    assert(t[i] == s[i]);
}

proof fn lemma_dropped_has(s: Seq<Cand>, gone: Set<EngineId>, e: EngineId)
    requires
        has_engine(s, e),
        !gone.contains(e),
    ensures
        has_engine(dropped(s, gone), e),
    decreases s.len(),
{
    let s2 = s.drop_last();
    if s.last().0 == e {
        let d = dropped(s2, gone).push(s.last());
        assert(d[d.len() - 1].0 == e);
    } else {
        let i = choose|i: int| 0 <= i < s.len() && s[i].0 == e;
        assert(s2[i] == s[i]);
        lemma_dropped_has(s2, gone, e);
        if !gone.contains(s.last().0) {
            let d = dropped(s2, gone);
            let j = choose|j: int| 0 <= j < d.len() && d[j].0 == e;
            assert(d.push(s.last())[j] == d[j]);
        }
    }
}

/// An engine put on the list in phase 1 is scheduled, unless a later phase
/// takes it off: the cryptanalytic engines beyond 70 elements, BitsetDP
/// beyond 100 elements or above the machine's bitset limit, and whatever
/// falls past the first 16 on a machine of two cores or fewer.
proof fn lemma_phase1_kept(p: Profile, info: StructureInfo, hw: HardwareProfile, boosts: Seq<u64>, e: EngineId)
    requires
        has_engine(
            by_distribution(
                fast_checks(Seq::empty(), p.values().len() as int, info, super_increasing(p.values())),
                info,
            ),
            e,
        ),
        p.sat_flag() || hw.cpu_cores > 2,
        p.sat_flag() || !crypto_engines().contains(e) || p.values().len() <= 70,
        p.sat_flag() || e != EngineId::BitsetDp || (p.values().len() <= 100 && clamp64(p.target_value())
            <= hw.max_bitset_target),
    ensures
        planned(p, info, hw, boosts).contains(e),
{
    let n = p.values().len() as int;
    let s0 = fast_checks(Seq::empty(), n, info, super_increasing(p.values()));
    let s1 = by_distribution(s0, info);
    lemma_phase1_extends(s1, info);
    let s2 = by_progression(s1, info);
    lemma_has_extends(s1, s2, e);
    let c = candidates(p, info, hw, boosts);
    if p.sat_flag() {
        lemma_phase1_extends(s2, info);
        lemma_has_extends(s2, sat_shortcut(s2), e);
    } else {
        let t = p.target_value();
        let s3 = by_size(s2, n, t < 0x1_0000_0000_0000_0000);
        lemma_by_size_extends(s2, n, t < 0x1_0000_0000_0000_0000);
        lemma_has_extends(s2, s3, e);
        let b = ps(2, 0) as int;
        let s3a = if info.all_distinct && 15 < n <= 70 {
            let s = s3.push((EngineId::SchroeppelShamir, (b + 920_000) as u128));
            if n >= 30 {
                s.push((EngineId::Bcj, (b + 800_000) as u128)).push((EngineId::Hgj, (b + 780_000) as u128)).push(
                    (EngineId::Bonnetain, (b + 760_000) as u128),
                )
            } else {
                s
            }
        } else {
            s3
        };
        assert(extends(s3, s3a));
        lemma_has_extends(s3, s3a, e);
        let s4 = by_crypto(s3, n, info);
        if n > 70 {
            lemma_dropped_has(s3a, crypto_engines(), e);
        }
        assert(has_engine(s4, e));
        let s5 = by_range(s4, n, info, p.safe());
        lemma_by_range_extends(s4, n, info, p.safe());
        lemma_has_extends(s4, s5, e);
        let s6 = by_machine(s5, p.safe(), hw.tail@);
        lemma_by_machine_extends(s5, p.safe(), hw.tail@);
        lemma_has_extends(s5, s6, e);
        let only = set![EngineId::BitsetDp];
        let sa = if clamp64(t) > hw.max_bitset_target {
            dropped(s6, only)
        } else {
            s6
        };
        if clamp64(t) > hw.max_bitset_target {
            lemma_dropped_has(s6, only, e);
        }
        let sb = if n > 100 {
            dropped(sa, only)
        } else {
            sa
        };
        if n > 100 {
            lemma_dropped_has(sa, only, e);
        }
        let s7 = filtered(s6, n, t, hw);
        assert(s7 == sb);
        let s8 = if info.linear_favorable > 4000 {
            greedy_boosted(s7, info.linear_favorable as int)
        } else {
            s7
        };
        let i = choose|i: int| 0 <= i < s7.len() && s7[i].0 == e;
        assert(s8[i].0 == e);
        assert(learned(s8, boosts)[i].0 == e);
        assert(c == learned(s8, boosts));
    }
    assert(has_engine(c, e));
    let i = choose|i: int| 0 <= i < c.len() && c[i].0 == e;
    lemma_ranked(c);
    assert(ranked(c).contains(c[i].0));
}

/// The phase-1 engines that suit how the values are spread are scheduled
/// (unless a later phase takes them off, see `lemma_phase1_kept`):
/// exponential values get GreedyPlus, Greedy, Backward and GDEP; dense small
/// ones BitsetDP, TurboSpec, Bridge and Backward; spread ones GroupDecompose,
/// AdaptiveFunnel, GDEP, Decompose, DualCollapse, Bridge, SplitSolver when
/// the values have a gap, and Schroeppel-Shamir; bimodal ones TurboSpec,
/// ColumnSAT, Cascade and Bridge; clustered ones Cascade, Bridge, Dominance
/// and DualCollapse; uniform ones GDEP, Backward and TurboSpec. An instance
/// from a SAT encoding also gets ColumnSAT and Cascade.
pub proof fn law_phase1_scheduled(p: Profile, info: StructureInfo, hw: HardwareProfile, boosts: Seq<u64>)
    requires
        p.sat_flag() || hw.cpu_cores > 2,
    ensures
        ({
            let plan = planned(p, info, hw, boosts);
            let n = p.values().len();
            let sat = p.sat_flag();
            let bitset_ok = sat || (n <= 100 && clamp64(p.target_value()) <= hw.max_bitset_target);
            &&& info.val_dist == ValDist::Exponential ==> plan.contains(EngineId::GreedyPlus) && plan.contains(
                EngineId::Greedy,
            ) && plan.contains(EngineId::Backward) && plan.contains(EngineId::Gdep)
            &&& info.val_dist == ValDist::DenseSmall ==> plan.contains(EngineId::TurboSpec) && plan.contains(
                EngineId::Bridge,
            ) && plan.contains(EngineId::Backward) && (bitset_ok ==> plan.contains(EngineId::BitsetDp))
            &&& info.val_dist == ValDist::Spread ==> plan.contains(EngineId::GroupDecompose) && plan.contains(
                EngineId::AdaptiveFunnel,
            ) && plan.contains(EngineId::Gdep) && plan.contains(EngineId::Decompose) && plan.contains(
                EngineId::DualCollapse,
            ) && plan.contains(EngineId::Bridge) && (info.has_gap_split ==> plan.contains(EngineId::SplitSolver))
                && (sat || n <= 70 ==> plan.contains(EngineId::SchroeppelShamir))
            &&& info.val_dist == ValDist::Bimodal ==> plan.contains(EngineId::TurboSpec) && plan.contains(
                EngineId::ColumnSat,
            ) && plan.contains(EngineId::Cascade) && plan.contains(EngineId::Bridge)
            &&& info.val_dist == ValDist::Clustered ==> plan.contains(EngineId::Cascade) && plan.contains(
                EngineId::Bridge,
            ) && plan.contains(EngineId::Dominance) && plan.contains(EngineId::DualCollapse)
            &&& info.val_dist == ValDist::Uniform ==> plan.contains(EngineId::Gdep) && plan.contains(
                EngineId::Backward,
            ) && plan.contains(EngineId::TurboSpec)
            &&& sat ==> plan.contains(EngineId::ColumnSat) && plan.contains(EngineId::Cascade)
        }),
{
    let n = p.values().len() as int;
    let s0 = fast_checks(Seq::empty(), n, info, super_increasing(p.values()));
    let s1 = by_distribution(s0, info);
    let k = s0.len() as int;
    assert(!crypto_engines().contains(EngineId::GreedyPlus));
    assert(!crypto_engines().contains(EngineId::Greedy));
    assert(!crypto_engines().contains(EngineId::Backward));
    assert(!crypto_engines().contains(EngineId::Gdep));
    assert(!crypto_engines().contains(EngineId::TurboSpec));
    assert(!crypto_engines().contains(EngineId::Bridge));
    assert(!crypto_engines().contains(EngineId::BitsetDp));
    assert(!crypto_engines().contains(EngineId::GroupDecompose));
    assert(!crypto_engines().contains(EngineId::AdaptiveFunnel));
    assert(!crypto_engines().contains(EngineId::Decompose));
    assert(!crypto_engines().contains(EngineId::DualCollapse));
    assert(!crypto_engines().contains(EngineId::SplitSolver));
    assert(!crypto_engines().contains(EngineId::ColumnSat));
    assert(!crypto_engines().contains(EngineId::Cascade));
    assert(!crypto_engines().contains(EngineId::Dominance));
    match info.val_dist {
        ValDist::Exponential => {
            assert(s1[k].0 == EngineId::GreedyPlus);
            assert(s1[k + 1].0 == EngineId::Greedy);
            assert(s1[k + 2].0 == EngineId::Backward);
            assert(s1[k + 3].0 == EngineId::Gdep);
            lemma_phase1_kept(p, info, hw, boosts, EngineId::GreedyPlus);
            lemma_phase1_kept(p, info, hw, boosts, EngineId::Greedy);
            lemma_phase1_kept(p, info, hw, boosts, EngineId::Backward);
            lemma_phase1_kept(p, info, hw, boosts, EngineId::Gdep);
        },
        ValDist::DenseSmall => {
            assert(s1[k].0 == EngineId::BitsetDp);
            assert(s1[k + 1].0 == EngineId::TurboSpec);
            assert(s1[k + 2].0 == EngineId::Bridge);
            assert(s1[k + 3].0 == EngineId::Backward);
            if p.sat_flag() || (n <= 100 && clamp64(p.target_value()) <= hw.max_bitset_target) {
                lemma_phase1_kept(p, info, hw, boosts, EngineId::BitsetDp);
            }
            lemma_phase1_kept(p, info, hw, boosts, EngineId::TurboSpec);
            lemma_phase1_kept(p, info, hw, boosts, EngineId::Bridge);
            lemma_phase1_kept(p, info, hw, boosts, EngineId::Backward);
        },
        ValDist::Spread => {
            assert(s1[k].0 == EngineId::GroupDecompose);
            assert(s1[k + 1].0 == EngineId::AdaptiveFunnel);
            assert(s1[k + 2].0 == EngineId::Gdep);
            assert(s1[k + 3].0 == EngineId::Decompose);
            assert(s1[k + 4].0 == EngineId::DualCollapse);
            assert(s1[k + 5].0 == EngineId::Bridge);
            if info.has_gap_split {
                assert(s1[k + 6].0 == EngineId::SplitSolver);
                assert(s1[k + 7].0 == EngineId::SchroeppelShamir);
                lemma_phase1_kept(p, info, hw, boosts, EngineId::SplitSolver);
            } else {
                assert(s1[k + 6].0 == EngineId::SchroeppelShamir);
            }
            if p.sat_flag() || n <= 70 {
                lemma_phase1_kept(p, info, hw, boosts, EngineId::SchroeppelShamir);
            }
            lemma_phase1_kept(p, info, hw, boosts, EngineId::GroupDecompose);
            lemma_phase1_kept(p, info, hw, boosts, EngineId::AdaptiveFunnel);
            lemma_phase1_kept(p, info, hw, boosts, EngineId::Gdep);
            lemma_phase1_kept(p, info, hw, boosts, EngineId::Decompose);
            lemma_phase1_kept(p, info, hw, boosts, EngineId::DualCollapse);
            lemma_phase1_kept(p, info, hw, boosts, EngineId::Bridge);
        },
        ValDist::Bimodal => {
            assert(s1[k].0 == EngineId::TurboSpec);
            assert(s1[k + 1].0 == EngineId::ColumnSat);
            assert(s1[k + 2].0 == EngineId::Cascade);
            assert(s1[k + 3].0 == EngineId::Bridge);
            lemma_phase1_kept(p, info, hw, boosts, EngineId::TurboSpec);
            lemma_phase1_kept(p, info, hw, boosts, EngineId::ColumnSat);
            lemma_phase1_kept(p, info, hw, boosts, EngineId::Cascade);
            lemma_phase1_kept(p, info, hw, boosts, EngineId::Bridge);
        },
        ValDist::Clustered => {
            assert(s1[k].0 == EngineId::Cascade);
            assert(s1[k + 1].0 == EngineId::Bridge);
            assert(s1[k + 2].0 == EngineId::Dominance);
            assert(s1[k + 3].0 == EngineId::DualCollapse);
            lemma_phase1_kept(p, info, hw, boosts, EngineId::Cascade);
            lemma_phase1_kept(p, info, hw, boosts, EngineId::Bridge);
            lemma_phase1_kept(p, info, hw, boosts, EngineId::Dominance);
            lemma_phase1_kept(p, info, hw, boosts, EngineId::DualCollapse);
        },
        ValDist::Uniform => {
            assert(s1[k].0 == EngineId::Gdep);
            assert(s1[k + 1].0 == EngineId::Backward);
            assert(s1[k + 2].0 == EngineId::TurboSpec);
            lemma_phase1_kept(p, info, hw, boosts, EngineId::Gdep);
            lemma_phase1_kept(p, info, hw, boosts, EngineId::Backward);
            lemma_phase1_kept(p, info, hw, boosts, EngineId::TurboSpec);
        },
    }
    if p.sat_flag() {
        let s2 = by_progression(s1, info);
        let s3 = sat_shortcut(s2);
        let c = candidates(p, info, hw, boosts);
        assert(c == s3);
        lemma_ranked(c);
        assert(c[s2.len() as int].0 == EngineId::ColumnSat);
        assert(c[s2.len() as int + 1].0 == EngineId::Cascade);
        assert(ranked(c).contains(c[s2.len() as int].0));
        assert(ranked(c).contains(c[s2.len() as int + 1].0));
    }
}

} // verus!
