//! State shared by the racing engines, what an engine may conclude, and the
//! choice of engines for an instance.
use crate::bignum::BigNum;
use crate::profile::{big_values, Profile};
use crate::scheduler::{
    law_fast_checks_scheduled, names_of, planned, schedule_ids, EngineId, HardwareProfile, StructureInfo,
};
use crate::spec::{solvable, solves, sum_of};
use num_bigint::BigUint;
use std::collections::HashSet;
use std::sync::atomic::{AtomicBool, AtomicU64, Ordering};
use std::sync::{Mutex, OnceLock};
use vstd::prelude::*;

verus! {

#[verifier::external_type_specification]
#[verifier::external_body]
#[verifier::reject_recursive_types(T)]
pub struct ExOnceLock<T>(OnceLock<T>);

#[verifier::external_type_specification]
#[verifier::external_body]
#[verifier::reject_recursive_types(T)]
pub struct ExMutex<T: ?Sized>(Mutex<T>);

#[verifier::external_type_specification]
#[verifier::external_body]
pub struct ExBigUint(BigUint);

/// What an engine concluded about an instance.
pub enum Verdict {
    /// A subset of the elements that sums to the target.
    Found(Vec<BigNum>),
    /// No subset of the elements sums to the target.
    Impossible,
    /// Neither (the engine gave up, does not apply, or was stopped).
    Unknown,
}

/// The verdict is true of the instance.
pub open spec fn verdict_ok(v: Verdict, nums: Seq<int>, target: int) -> bool {
    match v {
        Verdict::Found(sol) => solves(big_values(sol@), nums, target),
        Verdict::Impossible => !solvable(nums, target),
        Verdict::Unknown => true,
    }
}

/// An empty solution slot, by `OnceLock::new`.
#[verifier::external_body]
fn new_slot() -> (r: OnceLock<(Vec<BigNum>, &'static str)>) {
    OnceLock::new()
}

/// Put a solution in the slot unless one is there, by `OnceLock::set`;
/// whether it was put depends on the other threads, so nothing is stated.
#[verifier::external_body]
fn slot_set(slot: &OnceLock<(Vec<BigNum>, &'static str)>, sol: Vec<BigNum>, name: &'static str) -> bool {
    slot.set((sol, name)).is_ok()
}

/// The solution in the slot, if any, by `OnceLock::get` (cloned); what is
/// there depends on the other threads, so nothing is stated.
#[verifier::external_body]
fn slot_get(slot: &OnceLock<(Vec<BigNum>, &'static str)>) -> Option<(Vec<BigNum>, &'static str)> {
    match slot.get() {
        Some((sol, name)) => Some((sol.iter().map(|b| b.copy()).collect(), *name)),
        None => None,
    }
}

/// `set` behind a lock, by `Mutex::new`.
#[verifier::external_body]
fn new_lock(set: HashSet<BigUint>) -> (r: Mutex<HashSet<BigUint>>) {
    Mutex::new(set)
}

/// An empty set of discovered sums with room for 1024, behind a lock.
fn new_blackboard() -> (r: Mutex<HashSet<BigUint>>) {
    new_lock(HashSet::with_capacity(1024))
}

/// Insert a sum into the shared set, by `HashSet::insert` under the lock;
/// returns whether it was new, which depends on the other threads.
#[verifier::external_body]
fn blackboard_insert(board: &Mutex<HashSet<BigUint>>, sum: &BigNum) -> bool {
    let v = BigUint::new(sum.to_u32_digits());
    board.lock().unwrap_or_else(|e| e.into_inner()).insert(v)
}

/// State shared by the engines racing on one instance.
pub struct Shared {
    pub profile: Profile,
    pub stop: AtomicBool,
    pub solution: OnceLock<(Vec<BigNum>, &'static str)>,
    pub proved_impossible: AtomicBool,
    pub blackboard: Mutex<HashSet<BigUint>>,
    pub discovered_count: AtomicU64,
}

/// Sum of a sequence of big numbers.
pub fn big_sum(v: &Vec<BigNum>) -> (s: BigNum)
    ensures
        s@ == sum_of(big_values(v@)),
{
    let mut s = BigNum::zero();
    let mut i: usize = 0;
    while i < v.len()
        invariant
            i <= v@.len(),
            s@ == sum_of(big_values(v@).take(i as int)),
        decreases v@.len() - i,
    {
        s = s.plus(&v[i]);
        proof {
            assert(big_values(v@).take(i + 1) =~= big_values(v@).take(i as int).push(
                v@[i as int]@ as int,
            ));
            crate::spec::lemma_sum_of_push(big_values(v@).take(i as int), v@[i as int]@ as int);
        }
        i = i + 1;
    }
    proof {
        assert(big_values(v@).take(v@.len() as int) =~= big_values(v@));
    }
    s
}

impl Shared {
    pub fn new(profile: Profile) -> (r: Shared)
        ensures
            r.profile == profile,
    {
        Shared {
            profile,
            stop: AtomicBool::new(false),
            solution: new_slot(),
            proved_impossible: AtomicBool::new(false),
            blackboard: new_blackboard(),
            discovered_count: AtomicU64::new(0),
        }
    }

    /// Record a partial sum on the blackboard, counting it when new.
    pub fn note_sum(&self, sum: BigNum) {
        if blackboard_insert(&self.blackboard, &sum) {
            self.discovered_count.fetch_add(1, Ordering::Relaxed);
        }
    }

    /// Record a partial sum on the blackboard; true when no engine had seen it.
    pub fn try_note_sum(&self, sum: &BigNum) -> bool {
        blackboard_insert(&self.blackboard, sum)
    }

    /// Whether the race is over (solved, proved impossible, or timed out).
    pub fn stopped(&self) -> bool {
        self.stop.load(Ordering::Relaxed) || self.proved_impossible.load(Ordering::Relaxed)
    }

    /// Declare the instance impossible and stop the race.
    pub fn prove_impossible(&self) {
        self.proved_impossible.store(true, Ordering::Release);
        self.stop.store(true, Ordering::Release);
    }

    /// Offer a solution: it is kept only if the race is still on, it sums to
    /// the target, and no solution was kept before; keeping it stops the race.
    /// Returns whether it was kept.
    pub fn report(&self, sol: Vec<BigNum>, name: &'static str) -> (kept: bool)
        ensures
            kept ==> sum_of(big_values(sol@)) == self.profile.target_value(),
    {
        if self.stop.load(Ordering::Relaxed) {
            return false;
        }
        let s = big_sum(&sol);
        if !s.equals(self.profile.target()) {
            return false;
        }
        let ghost sv = sol@;
        if slot_set(&self.solution, sol, name) {
            self.stop.store(true, Ordering::Release);
            true
        } else {
            false
        }
    }

    /// Act on what an engine concluded: offer a solution, or declare impossibility.
    pub fn apply(&self, v: Verdict, name: &'static str) {
        match v {
            Verdict::Found(sol) => {
                self.report(sol, name);
            },
            Verdict::Impossible => self.prove_impossible(),
            Verdict::Unknown => {},
        }
    }

    /// The outcome once the race is over: the kept solution and the winning
    /// engine's name, or no solution with "IMPOSSIBLE" or "Timeout"; and
    /// whether the instance was proved impossible. A solution handed out
    /// always sums to the target.
    pub fn finish(&self) -> (r: (Option<Vec<BigNum>>, &'static str, bool))
        ensures
            r.0 matches Some(sol) ==> sum_of(big_values(sol@)) == self.profile.target_value(),
            r.0 is None ==> r.1 == (if r.2 {
                "IMPOSSIBLE"
            } else {
                "Timeout"
            }),
    {
        let proved = self.proved_impossible.load(Ordering::Relaxed);
        let none_name = if proved {
            "IMPOSSIBLE"
        } else {
            "Timeout"
        };
        match slot_get(&self.solution) {
            Some((sol, name)) => {
                let s = big_sum(&sol);
                if s.equals(self.profile.target()) {
                    (Some(sol), name, proved)
                } else {
                    (None, none_name, proved)
                }
            },
            None => (None, none_name, proved),
        }
    }
}

/// An engine that races on an instance.
pub trait Engine {
    fn name(&self) -> &'static str;

    fn run(&self, sh: &Shared);
}

/// The engines that stay for 36 to 45 elements: the fast checks and HashMITM.
pub open spec fn lean(e: EngineId) -> bool {
    e == EngineId::Residue || e == EngineId::DigitFilter || e == EngineId::Dominance || e
        == EngineId::HashMitm
}

/// The lean engines of `s`, in order.
pub open spec fn only_lean(s: Seq<EngineId>) -> Seq<EngineId>
    decreases s.len(),
{
    if s.len() == 0 {
        s
    } else if lean(s.last()) {
        only_lean(s.drop_last()).push(s.last())
    } else {
        only_lean(s.drop_last())
    }
}

/// The engines picked for an instance: the schedule, cut down to the lean
/// engines (with HashMITM) when there are 36 to 45 elements.
pub open spec fn picked(p: Profile, info: StructureInfo, hw: HardwareProfile, boosts: Seq<u64>) -> Seq<EngineId> {
    let s = planned(p, info, hw, boosts);
    let n = p.values().len();
    if 36 <= n <= 45 {
        let k = only_lean(s);
        if k.contains(EngineId::HashMitm) {
            k
        } else {
            k.push(EngineId::HashMitm)
        }
    } else {
        s
    }
}

/// The engines to race on an instance (see `picked`).
pub fn pick_engine_ids(p: &Profile, info: &StructureInfo, hw: &HardwareProfile, boosts: &[u64]) -> (r: Vec<EngineId>)
    ensures
        r@ == picked(*p, *info, *hw, boosts@),
{
    let ordered = schedule_ids(p, info, hw, boosts);
    let n = p.n();
    if 36 <= n && n <= 45 {
        let mut kept: Vec<EngineId> = Vec::new();
        let mut has_hash = false;
        for i in 0..ordered.len()
            invariant
                kept@ == only_lean(ordered@.take(i as int)),
                has_hash == kept@.contains(EngineId::HashMitm),
        {
            let e = ordered[i];
            proof {
                assert(ordered@.take(i + 1).drop_last() =~= ordered@.take(i as int));
                assert(ordered@.take(i + 1).last() == e);
            }
            if e == EngineId::Residue || e == EngineId::DigitFilter || e == EngineId::Dominance || e
                == EngineId::HashMitm {
                let ghost before = kept@;
                kept.push(e);
                proof {
                    if e == EngineId::HashMitm {
                        assert(kept@[kept@.len() - 1] == e);
                    }
                    if before.contains(EngineId::HashMitm) {
                        let j = choose|j: int| 0 <= j < before.len() && before[j] == EngineId::HashMitm;
                        assert(kept@[j] == EngineId::HashMitm);
                    }
                    if kept@.contains(EngineId::HashMitm) && e != EngineId::HashMitm {
                        let j = choose|j: int| 0 <= j < kept@.len() && kept@[j] == EngineId::HashMitm;
                        assert(before[j] == EngineId::HashMitm);
                    }
                }
                if e == EngineId::HashMitm {
                    has_hash = true;
                }
            }
        }
        proof {
            assert(ordered@.take(ordered@.len() as int) =~= ordered@);
        }
        if !has_hash {
            kept.push(EngineId::HashMitm);
        }
        kept
    } else {
        ordered
    }
}

/// The names of the engines to race on an instance (see `picked`).
pub fn pick_engines(p: &Profile, info: &StructureInfo, hw: &HardwareProfile, boosts: &[u64]) -> (r: Vec<&'static str>)
    ensures
        r@.len() == picked(*p, *info, *hw, boosts@).len(),
        forall|i: int| 0 <= i < r@.len() ==> r@[i] == (#[trigger] picked(*p, *info, *hw, boosts@)[i]).label(),
{
    names_of(&pick_engine_ids(p, info, hw, boosts))
}

proof fn lemma_only_lean(s: Seq<EngineId>)
    ensures
        forall|e: EngineId| #[trigger] only_lean(s).contains(e) ==> s.contains(e) && lean(e),
        forall|e: EngineId| #[trigger] s.contains(e) && lean(e) ==> only_lean(s).contains(e),
    decreases s.len(),
{
    if s.len() > 0 {
        let s2 = s.drop_last();
        lemma_only_lean(s2);
        if lean(s.last()) {
            assert(only_lean(s) == only_lean(s2).push(s.last()));
        } else {
            assert(only_lean(s) == only_lean(s2));
        }
        assert forall|e: EngineId| #[trigger] only_lean(s).contains(e) implies s.contains(e) && lean(e) by {
            let k = choose|k: int| 0 <= k < only_lean(s).len() && only_lean(s)[k] == e;
            if k < only_lean(s2).len() {
                assert(only_lean(s2)[k] == e);
                assert(only_lean(s2).contains(e));
                let i = choose|i: int| 0 <= i < s2.len() && s2[i] == e;
                assert(s[i] == e);
            } else {
                assert(s[s.len() - 1] == e);
            }
        }
        assert forall|e: EngineId| #[trigger] s.contains(e) && lean(e) implies only_lean(s).contains(e) by {
            let i = choose|i: int| 0 <= i < s.len() && s[i] == e;
            if i < s.len() - 1 {
                assert(s2[i] == e);
                assert(s2.contains(e));
                assert(only_lean(s2).contains(e));
                let k = choose|k: int| 0 <= k < only_lean(s2).len() && only_lean(s2)[k] == e;
                assert(only_lean(s)[k] == e);
            } else {
                assert(only_lean(s)[only_lean(s2).len() as int] == e);
            }
        }
    }
}

/// A found answer shows the instance solvable, and an instance shown
/// impossible has no answer: a correct verdict other than `Unknown` decides
/// solvability.
pub proof fn law_verdict_decides(v: Verdict, nums: Seq<int>, target: int)
    requires
        verdict_ok(v, nums, target),
    ensures
        v is Found ==> solvable(nums, target),
        v is Impossible ==> !solvable(nums, target),
{
    if let Verdict::Found(sol) = v {
        crate::spec::lemma_sub_multiset_reach(big_values(sol@), nums);
        crate::spec::lemma_solvable_reach(nums, target);
    }
}

/// No engine occurs twice in `s`.
pub open spec fn distinct_ids(s: Seq<EngineId>) -> bool {
    forall|a: int, b: int| 0 <= a < b < s.len() ==> #[trigger] s[a] != #[trigger] s[b]
}

proof fn lemma_only_lean_distinct(s: Seq<EngineId>)
    requires
        distinct_ids(s),
    ensures
        distinct_ids(only_lean(s)),
    decreases s.len(),
{
    if s.len() > 0 {
        let s2 = s.drop_last();
        assert(distinct_ids(s2)) by {
            assert forall|a: int, b: int| 0 <= a < b < s2.len() implies #[trigger] s2[a] != #[trigger] s2[b] by {
                assert(s[a] != s[b]);
            }
        }
        lemma_only_lean_distinct(s2);
        lemma_only_lean(s2);
        if lean(s.last()) {
            let k = only_lean(s2);
            assert(!k.contains(s.last())) by {
                if k.contains(s.last()) {
                    assert(s2.contains(s.last()));
                    let i = choose|i: int| 0 <= i < s2.len() && s2[i] == s.last();
                    assert(s[i] != s[s.len() - 1]);
                }
            }
            assert forall|a: int, b: int| 0 <= a < b < k.push(s.last()).len() implies #[trigger] k.push(s.last())[a]
                != #[trigger] k.push(s.last())[b] by {
                if b == k.len() {
                    assert(k.contains(k[a]));
                }
            }
        }
    }
}

/// No engine is picked twice.
pub proof fn law_pick_distinct(p: Profile, info: StructureInfo, hw: HardwareProfile, boosts: Seq<u64>)
    ensures
        distinct_ids(picked(p, info, hw, boosts)),
{
    let s = planned(p, info, hw, boosts);
    crate::scheduler::law_schedule_distinct(p, info, hw, boosts);
    let n = p.values().len();
    if 36 <= n <= 45 {
        lemma_only_lean_distinct(s);
        let k = only_lean(s);
        if !k.contains(EngineId::HashMitm) {
            assert forall|a: int, b: int| 0 <= a < b < k.push(EngineId::HashMitm).len() implies #[trigger] k.push(
                EngineId::HashMitm,
            )[a] != #[trigger] k.push(EngineId::HashMitm)[b] by {
                if b == k.len() {
                    assert(k.contains(k[a]));
                }
            }
        }
    }
}

/// For 36 to 45 elements the picked engines are the scheduled ones that are
/// lean, in schedule order, with HashMITM added last when it was not
/// scheduled; otherwise they are the schedule itself.
pub proof fn law_pick_is_filtered_schedule(p: Profile, info: StructureInfo, hw: HardwareProfile, boosts: Seq<u64>)
    ensures
        36 <= p.values().len() <= 45 && planned(p, info, hw, boosts).contains(EngineId::HashMitm) ==> picked(
            p,
            info,
            hw,
            boosts,
        ) == only_lean(planned(p, info, hw, boosts)),
        36 <= p.values().len() <= 45 && !planned(p, info, hw, boosts).contains(EngineId::HashMitm) ==> picked(
            p,
            info,
            hw,
            boosts,
        ) == only_lean(planned(p, info, hw, boosts)).push(EngineId::HashMitm),
        !(36 <= p.values().len() <= 45) ==> picked(p, info, hw, boosts) == planned(p, info, hw, boosts),
{
    lemma_only_lean(planned(p, info, hw, boosts));
}

/// One of the four names that stay for 36 to 45 elements.
pub open spec fn lean_name(x: &'static str) -> bool {
    x == "Residue" || x == "DigitFilter" || x == "Dominance" || x == "HashMITM"
}

/// The names of a list of engines.
pub open spec fn names(s: Seq<EngineId>) -> Seq<&'static str> {
    s.map_values(|e: EngineId| e.label())
}

/// Engine names tell the lean engines apart: a name is one of the four lean
/// names exactly for the lean engines, and "HashMITM" only for HashMITM.
pub proof fn lemma_label_lean(e: EngineId)
    ensures
        lean_name(e.label()) <==> lean(e),
        e.label() == "HashMITM" <==> e == EngineId::HashMitm,
{
    reveal_strlit("Residue");
    reveal_strlit("DigitFilter");
    reveal_strlit("Dominance");
    reveal_strlit("HashMITM");
    match e {
        EngineId::Residue => {
            reveal_strlit("Residue");
            assert("Residue"@[0] != "DigitFilter"@[0]);
            assert("Residue"@[0] != "Dominance"@[0]);
            assert("Residue"@[0] != "HashMITM"@[0]);
        },
        EngineId::DigitFilter => {
            reveal_strlit("DigitFilter");
            assert("DigitFilter"@[0] != "Residue"@[0]);
            assert("DigitFilter"@[1] != "Dominance"@[1]);
            assert("DigitFilter"@[0] != "HashMITM"@[0]);
        },
        EngineId::Dominance => {
            reveal_strlit("Dominance");
            assert("Dominance"@[0] != "Residue"@[0]);
            assert("Dominance"@[1] != "DigitFilter"@[1]);
            assert("Dominance"@[0] != "HashMITM"@[0]);
        },
        EngineId::TinyBrute => {
            reveal_strlit("TinyBrute");
            assert("TinyBrute"@[0] != "Residue"@[0]);
            assert("TinyBrute"@[0] != "DigitFilter"@[0]);
            assert("TinyBrute"@[0] != "Dominance"@[0]);
            assert("TinyBrute"@[0] != "HashMITM"@[0]);
        },
        EngineId::GreedyPlus => {
            reveal_strlit("GreedyPlus");
            assert("GreedyPlus"@[0] != "Residue"@[0]);
            assert("GreedyPlus"@[0] != "DigitFilter"@[0]);
            assert("GreedyPlus"@[0] != "Dominance"@[0]);
            assert("GreedyPlus"@[0] != "HashMITM"@[0]);
        },
        EngineId::SplitSolver => {
            reveal_strlit("SplitSolver");
            assert("SplitSolver"@[0] != "Residue"@[0]);
            assert("SplitSolver"@[0] != "DigitFilter"@[0]);
            assert("SplitSolver"@[0] != "Dominance"@[0]);
            assert("SplitSolver"@[0] != "HashMITM"@[0]);
        },
        EngineId::Greedy => {
            reveal_strlit("Greedy");
            assert("Greedy"@[0] != "Residue"@[0]);
            assert("Greedy"@[0] != "DigitFilter"@[0]);
            assert("Greedy"@[0] != "Dominance"@[0]);
            assert("Greedy"@[0] != "HashMITM"@[0]);
        },
        EngineId::Backward => {
            reveal_strlit("Backward");
            assert("Backward"@[0] != "Residue"@[0]);
            assert("Backward"@[0] != "DigitFilter"@[0]);
            assert("Backward"@[0] != "Dominance"@[0]);
            assert("Backward"@[0] != "HashMITM"@[0]);
        },
        EngineId::Gdep => {
            reveal_strlit("GDEP");
            assert("GDEP"@[0] != "Residue"@[0]);
            assert("GDEP"@[0] != "DigitFilter"@[0]);
            assert("GDEP"@[0] != "Dominance"@[0]);
            assert("GDEP"@[0] != "HashMITM"@[0]);
        },
        EngineId::BitsetDp => {
            reveal_strlit("BitsetDP");
            assert("BitsetDP"@[0] != "Residue"@[0]);
            assert("BitsetDP"@[0] != "DigitFilter"@[0]);
            assert("BitsetDP"@[0] != "Dominance"@[0]);
            assert("BitsetDP"@[0] != "HashMITM"@[0]);
        },
        EngineId::TurboSpec => {
            reveal_strlit("TurboSpecEngine");
            assert("TurboSpecEngine"@[0] != "Residue"@[0]);
            assert("TurboSpecEngine"@[0] != "DigitFilter"@[0]);
            assert("TurboSpecEngine"@[0] != "Dominance"@[0]);
            assert("TurboSpecEngine"@[0] != "HashMITM"@[0]);
        },
        EngineId::Bridge => {
            reveal_strlit("Bridge");
            assert("Bridge"@[0] != "Residue"@[0]);
            assert("Bridge"@[0] != "DigitFilter"@[0]);
            assert("Bridge"@[0] != "Dominance"@[0]);
            assert("Bridge"@[0] != "HashMITM"@[0]);
        },
        EngineId::Mitm => {
            reveal_strlit("MITM");
            assert("MITM"@[0] != "Residue"@[0]);
            assert("MITM"@[0] != "DigitFilter"@[0]);
            assert("MITM"@[0] != "Dominance"@[0]);
            assert("MITM"@[0] != "HashMITM"@[0]);
        },
        EngineId::SchroeppelShamir => {
            reveal_strlit("Schroeppel-Shamir");
            assert("Schroeppel-Shamir"@[0] != "Residue"@[0]);
            assert("Schroeppel-Shamir"@[0] != "DigitFilter"@[0]);
            assert("Schroeppel-Shamir"@[0] != "Dominance"@[0]);
            assert("Schroeppel-Shamir"@[0] != "HashMITM"@[0]);
        },
        EngineId::Decompose => {
            reveal_strlit("Decompose");
            assert("Decompose"@[0] != "Residue"@[0]);
            assert("Decompose"@[1] != "DigitFilter"@[1]);
            assert("Decompose"@[1] != "Dominance"@[1]);
            assert("Decompose"@[0] != "HashMITM"@[0]);
        },
        EngineId::DualCollapse => {
            reveal_strlit("DualCollapse");
            assert("DualCollapse"@[0] != "Residue"@[0]);
            assert("DualCollapse"@[1] != "DigitFilter"@[1]);
            assert("DualCollapse"@[1] != "Dominance"@[1]);
            assert("DualCollapse"@[0] != "HashMITM"@[0]);
        },
        EngineId::ColumnSat => {
            reveal_strlit("ColumnSAT");
            assert("ColumnSAT"@[0] != "Residue"@[0]);
            assert("ColumnSAT"@[0] != "DigitFilter"@[0]);
            assert("ColumnSAT"@[0] != "Dominance"@[0]);
            assert("ColumnSAT"@[0] != "HashMITM"@[0]);
        },
        EngineId::Cascade => {
            reveal_strlit("CascadeEngine");
            assert("CascadeEngine"@[0] != "Residue"@[0]);
            assert("CascadeEngine"@[0] != "DigitFilter"@[0]);
            assert("CascadeEngine"@[0] != "Dominance"@[0]);
            assert("CascadeEngine"@[0] != "HashMITM"@[0]);
        },
        EngineId::Randomized => {
            reveal_strlit("Randomized");
            assert("Randomized"@[1] != "Residue"@[1]);
            assert("Randomized"@[0] != "DigitFilter"@[0]);
            assert("Randomized"@[0] != "Dominance"@[0]);
            assert("Randomized"@[0] != "HashMITM"@[0]);
        },
        EngineId::MdMitm => {
            reveal_strlit("MD-MITM");
            assert("MD-MITM"@[0] != "Residue"@[0]);
            assert("MD-MITM"@[0] != "DigitFilter"@[0]);
            assert("MD-MITM"@[0] != "Dominance"@[0]);
            assert("MD-MITM"@[0] != "HashMITM"@[0]);
        },
        EngineId::PmasBalance => {
            reveal_strlit("PMAS-Balance");
            assert("PMAS-Balance"@[0] != "Residue"@[0]);
            assert("PMAS-Balance"@[0] != "DigitFilter"@[0]);
            assert("PMAS-Balance"@[0] != "Dominance"@[0]);
            assert("PMAS-Balance"@[0] != "HashMITM"@[0]);
        },
        EngineId::PmasDifference => {
            reveal_strlit("PMAS-Difference");
            assert("PMAS-Difference"@[0] != "Residue"@[0]);
            assert("PMAS-Difference"@[0] != "DigitFilter"@[0]);
            assert("PMAS-Difference"@[0] != "Dominance"@[0]);
            assert("PMAS-Difference"@[0] != "HashMITM"@[0]);
        },
        EngineId::Apde => {
            reveal_strlit("APDE");
            assert("APDE"@[0] != "Residue"@[0]);
            assert("APDE"@[0] != "DigitFilter"@[0]);
            assert("APDE"@[0] != "Dominance"@[0]);
            assert("APDE"@[0] != "HashMITM"@[0]);
        },
        EngineId::Bcj => {
            reveal_strlit("BCJ");
            assert("BCJ"@[0] != "Residue"@[0]);
            assert("BCJ"@[0] != "DigitFilter"@[0]);
            assert("BCJ"@[0] != "Dominance"@[0]);
            assert("BCJ"@[0] != "HashMITM"@[0]);
        },
        EngineId::Hgj => {
            reveal_strlit("HGJ");
            assert("HGJ"@[0] != "Residue"@[0]);
            assert("HGJ"@[0] != "DigitFilter"@[0]);
            assert("HGJ"@[0] != "Dominance"@[0]);
            assert("HGJ"@[1] != "HashMITM"@[1]);
        },
        EngineId::Bonnetain => {
            reveal_strlit("Bonnetain");
            assert("Bonnetain"@[0] != "Residue"@[0]);
            assert("Bonnetain"@[0] != "DigitFilter"@[0]);
            assert("Bonnetain"@[0] != "Dominance"@[0]);
            assert("Bonnetain"@[0] != "HashMITM"@[0]);
        },
        EngineId::BigUintBcj => {
            reveal_strlit("BigUintBcj");
            assert("BigUintBcj"@[0] != "Residue"@[0]);
            assert("BigUintBcj"@[0] != "DigitFilter"@[0]);
            assert("BigUintBcj"@[0] != "Dominance"@[0]);
            assert("BigUintBcj"@[0] != "HashMITM"@[0]);
        },
        EngineId::BigUintHgj => {
            reveal_strlit("BigUintHgj");
            assert("BigUintHgj"@[0] != "Residue"@[0]);
            assert("BigUintHgj"@[0] != "DigitFilter"@[0]);
            assert("BigUintHgj"@[0] != "Dominance"@[0]);
            assert("BigUintHgj"@[0] != "HashMITM"@[0]);
        },
        EngineId::BigUintBonnetain => {
            reveal_strlit("BigUintBonnetain");
            assert("BigUintBonnetain"@[0] != "Residue"@[0]);
            assert("BigUintBonnetain"@[0] != "DigitFilter"@[0]);
            assert("BigUintBonnetain"@[0] != "Dominance"@[0]);
            assert("BigUintBonnetain"@[0] != "HashMITM"@[0]);
        },
        EngineId::GroupDecompose => {
            reveal_strlit("GroupDecompose");
            assert("GroupDecompose"@[0] != "Residue"@[0]);
            assert("GroupDecompose"@[0] != "DigitFilter"@[0]);
            assert("GroupDecompose"@[0] != "Dominance"@[0]);
            assert("GroupDecompose"@[0] != "HashMITM"@[0]);
        },
        EngineId::AdaptiveFunnel => {
            reveal_strlit("AdaptiveFunnel");
            assert("AdaptiveFunnel"@[0] != "Residue"@[0]);
            assert("AdaptiveFunnel"@[0] != "DigitFilter"@[0]);
            assert("AdaptiveFunnel"@[0] != "Dominance"@[0]);
            assert("AdaptiveFunnel"@[0] != "HashMITM"@[0]);
        },
        EngineId::MicroDecompose => {
            reveal_strlit("MicroDecompose");
            assert("MicroDecompose"@[0] != "Residue"@[0]);
            assert("MicroDecompose"@[0] != "DigitFilter"@[0]);
            assert("MicroDecompose"@[0] != "Dominance"@[0]);
            assert("MicroDecompose"@[0] != "HashMITM"@[0]);
        },
        EngineId::HashMitm => {
            reveal_strlit("HashMITM");
            assert("HashMITM"@[0] != "Residue"@[0]);
            assert("HashMITM"@[0] != "DigitFilter"@[0]);
            assert("HashMITM"@[0] != "Dominance"@[0]);
        },
        EngineId::Genetic => {
            reveal_strlit("Genetic");
            assert("Genetic"@[0] != "Residue"@[0]);
            assert("Genetic"@[0] != "DigitFilter"@[0]);
            assert("Genetic"@[0] != "Dominance"@[0]);
            assert("Genetic"@[0] != "HashMITM"@[0]);
        },
        EngineId::GradientSolver => {
            reveal_strlit("GradientSolver");
            assert("GradientSolver"@[0] != "Residue"@[0]);
            assert("GradientSolver"@[0] != "DigitFilter"@[0]);
            assert("GradientSolver"@[0] != "Dominance"@[0]);
            assert("GradientSolver"@[0] != "HashMITM"@[0]);
        },
        EngineId::DensitySplit => {
            reveal_strlit("DensitySplit");
            assert("DensitySplit"@[0] != "Residue"@[0]);
            assert("DensitySplit"@[1] != "DigitFilter"@[1]);
            assert("DensitySplit"@[1] != "Dominance"@[1]);
            assert("DensitySplit"@[0] != "HashMITM"@[0]);
        },
        EngineId::LllSolver => {
            reveal_strlit("LLLSolver");
            assert("LLLSolver"@[0] != "Residue"@[0]);
            assert("LLLSolver"@[0] != "DigitFilter"@[0]);
            assert("LLLSolver"@[0] != "Dominance"@[0]);
            assert("LLLSolver"@[0] != "HashMITM"@[0]);
        },
        EngineId::RecursiveDensity => {
            reveal_strlit("RecursiveDensity");
            assert("RecursiveDensity"@[2] != "Residue"@[2]);
            assert("RecursiveDensity"@[0] != "DigitFilter"@[0]);
            assert("RecursiveDensity"@[0] != "Dominance"@[0]);
            assert("RecursiveDensity"@[0] != "HashMITM"@[0]);
        },
        EngineId::Residue => {
            reveal_strlit("Residue");
            assert("Residue"@[0] != "DigitFilter"@[0]);
            assert("Residue"@[0] != "Dominance"@[0]);
            assert("Residue"@[0] != "HashMITM"@[0]);
        },
        EngineId::DigitFilter => {
            reveal_strlit("DigitFilter");
            assert("DigitFilter"@[0] != "Residue"@[0]);
            assert("DigitFilter"@[1] != "Dominance"@[1]);
            assert("DigitFilter"@[0] != "HashMITM"@[0]);
        },
        EngineId::Dominance => {
            reveal_strlit("Dominance");
            assert("Dominance"@[0] != "Residue"@[0]);
            assert("Dominance"@[1] != "DigitFilter"@[1]);
            assert("Dominance"@[0] != "HashMITM"@[0]);
        },
        EngineId::TinyBrute => {
            reveal_strlit("TinyBrute");
            assert("TinyBrute"@[0] != "Residue"@[0]);
            assert("TinyBrute"@[0] != "DigitFilter"@[0]);
            assert("TinyBrute"@[0] != "Dominance"@[0]);
            assert("TinyBrute"@[0] != "HashMITM"@[0]);
        },
        EngineId::GreedyPlus => {
            reveal_strlit("GreedyPlus");
            assert("GreedyPlus"@[0] != "Residue"@[0]);
            assert("GreedyPlus"@[0] != "DigitFilter"@[0]);
            assert("GreedyPlus"@[0] != "Dominance"@[0]);
            assert("GreedyPlus"@[0] != "HashMITM"@[0]);
        },
        EngineId::SplitSolver => {
            reveal_strlit("SplitSolver");
            assert("SplitSolver"@[0] != "Residue"@[0]);
            assert("SplitSolver"@[0] != "DigitFilter"@[0]);
            assert("SplitSolver"@[0] != "Dominance"@[0]);
            assert("SplitSolver"@[0] != "HashMITM"@[0]);
        },
        EngineId::Greedy => {
            reveal_strlit("Greedy");
            assert("Greedy"@[0] != "Residue"@[0]);
            assert("Greedy"@[0] != "DigitFilter"@[0]);
            assert("Greedy"@[0] != "Dominance"@[0]);
            assert("Greedy"@[0] != "HashMITM"@[0]);
        },
        EngineId::Backward => {
            reveal_strlit("Backward");
            assert("Backward"@[0] != "Residue"@[0]);
            assert("Backward"@[0] != "DigitFilter"@[0]);
            assert("Backward"@[0] != "Dominance"@[0]);
            assert("Backward"@[0] != "HashMITM"@[0]);
        },
        EngineId::Gdep => {
            reveal_strlit("GDEP");
            assert("GDEP"@[0] != "Residue"@[0]);
            assert("GDEP"@[0] != "DigitFilter"@[0]);
            assert("GDEP"@[0] != "Dominance"@[0]);
            assert("GDEP"@[0] != "HashMITM"@[0]);
        },
        EngineId::BitsetDp => {
            reveal_strlit("BitsetDP");
            assert("BitsetDP"@[0] != "Residue"@[0]);
            assert("BitsetDP"@[0] != "DigitFilter"@[0]);
            assert("BitsetDP"@[0] != "Dominance"@[0]);
            assert("BitsetDP"@[0] != "HashMITM"@[0]);
        },
        EngineId::TurboSpec => {
            reveal_strlit("TurboSpecEngine");
            assert("TurboSpecEngine"@[0] != "Residue"@[0]);
            assert("TurboSpecEngine"@[0] != "DigitFilter"@[0]);
            assert("TurboSpecEngine"@[0] != "Dominance"@[0]);
            assert("TurboSpecEngine"@[0] != "HashMITM"@[0]);
        },
        EngineId::Bridge => {
            reveal_strlit("Bridge");
            assert("Bridge"@[0] != "Residue"@[0]);
            assert("Bridge"@[0] != "DigitFilter"@[0]);
            assert("Bridge"@[0] != "Dominance"@[0]);
            assert("Bridge"@[0] != "HashMITM"@[0]);
        },
        EngineId::Mitm => {
            reveal_strlit("MITM");
            assert("MITM"@[0] != "Residue"@[0]);
            assert("MITM"@[0] != "DigitFilter"@[0]);
            assert("MITM"@[0] != "Dominance"@[0]);
            assert("MITM"@[0] != "HashMITM"@[0]);
        },
        EngineId::SchroeppelShamir => {
            reveal_strlit("Schroeppel-Shamir");
            assert("Schroeppel-Shamir"@[0] != "Residue"@[0]);
            assert("Schroeppel-Shamir"@[0] != "DigitFilter"@[0]);
            assert("Schroeppel-Shamir"@[0] != "Dominance"@[0]);
            assert("Schroeppel-Shamir"@[0] != "HashMITM"@[0]);
        },
        EngineId::Decompose => {
            reveal_strlit("Decompose");
            assert("Decompose"@[0] != "Residue"@[0]);
            assert("Decompose"@[1] != "DigitFilter"@[1]);
            assert("Decompose"@[1] != "Dominance"@[1]);
            assert("Decompose"@[0] != "HashMITM"@[0]);
        },
        EngineId::DualCollapse => {
            reveal_strlit("DualCollapse");
            assert("DualCollapse"@[0] != "Residue"@[0]);
            assert("DualCollapse"@[1] != "DigitFilter"@[1]);
            assert("DualCollapse"@[1] != "Dominance"@[1]);
            assert("DualCollapse"@[0] != "HashMITM"@[0]);
        },
        EngineId::ColumnSat => {
            reveal_strlit("ColumnSAT");
            assert("ColumnSAT"@[0] != "Residue"@[0]);
            assert("ColumnSAT"@[0] != "DigitFilter"@[0]);
            assert("ColumnSAT"@[0] != "Dominance"@[0]);
            assert("ColumnSAT"@[0] != "HashMITM"@[0]);
        },
        EngineId::Cascade => {
            reveal_strlit("CascadeEngine");
            assert("CascadeEngine"@[0] != "Residue"@[0]);
            assert("CascadeEngine"@[0] != "DigitFilter"@[0]);
            assert("CascadeEngine"@[0] != "Dominance"@[0]);
            assert("CascadeEngine"@[0] != "HashMITM"@[0]);
        },
        EngineId::Randomized => {
            reveal_strlit("Randomized");
            assert("Randomized"@[1] != "Residue"@[1]);
            assert("Randomized"@[0] != "DigitFilter"@[0]);
            assert("Randomized"@[0] != "Dominance"@[0]);
            assert("Randomized"@[0] != "HashMITM"@[0]);
        },
        EngineId::MdMitm => {
            reveal_strlit("MD-MITM");
            assert("MD-MITM"@[0] != "Residue"@[0]);
            assert("MD-MITM"@[0] != "DigitFilter"@[0]);
            assert("MD-MITM"@[0] != "Dominance"@[0]);
            assert("MD-MITM"@[0] != "HashMITM"@[0]);
        },
        EngineId::PmasBalance => {
            reveal_strlit("PMAS-Balance");
            assert("PMAS-Balance"@[0] != "Residue"@[0]);
            assert("PMAS-Balance"@[0] != "DigitFilter"@[0]);
            assert("PMAS-Balance"@[0] != "Dominance"@[0]);
            assert("PMAS-Balance"@[0] != "HashMITM"@[0]);
        },
        EngineId::PmasDifference => {
            reveal_strlit("PMAS-Difference");
            assert("PMAS-Difference"@[0] != "Residue"@[0]);
            assert("PMAS-Difference"@[0] != "DigitFilter"@[0]);
            assert("PMAS-Difference"@[0] != "Dominance"@[0]);
            assert("PMAS-Difference"@[0] != "HashMITM"@[0]);
        },
        EngineId::Apde => {
            reveal_strlit("APDE");
            assert("APDE"@[0] != "Residue"@[0]);
            assert("APDE"@[0] != "DigitFilter"@[0]);
            assert("APDE"@[0] != "Dominance"@[0]);
            assert("APDE"@[0] != "HashMITM"@[0]);
        },
        EngineId::Bcj => {
            reveal_strlit("BCJ");
            assert("BCJ"@[0] != "Residue"@[0]);
            assert("BCJ"@[0] != "DigitFilter"@[0]);
            assert("BCJ"@[0] != "Dominance"@[0]);
            assert("BCJ"@[0] != "HashMITM"@[0]);
        },
        EngineId::Hgj => {
            reveal_strlit("HGJ");
            assert("HGJ"@[0] != "Residue"@[0]);
            assert("HGJ"@[0] != "DigitFilter"@[0]);
            assert("HGJ"@[0] != "Dominance"@[0]);
            assert("HGJ"@[1] != "HashMITM"@[1]);
        },
        EngineId::Bonnetain => {
            reveal_strlit("Bonnetain");
            assert("Bonnetain"@[0] != "Residue"@[0]);
            assert("Bonnetain"@[0] != "DigitFilter"@[0]);
            assert("Bonnetain"@[0] != "Dominance"@[0]);
            assert("Bonnetain"@[0] != "HashMITM"@[0]);
        },
        EngineId::BigUintBcj => {
            reveal_strlit("BigUintBcj");
            assert("BigUintBcj"@[0] != "Residue"@[0]);
            assert("BigUintBcj"@[0] != "DigitFilter"@[0]);
            assert("BigUintBcj"@[0] != "Dominance"@[0]);
            assert("BigUintBcj"@[0] != "HashMITM"@[0]);
        },
        EngineId::BigUintHgj => {
            reveal_strlit("BigUintHgj");
            assert("BigUintHgj"@[0] != "Residue"@[0]);
            assert("BigUintHgj"@[0] != "DigitFilter"@[0]);
            assert("BigUintHgj"@[0] != "Dominance"@[0]);
            assert("BigUintHgj"@[0] != "HashMITM"@[0]);
        },
        EngineId::BigUintBonnetain => {
            reveal_strlit("BigUintBonnetain");
            assert("BigUintBonnetain"@[0] != "Residue"@[0]);
            assert("BigUintBonnetain"@[0] != "DigitFilter"@[0]);
            assert("BigUintBonnetain"@[0] != "Dominance"@[0]);
            assert("BigUintBonnetain"@[0] != "HashMITM"@[0]);
        },
        EngineId::GroupDecompose => {
            reveal_strlit("GroupDecompose");
            assert("GroupDecompose"@[0] != "Residue"@[0]);
            assert("GroupDecompose"@[0] != "DigitFilter"@[0]);
            assert("GroupDecompose"@[0] != "Dominance"@[0]);
            assert("GroupDecompose"@[0] != "HashMITM"@[0]);
        },
        EngineId::AdaptiveFunnel => {
            reveal_strlit("AdaptiveFunnel");
            assert("AdaptiveFunnel"@[0] != "Residue"@[0]);
            assert("AdaptiveFunnel"@[0] != "DigitFilter"@[0]);
            assert("AdaptiveFunnel"@[0] != "Dominance"@[0]);
            assert("AdaptiveFunnel"@[0] != "HashMITM"@[0]);
        },
        EngineId::MicroDecompose => {
            reveal_strlit("MicroDecompose");
            assert("MicroDecompose"@[0] != "Residue"@[0]);
            assert("MicroDecompose"@[0] != "DigitFilter"@[0]);
            assert("MicroDecompose"@[0] != "Dominance"@[0]);
            assert("MicroDecompose"@[0] != "HashMITM"@[0]);
        },
        EngineId::HashMitm => {
            reveal_strlit("HashMITM");
            assert("HashMITM"@[0] != "Residue"@[0]);
            assert("HashMITM"@[0] != "DigitFilter"@[0]);
            assert("HashMITM"@[0] != "Dominance"@[0]);
        },
        EngineId::Genetic => {
            reveal_strlit("Genetic");
            assert("Genetic"@[0] != "Residue"@[0]);
            assert("Genetic"@[0] != "DigitFilter"@[0]);
            assert("Genetic"@[0] != "Dominance"@[0]);
            assert("Genetic"@[0] != "HashMITM"@[0]);
        },
        EngineId::GradientSolver => {
            reveal_strlit("GradientSolver");
            assert("GradientSolver"@[0] != "Residue"@[0]);
            assert("GradientSolver"@[0] != "DigitFilter"@[0]);
            assert("GradientSolver"@[0] != "Dominance"@[0]);
            assert("GradientSolver"@[0] != "HashMITM"@[0]);
        },
        EngineId::DensitySplit => {
            reveal_strlit("DensitySplit");
            assert("DensitySplit"@[0] != "Residue"@[0]);
            assert("DensitySplit"@[1] != "DigitFilter"@[1]);
            assert("DensitySplit"@[1] != "Dominance"@[1]);
            assert("DensitySplit"@[0] != "HashMITM"@[0]);
        },
        EngineId::LllSolver => {
            reveal_strlit("LLLSolver");
            assert("LLLSolver"@[0] != "Residue"@[0]);
            assert("LLLSolver"@[0] != "DigitFilter"@[0]);
            assert("LLLSolver"@[0] != "Dominance"@[0]);
            assert("LLLSolver"@[0] != "HashMITM"@[0]);
        },
        EngineId::RecursiveDensity => {
            reveal_strlit("RecursiveDensity");
            assert("RecursiveDensity"@[2] != "Residue"@[2]);
            assert("RecursiveDensity"@[0] != "DigitFilter"@[0]);
            assert("RecursiveDensity"@[0] != "Dominance"@[0]);
            assert("RecursiveDensity"@[0] != "HashMITM"@[0]);
        },
    }
}

proof fn lemma_names_lean(s: Seq<EngineId>)
    ensures
        names(only_lean(s)) == names(s).filter(|x: &'static str| lean_name(x)),
        names(s).contains("HashMITM") <==> s.contains(EngineId::HashMitm),
    decreases s.len(),
{
    let f = |x: &'static str| lean_name(x);
    reveal(Seq::filter);
    if s.len() == 0 {
        assert(names(s).filter(f) =~= Seq::<&'static str>::empty());
        assert(names(only_lean(s)) =~= Seq::<&'static str>::empty());
    } else {
        let p = s.drop_last();
        lemma_names_lean(p);
        lemma_label_lean(s.last());
        assert(names(s).drop_last() =~= names(p));
        assert(names(s).last() == s.last().label());
        if lean(s.last()) {
            assert(names(only_lean(s)) =~= names(only_lean(p)).push(s.last().label()));
        }
        if names(s).contains("HashMITM") {
            let i = choose|i: int| 0 <= i < names(s).len() && names(s)[i] == "HashMITM";
            lemma_label_lean(s[i]);
            assert(s[i] == EngineId::HashMitm);
        }
        if s.contains(EngineId::HashMitm) {
            let i = choose|i: int| 0 <= i < s.len() && s[i] == EngineId::HashMitm;
            lemma_label_lean(s[i]);
            assert(names(s)[i] == "HashMITM");
        }
    }
}

/// For 36 to 45 elements the picked names are the scheduled names among
/// "Residue", "DigitFilter", "Dominance" and "HashMITM", in schedule order,
/// with "HashMITM" added last when it was not scheduled.
pub proof fn law_pick_names(p: Profile, info: StructureInfo, hw: HardwareProfile, boosts: Seq<u64>)
    requires
        36 <= p.values().len() <= 45,
    ensures
        names(picked(p, info, hw, boosts)) == names(planned(p, info, hw, boosts)).filter(
            |x: &'static str| lean_name(x),
        ) + if names(planned(p, info, hw, boosts)).contains("HashMITM") {
            Seq::<&'static str>::empty()
        } else {
            seq!["HashMITM"]
        },
{
    let s = planned(p, info, hw, boosts);
    lemma_names_lean(s);
    let k = only_lean(s);
    lemma_only_lean(s);
    if s.contains(EngineId::HashMitm) {
        assert(k.contains(EngineId::HashMitm));
        assert(names(k) + Seq::<&'static str>::empty() =~= names(k));
    } else {
        assert(!k.contains(EngineId::HashMitm));
        assert(names(k.push(EngineId::HashMitm)) =~= names(k) + seq!["HashMITM"]);
    }
}

/// The universal fast checks are always among the picked engines.
pub proof fn law_pick_keeps_fast_checks(p: Profile, info: StructureInfo, hw: HardwareProfile, boosts: Seq<u64>)
    ensures
        picked(p, info, hw, boosts).contains(EngineId::Residue),
        picked(p, info, hw, boosts).contains(EngineId::DigitFilter),
        picked(p, info, hw, boosts).contains(EngineId::Dominance),
{
    let s = planned(p, info, hw, boosts);
    law_fast_checks_scheduled(p, info, hw, boosts);
    lemma_only_lean(s);
    let n = p.values().len();
    if 36 <= n <= 45 {
        let k = only_lean(s);
        assert(k.contains(EngineId::Residue));
        assert(k.contains(EngineId::DigitFilter));
        assert(k.contains(EngineId::Dominance));
        if !k.contains(EngineId::HashMitm) {
            let kk = k.push(EngineId::HashMitm);
            let a = choose|i: int| 0 <= i < k.len() && k[i] == EngineId::Residue;
            assert(kk[a] == EngineId::Residue);
            let b = choose|i: int| 0 <= i < k.len() && k[i] == EngineId::DigitFilter;
            assert(kk[b] == EngineId::DigitFilter);
            let c = choose|i: int| 0 <= i < k.len() && k[i] == EngineId::Dominance;
            assert(kk[c] == EngineId::Dominance);
        }
    }
}

/// For 36 to 45 elements only the fast checks and HashMITM race, and
/// HashMITM always does.
pub proof fn law_pick_lean(p: Profile, info: StructureInfo, hw: HardwareProfile, boosts: Seq<u64>)
    requires
        36 <= p.values().len() <= 45,
    ensures
        forall|e: EngineId| picked(p, info, hw, boosts).contains(e) ==> lean(e),
        picked(p, info, hw, boosts).contains(EngineId::HashMitm),
{
    let s = planned(p, info, hw, boosts);
    lemma_only_lean(s);
    let k = only_lean(s);
    if !k.contains(EngineId::HashMitm) {
        let kk = k.push(EngineId::HashMitm);
        assert(kk[k.len() as int] == EngineId::HashMitm);
        assert forall|e: EngineId| kk.contains(e) implies lean(e) by {
            let i = choose|i: int| 0 <= i < kk.len() && kk[i] == e;
            if i < k.len() {
                assert(k.contains(e));
            }
        }
    }
}

/// A candidate answer drawn from the instance's elements, kept when it sums
/// to the target.
pub fn checked(sol: Vec<BigNum>, p: &Profile) -> (v: Verdict)
    requires
        crate::spec::is_sub_multiset(big_values(sol@), p.values()),
    ensures
        verdict_ok(v, p.values(), p.target_value()),
        v is Found <==> sum_of(big_values(sol@)) == p.target_value(),
        v is Found || v is Unknown,
        v matches Verdict::Found(s) ==> s@ == sol@,
{
    let s = big_sum(&sol);
    if s.equals(p.target()) {
        Verdict::Found(sol)
    } else {
        Verdict::Unknown
    }
}

/// Whether a shared stop flag is raised (a relaxed load).
pub fn flag_set(flag: &AtomicBool) -> bool {
    flag.load(Ordering::Relaxed)
}

/// Nanoseconds since the Unix epoch (truncated to 64 bits, zero for a clock
/// set before the epoch), by `SystemTime::elapsed` on `UNIX_EPOCH`; it
/// depends on the time, so nothing is stated of it.
#[verifier::external_body]
pub(crate) fn clock_seed() -> u64 {
    std::time::UNIX_EPOCH.elapsed().map(|d| d.as_nanos() as u64).unwrap_or(0)
}

/// The engines that solve large instances outright and survive the size cap.
pub open spec fn cap_survivor(e: EngineId) -> bool {
    e == EngineId::GroupDecompose || e == EngineId::SchroeppelShamir
}

/// The survivors of `s`, in order.
pub open spec fn survivors(s: Seq<EngineId>) -> Seq<EngineId>
    decreases s.len(),
{
    if s.len() == 0 {
        Seq::empty()
    } else if cap_survivor(s.last()) {
        survivors(s.drop_last()).push(s.last())
    } else {
        survivors(s.drop_last())
    }
}

/// The other engines of `s`, in order.
pub open spec fn non_survivors(s: Seq<EngineId>) -> Seq<EngineId>
    decreases s.len(),
{
    if s.len() == 0 {
        Seq::empty()
    } else if cap_survivor(s.last()) {
        non_survivors(s.drop_last())
    } else {
        non_survivors(s.drop_last()).push(s.last())
    }
}

/// At most the first `k` entries of `s`.
pub open spec fn first_k(s: Seq<EngineId>, k: int) -> Seq<EngineId> {
    if s.len() <= k {
        s
    } else {
        s.take(k)
    }
}

/// The engines raced on an instance of `n` elements: from 40 elements on,
/// at most 6 (at most 4 from 60 on), the first two survivors first and then
/// the first of the others; a list that is not longer stays as it is.
pub open spec fn capped(s: Seq<EngineId>, n: int) -> Seq<EngineId> {
    if n < 40 {
        s
    } else {
        let safe: int = if n >= 60 {
            4
        } else {
            6
        };
        let kept = first_k(survivors(s), 2);
        let k = kept + first_k(non_survivors(s), safe - kept.len());
        if k.len() < s.len() {
            k
        } else {
            s
        }
    }
}

/// Cap the engines raced on an instance of `n` elements (see `capped`).
pub fn cap_engines(names: &Vec<EngineId>, n: usize) -> (r: Vec<EngineId>)
    ensures
        r@ == capped(names@, n as int),
{
    if n < 40 {
        return names.clone();
    }
    let safe: usize = if n >= 60 {
        4
    } else {
        6
    };
    let mut kept: Vec<EngineId> = Vec::new();
    let mut rest: Vec<EngineId> = Vec::new();
    for i in 0..names.len()
        invariant
            kept@ == first_k(survivors(names@.take(i as int)), 2),
            rest@ == non_survivors(names@.take(i as int)),
    {
        let e = names[i];
        proof {
            assert(names@.take(i + 1).drop_last() =~= names@.take(i as int));
        }
        let keep = match e {
            EngineId::GroupDecompose => true,
            EngineId::SchroeppelShamir => true,
            _ => false,
        };
        if keep {
            let ghost q = survivors(names@.take(i as int));
            if kept.len() < 2 {
                kept.push(e);
                proof {
                    assert(first_k(q.push(e), 2) =~= first_k(q, 2).push(e));
                }
            } else {
                proof {
                    assert(first_k(q.push(e), 2) =~= first_k(q, 2));
                }
            }
        } else {
            rest.push(e);
        }
    }
    proof {
        assert(names@.take(names@.len() as int) =~= names@);
    }
    let room = safe - kept.len();
    let mut i: usize = 0;
    let ghost k0 = kept@;
    while i < rest.len() && i < room
        invariant
            i <= rest@.len(),
            i <= room,
            kept@ == k0 + rest@.take(i as int),
        decreases rest@.len() - i,
    {
        kept.push(rest[i]);
        proof {
            assert(k0 + rest@.take(i + 1) =~= (k0 + rest@.take(i as int)).push(rest@[i as int]));
        }
        i = i + 1;
    }
    proof {
        assert(first_k(rest@, room as int) =~= rest@.take(i as int));
    }
    if kept.len() < names.len() {
        kept
    } else {
        names.clone()
    }
}

proof fn lemma_survivors(s: Seq<EngineId>)
    ensures
        survivors(s).len() + non_survivors(s).len() == s.len(),
        forall|e: EngineId| #[trigger] survivors(s).contains(e) ==> s.contains(e) && cap_survivor(e),
        forall|e: EngineId| #[trigger] non_survivors(s).contains(e) ==> s.contains(e),
    decreases s.len(),
{
    if s.len() > 0 {
        let t = s.drop_last();
        lemma_survivors(t);
        assert forall|e: EngineId| #[trigger] survivors(s).contains(e) implies s.contains(e) && cap_survivor(e) by {
            let k = choose|k: int| 0 <= k < survivors(s).len() && survivors(s)[k] == e;
            if cap_survivor(s.last()) && k == survivors(s).len() - 1 {
                assert(s[s.len() - 1] == e);
            } else {
                assert(survivors(t)[k] == e);
                assert(survivors(t).contains(e));
                let j = choose|j: int| 0 <= j < t.len() && t[j] == e;
                assert(s[j] == e);
            }
        }
        assert forall|e: EngineId| #[trigger] non_survivors(s).contains(e) implies s.contains(e) by {
            let k = choose|k: int| 0 <= k < non_survivors(s).len() && non_survivors(s)[k] == e;
            if !cap_survivor(s.last()) && k == non_survivors(s).len() - 1 {
                assert(s[s.len() - 1] == e);
            } else {
                assert(non_survivors(t)[k] == e);
                assert(non_survivors(t).contains(e));
                let j = choose|j: int| 0 <= j < t.len() && t[j] == e;
                assert(s[j] == e);
            }
        }
    }
}

/// The size cap keeps the engines that solve large instances: from 40
/// elements on, at most 6 engines race (at most 4 from 60 on), all of them
/// from the list, and the first two survivors of the list are among them.
pub proof fn law_cap_keeps_solvers(s: Seq<EngineId>, n: int)
    requires
        n >= 40,
    ensures
        capped(s, n).len() <= if n >= 60 {
            4int
        } else {
            6int
        },
        forall|e: EngineId| #[trigger] capped(s, n).contains(e) ==> s.contains(e),
        forall|i: int| 0 <= i < 2 && i < survivors(s).len() ==> capped(s, n).contains(#[trigger] survivors(s)[i]),
{
    lemma_survivors(s);
    let safe: int = if n >= 60 {
        4
    } else {
        6
    };
    let kept = first_k(survivors(s), 2);
    let rest = first_k(non_survivors(s), safe - kept.len());
    let k = kept + rest;
    assert(kept.len() <= 2);
    assert(rest.len() <= safe - kept.len());
    if k.len() < s.len() {
        assert(capped(s, n) == k);
        assert forall|e: EngineId| #[trigger] k.contains(e) implies s.contains(e) by {
            let i = choose|i: int| 0 <= i < k.len() && k[i] == e;
            if i < kept.len() {
                assert(survivors(s)[i] == e);
                assert(survivors(s).contains(e));
            } else {
                assert(non_survivors(s)[i - kept.len()] == e);
                assert(non_survivors(s).contains(e));
            }
        }
        assert forall|i: int| 0 <= i < 2 && i < survivors(s).len() implies k.contains(#[trigger] survivors(s)[i]) by {
            assert(k[i] == survivors(s)[i]);
        }
    } else {
        assert(capped(s, n) == s);
        assert forall|i: int| 0 <= i < 2 && i < survivors(s).len() implies s.contains(#[trigger] survivors(s)[i]) by {
            assert(survivors(s).contains(survivors(s)[i]));
        }
    }
}

} // verus!
