use vstd::prelude::*;

use crate::arena::Slab;
use crate::sums::{sum_over, lemma_sum_congruence, lemma_sum_push, lemma_sum_remove, lemma_sum_update_key, lemma_sum_bounds, lemma_sum_element_lower, lemma_sum_bounds_nonneg};

verus! {

/// Fixed-point scale for scores: `SCORE_UNIT` units stand for a score of 1.
pub const SCORE_UNIT: u64 = 0x1_0000_0000;

/// Caps on the pool's population. They keep every feature's score share a
/// positive number of fixed-point units and keep all score arithmetic inside
/// `u64`.
pub const MAX_POOL_INPUTS: usize = 0x8000;

pub const MAX_POOL_FEATURES: usize = 0x8000;

/// Cap on a single input's complexity, in complexity units.
pub const MAX_COMPLEXITY: u64 = 0x1_0000_0000;

/// Mask that erases a feature's payload: the low bits that distinguish
/// features arising from the same instruction site.
pub const FEATURE_GROUP_MASK: u64 = 0xffff_ffff_ffff_ff00;

/// A unit of observed runtime behavior, packed into one word. The low byte is
/// the payload (an intensity bucket or a comparison distance); the rest
/// identifies the instruction site, so erasing the payload yields the
/// feature's group.
#[derive(Clone, Copy, PartialEq, Eq, Structural, Debug)]
pub struct Feature {
    pub bits: u64,
}

/// Identifier of a feature group: a feature with its payload erased.
#[derive(Clone, Copy, PartialEq, Eq, Structural, Debug)]
pub struct FeatureGroupId {
    pub id: Feature,
}

impl Feature {
    /// Feature for "this edge was reached with this intensity".
    pub fn edge(pc_guard: usize, intensity: u16) -> (f: Feature)
        ensures
            f.bits == ((pc_guard as u64 % 0x80_0000_0000_0000) << 8u64) | (intensity as u64 & 0xff),
    {
        Feature { bits: ((pc_guard as u64 % 0x80_0000_0000_0000) << 8u64) | (intensity as u64 & 0xff) }
    }

    /// Feature for "this comparison saw operands at this distance".
    pub fn comparison(pc: usize, id: u8) -> (f: Feature)
        ensures
            f.bits == 0x8000_0000_0000_0000 | ((pc as u64 % 0x80_0000_0000_0000) << 8u64) | (
            id as u64),
    {
        Feature {
            bits: 0x8000_0000_0000_0000 | ((pc as u64 % 0x80_0000_0000_0000) << 8u64) | (id as u64),
        }
    }

    /// The feature's group, as bits: the feature with its payload erased.
    pub open spec fn spec_group_bits(self) -> u64 {
        self.bits & FEATURE_GROUP_MASK
    }

    /// Erase the payload bits, which stand for the feature's intensity.
    pub fn erasing_payload(self) -> (g: Feature)
        ensures
            g.bits == self.spec_group_bits(),
    {
        Feature { bits: self.bits & FEATURE_GROUP_MASK }
    }

    /// The group this feature belongs to. Two features are in the same group
    /// exactly when their payload-erased bits agree.
    pub fn group_id(self) -> (g: FeatureGroupId)
        ensures
            g.id.bits == self.spec_group_bits(),
    {
        FeatureGroupId { id: self.erasing_payload() }
    }
}

/// An entry of the sorted features-iteration vector: a feature value plus the
/// key of its full record in the feature arena.
#[derive(Clone, Copy)]
pub struct FeatureForIteration {
    pub key: usize,
    pub feature: Feature,
}

/// Aggregate record for all features sharing a group identifier. `idcs_start
/// .. idcs_end` is the group's contiguous slice of the sorted
/// features-iteration vector; `old_size` is that slice's length at the last
/// stable point, kept for incremental score updates.
pub struct FeatureGroup {
    pub id: FeatureGroupId,
    pub idcs_start: usize,
    pub idcs_end: usize,
    pub old_size: usize,
}

impl FeatureGroup {
    pub fn new(id: FeatureGroupId, idcs_start: usize, idcs_end: usize) -> (g: FeatureGroup)
        requires
            idcs_start <= idcs_end,
        ensures
            g.id == id,
            g.idcs_start == idcs_start,
            g.idcs_end == idcs_end,
            g.old_size == idcs_end - idcs_start,
    {
        FeatureGroup { id, idcs_start, idcs_end, old_size: idcs_end - idcs_start }
    }

    /// Number of distinct features currently in the group.
    pub open spec fn spec_size(self) -> int {
        self.idcs_end - self.idcs_start
    }

    pub fn size(&self) -> (r: usize)
        requires
            self.idcs_start <= self.idcs_end,
        ensures
            r == self.spec_size(),
    {
        self.idcs_end - self.idcs_start
    }
}

/// Per-distinct-feature state: which inputs exhibit it, the cheapest witness,
/// and the multiplicity snapshot from the last stable point.
pub struct FeatureInPool {
    pub key: usize,
    pub feature: Feature,
    pub group_key: usize,
    pub inputs: Vec<usize>,
    pub least_complex_input: usize,
    pub least_complexity: u64,
    pub old_multiplicity: usize,
}

impl FeatureInPool {
    pub fn new(
        key: usize,
        feature: Feature,
        group_key: usize,
        inputs: Vec<usize>,
        least_complex_input: usize,
        least_complexity: u64,
    ) -> (f: FeatureInPool)
        ensures
            f == (FeatureInPool {
                key,
                feature,
                group_key,
                inputs,
                least_complex_input,
                least_complexity,
                old_multiplicity: f.inputs@.len() as usize,
            }),
    {
        let old_multiplicity = inputs.len();
        FeatureInPool { key, feature, group_key, inputs, least_complex_input, least_complexity, old_multiplicity }
    }
}

/// A corpus entry: the stored value, its complexity, its current score, and
/// its links into the feature records.
pub struct Input<T> {
    pub least_complex_for_features: Vec<usize>,
    pub all_features: Vec<usize>,
    pub score: u64,
    pub data: T,
    pub complexity: u64,
    pub idx_in_pool: usize,
}

/// Index of an input in the pool: a regular corpus entry, or the favored
/// input stored outside the arena.
#[derive(Clone, Copy, Debug)]
pub enum PoolIndex {
    Normal(usize),
    Favored,
}

/// What an admission or a removal did, as plain data for the driver.
#[derive(Debug)]
pub enum PoolEvent<T> {
    New,
    Replace(usize),
    Add(T),
    Remove(T),
}

/// What the pool asks of a stored value: a duplication that yields an equal
/// value, used when reporting a value in an event while it stays in the pool.
pub trait PoolValue: Sized {
    fn duplicate(&self) -> (r: Self)
        ensures
            r == self,
    ;
}

impl PoolValue for u64 {
    fn duplicate(&self) -> (r: Self)
        ensures
            r == self,
    {
        *self
    }
}

/// The score one feature contributes to each input exhibiting it, in
/// fixed-point units: 1 / (group size * multiplicity), or 0 for a dormant
/// feature that no input exhibits.
pub open spec fn spec_score_of(group_size: int, multiplicity: int) -> int {
    if group_size <= 0 || multiplicity <= 0 {
        0
    } else {
        SCORE_UNIT as int / (group_size * multiplicity)
    }
}

pub proof fn lemma_score_of_bounds(group_size: int, multiplicity: int)
    ensures
        0 <= spec_score_of(group_size, multiplicity) <= SCORE_UNIT,
        1 <= group_size <= MAX_POOL_FEATURES && 1 <= multiplicity <= MAX_POOL_INPUTS
            ==> spec_score_of(group_size, multiplicity) >= 1,
{
    if group_size > 0 && multiplicity > 0 {
        let p = group_size * multiplicity;
        assert(p >= 1) by (nonlinear_arith)
            requires
                p == group_size * multiplicity,
                group_size >= 1,
                multiplicity >= 1,
        ;
        assert(SCORE_UNIT as int / p <= SCORE_UNIT) by (nonlinear_arith)
            requires
                p >= 1,
        ;
        assert(SCORE_UNIT as int / p >= 0) by (nonlinear_arith)
            requires
                p >= 1,
        ;
        if group_size <= MAX_POOL_FEATURES && multiplicity <= MAX_POOL_INPUTS {
            assert(p <= 0x4000_0000) by (nonlinear_arith)
                requires
                    p == group_size * multiplicity,
                    1 <= group_size <= 0x8000,
                    1 <= multiplicity <= 0x8000,
            ;
            assert(SCORE_UNIT as int / p >= 1) by (nonlinear_arith)
                requires
                    1 <= p <= 0x4000_0000,
            ;
        }
    }
}

/// The pool: arenas for inputs, features and groups, the sorted views over
/// them, the favored input, and the sampling state.
pub struct Pool<T> {
    pub features: Vec<FeatureForIteration>,
    pub slab_features: Slab<FeatureInPool>,
    pub feature_groups: Vec<usize>,
    pub slab_feature_groups: Slab<FeatureGroup>,
    pub inputs: Vec<usize>,
    pub slab_inputs: Slab<Input<T>>,
    pub favored_input: Option<T>,
    pub average_complexity: u64,
    pub cumulative_weights: Vec<u64>,
    pub rng: rand::rngs::SmallRng,
}

impl<T> Pool<T> {
    /// Live input records, by arena key.
    pub open spec fn live(self) -> Map<usize, Input<T>> {
        self.slab_inputs@
    }

    /// Live feature records, by arena key.
    pub open spec fn feats(self) -> Map<usize, FeatureInPool> {
        self.slab_features@
    }

    /// Live group records, by arena key.
    pub open spec fn grps(self) -> Map<usize, FeatureGroup> {
        self.slab_feature_groups@
    }

    pub open spec fn slabs_ok(self) -> bool {
        &&& self.slab_features.wf()
        &&& self.slab_feature_groups.wf()
        &&& self.slab_inputs.wf()
    }

    /// The input-handle vector and the input arena list the same inputs, and
    /// `idx_in_pool` is each input's position (so the vector has no
    /// duplicates).
    pub open spec fn inputs_vec_ok(self) -> bool {
        &&& forall|i: int|
            0 <= i < self.inputs@.len() ==> {
                &&& self.live().dom().contains(#[trigger] self.inputs@[i])
                &&& self.live()[self.inputs@[i]].idx_in_pool == i
            }
        &&& forall|k: usize|
            #[trigger] self.live().dom().contains(k) ==> {
                &&& self.live()[k].idx_in_pool < self.inputs@.len()
                &&& self.inputs@[self.live()[k].idx_in_pool as int] == k
            }
    }

    /// The features-iteration vector is sorted strictly by feature and its
    /// entries mirror the feature arena.
    pub open spec fn features_vec_ok(self) -> bool {
        &&& forall|i: int|
            0 <= i < self.features@.len() ==> {
                &&& self.feats().dom().contains((#[trigger] self.features@[i]).key)
                &&& self.feats()[self.features@[i].key].key == self.features@[i].key
                &&& self.feats()[self.features@[i].key].feature == self.features@[i].feature
            }
        &&& forall|i: int, j: int|
            0 <= i < j < self.features@.len()
                ==> (#[trigger] self.features@[i]).feature.bits < (
            #[trigger] self.features@[j]).feature.bits
        &&& forall|fk: usize|
            #[trigger] self.feats().dom().contains(fk) ==> exists|i: int|
                0 <= i < self.features@.len() && (#[trigger] self.features@[i]).key == fk
    }

    /// The group that owns position `j` of the features-iteration vector,
    /// read off the feature record stored there.
    pub open spec fn owner_at(self, j: int) -> usize {
        self.feats()[self.features@[j].key].group_key
    }

    /// The groups vector is sorted by group id; group ranges are non-empty,
    /// tile the features-iteration vector contiguously, and agree with the
    /// `group_key` links of the feature records.
    pub open spec fn groups_vec_ok(self) -> bool {
        &&& forall|i: int|
            0 <= i < self.feature_groups@.len() ==> self.grps().dom().contains(
                #[trigger] self.feature_groups@[i],
            )
        &&& forall|i: int, j: int|
            0 <= i < j < self.feature_groups@.len()
                ==> self.grps()[#[trigger] self.feature_groups@[i]].id.id.bits < self.grps()[
                #[trigger] self.feature_groups@[j]].id.id.bits
        &&& forall|i: int|
            0 <= i < self.feature_groups@.len() ==> {
                let g = self.grps()[#[trigger] self.feature_groups@[i]];
                g.idcs_start < g.idcs_end && g.idcs_end <= self.features@.len()
            }
        &&& (self.feature_groups@.len() > 0 ==> {
            &&& self.grps()[self.feature_groups@[0]].idcs_start == 0
            &&& self.grps()[self.feature_groups@[self.feature_groups@.len()
                - 1]].idcs_end == self.features@.len()
        })
        &&& forall|i: int|
            0 <= i < self.feature_groups@.len() - 1
                ==> self.grps()[#[trigger] self.feature_groups@[i]].idcs_end == self.grps()[
                self.feature_groups@[i + 1]].idcs_start
        &&& forall|gk: usize|
            #[trigger] self.grps().dom().contains(gk) ==> exists|i: int|
                0 <= i < self.feature_groups@.len() && (#[trigger] self.feature_groups@[i]) == gk
        &&& forall|gk: usize|
            #[trigger] self.grps().dom().contains(gk) ==> 1 <= self.grps()[gk].old_size
                <= MAX_POOL_FEATURES
    }

    /// Each feature record's `group_key` names the group with that feature's
    /// id, and each vector position lies inside the range of the group that
    /// owns it, and only there.
    pub open spec fn linkage_ok(self) -> bool {
        &&& forall|fk: usize|
            #[trigger] self.feats().dom().contains(fk) ==> {
                &&& self.grps().dom().contains(self.feats()[fk].group_key)
                &&& self.grps()[self.feats()[fk].group_key].id.id.bits == self.feats()[
                fk].feature.spec_group_bits()
            }
        &&& forall|j: int|
            0 <= j < self.features@.len() ==> {
                let g = self.grps()[#[trigger] self.owner_at(j)];
                g.idcs_start <= j < g.idcs_end
            }
        &&& forall|i: int, j: int|
            0 <= i < self.feature_groups@.len()
                && self.grps()[#[trigger] self.feature_groups@[i]].idcs_start <= j < self.grps()[
                self.feature_groups@[i]].idcs_end ==> #[trigger] self.owner_at(j)
                == self.feature_groups@[i]
    }

    /// Feature-side membership: a feature's `inputs` lists live inputs that
    /// link back to it, without duplicates, and none cheaper than
    /// `least_complexity`.
    pub open spec fn feature_records_ok(self) -> bool {
        forall|fk: usize|
            #[trigger] self.feats().dom().contains(fk) ==> {
                let f = self.feats()[fk];
                &&& f.inputs@.no_duplicates()
                &&& f.inputs@.len() <= MAX_POOL_INPUTS
                &&& f.old_multiplicity <= MAX_POOL_INPUTS
                &&& forall|i: int|
                    0 <= i < f.inputs@.len() ==> {
                        &&& self.live().dom().contains(#[trigger] f.inputs@[i])
                        &&& self.live()[f.inputs@[i]].all_features@.contains(fk)
                        &&& f.least_complexity <= self.live()[f.inputs@[i]].complexity
                    }
            }
    }

    /// Input-side membership: an input's feature lists are duplicate-free,
    /// point to live features that list it back, and the witness list only
    /// holds features whose least complexity is this input's complexity.
    pub open spec fn input_records_ok(self) -> bool {
        forall|k: usize|
            #[trigger] self.live().dom().contains(k) ==> {
                let inp = self.live()[k];
                &&& inp.all_features@.no_duplicates()
                &&& inp.least_complex_for_features@.no_duplicates()
                &&& inp.all_features@.len() <= self.features@.len()
                &&& inp.complexity <= MAX_COMPLEXITY
                &&& forall|i: int|
                    0 <= i < inp.all_features@.len() ==> {
                        &&& self.feats().dom().contains(#[trigger] inp.all_features@[i])
                        &&& self.feats()[inp.all_features@[i]].inputs@.contains(k)
                    }
                &&& forall|i: int|
                    0 <= i < inp.least_complex_for_features@.len() ==> {
                        &&& inp.all_features@.contains(
                            #[trigger] inp.least_complex_for_features@[i],
                        )
                        &&& self.feats().dom().contains(inp.least_complex_for_features@[i])
                        &&& self.feats()[inp.least_complex_for_features@[i]].least_complexity
                            == inp.complexity
                    }
            }
    }

    pub open spec fn bounds_ok(self) -> bool {
        &&& self.inputs@.len() <= MAX_POOL_INPUTS
        &&& self.features@.len() <= MAX_POOL_FEATURES
    }

    /// All structural invariants together.
    pub open spec fn structural(self) -> bool {
        &&& self.slabs_ok()
        &&& self.inputs_vec_ok()
        &&& self.features_vec_ok()
        &&& self.groups_vec_ok()
        &&& self.linkage_ok()
        &&& self.feature_records_ok()
        &&& self.input_records_ok()
        &&& self.bounds_ok()
    }

    /// The score share a feature contributes according to the snapshot
    /// fields (`old_size`, `old_multiplicity`).
    pub open spec fn snap_term(self, fk: usize) -> int {
        if self.feats().dom().contains(fk) {
            spec_score_of(
                self.grps()[self.feats()[fk].group_key].old_size as int,
                self.feats()[fk].old_multiplicity as int,
            )
        } else {
            0
        }
    }

    pub open spec fn snap_term_fn(self) -> spec_fn(usize) -> int {
        |fk: usize| self.snap_term(fk)
    }

    /// The score share a feature contributes according to the current group
    /// size and multiplicity.
    pub open spec fn cur_term(self, fk: usize) -> int {
        if self.feats().dom().contains(fk) {
            spec_score_of(
                self.grps()[self.feats()[fk].group_key].spec_size(),
                self.feats()[fk].inputs@.len() as int,
            )
        } else {
            0
        }
    }

    /// The stored score of input `k` equals the sum of its features'
    /// snapshot shares.
    pub open spec fn input_score_ok(self, k: usize) -> bool {
        self.live()[k].score as int == sum_over(
            self.live()[k].all_features@,
            self.snap_term_fn(),
        )
    }

    /// Every live input's stored score tracks the snapshot shares, except
    /// possibly the named one.
    pub open spec fn scored_except(self, except: usize) -> bool {
        forall|k: usize|
            #[trigger] self.live().dom().contains(k) && k != except ==> self.input_score_ok(k)
    }

    pub open spec fn scored(self) -> bool {
        forall|k: usize| #[trigger] self.live().dom().contains(k) ==> self.input_score_ok(k)
    }

    /// At stable points the snapshots agree with the current sizes and
    /// multiplicities.
    pub open spec fn snapshots_current(self) -> bool {
        &&& forall|fk: usize|
            #[trigger] self.feats().dom().contains(fk) ==> self.feats()[fk].old_multiplicity
                == self.feats()[fk].inputs@.len()
        &&& forall|gk: usize|
            #[trigger] self.grps().dom().contains(gk) ==> self.grps()[gk].old_size as int
                == self.grps()[gk].spec_size()
    }

    /// The admission invariant: every input in the pool is the least-complex
    /// witness of at least one feature.
    pub open spec fn admission_ok(self) -> bool {
        forall|k: usize|
            #[trigger] self.live().dom().contains(k)
                ==> self.live()[k].least_complex_for_features@.len() > 0
    }

    /// Term function for summing stored scores over the input-handle vector.
    pub open spec fn score_fn(self) -> spec_fn(usize) -> int {
        |k: usize|
            if self.live().dom().contains(k) {
                self.live()[k].score as int
            } else {
                0
            }
    }

    /// Term function for summing complexities over the input-handle vector.
    pub open spec fn cplx_fn(self) -> spec_fn(usize) -> int {
        |k: usize|
            if self.live().dom().contains(k) {
                self.live()[k].complexity as int
            } else {
                0
            }
    }

    /// The total score of the pool: the sum of the live inputs' scores.
    pub open spec fn spec_total_score(self) -> int {
        sum_over(self.inputs@, self.score_fn())
    }

    /// The cached sampling statistics: cumulative weights are the prefix sums
    /// of the scores, and the average complexity is the integer mean.
    pub open spec fn stats_ok(self) -> bool {
        &&& self.cumulative_weights@.len() == self.inputs@.len()
        &&& forall|i: int|
            0 <= i < self.inputs@.len() ==> (#[trigger] self.cumulative_weights@[i]) as int == (
            if i == 0 {
                0
            } else {
                self.cumulative_weights@[i - 1] as int
            }) + self.score_fn()(self.inputs@[i])
        &&& (self.inputs@.len() == 0 ==> self.average_complexity == 0)
        &&& (self.inputs@.len() > 0 ==> self.average_complexity as int == sum_over(
            self.inputs@,
            self.cplx_fn(),
        ) / self.inputs@.len() as int)
    }

    /// Full well-formedness: all invariants of a stable pool.
    pub open spec fn wf(self) -> bool {
        &&& self.structural()
        &&& self.snapshots_current()
        &&& self.scored()
        &&& self.admission_ok()
        &&& self.stats_ok()
    }

    /// Number of inputs in the regular pool.
    pub fn len(&self) -> (r: usize)
        ensures
            r == self.inputs@.len(),
    {
        self.inputs.len()
    }

    /// Store the favored input, which bypasses admission and scoring.
    pub fn add_favored_input(&mut self, data: T)
        ensures
            *final (self) == (Pool { favored_input: Some(data), ..*old(self) }),
    {
        self.favored_input = Some(data);
    }
}

/// Prefix sums determine the total: the last cumulative weight equals the sum
/// of the terms.
pub proof fn lemma_prefix_sums_last(s: Seq<usize>, cw: Seq<u64>, f: spec_fn(usize) -> int)
    requires
        cw.len() == s.len(),
        forall|i: int|
            0 <= i < s.len() ==> (#[trigger] cw[i]) as int == (if i == 0 {
                0int
            } else {
                cw[i - 1] as int
            }) + f(s[i]),
    ensures
        s.len() > 0 ==> cw[s.len() - 1] as int == sum_over(s, f),
    decreases s.len(),
{
    if s.len() > 0 {
        lemma_prefix_sums_last(s.drop_last(), cw.drop_last(), f);
        assert(s =~= s.drop_last().push(s.last()));
        lemma_sum_push(s.drop_last(), f, s.last());
    }
}

impl<T> Pool<T> {
    /// The score one feature contributes to one input exhibiting it:
    /// 1 / (group size * multiplicity), in fixed-point units.
    pub fn score_of_feature(group_size: usize, exact_feature_multiplicity: usize) -> (r: u64)
        requires
            1 <= group_size <= MAX_POOL_FEATURES,
            1 <= exact_feature_multiplicity <= MAX_POOL_INPUTS,
        ensures
            r as int == spec_score_of(group_size as int, exact_feature_multiplicity as int),
            1 <= r <= SCORE_UNIT,
    {
        proof {
            lemma_score_of_bounds(group_size as int, exact_feature_multiplicity as int);
            assert(1 <= (group_size as u64) * (exact_feature_multiplicity as u64)
                <= 0x4000_0000) by (nonlinear_arith)
                requires
                    1 <= group_size <= 0x8000,
                    1 <= exact_feature_multiplicity <= 0x8000,
            ;
        }
        SCORE_UNIT / ((group_size as u64) * (exact_feature_multiplicity as u64))
    }

    /// An empty pool, with a generator seeded from the operating system.
    pub fn default() -> (r: Self)
        ensures
            r.wf(),
            r.inputs@.len() == 0,
            r.features@.len() == 0,
            r.feature_groups@.len() == 0,
            r.favored_input is None,
            r.live() =~= Map::<usize, Input<T>>::empty(),
            r.feats() =~= Map::<usize, FeatureInPool>::empty(),
    {
        Pool {
            features: Vec::new(),
            slab_features: Slab::new(),
            feature_groups: Vec::new(),
            slab_feature_groups: Slab::new(),
            inputs: Vec::new(),
            slab_inputs: Slab::new(),
            favored_input: None,
            average_complexity: 0,
            cumulative_weights: Vec::new(),
            rng: crate::rng::fresh_rng(),
        }
    }

    /// An empty pool whose generator is seeded deterministically, for
    /// reproducible runs.
    pub fn with_rng_seed(seed: u64) -> (r: Self)
        ensures
            r.wf(),
            r.inputs@.len() == 0,
            r.features@.len() == 0,
            r.feature_groups@.len() == 0,
            r.favored_input is None,
            r.live() =~= Map::<usize, Input<T>>::empty(),
            r.feats() =~= Map::<usize, FeatureInPool>::empty(),
    {
        Pool {
            features: Vec::new(),
            slab_features: Slab::new(),
            feature_groups: Vec::new(),
            slab_feature_groups: Slab::new(),
            inputs: Vec::new(),
            slab_inputs: Slab::new(),
            favored_input: None,
            average_complexity: 0,
            cumulative_weights: Vec::new(),
            rng: crate::rng::seeded_rng(seed),
        }
    }

    /// The total score of the pool, from the cached cumulative weights.
    pub fn score(&self) -> (r: u64)
        requires
            self.stats_ok(),
        ensures
            r as int == self.spec_total_score(),
    {
        proof {
            lemma_prefix_sums_last(self.inputs@, self.cumulative_weights@, self.score_fn());
        }
        if self.cumulative_weights.len() == 0 {
            0
        } else {
            self.cumulative_weights[self.cumulative_weights.len() - 1]
        }
    }

    /// Read the input at the given index.
    pub fn get_ref(&self, idx: PoolIndex) -> (r: &T)
        requires
            match idx {
                PoolIndex::Normal(k) => self.live().dom().contains(k),
                PoolIndex::Favored => self.favored_input is Some,
            },
        ensures
            match idx {
                PoolIndex::Normal(k) => *r == self.live()[k].data,
                PoolIndex::Favored => *r == self.favored_input->0,
            },
    {
        match idx {
            PoolIndex::Normal(key) => &self.slab_inputs.get(key).data,
            PoolIndex::Favored => {
                match &self.favored_input {
                    Some(data) => data,
                    None => {
                        proof {
                            assert(false);
                        }
                        unreached()
                    },
                }
            },
        }
    }
}

/// The term function `t` with the term at `fk` replaced by `v`.
pub open spec fn retargeted(t: spec_fn(usize) -> int, fk: usize, v: int) -> spec_fn(usize) -> int {
    |x: usize| if x == fk { v } else { t(x) }
}

impl<T> Pool<T> {
    /// Re-aim one feature's score share at the current multiplicity and the
    /// given group size: apply the difference to every input exhibiting the
    /// feature except `skip`, then refresh the multiplicity snapshot.
    fn retarget_feature_term(
        &mut self,
        fk: usize,
        use_size: usize,
        skip: usize,
        t: Ghost<spec_fn(usize) -> int>,
    )
        requires
            old(self).slabs_ok(),
            old(self).feats().dom().contains(fk),
            old(self).grps().dom().contains(old(self).feats()[fk].group_key),
            t@(fk) == old(self).snap_term(fk),
            1 <= use_size <= MAX_POOL_FEATURES,
            old(self).feats()[fk].inputs@.len() <= MAX_POOL_INPUTS,
            old(self).feats()[fk].old_multiplicity <= MAX_POOL_INPUTS,
            old(self).grps()[old(self).feats()[fk].group_key].old_size <= MAX_POOL_FEATURES,
            old(self).feats()[fk].inputs@.no_duplicates(),
            forall|i: int|
                0 <= i < old(self).feats()[fk].inputs@.len() ==> {
                    &&& old(self).live().dom().contains(#[trigger] old(self).feats()[fk].inputs@[i])
                    &&& old(self).live()[old(self).feats()[fk].inputs@[i]].all_features@.contains(
                        fk,
                    )
                },
            forall|k: usize|
                #[trigger] old(self).live().dom().contains(k) && old(self).live()[k].all_features@.contains(fk) ==> old(self).feats()[fk].inputs@.contains(
                    k,
                ),
            forall|k: usize|
                #[trigger] old(self).live().dom().contains(k) && k != skip ==> old(self).live()[k].score as int == sum_over(old(self).live()[k].all_features@, t@),
            forall|fk2: usize| 0 <= #[trigger] t@(fk2) <= SCORE_UNIT,
            forall|k: usize|
                #[trigger] old(self).live().dom().contains(k) ==> {
                    &&& old(self).live()[k].all_features@.len() <= MAX_POOL_FEATURES
                    &&& old(self).live()[k].all_features@.no_duplicates()
                },
        ensures
            final (self).slabs_ok(),
            final (self).feats() =~= old(self).feats().insert(
                fk,
                (FeatureInPool {
                    old_multiplicity: old(self).feats()[fk].inputs@.len() as usize,
                    ..old(self).feats()[fk]
                }),
            ),
            final (self).live().dom() =~= old(self).live().dom(),
            forall|k: usize|
                #[trigger] final (self).live().dom().contains(k) ==> final (self).live()[k] == (
                Input {
                    score: final (self).live()[k].score,
                    ..old(self).live()[k]
                }),
            forall|k: usize|
                #[trigger] final (self).live().dom().contains(k) && k != skip ==> final (self).live()[k].score as int == sum_over(
                    final (self).live()[k].all_features@,
                    retargeted(
                        t@,
                        fk,
                        spec_score_of(
                            use_size as int,
                            old(self).feats()[fk].inputs@.len() as int,
                        ),
                    ),
                ),
            forall|k: usize|
                #[trigger] final (self).live().dom().contains(k) && k == skip ==> final (self).live()[k].score == old(self).live()[k].score,
            final (self).features == old(self).features,
            final (self).feature_groups == old(self).feature_groups,
            final (self).slab_feature_groups == old(self).slab_feature_groups,
            final (self).inputs == old(self).inputs,
            final (self).favored_input == old(self).favored_input,
            final (self).cumulative_weights == old(self).cumulative_weights,
            final (self).average_complexity == old(self).average_complexity,
            final (self).slab_inputs.spec_next_key() == old(self).slab_inputs.spec_next_key(),
            final (self).slab_features.spec_next_key() == old(self).slab_features.spec_next_key(),
            0 <= spec_score_of(use_size as int, old(self).feats()[fk].inputs@.len() as int)
                <= SCORE_UNIT,
    {
        let ghost old_pool = *self;
        let ghost nt: int = spec_score_of(
            use_size as int,
            old(self).feats()[fk].inputs@.len() as int,
        );
        let ghost t2 = retargeted(t@, fk, nt);
        proof {
            lemma_score_of_bounds(use_size as int, old(self).feats()[fk].inputs@.len() as int);
        }
        let m: usize = self.slab_features.get(fk).inputs.len();
        let old_mult: usize = self.slab_features.get(fk).old_multiplicity;
        let gk: usize = self.slab_features.get(fk).group_key;
        let g_old_size: usize = self.slab_feature_groups.get(gk).old_size;
        let old_term: u64 = if old_mult == 0 || g_old_size == 0 {
            0
        } else {
            Self::score_of_feature(g_old_size, old_mult)
        };
        let new_term: u64 = if m == 0 {
            0
        } else {
            Self::score_of_feature(use_size, m)
        };
        proof {
            assert(old_term as int == t@(fk));
            assert(new_term as int == nt);
        }
        let mut i: usize = 0;
        while i < m
            invariant
                0 <= i <= m,
                old_pool.slabs_ok(),
                self.slab_inputs.wf(),
                m == old_pool.feats()[fk].inputs@.len(),
                old_pool.feats().dom().contains(fk),
                old_pool.feats()[fk].inputs@.no_duplicates(),
                old_term as int == t@(fk),
                new_term as int == nt,
                0 <= nt <= SCORE_UNIT,
                forall|fk2: usize| 0 <= #[trigger] t@(fk2) <= SCORE_UNIT,
                t2 == retargeted(t@, fk, nt),
                self.slab_features == old_pool.slab_features,
                self.slab_feature_groups == old_pool.slab_feature_groups,
                self.features == old_pool.features,
                self.feature_groups == old_pool.feature_groups,
                self.inputs == old_pool.inputs,
                self.favored_input == old_pool.favored_input,
                self.cumulative_weights == old_pool.cumulative_weights,
                self.average_complexity == old_pool.average_complexity,
                self.slab_inputs.spec_next_key() == old_pool.slab_inputs.spec_next_key(),
                self.live().dom() =~= old_pool.live().dom(),
                forall|j: int|
                    0 <= j < m ==> {
                        &&& old_pool.live().dom().contains(
                            #[trigger] old_pool.feats()[fk].inputs@[j],
                        )
                        &&& old_pool.live()[old_pool.feats()[fk].inputs@[j]].all_features@.contains(
                            fk,
                        )
                    },
                forall|k: usize|
                    #[trigger] old_pool.live().dom().contains(k) && old_pool.live()[
                        k].all_features@.contains(fk) ==> old_pool.feats()[fk].inputs@.contains(k),
                forall|k: usize|
                    #[trigger] old_pool.live().dom().contains(k) ==> {
                        &&& old_pool.live()[k].all_features@.len() <= MAX_POOL_FEATURES
                        &&& old_pool.live()[k].all_features@.no_duplicates()
                    },
                forall|k: usize|
                    #[trigger] self.live().dom().contains(k) ==> self.live()[k] == (Input {
                        score: self.live()[k].score,
                        ..old_pool.live()[k]
                    }),
                forall|k: usize|
                    #[trigger] self.live().dom().contains(k) && k != skip ==> self.live()[
                        k].score as int == sum_over(
                        old_pool.live()[k].all_features@,
                        if old_pool.feats()[fk].inputs@.subrange(0, i as int).contains(k) {
                            t2
                        } else {
                            t@
                        },
                    ),
                forall|k: usize|
                    #[trigger] self.live().dom().contains(k) && k == skip ==> self.live()[k].score
                        == old_pool.live()[k].score,
            decreases m - i,
        {
            let ghost prefix = old_pool.feats()[fk].inputs@.subrange(0, i as int);
            let h: usize = self.slab_features.get(fk).inputs[i];
            proof {
                assert(old_pool.feats()[fk].inputs@.subrange(0, i as int + 1) =~= prefix.push(h));
                assert(!prefix.contains(h)) by {
                    if prefix.contains(h) {
                        let a = choose|a: int| 0 <= a < prefix.len() && prefix[a] == h;
                        assert(old_pool.feats()[fk].inputs@[a] == h);
                        assert(old_pool.feats()[fk].inputs@[i as int] == h);
                    }
                }
            }
            if h != skip {
                proof {
                    let af = old_pool.live()[h].all_features@;
                    assert(af.contains(fk));
                    lemma_sum_element_lower(
                        af,
                        t@,
                        choose|a: int| 0 <= a < af.len() && af[a] == fk,
                    );
                    lemma_sum_update_key(af, t@, t2, fk);
                    lemma_sum_bounds(af, t2, SCORE_UNIT as int);
                    assert(af.len() * SCORE_UNIT as int <= MAX_POOL_FEATURES as int
                        * SCORE_UNIT as int) by (nonlinear_arith)
                        requires
                            af.len() <= MAX_POOL_FEATURES as int,
                    ;
                }
                let inp = self.slab_inputs.get_mut(h);
                let s0 = inp.score;
                inp.score = s0 - old_term + new_term;
            }
            proof {
                assert forall|k: usize|
                    #[trigger] self.live().dom().contains(k) && k != skip implies self.live()[
                    k].score as int == sum_over(
                    old_pool.live()[k].all_features@,
                    if old_pool.feats()[fk].inputs@.subrange(0, i as int + 1).contains(k) {
                        t2
                    } else {
                        t@
                    },
                ) by {
                    let ext = old_pool.feats()[fk].inputs@.subrange(0, i as int + 1);
                    assert(ext =~= prefix.push(h));
                    if k != h {
                        assert(ext.contains(k) == prefix.contains(k)) by {
                            if ext.contains(k) {
                                let a = choose|a: int| 0 <= a < ext.len() && ext[a] == k;
                                if a < prefix.len() {
                                    assert(prefix[a] == k);
                                } else {
                                    assert(ext[a] == h);
                                }
                            }
                            if prefix.contains(k) {
                                let a = choose|a: int| 0 <= a < prefix.len() && prefix[a] == k;
                                assert(ext[a] == k);
                            }
                        }
                    } else {
                        assert(ext.contains(h)) by {
                            assert(ext[prefix.len() as int] == h);
                        }
                    }
                }
            }
            i += 1;
        }
        proof {
            assert(old_pool.feats()[fk].inputs@.subrange(0, m as int) =~= old_pool.feats()[
                fk].inputs@);
        }
        let f = self.slab_features.get_mut(fk);
        f.old_multiplicity = m;
        proof {
            assert forall|k: usize|
                #[trigger] self.live().dom().contains(k) && k != skip implies self.live()[
                k].score as int == sum_over(self.live()[k].all_features@, t2) by {
                if !old_pool.feats()[fk].inputs@.contains(k) {
                    assert(!old_pool.live()[k].all_features@.contains(fk));
                    lemma_sum_update_key(old_pool.live()[k].all_features@, t@, t2, fk);
                }
            }
        }
    }
}

/// Copy a vector of keys.
fn copy_keys(v: &Vec<usize>) -> (r: Vec<usize>)
    ensures
        r@ == v@,
{
    let mut r: Vec<usize> = Vec::new();
    let mut i: usize = 0;
    while i < v.len()
        invariant
            0 <= i <= v.len(),
            r@ == v@.subrange(0, i as int),
        decreases v.len() - i,
    {
        r.push(v[i]);
        proof {
            assert(r@ =~= v@.subrange(0, i as int + 1));
        }
        i += 1;
    }
    proof {
        assert(v@.subrange(0, v@.len() as int) =~= v@);
    }
    r
}

/// Position of a key known to be present.
fn find_key(v: &Vec<usize>, x: usize) -> (j: usize)
    requires
        v@.contains(x),
    ensures
        j < v@.len(),
        v@[j as int] == x,
{
    let mut j: usize = 0;
    while j < v.len()
        invariant
            0 <= j <= v.len(),
            v@.contains(x),
            forall|i: int| 0 <= i < j ==> v@[i] != x,
        decreases v.len() - j,
    {
        if v[j] == x {
            return j;
        }
        j += 1;
    }
    proof {
        let a = choose|a: int| 0 <= a < v@.len() && v@[a] == x;
        assert(false);
    }
    unreached()
}

/// A duplicate-free sequence of keys drawn from the entries of a vector that
/// does not mention one given key is strictly shorter than the vector.
proof fn lemma_distinct_members_bound(s: Seq<usize>, fs: Seq<FeatureForIteration>, missing: usize)
    requires
        s.no_duplicates(),
        !s.contains(missing),
        forall|i: int|
            0 <= i < s.len() ==> exists|j: int|
                0 <= j < fs.len() && (#[trigger] fs[j]).key == #[trigger] s[i],
        exists|j: int| 0 <= j < fs.len() && (#[trigger] fs[j]).key == missing,
    ensures
        s.len() < fs.len(),
{
    let keys = fs.map_values(|e: FeatureForIteration| e.key);
    let key_set = keys.to_set();
    s.unique_seq_to_set();
    keys.lemma_cardinality_of_set();
    vstd::seq_lib::seq_to_set_is_finite(keys);
    vstd::seq_lib::seq_to_set_is_finite(s);
    assert forall|x: usize| s.to_set().contains(x) implies key_set.remove(missing).contains(
        x,
    ) by {
        let i = choose|i: int| 0 <= i < s.len() && s[i] == x;
        let j = choose|j: int| 0 <= j < fs.len() && (#[trigger] fs[j]).key == x;
        assert(keys[j] == x);
        assert(keys.contains(x));
    }
    vstd::set_lib::lemma_len_subset(s.to_set(), key_set.remove(missing));
    assert(key_set.contains(missing)) by {
        let j = choose|j: int| 0 <= j < fs.len() && (#[trigger] fs[j]).key == missing;
        assert(keys[j] == missing);
    }
    assert(key_set.remove(missing).len() == key_set.len() - 1);
}

/// Removing one occurrence from a duplicate-free sequence removes the key.
proof fn lemma_seq_remove_key(s: Seq<usize>, j: int)
    requires
        s.no_duplicates(),
        0 <= j < s.len(),
    ensures
        s.remove(j).no_duplicates(),
        forall|x: usize| s.remove(j).contains(x) <==> (s.contains(x) && x != s[j]),
{
    let r = s.remove(j);
    assert forall|x: usize| r.contains(x) implies (s.contains(x) && x != s[j]) by {
        let a = choose|a: int| 0 <= a < r.len() && r[a] == x;
        if a < j {
            assert(s[a] == x);
        } else {
            assert(s[a + 1] == x);
        }
    }
    assert forall|x: usize| s.contains(x) && x != s[j] implies r.contains(x) by {
        let a = choose|a: int| 0 <= a < s.len() && s[a] == x;
        if a < j {
            assert(r[a] == x);
        } else {
            assert(a != j);
            assert(r[a - 1] == x);
        }
    }
}

impl<T> Pool<T> {
    /// Remove one input from the pool: detach it from the input-handle
    /// vector by a swap-remove, take it out of every feature it exhibits
    /// (propagating the score change to the remaining holders, except
    /// `skip`), refresh the touched multiplicity snapshots, and free the
    /// record. Returns the removed input's value.
    fn delete_one(&mut self, d: usize, skip: usize) -> (data: T)
        requires
            old(self).structural(),
            old(self).scored_except(skip),
            old(self).live().dom().contains(d),
            d != skip,
        ensures
            final (self).structural(),
            final (self).scored_except(skip),
            final (self).live().dom() =~= old(self).live().dom().remove(d),
            forall|k: usize|
                #[trigger] final (self).live().dom().contains(k) ==> final (self).live()[k] == (
                Input {
                    score: final (self).live()[k].score,
                    idx_in_pool: final (self).live()[k].idx_in_pool,
                    ..old(self).live()[k]
                }),
            old(self).live().dom().contains(skip) && skip != d ==> final (self).live()[
                skip].score == old(self).live()[skip].score,
            data == old(self).live()[d].data,
            final (self).inputs@.len() == old(self).inputs@.len() - 1,
            final (self).features == old(self).features,
            final (self).feature_groups == old(self).feature_groups,
            final (self).slab_feature_groups == old(self).slab_feature_groups,
            final (self).favored_input == old(self).favored_input,
            final (self).cumulative_weights == old(self).cumulative_weights,
            final (self).average_complexity == old(self).average_complexity,
            final (self).feats().dom() =~= old(self).feats().dom(),
            forall|fk: usize|
                #[trigger] final (self).feats().dom().contains(fk) ==> {
                    let fnew = final (self).feats()[fk];
                    let fold = old(self).feats()[fk];
                    &&& fnew.key == fold.key
                    &&& fnew.feature == fold.feature
                    &&& fnew.group_key == fold.group_key
                    &&& fnew.least_complexity == fold.least_complexity
                    &&& fnew.least_complex_input == fold.least_complex_input
                    &&& forall|x: usize|
                        fnew.inputs@.contains(x) <==> (fold.inputs@.contains(x) && x != d)
                    &&& fnew.inputs@.len() as int == fold.inputs@.len() - (
                    if fold.inputs@.contains(d) {
                        1int
                    } else {
                        0int
                    })
                    &&& fnew.old_multiplicity as int == (if fold.inputs@.contains(d) {
                        fnew.inputs@.len() as int
                    } else {
                        fold.old_multiplicity as int
                    })
                    &&& (!fold.inputs@.contains(d) ==> fnew == fold)
                },
    {
        let ghost p0 = *self;
        // swap-remove from the input-handle vector
        let to_swap_idx = self.inputs.len() - 1;
        let to_swap_key = self.inputs[to_swap_idx];
        let to_delete_idx = self.slab_inputs.get(d).idx_in_pool;
        let swapped = self.slab_inputs.get_mut(to_swap_key);
        swapped.idx_in_pool = to_delete_idx;
        self.inputs[to_delete_idx] = to_swap_key;
        self.inputs.pop();
        // free the record, keeping its value and feature list
        let record = self.slab_inputs.remove(d);
        let afs = copy_keys(&record.all_features);
        let ghost p1 = *self;
        proof {
            assert(p1.live().dom() =~= p0.live().dom().remove(d));
            assert forall|k: usize| #[trigger] p1.live().dom().contains(k) implies p1.live()[k]
                == (Input {
                score: p1.live()[k].score,
                idx_in_pool: p1.live()[k].idx_in_pool,
                ..p0.live()[k]
            }) by {}
            assert(p1.slab_features == p0.slab_features);
            assert forall|fk: usize| #[trigger] p1.snap_term(fk) == p0.snap_term(fk) by {}
            assert forall|k: usize|
                #[trigger] p1.live().dom().contains(k) && k != skip implies p1.live()[
                k].score as int == sum_over(p1.live()[k].all_features@, p1.snap_term_fn()) by {
                assert(p0.live().dom().contains(k));
                assert(p1.live()[k].score == p0.live()[k].score);
                assert(p1.live()[k].all_features@ == p0.live()[k].all_features@);
                assert(p0.live()[k].score as int == sum_over(
                    p0.live()[k].all_features@,
                    p0.snap_term_fn(),
                ));
                assert forall|i: int|
                    0 <= i < p0.live()[k].all_features@.len() implies p0.snap_term_fn()(
                    #[trigger] p0.live()[k].all_features@[i],
                ) == p1.snap_term_fn()(p0.live()[k].all_features@[i]) by {}
                lemma_sum_congruence(
                    p0.live()[k].all_features@,
                    p0.snap_term_fn(),
                    p1.snap_term_fn(),
                );
            }
        }
        let mut fi: usize = 0;
        while fi < afs.len()
            invariant
                0 <= fi <= afs.len(),
                afs@ == p0.live()[d].all_features@,
                afs@.no_duplicates(),
                p0.structural(),
                p0.live().dom().contains(d),
                d != skip,
                self.slabs_ok(),
                self.inputs == p1.inputs,
                self.features == p0.features,
                self.feature_groups == p0.feature_groups,
                self.slab_feature_groups == p0.slab_feature_groups,
                self.favored_input == p0.favored_input,
                self.cumulative_weights == p0.cumulative_weights,
                self.average_complexity == p0.average_complexity,
                self.inputs@.len() == p0.inputs@.len() - 1,
                self.live().dom() =~= p0.live().dom().remove(d),
                forall|k: usize|
                    #[trigger] self.live().dom().contains(k) ==> self.live()[k] == (Input {
                        score: self.live()[k].score,
                        idx_in_pool: p1.live()[k].idx_in_pool,
                        ..p0.live()[k]
                    }),
                p0.live().dom().contains(skip) && skip != d ==> self.live()[skip].score == p0.live()[skip].score,
                self.inputs_vec_ok(),
                self.feats().dom() =~= p0.feats().dom(),
                forall|fk: usize|
                    #[trigger] self.feats().dom().contains(fk) && afs@.subrange(
                        0,
                        fi as int,
                    ).contains(fk) ==> {
                        let fnew = self.feats()[fk];
                        let fold = p0.feats()[fk];
                        &&& fnew.key == fold.key
                        &&& fnew.feature == fold.feature
                        &&& fnew.group_key == fold.group_key
                        &&& fnew.least_complexity == fold.least_complexity
                        &&& fnew.least_complex_input == fold.least_complex_input
                        &&& fnew.inputs@.no_duplicates()
                        &&& forall|x: usize|
                            fnew.inputs@.contains(x) <==> (fold.inputs@.contains(x) && x != d)
                        &&& fnew.inputs@.len() as int == fold.inputs@.len() - (
                        if fold.inputs@.contains(d) {
                            1int
                        } else {
                            0int
                        })
                        &&& fnew.old_multiplicity == fnew.inputs@.len()
                    },
                forall|fk: usize|
                    #[trigger] self.feats().dom().contains(fk) && !afs@.subrange(
                        0,
                        fi as int,
                    ).contains(fk) ==> self.feats()[fk] == p0.feats()[fk],
                forall|k: usize|
                    #[trigger] self.live().dom().contains(k) && k != skip ==> self.live()[
                        k].score as int == sum_over(
                        self.live()[k].all_features@,
                        self.snap_term_fn(),
                    ),
            decreases afs.len() - fi,
        {
            let ghost pre = *self;
            let ghost prefix = afs@.subrange(0, fi as int);
            let fk = afs[fi];
            proof {
                assert(p0.live()[d].all_features@[fi as int] == fk);
                assert(p0.feats().dom().contains(fk));
                assert(p0.feats()[fk].inputs@.contains(d));
                assert(!prefix.contains(fk)) by {
                    if prefix.contains(fk) {
                        let a = choose|a: int| 0 <= a < prefix.len() && prefix[a] == fk;
                        assert(afs@[a] == fk);
                        assert(afs@[fi as int] == fk);
                    }
                }
                assert(self.feats()[fk] == p0.feats()[fk]);
            }
            let ghost t = self.snap_term_fn();
            // take the input out of this feature's holder list
            let j = {
                let f = self.slab_features.get(fk);
                proof {
                    assert(f.inputs@.contains(d));
                }
                find_key(&f.inputs, d)
            };
            let f = self.slab_features.get_mut(fk);
            let ghost before_inputs = f.inputs@;
            f.inputs.remove(j);
            proof {
                lemma_seq_remove_key(before_inputs, j as int);
                assert(self.feats()[fk].inputs@ == before_inputs.remove(j as int));
            }
            // propagate the score change, against the unchanged group size
            // snapshot
            let gk = self.slab_features.get(fk).group_key;
            let gs = self.slab_feature_groups.get(gk).old_size;
            proof {
                assert forall|fk2: usize| #[trigger] self.snap_term(fk2) == t(fk2) by {
                    assert(self.feats().dom() =~= pre.feats().dom());
                    if self.feats().dom().contains(fk2) {
                        assert(self.feats()[fk2].old_multiplicity == pre.feats()[
                            fk2].old_multiplicity);
                        assert(self.feats()[fk2].group_key == pre.feats()[fk2].group_key);
                    }
                }
                assert forall|k: usize|
                    #[trigger] self.live().dom().contains(k) && k != skip implies self.live()[
                    k].score as int == sum_over(self.live()[k].all_features@, t) by {
                    assert(pre.live().dom().contains(k));
                    assert(self.live()[k] == pre.live()[k]);
                }
                assert forall|fk2: usize| 0 <= #[trigger] t(fk2) <= SCORE_UNIT by {
                    if self.feats().dom().contains(fk2) {
                        lemma_score_of_bounds(
                            self.grps()[self.feats()[fk2].group_key].old_size as int,
                            self.feats()[fk2].old_multiplicity as int,
                        );
                    }
                }
                assert forall|k: usize|
                    #[trigger] self.live().dom().contains(k) && self.live()[
                        k].all_features@.contains(fk) implies self.feats()[fk].inputs@.contains(
                    k,
                ) by {
                    assert(p0.feats()[fk].inputs@.contains(k));
                }
            }
            self.retarget_feature_term(fk, gs, skip, Ghost(t));
            proof {
                let post = *self;
                assert forall|k: usize|
                    #[trigger] post.live().dom().contains(k) && k != skip implies post.live()[
                    k].score as int == sum_over(
                    post.live()[k].all_features@,
                    post.snap_term_fn(),
                ) by {
                    let nt = spec_score_of(gs as int, pre.feats()[fk].inputs@.remove(j as int).len() as int);
                    assert(post.live()[k].score as int == sum_over(
                        post.live()[k].all_features@,
                        retargeted(t, fk, nt),
                    ));
                    assert forall|i: int|
                        0 <= i < post.live()[k].all_features@.len() implies retargeted(t, fk, nt)(
                        #[trigger] post.live()[k].all_features@[i],
                    ) == post.snap_term_fn()(post.live()[k].all_features@[i]) by {
                        let x = post.live()[k].all_features@[i];
                        if x == fk {
                            assert(post.feats()[fk].old_multiplicity == pre.feats()[
                                fk].inputs@.remove(j as int).len());
                        } else {
                            assert(post.feats().dom().contains(x) == pre.feats().dom().contains(x));
                        }
                    }
                    lemma_sum_congruence(
                        post.live()[k].all_features@,
                        retargeted(t, fk, nt),
                        post.snap_term_fn(),
                    );
                }
                assert(afs@.subrange(0, fi as int + 1) =~= prefix.push(fk));
                assert forall|fk2: usize|
                    #[trigger] self.feats().dom().contains(fk2) && !afs@.subrange(
                        0,
                        fi as int + 1,
                    ).contains(fk2) implies self.feats()[fk2] == p0.feats()[fk2] by {
                    assert(fk2 != fk) by {
                        assert(afs@.subrange(0, fi as int + 1)[fi as int] == fk);
                    }
                    assert(!prefix.contains(fk2)) by {
                        if prefix.contains(fk2) {
                            let a = choose|a: int| 0 <= a < prefix.len() && prefix[a] == fk2;
                            assert(afs@.subrange(0, fi as int + 1)[a] == fk2);
                        }
                    }
                    assert(pre.feats()[fk2] == p0.feats()[fk2]);
                }
            }
            fi += 1;
        }
        proof {
            assert(afs@.subrange(0, afs@.len() as int) =~= afs@);
            // features never held by the deleted input keep their lists free
            // of it, so the holder lists are exactly the live inputs
            assert forall|fk: usize|
                #[trigger] self.feats().dom().contains(fk) implies {
                let fnew = self.feats()[fk];
                let fold = p0.feats()[fk];
                &&& fnew.key == fold.key
                &&& fnew.feature == fold.feature
                &&& fnew.group_key == fold.group_key
                &&& fnew.least_complexity == fold.least_complexity
                &&& fnew.least_complex_input == fold.least_complex_input
                &&& forall|x: usize|
                    fnew.inputs@.contains(x) <==> (fold.inputs@.contains(x) && x != d)
                &&& fnew.inputs@.len() as int == fold.inputs@.len() - (
                if fold.inputs@.contains(d) {
                    1int
                } else {
                    0int
                })
                &&& fnew.old_multiplicity as int == (if fold.inputs@.contains(d) {
                    fnew.inputs@.len() as int
                } else {
                    fold.old_multiplicity as int
                })
                &&& (!fold.inputs@.contains(d) ==> fnew == fold)
            } by {
                if !afs@.contains(fk) {
                    assert(self.feats()[fk] == p0.feats()[fk]);
                    assert(!p0.feats()[fk].inputs@.contains(d)) by {
                        if p0.feats()[fk].inputs@.contains(d) {
                            assert(p0.live()[d].all_features@.contains(fk));
                        }
                    }
                } else {
                    assert(p0.feats()[fk].inputs@.contains(d)) by {
                        let a = choose|a: int| 0 <= a < afs@.len() && afs@[a] == fk;
                        assert(p0.live()[d].all_features@[a] == fk);
                    }
                }
            }
            assert(self.structural()) by {
                assert(self.features_vec_ok()) by {
                    assert forall|i: int| 0 <= i < self.features@.len() implies {
                        &&& self.feats().dom().contains((#[trigger] self.features@[i]).key)
                        &&& self.feats()[self.features@[i].key].key == self.features@[i].key
                        &&& self.feats()[self.features@[i].key].feature == self.features@[i].feature
                    } by {
                        assert(p0.feats().dom().contains(self.features@[i].key));
                    }
                }
                assert(self.groups_vec_ok()) by {
                    assert(self.feature_groups == p0.feature_groups);
                    assert(self.slab_feature_groups == p0.slab_feature_groups);
                    assert(self.features@.len() == p0.features@.len());
                    assert(self.grps() == p0.grps());
                }
                assert(self.linkage_ok()) by {
                    assert forall|j: int| 0 <= j < self.features@.len() implies {
                        let g = self.grps()[#[trigger] self.owner_at(j)];
                        g.idcs_start <= j < g.idcs_end
                    } by {
                        assert(self.owner_at(j) == p0.owner_at(j));
                    }
                    assert forall|i: int, j: int|
                        0 <= i < self.feature_groups@.len()
                            && self.grps()[#[trigger] self.feature_groups@[i]].idcs_start <= j
                            < self.grps()[self.feature_groups@[i]].idcs_end implies #[trigger] self.owner_at(
                        j,
                    ) == self.feature_groups@[i] by {
                        assert(self.owner_at(j) == p0.owner_at(j));
                        assert(p0.owner_at(j) == p0.feature_groups@[i]);
                    }
                }
                assert(self.feature_records_ok()) by {
                    assert forall|fk: usize| #[trigger] self.feats().dom().contains(fk) implies {
                        let f = self.feats()[fk];
                        &&& f.inputs@.no_duplicates()
                        &&& f.inputs@.len() <= MAX_POOL_INPUTS
                        &&& f.old_multiplicity <= MAX_POOL_INPUTS
                        &&& forall|i: int|
                            0 <= i < f.inputs@.len() ==> {
                                &&& self.live().dom().contains(#[trigger] f.inputs@[i])
                                &&& self.live()[f.inputs@[i]].all_features@.contains(fk)
                                &&& f.least_complexity <= self.live()[f.inputs@[i]].complexity
                            }
                    } by {
                        let f = self.feats()[fk];
                        let fold = p0.feats()[fk];
                        assert(f.inputs@.no_duplicates()) by {
                            if afs@.contains(fk) {
                                let a = choose|a: int| 0 <= a < afs@.len() && afs@[a] == fk;
                                assert(afs@.subrange(0, afs@.len() as int)[a] == fk);
                            } else {
                                assert(f == fold);
                            }
                        }
                        assert forall|i: int| 0 <= i < f.inputs@.len() implies {
                            &&& self.live().dom().contains(#[trigger] f.inputs@[i])
                            &&& self.live()[f.inputs@[i]].all_features@.contains(fk)
                            &&& f.least_complexity <= self.live()[f.inputs@[i]].complexity
                        } by {
                            let x = f.inputs@[i];
                            assert(f.inputs@.contains(x));
                            assert(fold.inputs@.contains(x) && x != d);
                            assert(p0.live().dom().contains(x));
                            assert(self.live().dom().contains(x));
                            assert(self.live()[x].all_features@ == p0.live()[x].all_features@);
                            assert(p0.live()[x].all_features@.contains(fk));
                            assert(self.live()[x].complexity == p0.live()[x].complexity);
                            let a = choose|a: int|
                                0 <= a < fold.inputs@.len() && fold.inputs@[a] == x;
                            assert(fold.least_complexity <= p0.live()[x].complexity);
                        }
                    }
                }
                assert(self.input_records_ok()) by {
                    assert forall|k: usize| #[trigger] self.live().dom().contains(k) implies {
                        let inp = self.live()[k];
                        &&& inp.all_features@.no_duplicates()
                        &&& inp.least_complex_for_features@.no_duplicates()
                        &&& inp.all_features@.len() <= self.features@.len()
                        &&& inp.complexity <= MAX_COMPLEXITY
                        &&& forall|i: int|
                            0 <= i < inp.all_features@.len() ==> {
                                &&& self.feats().dom().contains(#[trigger] inp.all_features@[i])
                                &&& self.feats()[inp.all_features@[i]].inputs@.contains(k)
                            }
                        &&& forall|i: int|
                            0 <= i < inp.least_complex_for_features@.len() ==> {
                                &&& inp.all_features@.contains(
                                    #[trigger] inp.least_complex_for_features@[i],
                                )
                                &&& self.feats().dom().contains(
                                    inp.least_complex_for_features@[i],
                                )
                                &&& self.feats()[inp.least_complex_for_features@[
                                i]].least_complexity == inp.complexity
                            }
                    } by {
                        let inp = self.live()[k];
                        assert(p0.live().dom().contains(k));
                        assert(inp.all_features@ == p0.live()[k].all_features@);
                        assert(inp.least_complex_for_features@ == p0.live()[
                            k].least_complex_for_features@);
                        assert(inp.complexity == p0.live()[k].complexity);
                        assert forall|i: int| 0 <= i < inp.all_features@.len() implies {
                            &&& self.feats().dom().contains(#[trigger] inp.all_features@[i])
                            &&& self.feats()[inp.all_features@[i]].inputs@.contains(k)
                        } by {
                            let fk = inp.all_features@[i];
                            assert(p0.feats().dom().contains(fk));
                            assert(p0.feats()[fk].inputs@.contains(k));
                            assert(k != d);
                        }
                        assert forall|i: int|
                            0 <= i < inp.least_complex_for_features@.len() implies {
                            &&& inp.all_features@.contains(
                                #[trigger] inp.least_complex_for_features@[i],
                            )
                            &&& self.feats().dom().contains(inp.least_complex_for_features@[i])
                            &&& self.feats()[inp.least_complex_for_features@[
                            i]].least_complexity == inp.complexity
                        } by {
                            let fk = inp.least_complex_for_features@[i];
                            assert(p0.live()[k].all_features@.contains(fk));
                            assert(p0.feats().dom().contains(fk));
                            assert(self.feats()[fk].least_complexity == p0.feats()[
                                fk].least_complexity);
                        }
                    }
                }
            }
        }
        record.data
    }
}

/// A tracked score is at most the number of features times the unit share.
proof fn lemma_score_cap<T>(p: Pool<T>, k: usize)
    requires
        p.structural(),
        p.live().dom().contains(k),
        p.input_score_ok(k),
    ensures
        p.live()[k].score <= 0x8000_0000_0000u64,
{
    assert forall|i: int|
        0 <= i < p.live()[k].all_features@.len() implies 0 <= p.snap_term_fn()(
        #[trigger] p.live()[k].all_features@[i],
    ) <= SCORE_UNIT by {
        let fk = p.live()[k].all_features@[i];
        if p.feats().dom().contains(fk) {
            lemma_score_of_bounds(
                p.grps()[p.feats()[fk].group_key].old_size as int,
                p.feats()[fk].old_multiplicity as int,
            );
        }
    }
    lemma_sum_bounds(p.live()[k].all_features@, p.snap_term_fn(), SCORE_UNIT as int);
    assert(p.live()[k].all_features@.len() * SCORE_UNIT as int <= 0x8000 * SCORE_UNIT as int)
        by (nonlinear_arith)
        requires
            p.live()[k].all_features@.len() <= 0x8000,
    ;
}

impl<T> Pool<T> {
    /// Rebuild the cumulative-weights vector and the average complexity in
    /// one pass over the inputs.
    #[verifier::rlimit(50)]
    fn update_stats(&mut self)
        requires
            old(self).structural(),
            old(self).scored(),
        ensures
            *final (self) == (Pool {
                cumulative_weights: final (self).cumulative_weights,
                average_complexity: final (self).average_complexity,
                ..*old(self)
            }),
            final (self).stats_ok(),
            final (self).structural(),
            final (self).scored(),
            old(self).snapshots_current() ==> final (self).snapshots_current(),
            old(self).admission_ok() ==> final (self).admission_ok(),
    {
        let ghost p0 = *self;
        proof {
            assert forall|k: usize|
                #[trigger] self.live().dom().contains(k) implies self.live()[k].score
                <= 0x8000_0000_0000u64 by {
                lemma_score_cap(*self, k);
            }
        }
        let n = self.inputs.len();
        let mut cw: Vec<u64> = Vec::new();
        let mut acc: u64 = 0;
        let mut sum_cplx: u64 = 0;
        let mut i: usize = 0;
        while i < n
            invariant
                0 <= i <= n,
                n == self.inputs@.len(),
                self.structural(),
                *self == (Pool { cumulative_weights: self.cumulative_weights, ..p0 }),
                forall|k: usize|
                    #[trigger] self.live().dom().contains(k) ==> self.live()[k].score
                        <= 0x8000_0000_0000u64,
                cw@.len() == i,
                forall|j: int|
                    0 <= j < i ==> (#[trigger] cw@[j]) as int == (if j == 0 {
                        0int
                    } else {
                        cw@[j - 1] as int
                    }) + self.score_fn()(self.inputs@[j]),
                acc as int == sum_over(self.inputs@.subrange(0, i as int), self.score_fn()),
                acc as int <= i as int * 0x8000_0000_0000,
                i > 0 ==> acc == cw@[i - 1],
                sum_cplx as int == sum_over(self.inputs@.subrange(0, i as int), self.cplx_fn()),
                sum_cplx as int <= i as int * 0x1_0000_0000,
            decreases n - i,
        {
            let k = self.inputs[i];
            let s = self.slab_inputs.get(k).score;
            let c = self.slab_inputs.get(k).complexity;
            proof {
                assert(self.inputs@.subrange(0, i as int + 1) =~= self.inputs@.subrange(
                    0,
                    i as int,
                ).push(k));
                lemma_sum_push(self.inputs@.subrange(0, i as int), self.score_fn(), k);
                lemma_sum_push(self.inputs@.subrange(0, i as int), self.cplx_fn(), k);
            }
            acc = acc + s;
            sum_cplx = sum_cplx + c;
            cw.push(acc);
            i += 1;
        }
        proof {
            assert(self.inputs@.subrange(0, n as int) =~= self.inputs@);
        }
        self.cumulative_weights = cw;
        self.average_complexity = if n == 0 {
            0
        } else {
            sum_cplx / (n as u64)
        };
        proof {
            assert(self.slab_features == p0.slab_features);
            assert(self.slab_feature_groups == p0.slab_feature_groups);
            assert(self.slab_inputs == p0.slab_inputs);
            assert(self.features == p0.features);
            assert(self.feature_groups == p0.feature_groups);
            assert(self.inputs == p0.inputs);
            assert(self.structural()) by {
                assert(self.linkage_ok()) by {
                    assert forall|j: int| 0 <= j < self.features@.len() implies {
                        let g = self.grps()[#[trigger] self.owner_at(j)];
                        g.idcs_start <= j < g.idcs_end
                    } by {
                        assert(self.owner_at(j) == p0.owner_at(j));
                    }
                    assert forall|i: int, j: int|
                        0 <= i < self.feature_groups@.len()
                            && self.grps()[#[trigger] self.feature_groups@[i]].idcs_start <= j
                            < self.grps()[self.feature_groups@[i]].idcs_end implies #[trigger] self.owner_at(
                        j,
                    ) == self.feature_groups@[i] by {
                        assert(self.owner_at(j) == p0.owner_at(j));
                        assert(p0.owner_at(j) == p0.feature_groups@[i]);
                    }
                }
            }
            assert(self.scored()) by {
                assert forall|k: usize|
                    #[trigger] self.live().dom().contains(k) implies self.input_score_ok(k) by {
                    assert(p0.live().dom().contains(k));
                    assert(p0.input_score_ok(k));
                    assert forall|i: int|
                        0 <= i < p0.live()[k].all_features@.len() implies p0.snap_term_fn()(
                        #[trigger] p0.live()[k].all_features@[i],
                    ) == self.snap_term_fn()(p0.live()[k].all_features@[i]) by {}
                    lemma_sum_congruence(
                        p0.live()[k].all_features@,
                        p0.snap_term_fn(),
                        self.snap_term_fn(),
                    );
                }
            }
        }
    }

    /// Remove the given inputs from the pool, skipping the score adjustment
    /// of `should_not_update_key`. Returns the removed values, in order.
    pub fn delete_elements(&mut self, to_delete: Vec<usize>, should_not_update_key: usize) -> (removed: Vec<T>)
        requires
            old(self).structural(),
            old(self).scored_except(should_not_update_key),
            to_delete@.no_duplicates(),
            forall|i: int|
                0 <= i < to_delete@.len() ==> old(self).live().dom().contains(
                    #[trigger] to_delete@[i],
                ) && to_delete@[i] != should_not_update_key,
        ensures
            final (self).structural(),
            final (self).scored_except(should_not_update_key),
            forall|k: usize|
                #[trigger] final (self).live().dom().contains(k) ==> (old(self).live().dom().contains(k) && !to_delete@.contains(k)),
            forall|k: usize|
                #[trigger] old(self).live().dom().contains(k) && !to_delete@.contains(k) ==> final (self).live().dom().contains(k),
            old(self).snapshots_current() ==> final (self).snapshots_current(),
            forall|k: usize|
                #[trigger] final (self).live().dom().contains(k) ==> final (self).live()[k] == (
                Input {
                    score: final (self).live()[k].score,
                    idx_in_pool: final (self).live()[k].idx_in_pool,
                    ..old(self).live()[k]
                }),
            old(self).live().dom().contains(should_not_update_key) ==> final (self).live()[
                should_not_update_key].score == old(self).live()[should_not_update_key].score,
            removed@.len() == to_delete@.len(),
            forall|i: int|
                0 <= i < to_delete@.len() ==> removed@[i] == old(self).live()[(
                #[trigger] to_delete@[i])].data,
            final (self).inputs@.len() == old(self).inputs@.len() - to_delete@.len(),
            final (self).features == old(self).features,
            final (self).feature_groups == old(self).feature_groups,
            final (self).slab_feature_groups == old(self).slab_feature_groups,
            final (self).favored_input == old(self).favored_input,
            final (self).cumulative_weights == old(self).cumulative_weights,
            final (self).average_complexity == old(self).average_complexity,
            final (self).feats().dom() =~= old(self).feats().dom(),
    {
        let ghost p0 = *self;
        let mut removed: Vec<T> = Vec::new();
        let mut i: usize = 0;
        while i < to_delete.len()
            invariant
                0 <= i <= to_delete@.len(),
                to_delete@.no_duplicates(),
                forall|j: int|
                    0 <= j < to_delete@.len() ==> p0.live().dom().contains(#[trigger] to_delete@[j])
                        && to_delete@[j] != should_not_update_key,
                self.structural(),
                self.scored_except(should_not_update_key),
                forall|k: usize|
                    #[trigger] self.live().dom().contains(k) ==> (p0.live().dom().contains(k)
                        && !to_delete@.subrange(0, i as int).contains(k)),
                forall|k: usize|
                    #[trigger] p0.live().dom().contains(k) && !to_delete@.subrange(
                        0,
                        i as int,
                    ).contains(k) ==> self.live().dom().contains(k),
                p0.snapshots_current() ==> self.snapshots_current(),
                forall|k: usize|
                    #[trigger] self.live().dom().contains(k) ==> self.live()[k] == (Input {
                        score: self.live()[k].score,
                        idx_in_pool: self.live()[k].idx_in_pool,
                        ..p0.live()[k]
                    }),
                p0.live().dom().contains(should_not_update_key) ==> self.live()[
                    should_not_update_key].score == p0.live()[should_not_update_key].score,
                removed@.len() == i,
                forall|j: int|
                    0 <= j < i ==> removed@[j] == p0.live()[(#[trigger] to_delete@[j])].data,
                self.inputs@.len() == p0.inputs@.len() - i,
                self.features == p0.features,
                self.feature_groups == p0.feature_groups,
                self.slab_feature_groups == p0.slab_feature_groups,
                self.favored_input == p0.favored_input,
                self.cumulative_weights == p0.cumulative_weights,
                self.average_complexity == p0.average_complexity,
                self.feats().dom() =~= p0.feats().dom(),
                forall|fk: usize|
                    #[trigger] self.feats().dom().contains(fk) ==> (self.feats()[
                        fk].old_multiplicity == self.feats()[fk].inputs@.len() || self.feats()[
                        fk] == p0.feats()[fk]),
                forall|fk: usize|
                    #[trigger] self.feats().dom().contains(fk) ==> {
                        let fnew = self.feats()[fk];
                        let fold = p0.feats()[fk];
                        &&& fnew.key == fold.key
                        &&& fnew.feature == fold.feature
                        &&& fnew.group_key == fold.group_key
                        &&& fnew.least_complexity == fold.least_complexity
                        &&& fnew.least_complex_input == fold.least_complex_input
                        &&& forall|x: usize|
                            fnew.inputs@.contains(x) <==> (fold.inputs@.contains(x)
                                && !to_delete@.subrange(0, i as int).contains(x))
                    },
            decreases to_delete@.len() - i,
        {
            let ghost prefix = to_delete@.subrange(0, i as int);
            let d = to_delete[i];
            proof {
                assert(!prefix.contains(d)) by {
                    if prefix.contains(d) {
                        let a = choose|a: int| 0 <= a < prefix.len() && prefix[a] == d;
                        assert(to_delete@[a] == d);
                        assert(to_delete@[i as int] == d);
                    }
                }
                assert(self.live().dom().contains(d));
            }
            let ghost mid = *self;
            let data = self.delete_one(d, should_not_update_key);
            removed.push(data);
            proof {
                assert forall|fk: usize|
                    #[trigger] self.feats().dom().contains(fk) implies (self.feats()[
                        fk].old_multiplicity == self.feats()[fk].inputs@.len() || self.feats()[
                        fk] == p0.feats()[fk]) by {
                    assert(mid.feats().dom().contains(fk));
                    if mid.feats()[fk].inputs@.contains(d) {
                        assert(self.feats()[fk].old_multiplicity == self.feats()[
                            fk].inputs@.len());
                    } else {
                        assert(self.feats()[fk] == mid.feats()[fk]);
                    }
                }
                assert forall|fk: usize|
                    #[trigger] self.feats().dom().contains(fk) implies {
                    let fnew = self.feats()[fk];
                    let fold = p0.feats()[fk];
                    &&& fnew.key == fold.key
                    &&& fnew.feature == fold.feature
                    &&& fnew.group_key == fold.group_key
                    &&& fnew.least_complexity == fold.least_complexity
                    &&& fnew.least_complex_input == fold.least_complex_input
                    &&& forall|x: usize|
                        fnew.inputs@.contains(x) <==> (fold.inputs@.contains(x)
                            && !to_delete@.subrange(0, i as int + 1).contains(x))
                } by {
                    assert(mid.feats().dom().contains(fk));
                    let ext = to_delete@.subrange(0, i as int + 1);
                    assert(ext =~= prefix.push(d));
                    assert(ext.contains(d)) by {
                        assert(ext[i as int] == d);
                    }
                    assert forall|x: usize|
                        self.feats()[fk].inputs@.contains(x) <==> (p0.feats()[
                            fk].inputs@.contains(x) && !ext.contains(x)) by {
                        assert(self.feats()[fk].inputs@.contains(x) <==> (mid.feats()[
                            fk].inputs@.contains(x) && x != d));
                        if x != d {
                            assert(ext.contains(x) == prefix.contains(x)) by {
                                if ext.contains(x) {
                                    let a = choose|a: int|
                                        0 <= a < ext.len() && ext[a] == x;
                                    if a < prefix.len() {
                                        assert(prefix[a] == x);
                                    }
                                }
                                if prefix.contains(x) {
                                    let a = choose|a: int|
                                        0 <= a < prefix.len() && prefix[a] == x;
                                    assert(ext[a] == x);
                                }
                            }
                        }
                    }
                }
                if p0.snapshots_current() {
                    assert(self.snapshots_current()) by {
                        assert forall|fk: usize|
                            #[trigger] self.feats().dom().contains(fk) implies self.feats()[
                            fk].old_multiplicity == self.feats()[fk].inputs@.len() by {
                            assert(mid.feats().dom().contains(fk));
                            if !mid.feats()[fk].inputs@.contains(d) {
                                assert(self.feats()[fk].old_multiplicity == mid.feats()[
                                    fk].old_multiplicity);
                            }
                        }
                        assert forall|gk: usize|
                            #[trigger] self.grps().dom().contains(gk) implies self.grps()[
                            gk].old_size as int == self.grps()[gk].spec_size() by {}
                    }
                }
                assert(to_delete@.subrange(0, i as int + 1) =~= prefix.push(d));
                assert forall|k: usize|
                    self.live().dom().contains(k) <==> (p0.live().dom().contains(k)
                        && !to_delete@.subrange(0, i as int + 1).contains(k)) by {
                    let ext = to_delete@.subrange(0, i as int + 1);
                    assert(ext.contains(d)) by {
                        assert(ext[i as int] == d);
                    }
                    if k != d {
                        assert(ext.contains(k) == prefix.contains(k)) by {
                            if ext.contains(k) {
                                let a = choose|a: int| 0 <= a < ext.len() && ext[a] == k;
                                if a < prefix.len() {
                                    assert(prefix[a] == k);
                                }
                            }
                            if prefix.contains(k) {
                                let a = choose|a: int| 0 <= a < prefix.len() && prefix[a] == k;
                                assert(ext[a] == k);
                            }
                        }
                    }
                }
            }
            i += 1;
        }
        proof {
            assert(to_delete@.subrange(0, to_delete@.len() as int) =~= to_delete@);
        }
        removed
    }

    /// Find the lowest-scoring input (first one wins on ties), remove it,
    /// updating every surviving input's score, and report the removal.
    /// Find the lowest-scoring input (the first one encountered wins ties),
    /// remove it, updating every surviving input's score, and report the
    /// removal.
    #[verifier::rlimit(100)]
    #[verifier::spinoff_prover]
    pub fn remove_lowest_scoring_input(&mut self) -> (r: Vec<PoolEvent<T>>)
        requires
            old(self).wf(),
            old(self).inputs@.len() >= 1,
        ensures
            final (self).wf(),
            final (self).inputs@.len() == old(self).inputs@.len() - 1,
            final (self).favored_input == old(self).favored_input,
            final (self).features == old(self).features,
            final (self).feature_groups == old(self).feature_groups,
            final (self).slab_feature_groups == old(self).slab_feature_groups,
            final (self).feats().dom() =~= old(self).feats().dom(),
            forall|k2: usize|
                #[trigger] final (self).live().dom().contains(k2) ==> old(
                    self,
                ).live().dom().contains(k2) && final (self).live()[k2] == (Input {
                    score: final (self).live()[k2].score,
                    idx_in_pool: final (self).live()[k2].idx_in_pool,
                    ..old(self).live()[k2]
                }),
            r@.len() == 1,
            exists|k: usize|
                {
                    &&& #[trigger] old(self).live().dom().contains(k)
                    &&& r@[0] == PoolEvent::Remove(old(self).live()[k].data)
                    &&& final (self).live().dom() =~= old(self).live().dom().remove(k)
                    &&& forall|j: usize|
                        #[trigger] old(self).live().dom().contains(j) ==> old(self).live()[k].score
                            <= old(self).live()[j].score
                    &&& forall|j: usize|
                        #[trigger] old(self).live().dom().contains(j) && old(self).live()[
                            j].idx_in_pool < old(self).live()[k].idx_in_pool ==> old(self).live()[
                            j].score > old(self).live()[k].score
                    &&& forall|fk: usize|
                        #[trigger] final (self).feats().dom().contains(fk) ==> {
                            let fnew = final (self).feats()[fk];
                            let fold = old(self).feats()[fk];
                            &&& fnew.key == fold.key
                            &&& fnew.feature == fold.feature
                            &&& fnew.group_key == fold.group_key
                            &&& fnew.least_complexity == fold.least_complexity
                            &&& fnew.least_complex_input == fold.least_complex_input
                            &&& forall|x: usize|
                                fnew.inputs@.contains(x) <==> (fold.inputs@.contains(x) && x
                                    != k)
                            &&& fnew.inputs@.len() as int == fold.inputs@.len() - (
                            if fold.inputs@.contains(k) {
                                1int
                            } else {
                                0int
                            })
                            &&& (!fold.inputs@.contains(k) ==> fnew == fold)
                        }
                },
    {
        let ghost p0 = *self;
        let mut pick_idx: usize = 0;
        let mut pick_key: usize = self.inputs[0];
        let mut pick_score: u64 = self.slab_inputs.get(pick_key).score;
        let mut i: usize = 1;
        while i < self.inputs.len()
            invariant
                1 <= i <= self.inputs@.len(),
                *self == p0,
                p0.structural(),
                p0.inputs@.len() >= 1,
                pick_idx < i,
                pick_key == p0.inputs@[pick_idx as int],
                p0.live().dom().contains(pick_key),
                pick_score == p0.live()[pick_key].score,
                forall|j: int|
                    0 <= j < i ==> pick_score <= p0.live()[#[trigger] p0.inputs@[j]].score,
                forall|j: int|
                    0 <= j < pick_idx ==> pick_score < p0.live()[#[trigger] p0.inputs@[j]].score,
            decreases self.inputs@.len() - i,
        {
            let k = self.inputs[i];
            let s = self.slab_inputs.get(k).score;
            if s < pick_score {
                pick_idx = i;
                pick_key = k;
                pick_score = s;
            }
            i += 1;
        }
        proof {
            assert forall|j: usize|
                #[trigger] p0.live().dom().contains(j) implies p0.live()[pick_key].score
                <= p0.live()[j].score by {
                let idx = p0.live()[j].idx_in_pool as int;
                assert(p0.inputs@[idx] == j);
            }
            assert forall|j: usize|
                #[trigger] p0.live().dom().contains(j) && p0.live()[j].idx_in_pool < p0.live()[
                    pick_key].idx_in_pool implies p0.live()[j].score > p0.live()[
                pick_key].score by {
                let idx = p0.live()[j].idx_in_pool as int;
                assert(p0.inputs@[idx] == j);
                assert(p0.live()[pick_key].idx_in_pool == pick_idx);
            }
            p0.slab_inputs.lemma_key_bound();
        }
        let ghost mid = *self;
        let deleted_value = {
            let record_data = self.delete_one(pick_key, usize::MAX);
            record_data
        };
        proof {
            self.slab_inputs.lemma_key_bound();
            assert forall|k: usize|
                #[trigger] self.live().dom().contains(k) implies self.input_score_ok(k) by {
                assert(k != usize::MAX);
            }
            assert(self.admission_ok()) by {
                assert forall|k: usize|
                    #[trigger] self.live().dom().contains(k) implies self.live()[
                    k].least_complex_for_features@.len() > 0 by {
                    assert(p0.live().dom().contains(k));
                    assert(self.live()[k].least_complex_for_features@ == p0.live()[
                        k].least_complex_for_features@);
                }
            }
            assert(self.snapshots_current()) by {
                assert forall|fk: usize|
                    #[trigger] self.feats().dom().contains(fk) implies self.feats()[
                    fk].old_multiplicity == self.feats()[fk].inputs@.len() by {
                    assert(mid.feats().dom().contains(fk));
                    if !mid.feats()[fk].inputs@.contains(pick_key) {
                        assert(self.feats()[fk] == mid.feats()[fk]);
                    }
                }
                assert forall|gk: usize|
                    #[trigger] self.grps().dom().contains(gk) implies self.grps()[
                    gk].old_size as int == self.grps()[gk].spec_size() by {}
            }
        }
        self.update_stats();
        let mut actions: Vec<PoolEvent<T>> = Vec::new();
        actions.push(PoolEvent::Remove(deleted_value));
        proof {
            assert(p0.live().dom().contains(pick_key));
            assert(deleted_value == p0.live()[pick_key].data);
            assert(actions@[0] == PoolEvent::Remove(p0.live()[pick_key].data));
            assert(self.live().dom() =~= p0.live().dom().remove(pick_key));
        }
        actions
    }
}

/// Erasing the payload respects the feature order: features of a smaller
/// group sort before features of a larger group.
pub proof fn lemma_erase_order(x: u64, y: u64)
    ensures
        (x & FEATURE_GROUP_MASK) < (y & FEATURE_GROUP_MASK) ==> x < y,
        x <= y ==> (x & FEATURE_GROUP_MASK) <= (y & FEATURE_GROUP_MASK),
{
    assert((x & 0xffff_ffff_ffff_ff00) < (y & 0xffff_ffff_ffff_ff00) ==> x < y) by (bit_vector);
    assert(x <= y ==> (x & 0xffff_ffff_ffff_ff00) <= (y & 0xffff_ffff_ffff_ff00))
        by (bit_vector);
}

/// Adjacent group ranges chain into a global ordering: an earlier group's
/// range ends no later than a later group's begins.
pub proof fn lemma_group_ranges_ordered(
    gv: Seq<usize>,
    gm: Map<usize, FeatureGroup>,
    i: int,
    j: int,
)
    requires
        forall|a: int| 0 <= a < gv.len() ==> gm.dom().contains(#[trigger] gv[a]),
        forall|a: int|
            0 <= a < gv.len() - 1 ==> gm[#[trigger] gv[a]].idcs_end == gm[gv[a + 1]].idcs_start,
        forall|a: int| 0 <= a < gv.len() ==> gm[#[trigger] gv[a]].idcs_start <= gm[gv[a]].idcs_end,
        0 <= i < j < gv.len(),
    ensures
        gm[gv[i]].idcs_end <= gm[gv[j]].idcs_start,
    decreases j - i,
{
    if i + 1 == j {
    } else {
        lemma_group_ranges_ordered(gv, gm, i, j - 1);
        assert(gm[gv[j - 1]].idcs_end == gm[gv[j]].idcs_start);
    }
}

/// Insert an entry into the sorted features-iteration vector, returning the
/// insertion index: the entry goes before the first element it sorts before.
pub fn sorted_insert(vec: &mut Vec<FeatureForIteration>, element: FeatureForIteration) -> (idx:
    usize)
    ensures
        idx <= old(vec)@.len(),
        final (vec)@ == old(vec)@.insert(idx as int, element),
        forall|i: int| 0 <= i < idx ==> !(element.feature.bits < old(vec)@[i].feature.bits),
        idx < old(vec)@.len() ==> element.feature.bits < old(vec)@[idx as int].feature.bits,
    {
    let mut insertion: usize = 0;
    let n = vec.len();
    while insertion < n && !(element.feature.bits < vec[insertion].feature.bits)
        invariant
            0 <= insertion <= n,
            n == vec@.len(),
            forall|i: int| 0 <= i < insertion ==> !(element.feature.bits < vec@[i].feature.bits),
        decreases n - insertion,
    {
        insertion += 1;
    }
    vec.insert(insertion, element);
    insertion
}

/// Binary search for a feature value known to be present in the sorted
/// features-iteration vector.
fn binary_search_feature(features: &Vec<FeatureForIteration>, bits: u64) -> (r: usize)
    requires
        forall|i: int, j: int|
            0 <= i < j < features@.len() ==> (#[trigger] features@[i]).feature.bits < (
            #[trigger] features@[j]).feature.bits,
        exists|j: int| 0 <= j < features@.len() && (#[trigger] features@[j]).feature.bits == bits,
    ensures
        r < features@.len(),
        features@[r as int].feature.bits == bits,
{
    let mut lo: usize = 0;
    let mut hi: usize = features.len();
    while lo < hi
        invariant
            0 <= lo <= hi <= features@.len(),
            forall|i: int| 0 <= i < lo ==> (#[trigger] features@[i]).feature.bits < bits,
            forall|i: int|
                hi <= i < features@.len() ==> (#[trigger] features@[i]).feature.bits > bits,
            exists|j: int|
                0 <= j < features@.len() && (#[trigger] features@[j]).feature.bits == bits,
            forall|i: int, j: int|
                0 <= i < j < features@.len() ==> (#[trigger] features@[i]).feature.bits < (
                #[trigger] features@[j]).feature.bits,
        decreases hi - lo,
    {
        let mid = lo + (hi - lo) / 2;
        if features[mid].feature.bits == bits {
            return mid;
        } else if features[mid].feature.bits < bits {
            lo = mid + 1;
        } else {
            hi = mid;
        }
    }
    proof {
        let j = choose|j: int|
            0 <= j < features@.len() && (#[trigger] features@[j]).feature.bits == bits;
        assert(false);
    }
    unreached()
}

/// Binary search the groups vector for a group id. Returns whether it was
/// found, and either its index or the sorted insertion position.
fn binary_search_group(
    feature_groups: &Vec<usize>,
    slab_feature_groups: &Slab<FeatureGroup>,
    gb: u64,
) -> (res: (bool, usize))
    requires
        forall|i: int|
            0 <= i < feature_groups@.len() ==> slab_feature_groups@.dom().contains(
                #[trigger] feature_groups@[i],
            ),
        forall|i: int, j: int|
            0 <= i < j < feature_groups@.len()
                ==> slab_feature_groups@[#[trigger] feature_groups@[i]].id.id.bits
                < slab_feature_groups@[#[trigger] feature_groups@[j]].id.id.bits,
    ensures
        res.0 ==> res.1 < feature_groups@.len() && slab_feature_groups@[feature_groups@[
            res.1 as int]].id.id.bits == gb,
        !res.0 ==> {
            &&& res.1 <= feature_groups@.len()
            &&& forall|i: int|
                0 <= i < res.1 ==> slab_feature_groups@[#[trigger] feature_groups@[i]].id.id.bits
                    < gb
            &&& forall|i: int|
                res.1 <= i < feature_groups@.len()
                    ==> slab_feature_groups@[#[trigger] feature_groups@[i]].id.id.bits > gb
        },
{
    let mut lo: usize = 0;
    let mut hi: usize = feature_groups.len();
    while lo < hi
        invariant
            0 <= lo <= hi <= feature_groups@.len(),
            forall|i: int|
                0 <= i < feature_groups@.len() ==> slab_feature_groups@.dom().contains(
                    #[trigger] feature_groups@[i],
                ),
            forall|i: int, j: int|
                0 <= i < j < feature_groups@.len()
                    ==> slab_feature_groups@[#[trigger] feature_groups@[i]].id.id.bits
                    < slab_feature_groups@[#[trigger] feature_groups@[j]].id.id.bits,
            forall|i: int|
                0 <= i < lo ==> slab_feature_groups@[#[trigger] feature_groups@[i]].id.id.bits
                    < gb,
            forall|i: int|
                hi <= i < feature_groups@.len()
                    ==> slab_feature_groups@[#[trigger] feature_groups@[i]].id.id.bits > gb,
        decreases hi - lo,
    {
        let mid = lo + (hi - lo) / 2;
        let key = feature_groups[mid];
        let id_bits = slab_feature_groups.get(key).id.id.bits;
        if id_bits == gb {
            return (true, mid);
        } else if id_bits < gb {
            lo = mid + 1;
        } else {
            hi = mid;
        }
    }
    (false, lo)
}

impl<T> Pool<T> {
    /// Shift the ranges of all groups at vector positions `from` onward by
    /// one, after an insertion into the features-iteration vector displaced
    /// them.
    fn shift_groups_after(&mut self, from: usize)
        requires
            old(self).slab_feature_groups.wf(),
            forall|i: int|
                0 <= i < old(self).feature_groups@.len() ==> old(self).grps().dom().contains(
                    #[trigger] old(self).feature_groups@[i],
                ),
            forall|i: int, j: int|
                0 <= i < j < old(self).feature_groups@.len() ==> old(self).feature_groups@[i]
                    != old(self).feature_groups@[j],
            forall|i: int|
                from <= i < old(self).feature_groups@.len() ==> old(self).grps()[
                    #[trigger] old(self).feature_groups@[i]].idcs_end < usize::MAX && old(self).grps()[old(self).feature_groups@[i]].idcs_start <= old(self).grps()[old(self).feature_groups@[i]].idcs_end,
        ensures
            final (self).slab_feature_groups.wf(),
            final (self).grps().dom() =~= old(self).grps().dom(),
            forall|i: int|
                0 <= i < from && i < old(self).feature_groups@.len() ==> final (self).grps()[
                    #[trigger] old(self).feature_groups@[i]] == old(self).grps()[old(self).feature_groups@[i]],
            forall|i: int|
                from <= i < old(self).feature_groups@.len() ==> final (self).grps()[
                    #[trigger] old(self).feature_groups@[i]] == (FeatureGroup {
                    idcs_start: (old(self).grps()[old(self).feature_groups@[i]].idcs_start
                        + 1) as usize,
                    idcs_end: (old(self).grps()[old(self).feature_groups@[i]].idcs_end
                        + 1) as usize,
                    ..old(self).grps()[old(self).feature_groups@[i]]
                }),
            *final (self) == (Pool {
                slab_feature_groups: final (self).slab_feature_groups,
                ..*old(self)
            }),
    {
        let ghost p0 = *self;
        let n = self.feature_groups.len();
        let mut i: usize = if from < n {
            from
        } else {
            n
        };
        while i < n
            invariant
                i <= n,
                from <= n ==> from <= i,
                from > n ==> i == n,
                n == p0.feature_groups@.len(),
                self.slab_feature_groups.wf(),
                *self == (Pool { slab_feature_groups: self.slab_feature_groups, ..p0 }),
                forall|j: int|
                    0 <= j < n ==> p0.grps().dom().contains(#[trigger] p0.feature_groups@[j]),
                forall|a: int, b: int|
                    0 <= a < b < n ==> p0.feature_groups@[a] != p0.feature_groups@[b],
                forall|j: int|
                    from <= j < n ==> p0.grps()[#[trigger] p0.feature_groups@[j]].idcs_end
                        < usize::MAX && p0.grps()[p0.feature_groups@[j]].idcs_start <= p0.grps()[
                        p0.feature_groups@[j]].idcs_end,
                self.grps().dom() =~= p0.grps().dom(),
                forall|j: int|
                    0 <= j < from ==> self.grps()[#[trigger] p0.feature_groups@[j]] == p0.grps()[
                        p0.feature_groups@[j]],
                forall|j: int|
                    i <= j < n ==> self.grps()[#[trigger] p0.feature_groups@[j]] == p0.grps()[
                        p0.feature_groups@[j]],
                forall|j: int|
                    from <= j < i ==> self.grps()[#[trigger] p0.feature_groups@[j]] == (
                    FeatureGroup {
                        idcs_start: (p0.grps()[p0.feature_groups@[j]].idcs_start + 1) as usize,
                        idcs_end: (p0.grps()[p0.feature_groups@[j]].idcs_end + 1) as usize,
                        ..p0.grps()[p0.feature_groups@[j]]
                    }),
            decreases n - i,
        {
            let gk = self.feature_groups[i];
            let g = self.slab_feature_groups.get_mut(gk);
            let s0 = g.idcs_start;
            let e0 = g.idcs_end;
            proof {
                assert(e0 < usize::MAX && s0 <= e0);
            }
            g.idcs_start = s0 + 1;
            g.idcs_end = e0 + 1;
            i += 1;
        }
    }
}

/// The exact relation between a pool and its successor after registering one
/// new feature `f` with key `f_key` in group `gk`, inserted at position `idx`
/// of the features-iteration vector, with `gpos` the group's position in the
/// groups vector (`found` says whether the group already existed). The new
/// feature's sole exhibitor and witness is the input `ek` of complexity
/// `cplx`.
pub open spec fn inserted_shape<T>(
    p0: Pool<T>,
    p1: Pool<T>,
    f: Feature,
    f_key: usize,
    gk: usize,
    ek: usize,
    cplx: u64,
    idx: int,
    gpos: int,
    found: bool,
) -> bool {
    &&& 0 <= idx <= p0.features@.len()
    &&& p1.features@ == p0.features@.insert(idx, FeatureForIteration { key: f_key, feature: f })
    &&& !p0.feats().dom().contains(f_key)
    &&& p1.feats() == p0.feats().insert(
        f_key,
        (FeatureInPool {
            key: f_key,
            feature: f,
            group_key: gk,
            inputs: p1.feats()[f_key].inputs,
            least_complex_input: ek,
            least_complexity: cplx,
            old_multiplicity: 1,
        }),
    )
    &&& p1.feats()[f_key].inputs@ == Seq::<usize>::empty().push(ek)
    &&& forall|i: int| 0 <= i < idx ==> (#[trigger] p0.features@[i]).feature.bits < f.bits
    &&& forall|i: int|
        idx <= i < p0.features@.len() ==> (#[trigger] p0.features@[i]).feature.bits > f.bits
    &&& (found ==> {
        &&& 0 <= gpos < p0.feature_groups@.len()
        &&& gk == p0.feature_groups@[gpos]
        &&& p1.feature_groups@ == p0.feature_groups@
        &&& p0.grps()[gk].id.id.bits == f.spec_group_bits()
        &&& p1.grps().dom() =~= p0.grps().dom()
        &&& forall|i: int|
            0 <= i < gpos ==> p1.grps()[#[trigger] p0.feature_groups@[i]] == p0.grps()[
                p0.feature_groups@[i]]
        &&& p1.grps()[gk] == (FeatureGroup {
            idcs_end: (p0.grps()[gk].idcs_end + 1) as usize,
            ..p0.grps()[gk]
        })
        &&& forall|i: int|
            gpos < i < p0.feature_groups@.len() ==> p1.grps()[#[trigger] p0.feature_groups@[i]]
                == (FeatureGroup {
                idcs_start: (p0.grps()[p0.feature_groups@[i]].idcs_start + 1) as usize,
                idcs_end: (p0.grps()[p0.feature_groups@[i]].idcs_end + 1) as usize,
                ..p0.grps()[p0.feature_groups@[i]]
            })
        &&& p0.grps()[gk].idcs_start <= idx <= p0.grps()[gk].idcs_end
    })
    &&& (!found ==> {
        &&& 0 <= gpos <= p0.feature_groups@.len()
        &&& !p0.grps().dom().contains(gk)
        &&& p1.grps().dom() =~= p0.grps().dom().insert(gk)
        &&& p1.feature_groups@ == p0.feature_groups@.insert(gpos, gk)
        &&& p1.grps()[gk] == (FeatureGroup {
            id: FeatureGroupId { id: Feature { bits: f.spec_group_bits() } },
            idcs_start: idx as usize,
            idcs_end: (idx + 1) as usize,
            old_size: 1,
        })
        &&& forall|i: int|
            0 <= i < gpos ==> p1.grps()[#[trigger] p0.feature_groups@[i]] == p0.grps()[
                p0.feature_groups@[i]] && p0.grps()[p0.feature_groups@[i]].id.id.bits
                < f.spec_group_bits()
        &&& forall|i: int|
            gpos <= i < p0.feature_groups@.len() ==> p1.grps()[#[trigger] p0.feature_groups@[i]]
                == (FeatureGroup {
                idcs_start: (p0.grps()[p0.feature_groups@[i]].idcs_start + 1) as usize,
                idcs_end: (p0.grps()[p0.feature_groups@[i]].idcs_end + 1) as usize,
                ..p0.grps()[p0.feature_groups@[i]]
            }) && p0.grps()[p0.feature_groups@[i]].id.id.bits > f.spec_group_bits()
        &&& idx == (if gpos == 0 {
            0int
        } else {
            p0.grps()[p0.feature_groups@[gpos - 1]].idcs_end as int
        })
    })
    &&& p1.live().dom() =~= p0.live().dom()
    &&& p0.live().dom().contains(ek)
    &&& forall|k: usize|
        #[trigger] p1.live().dom().contains(k) && k != ek ==> p1.live()[k] == p0.live()[k]
    &&& p1.live()[ek] == (Input {
        all_features: p1.live()[ek].all_features,
        least_complex_for_features: p1.live()[ek].least_complex_for_features,
        ..p0.live()[ek]
    })
    &&& p1.live()[ek].all_features@ == p0.live()[ek].all_features@.push(f_key)
    &&& p1.live()[ek].least_complex_for_features@ == p0.live()[
        ek].least_complex_for_features@.push(f_key)
    &&& cplx == p0.live()[ek].complexity
    &&& p1.inputs == p0.inputs
    &&& p1.favored_input == p0.favored_input
    &&& p1.cumulative_weights == p0.cumulative_weights
    &&& p1.average_complexity == p0.average_complexity
    &&& p0.features@.len() < MAX_POOL_FEATURES
}

/// After registering a new feature, the features-iteration vector is again
/// sorted and mirrors the feature arena.
#[verifier::rlimit(100)]
#[verifier::spinoff_prover]
proof fn lemma_insert_features_vec<T>(
    p0: Pool<T>,
    p1: Pool<T>,
    f: Feature,
    f_key: usize,
    gk: usize,
    ek: usize,
    cplx: u64,
    idx: int,
    gpos: int,
    found: bool,
)
    requires
        p0.features_vec_ok(),
        inserted_shape(p0, p1, f, f_key, gk, ek, cplx, idx, gpos, found),
    ensures
        p1.features_vec_ok(),
{
    assert forall|i: int| 0 <= i < p1.features@.len() implies {
        &&& p1.feats().dom().contains((#[trigger] p1.features@[i]).key)
        &&& p1.feats()[p1.features@[i].key].key == p1.features@[i].key
        &&& p1.feats()[p1.features@[i].key].feature == p1.features@[i].feature
    } by {
        if i < idx {
            assert(p1.features@[i] == p0.features@[i]);
            assert(p0.feats().dom().contains(p0.features@[i].key));
        } else if i == idx {
        } else {
            assert(p1.features@[i] == p0.features@[i - 1]);
            assert(p0.feats().dom().contains(p0.features@[i - 1].key));
        }
    }
    assert forall|i: int, j: int| 0 <= i < j < p1.features@.len() implies (
    #[trigger] p1.features@[i]).feature.bits < (#[trigger] p1.features@[j]).feature.bits by {
        if i < idx {
            assert(p1.features@[i] == p0.features@[i]);
        } else if i > idx {
            assert(p1.features@[i] == p0.features@[i - 1]);
        }
        if j < idx {
            assert(p1.features@[j] == p0.features@[j]);
        } else if j > idx {
            assert(p1.features@[j] == p0.features@[j - 1]);
        }
    }
    assert forall|fk: usize| #[trigger] p1.feats().dom().contains(fk) implies exists|i: int|
        0 <= i < p1.features@.len() && (#[trigger] p1.features@[i]).key == fk by {
        if fk == f_key {
            assert(p1.features@[idx].key == fk);
        } else {
            assert(p0.feats().dom().contains(fk));
            let i0 = choose|i0: int|
                0 <= i0 < p0.features@.len() && (#[trigger] p0.features@[i0]).key == fk;
            if i0 < idx {
                assert(p1.features@[i0].key == fk);
            } else {
                assert(p1.features@[i0 + 1].key == fk);
            }
        }
    }
}

/// After registering a new feature, the groups vector invariants hold again.
proof fn lemma_insert_groups_vec<T>(
    p0: Pool<T>,
    p1: Pool<T>,
    f: Feature,
    f_key: usize,
    gk: usize,
    ek: usize,
    cplx: u64,
    idx: int,
    gpos: int,
    found: bool,
)
    requires
        p0.structural(),
        inserted_shape(p0, p1, f, f_key, gk, ek, cplx, idx, gpos, found),
    ensures
        p1.groups_vec_ok(),
{
    if found {
        lemma_insert_groups_vec_found(p0, p1, f, f_key, gk, ek, cplx, idx, gpos);
    } else {
        lemma_insert_groups_vec_fresh(p0, p1, f, f_key, gk, ek, cplx, idx, gpos);
    }
}

/// Groups vector invariants, extension of an existing group.
#[verifier::rlimit(100)]
#[verifier::spinoff_prover]
proof fn lemma_insert_groups_vec_found<T>(
    p0: Pool<T>,
    p1: Pool<T>,
    f: Feature,
    f_key: usize,
    gk: usize,
    ek: usize,
    cplx: u64,
    idx: int,
    gpos: int,
)
    requires
        p0.features_vec_ok(),
        p0.groups_vec_ok(),
        p0.linkage_ok(),
        inserted_shape(p0, p1, f, f_key, gk, ek, cplx, idx, gpos, true),
    ensures
        p1.groups_vec_ok(),
{
    let gv0 = p0.feature_groups@;
    let gv1 = p1.feature_groups@;
    let n0 = gv0.len() as int;
    if true {
        assert(gv1 == gv0);
        assert forall|i: int| 0 <= i < n0 implies p1.grps().dom().contains(
            #[trigger] gv1[i],
        ) by {}
        assert forall|i: int, j: int| 0 <= i < j < n0 implies p1.grps()[
            #[trigger] gv1[i]].id.id.bits < p1.grps()[#[trigger] gv1[j]].id.id.bits by {
            assert(gv0[i] != gv0[j]);
            assert(p1.grps()[gv0[i]].id == p0.grps()[gv0[i]].id);
            assert(p1.grps()[gv0[j]].id == p0.grps()[gv0[j]].id);
        }
        assert forall|i: int| 0 <= i < n0 implies {
            let g = p1.grps()[#[trigger] gv1[i]];
            g.idcs_start < g.idcs_end && g.idcs_end <= p1.features@.len()
        } by {
            assert(gv0[i] == gk ==> i == gpos);
        }
        assert forall|i: int| 0 <= i < n0 - 1 implies p1.grps()[#[trigger] gv1[i]].idcs_end
            == p1.grps()[gv1[i + 1]].idcs_start by {
            assert(gv0[i] == gk ==> i == gpos);
            assert(gv0[i + 1] == gk ==> i + 1 == gpos);
        }
        assert forall|g2: usize| #[trigger] p1.grps().dom().contains(g2) implies exists|i: int|
            0 <= i < gv1.len() && (#[trigger] gv1[i]) == g2 by {
            assert(p0.grps().dom().contains(g2));
        }
        if n0 > 0 {
            assert(p1.grps()[gv1[0]].idcs_start == 0) by {
                assert(gv0[0] == gk ==> gpos == 0);
                if gpos == 0 {
                    assert(p1.grps()[gk].idcs_start == p0.grps()[gk].idcs_start);
                }
            }
            assert(p1.grps()[gv1[n0 - 1]].idcs_end == p1.features@.len()) by {
                assert(gv0[n0 - 1] == gk ==> gpos == n0 - 1);
            }
        }
        assert forall|g2: usize| #[trigger] p1.grps().dom().contains(g2) implies 1 <= p1.grps()[
            g2].old_size <= MAX_POOL_FEATURES by {
            assert(p0.grps().dom().contains(g2));
            let i2 = choose|i2: int| 0 <= i2 < n0 && (#[trigger] gv0[i2]) == g2;
            assert(p1.grps()[g2].old_size == p0.grps()[g2].old_size);
        }
    }
}

/// Groups vector invariants, creation of a new group: ordering and ranges.
#[verifier::rlimit(100)]
#[verifier::spinoff_prover]
proof fn lemma_insert_groups_vec_fresh_a<T>(
    p0: Pool<T>,
    p1: Pool<T>,
    f: Feature,
    f_key: usize,
    gk: usize,
    ek: usize,
    cplx: u64,
    idx: int,
    gpos: int,
)
    requires
        p0.features_vec_ok(),
        p0.groups_vec_ok(),
        p0.linkage_ok(),
        inserted_shape(p0, p1, f, f_key, gk, ek, cplx, idx, gpos, false),
    ensures
        forall|i: int|
            0 <= i < p1.feature_groups@.len() ==> p1.grps().dom().contains(
                #[trigger] p1.feature_groups@[i],
            ),
        forall|i: int, j: int|
            0 <= i < j < p1.feature_groups@.len()
                ==> p1.grps()[#[trigger] p1.feature_groups@[i]].id.id.bits < p1.grps()[
                #[trigger] p1.feature_groups@[j]].id.id.bits,
        forall|i: int|
            0 <= i < p1.feature_groups@.len() ==> {
                let g = p1.grps()[#[trigger] p1.feature_groups@[i]];
                g.idcs_start < g.idcs_end && g.idcs_end <= p1.features@.len()
            },
        forall|i: int|
            0 <= i < p1.feature_groups@.len() - 1 ==> p1.grps()[
                #[trigger] p1.feature_groups@[i]].idcs_end == p1.grps()[p1.feature_groups@[i
                + 1]].idcs_start,
{
    let gv0 = p0.feature_groups@;
    let gv1 = p1.feature_groups@;
    let n0 = gv0.len() as int;
    assert(gv1 == gv0.insert(gpos, gk));
    assert forall|i: int| 0 <= i < gv1.len() implies #[trigger] gv1[i] == (if i < gpos {
        gv0[i]
    } else if i == gpos {
        gk
    } else {
        gv0[i - 1]
    }) by {}
    assert forall|i: int| 0 <= i < gv1.len() - 1 implies p1.grps()[#[trigger] gv1[i]].idcs_end
        == p1.grps()[gv1[i + 1]].idcs_start by {
        if i == gpos - 1 {
            assert(gv1[i] == gv0[i] && gv1[i + 1] == gk);
        } else if i == gpos {
            assert(gv1[i + 1] == gv0[i]);
            assert(p0.grps()[gv0[gpos]].idcs_start == idx) by {
                if gpos == 0 {
                    assert(p0.grps()[gv0[0]].idcs_start == 0);
                } else {
                    assert(p0.grps()[gv0[gpos - 1]].idcs_end == p0.grps()[gv0[gpos]].idcs_start);
                }
            }
        }
    }
}

/// Groups vector invariants, creation of a new group: the remaining clauses.
#[verifier::rlimit(100)]
#[verifier::spinoff_prover]
proof fn lemma_insert_groups_vec_fresh<T>(
    p0: Pool<T>,
    p1: Pool<T>,
    f: Feature,
    f_key: usize,
    gk: usize,
    ek: usize,
    cplx: u64,
    idx: int,
    gpos: int,
)
    requires
        p0.features_vec_ok(),
        p0.groups_vec_ok(),
        p0.linkage_ok(),
        inserted_shape(p0, p1, f, f_key, gk, ek, cplx, idx, gpos, false),
    ensures
        p1.groups_vec_ok(),
{
    lemma_insert_groups_vec_fresh_a(p0, p1, f, f_key, gk, ek, cplx, idx, gpos);
    let gv0 = p0.feature_groups@;
    let gv1 = p1.feature_groups@;
    let n0 = gv0.len() as int;
    assert(gv1 == gv0.insert(gpos, gk));
    assert forall|i: int| 0 <= i < gv1.len() implies #[trigger] gv1[i] == (if i < gpos {
        gv0[i]
    } else if i == gpos {
        gk
    } else {
        gv0[i - 1]
    }) by {}
    assert forall|g2: usize| #[trigger] p1.grps().dom().contains(g2) implies exists|i: int|
        0 <= i < gv1.len() && (#[trigger] gv1[i]) == g2 by {
        if g2 == gk {
            assert(gv1[gpos] == gk);
        } else {
            assert(p0.grps().dom().contains(g2));
            let i0 = choose|i0: int| 0 <= i0 < n0 && (#[trigger] gv0[i0]) == g2;
            if i0 < gpos {
                assert(gv1[i0] == g2);
            } else {
                assert(gv1[i0 + 1] == g2);
            }
        }
    }
    if gv1.len() > 0 {
        assert(p1.grps()[gv1[0]].idcs_start == 0) by {
            if gpos == 0 {
                assert(idx == 0);
            } else {
                assert(gv1[0] == gv0[0]);
            }
        }
        assert(p1.grps()[gv1[gv1.len() - 1]].idcs_end == p1.features@.len()) by {
            if gpos == n0 {
                assert(gv1[gv1.len() - 1] == gk);
                assert(idx == p0.features@.len()) by {
                    if n0 == 0 {
                        assert(p0.features@.len() == 0) by {
                            if p0.features@.len() > 0 {
                                assert(p0.grps().dom().contains(p0.owner_at(0)));
                            }
                        }
                    } else {
                        assert(p0.grps()[gv0[n0 - 1]].idcs_end == p0.features@.len());
                    }
                }
            } else {
                assert(gv1[gv1.len() - 1] == gv0[n0 - 1]);
            }
        }
    }
    assert forall|g2: usize| #[trigger] p1.grps().dom().contains(g2) implies 1 <= p1.grps()[
        g2].old_size <= MAX_POOL_FEATURES by {
        if g2 != gk {
            assert(p0.grps().dom().contains(g2));
            let i2 = choose|i2: int| 0 <= i2 < n0 && (#[trigger] gv0[i2]) == g2;
            assert(p1.grps()[g2].old_size == p0.grps()[g2].old_size);
        }
    }
}

/// Linkage invariants after extending an existing group.
#[verifier::rlimit(100)]
#[verifier::spinoff_prover]
proof fn lemma_insert_linkage_found<T>(
    p0: Pool<T>,
    p1: Pool<T>,
    f: Feature,
    f_key: usize,
    gk: usize,
    ek: usize,
    cplx: u64,
    idx: int,
    gpos: int,
)
    requires
        p0.features_vec_ok(),
        p0.groups_vec_ok(),
        p0.linkage_ok(),
        inserted_shape(p0, p1, f, f_key, gk, ek, cplx, idx, gpos, true),
    ensures
        p1.linkage_ok(),
{
    let gv0 = p0.feature_groups@;
    let n0 = gv0.len() as int;
    let s = p0.grps()[gk].idcs_start as int;
    let e = p0.grps()[gk].idcs_end as int;
    assert forall|a: int, b: int|
        0 <= a < n0 && 0 <= b < n0 && gv0[a] == gv0[b] implies a == b by {
        if a < b {
            assert(p0.grps()[gv0[a]].id.id.bits < p0.grps()[gv0[b]].id.id.bits);
        } else if b < a {
            assert(p0.grps()[gv0[b]].id.id.bits < p0.grps()[gv0[a]].id.id.bits);
        }
    }
    assert forall|fk: usize| #[trigger] p1.feats().dom().contains(fk) implies {
        &&& p1.grps().dom().contains(p1.feats()[fk].group_key)
        &&& p1.grps()[p1.feats()[fk].group_key].id.id.bits == p1.feats()[
        fk].feature.spec_group_bits()
    } by {
        if fk == f_key {
            assert(p1.grps()[gk].id == p0.grps()[gk].id);
        } else {
            assert(p0.feats().dom().contains(fk));
            let g2 = p0.feats()[fk].group_key;
            let i2 = choose|i2: int| 0 <= i2 < n0 && (#[trigger] gv0[i2]) == g2;
            assert(p1.grps()[g2].id == p0.grps()[g2].id);
        }
    }
    assert forall|j: int| 0 <= j < p1.features@.len() implies {
        let g = p1.grps()[#[trigger] p1.owner_at(j)];
        g.idcs_start <= j < g.idcs_end
    } by {
        if j == idx {
            assert(p1.features@[j].key == f_key);
            assert(p1.owner_at(j) == gk);
            assert(p1.grps()[gk].idcs_start <= j < p1.grps()[gk].idcs_end);
        } else {
            let jo = if j < idx {
                j
            } else {
                j - 1
            };
            assert(p1.features@[j] == p0.features@[jo]);
            assert(p1.owner_at(j) == p0.owner_at(jo));
            let ok = p0.owner_at(jo);
            let i2 = choose|i2: int| 0 <= i2 < n0 && (#[trigger] gv0[i2]) == ok;
            assert(p0.grps()[ok].idcs_start <= jo < p0.grps()[ok].idcs_end);
            if i2 < gpos {
                lemma_group_ranges_ordered(gv0, p0.grps(), i2, gpos);
                assert(jo < s <= idx);
                assert(p1.grps()[ok] == p0.grps()[ok]);
            } else if i2 == gpos {
                assert(ok == gk);
                assert(p1.grps()[gk].idcs_start == s && p1.grps()[gk].idcs_end == e + 1);
            } else {
                lemma_group_ranges_ordered(gv0, p0.grps(), gpos, i2);
                assert(jo >= e >= idx);
                assert(j == jo + 1);
            }
        }
    }
    assert forall|i: int, j: int|
        0 <= i < p1.feature_groups@.len()
            && p1.grps()[#[trigger] p1.feature_groups@[i]].idcs_start <= j < p1.grps()[
            p1.feature_groups@[i]].idcs_end implies #[trigger] p1.owner_at(j)
        == p1.feature_groups@[i] by {
        if i < gpos {
            lemma_group_ranges_ordered(gv0, p0.grps(), i, gpos);
            assert(j < s <= idx);
            assert(p1.features@[j] == p0.features@[j]);
            assert(p0.owner_at(j) == gv0[i]);
        } else if i == gpos {
            if j == idx {
                assert(p1.features@[j].key == f_key);
            } else if j < idx {
                assert(s <= j < e);
                assert(p1.features@[j] == p0.features@[j]);
                assert(p0.owner_at(j) == gv0[gpos]);
            } else {
                assert(s <= j - 1 < e);
                assert(p1.features@[j] == p0.features@[j - 1]);
                assert(p0.owner_at(j - 1) == gv0[gpos]);
            }
        } else {
            lemma_group_ranges_ordered(gv0, p0.grps(), gpos, i);
            assert(p0.grps()[gv0[i]].idcs_start + 1 <= j < p0.grps()[gv0[i]].idcs_end + 1);
            assert(j - 1 >= e >= idx);
            assert(p1.features@[j] == p0.features@[j - 1]);
            assert(p0.owner_at(j - 1) == gv0[i]);
        }
    }
}

/// Linkage invariants after creating a new group.
#[verifier::rlimit(100)]
#[verifier::spinoff_prover]
proof fn lemma_insert_linkage_fresh<T>(
    p0: Pool<T>,
    p1: Pool<T>,
    f: Feature,
    f_key: usize,
    gk: usize,
    ek: usize,
    cplx: u64,
    idx: int,
    gpos: int,
)
    requires
        p0.features_vec_ok(),
        p0.groups_vec_ok(),
        p0.linkage_ok(),
        inserted_shape(p0, p1, f, f_key, gk, ek, cplx, idx, gpos, false),
    ensures
        p1.linkage_ok(),
{
    let gv0 = p0.feature_groups@;
    let gv1 = p1.feature_groups@;
    let n0 = gv0.len() as int;
    assert(gv1 == gv0.insert(gpos, gk));
    assert forall|i: int| 0 <= i < gv1.len() implies #[trigger] gv1[i] == (if i < gpos {
        gv0[i]
    } else if i == gpos {
        gk
    } else {
        gv0[i - 1]
    }) by {}
    // groups at or after the insertion point begin at or after the insertion
    // index; groups before it end at or before it
    assert forall|i2: int| gpos <= i2 < n0 implies p0.grps()[
        #[trigger] gv0[i2]].idcs_start >= idx by {
        if gpos > 0 {
            assert(p0.grps()[gv0[gpos - 1]].idcs_end == idx);
            lemma_group_ranges_ordered(gv0, p0.grps(), gpos - 1, i2);
        } else {
            if i2 == 0 {
                assert(p0.grps()[gv0[0]].idcs_start == 0);
            } else {
                assert(p0.grps()[gv0[0]].idcs_start == 0);
                lemma_group_ranges_ordered(gv0, p0.grps(), 0, i2);
            }
            assert(idx == 0);
        }
    }
    assert forall|i2: int| 0 <= i2 < gpos implies p0.grps()[#[trigger] gv0[i2]].idcs_end
        <= idx by {
        assert(p0.grps()[gv0[gpos - 1]].idcs_end == idx);
        if i2 < gpos - 1 {
            lemma_group_ranges_ordered(gv0, p0.grps(), i2, gpos - 1);
        }
    }
    assert forall|fk: usize| #[trigger] p1.feats().dom().contains(fk) implies {
        &&& p1.grps().dom().contains(p1.feats()[fk].group_key)
        &&& p1.grps()[p1.feats()[fk].group_key].id.id.bits == p1.feats()[
        fk].feature.spec_group_bits()
    } by {
        if fk != f_key {
            assert(p0.feats().dom().contains(fk));
            let g2 = p0.feats()[fk].group_key;
            let i2 = choose|i2: int| 0 <= i2 < n0 && (#[trigger] gv0[i2]) == g2;
            assert(p1.grps()[g2].id == p0.grps()[g2].id);
        }
    }
    assert forall|j: int| 0 <= j < p1.features@.len() implies {
        let g = p1.grps()[#[trigger] p1.owner_at(j)];
        g.idcs_start <= j < g.idcs_end
    } by {
        if j == idx {
            assert(p1.features@[j].key == f_key);
            assert(p1.owner_at(j) == gk);
        } else {
            let jo = if j < idx {
                j
            } else {
                j - 1
            };
            assert(p1.features@[j] == p0.features@[jo]);
            assert(p1.owner_at(j) == p0.owner_at(jo));
            let ok = p0.owner_at(jo);
            let i2 = choose|i2: int| 0 <= i2 < n0 && (#[trigger] gv0[i2]) == ok;
            assert(p0.grps()[ok].idcs_start <= jo < p0.grps()[ok].idcs_end);
            if j < idx {
                assert(i2 < gpos) by {
                    if i2 >= gpos {
                        assert(p0.grps()[gv0[i2]].idcs_start >= idx);
                    }
                }
                assert(p1.grps()[ok] == p0.grps()[ok]);
            } else {
                assert(i2 >= gpos) by {
                    if i2 < gpos {
                        assert(p0.grps()[gv0[i2]].idcs_end <= idx);
                    }
                }
                assert(p1.grps()[ok] == (FeatureGroup {
                    idcs_start: (p0.grps()[ok].idcs_start + 1) as usize,
                    idcs_end: (p0.grps()[ok].idcs_end + 1) as usize,
                    ..p0.grps()[ok]
                }));
            }
        }
    }
    assert forall|i: int, j: int|
        0 <= i < p1.feature_groups@.len()
            && p1.grps()[#[trigger] p1.feature_groups@[i]].idcs_start <= j < p1.grps()[
            p1.feature_groups@[i]].idcs_end implies #[trigger] p1.owner_at(j)
        == p1.feature_groups@[i] by {
        if i < gpos {
            assert(gv1[i] == gv0[i]);
            assert(p1.grps()[gv0[i]] == p0.grps()[gv0[i]]);
            assert(j < idx);
            assert(p1.features@[j] == p0.features@[j]);
            assert(p0.owner_at(j) == gv0[i]);
        } else if i == gpos {
            assert(j == idx);
            assert(p1.features@[j].key == f_key);
        } else {
            assert(gv1[i] == gv0[i - 1]);
            assert(p0.grps()[gv0[i - 1]].idcs_start + 1 <= j < p0.grps()[gv0[i - 1]].idcs_end
                + 1);
            assert(p0.grps()[gv0[i - 1]].idcs_start >= idx);
            assert(j > idx);
            assert(p1.features@[j] == p0.features@[j - 1]);
            assert(p0.owner_at(j - 1) == gv0[i - 1]);
        }
    }
}

/// Record-level invariants and score tracking after registering a feature.
#[verifier::rlimit(100)]
#[verifier::spinoff_prover]
proof fn lemma_insert_records<T>(
    p0: Pool<T>,
    p1: Pool<T>,
    f: Feature,
    f_key: usize,
    gk: usize,
    ek: usize,
    cplx: u64,
    idx: int,
    gpos: int,
    found: bool,
)
    requires
        p0.inputs_vec_ok(),
        p0.features_vec_ok(),
        p0.groups_vec_ok(),
        p0.feature_records_ok(),
        p0.input_records_ok(),
        p0.bounds_ok(),
        p0.linkage_ok(),
        p0.scored_except(ek),
        inserted_shape(p0, p1, f, f_key, gk, ek, cplx, idx, gpos, found),
        p1.slabs_ok(),
    ensures
        p1.inputs_vec_ok(),
        p1.feature_records_ok(),
        p1.input_records_ok(),
        p1.bounds_ok(),
        p1.scored_except(ek),
{
    assert(p1.inputs_vec_ok()) by {
        assert forall|i: int| 0 <= i < p1.inputs@.len() implies {
            &&& p1.live().dom().contains(#[trigger] p1.inputs@[i])
            &&& p1.live()[p1.inputs@[i]].idx_in_pool == i
        } by {
            assert(p0.live().dom().contains(p1.inputs@[i]));
        }
        assert forall|k: usize| #[trigger] p1.live().dom().contains(k) implies {
            &&& p1.live()[k].idx_in_pool < p1.inputs@.len()
            &&& p1.inputs@[p1.live()[k].idx_in_pool as int] == k
        } by {
            assert(p0.live().dom().contains(k));
            if k != ek {
                assert(p1.live()[k] == p0.live()[k]);
            }
        }
    }
    assert(p1.feature_records_ok()) by {
        assert forall|fk: usize| #[trigger] p1.feats().dom().contains(fk) implies {
            let fr = p1.feats()[fk];
            &&& fr.inputs@.no_duplicates()
            &&& fr.inputs@.len() <= MAX_POOL_INPUTS
            &&& fr.old_multiplicity <= MAX_POOL_INPUTS
            &&& forall|i: int|
                0 <= i < fr.inputs@.len() ==> {
                    &&& p1.live().dom().contains(#[trigger] fr.inputs@[i])
                    &&& p1.live()[fr.inputs@[i]].all_features@.contains(fk)
                    &&& fr.least_complexity <= p1.live()[fr.inputs@[i]].complexity
                }
        } by {
            if fk == f_key {
                let fr = p1.feats()[f_key];
                assert(fr.inputs@.len() == 1);
                assert(fr.inputs@[0] == ek);
                assert forall|i: int| 0 <= i < fr.inputs@.len() implies {
                    &&& p1.live().dom().contains(#[trigger] fr.inputs@[i])
                    &&& p1.live()[fr.inputs@[i]].all_features@.contains(fk)
                    &&& fr.least_complexity <= p1.live()[fr.inputs@[i]].complexity
                } by {
                    assert(fr.inputs@[i] == ek);
                    assert(p1.live()[ek].all_features@.last() == f_key);
                }
            } else {
                assert(p0.feats().dom().contains(fk));
                let fr = p0.feats()[fk];
                assert(p1.feats()[fk] == fr);
                assert forall|i: int| 0 <= i < fr.inputs@.len() implies {
                    &&& p1.live().dom().contains(#[trigger] fr.inputs@[i])
                    &&& p1.live()[fr.inputs@[i]].all_features@.contains(fk)
                    &&& fr.least_complexity <= p1.live()[fr.inputs@[i]].complexity
                } by {
                    let k = fr.inputs@[i];
                    assert(p0.live().dom().contains(k));
                    assert(p0.live()[k].all_features@.contains(fk));
                    if k == ek {
                        let a = choose|a: int|
                            0 <= a < p0.live()[ek].all_features@.len() && p0.live()[
                                ek].all_features@[a] == fk;
                        assert(p1.live()[ek].all_features@[a] == fk);
                    } else {
                        assert(p1.live()[k] == p0.live()[k]);
                    }
                }
            }
        }
    }
    assert(p1.input_records_ok()) by {
        assert forall|k: usize| #[trigger] p1.live().dom().contains(k) implies {
            let inp = p1.live()[k];
            &&& inp.all_features@.no_duplicates()
            &&& inp.least_complex_for_features@.no_duplicates()
            &&& inp.all_features@.len() <= p1.features@.len()
            &&& inp.complexity <= MAX_COMPLEXITY
            &&& forall|i: int|
                0 <= i < inp.all_features@.len() ==> {
                    &&& p1.feats().dom().contains(#[trigger] inp.all_features@[i])
                    &&& p1.feats()[inp.all_features@[i]].inputs@.contains(k)
                }
            &&& forall|i: int|
                0 <= i < inp.least_complex_for_features@.len() ==> {
                    &&& inp.all_features@.contains(#[trigger] inp.least_complex_for_features@[i])
                    &&& p1.feats().dom().contains(inp.least_complex_for_features@[i])
                    &&& p1.feats()[inp.least_complex_for_features@[i]].least_complexity
                        == inp.complexity
                }
        } by {
            assert(p0.live().dom().contains(k));
            let inp0 = p0.live()[k];
            let inp = p1.live()[k];
            if k != ek {
                assert(inp == inp0);
                assert forall|i: int| 0 <= i < inp.all_features@.len() implies {
                    &&& p1.feats().dom().contains(#[trigger] inp.all_features@[i])
                    &&& p1.feats()[inp.all_features@[i]].inputs@.contains(k)
                } by {
                    assert(p0.feats().dom().contains(inp.all_features@[i]));
                    assert(inp.all_features@[i] != f_key);
                }
                assert forall|i: int| 0 <= i < inp.least_complex_for_features@.len() implies {
                    &&& inp.all_features@.contains(#[trigger] inp.least_complex_for_features@[i])
                    &&& p1.feats().dom().contains(inp.least_complex_for_features@[i])
                    &&& p1.feats()[inp.least_complex_for_features@[i]].least_complexity
                        == inp.complexity
                } by {
                    assert(p0.feats().dom().contains(inp.least_complex_for_features@[i]));
                    assert(inp.least_complex_for_features@[i] != f_key);
                }
            } else {
                assert(inp.all_features@ == inp0.all_features@.push(f_key));
                assert(inp.least_complex_for_features@ == inp0.least_complex_for_features@.push(
                    f_key,
                ));
                assert(inp.all_features@.no_duplicates()) by {
                    assert forall|a: int, b: int|
                        0 <= a < b < inp.all_features@.len() implies inp.all_features@[a]
                            != inp.all_features@[b] by {
                        if b == inp.all_features@.len() - 1 {
                            assert(inp.all_features@[a] == inp0.all_features@[a]);
                            assert(p0.feats().dom().contains(inp0.all_features@[a]));
                        } else {
                            assert(inp.all_features@[a] == inp0.all_features@[a]);
                            assert(inp.all_features@[b] == inp0.all_features@[b]);
                        }
                    }
                }
                assert(inp.least_complex_for_features@.no_duplicates()) by {
                    assert forall|a: int, b: int|
                        0 <= a < b < inp.least_complex_for_features@.len() implies
                        inp.least_complex_for_features@[a]
                            != inp.least_complex_for_features@[b] by {
                        if b == inp.least_complex_for_features@.len() - 1 {
                            assert(inp.least_complex_for_features@[a]
                                == inp0.least_complex_for_features@[a]);
                            assert(inp0.all_features@.contains(
                                inp0.least_complex_for_features@[a],
                            ));
                            let c = choose|c: int|
                                0 <= c < inp0.all_features@.len() && inp0.all_features@[c]
                                    == inp0.least_complex_for_features@[a];
                            assert(p0.feats().dom().contains(inp0.all_features@[c]));
                        } else {
                            assert(inp.least_complex_for_features@[a]
                                == inp0.least_complex_for_features@[a]);
                            assert(inp.least_complex_for_features@[b]
                                == inp0.least_complex_for_features@[b]);
                        }
                    }
                }
                assert forall|i: int| 0 <= i < inp.all_features@.len() implies {
                    &&& p1.feats().dom().contains(#[trigger] inp.all_features@[i])
                    &&& p1.feats()[inp.all_features@[i]].inputs@.contains(k)
                } by {
                    if i == inp.all_features@.len() - 1 {
                        assert(inp.all_features@[i] == f_key);
                        assert(p1.feats()[f_key].inputs@[0] == ek);
                    } else {
                        assert(inp.all_features@[i] == inp0.all_features@[i]);
                        assert(p0.feats().dom().contains(inp0.all_features@[i]));
                        assert(inp.all_features@[i] != f_key);
                    }
                }
                assert forall|i: int| 0 <= i < inp.least_complex_for_features@.len() implies {
                    &&& inp.all_features@.contains(#[trigger] inp.least_complex_for_features@[i])
                    &&& p1.feats().dom().contains(inp.least_complex_for_features@[i])
                    &&& p1.feats()[inp.least_complex_for_features@[i]].least_complexity
                        == inp.complexity
                } by {
                    if i == inp.least_complex_for_features@.len() - 1 {
                        assert(inp.least_complex_for_features@[i] == f_key);
                        assert(inp.all_features@.last() == f_key);
                        assert(p1.feats()[f_key].least_complexity == cplx);
                    } else {
                        assert(inp.least_complex_for_features@[i]
                            == inp0.least_complex_for_features@[i]);
                        assert(inp0.all_features@.contains(inp0.least_complex_for_features@[i]));
                        let c = choose|c: int|
                            0 <= c < inp0.all_features@.len() && inp0.all_features@[c]
                                == inp0.least_complex_for_features@[i];
                        assert(inp.all_features@[c] == inp0.least_complex_for_features@[i]);
                        assert(p0.feats().dom().contains(inp0.least_complex_for_features@[i]));
                        assert(inp0.least_complex_for_features@[i] != f_key);
                    }
                }
            }
        }
    }
    assert(p1.scored_except(ek)) by {
        assert forall|k: usize|
            #[trigger] p1.live().dom().contains(k) && k != ek implies p1.live()[k].score as int
            == sum_over(p1.live()[k].all_features@, p1.snap_term_fn()) by {
            assert(p0.live().dom().contains(k));
            assert(p1.live()[k] == p0.live()[k]);
            assert forall|i: int|
                0 <= i < p0.live()[k].all_features@.len() implies p0.snap_term_fn()(
                #[trigger] p0.live()[k].all_features@[i],
            ) == p1.snap_term_fn()(p0.live()[k].all_features@[i]) by {
                let fk = p0.live()[k].all_features@[i];
                assert(p0.feats().dom().contains(fk));
                assert(fk != f_key);
                assert(p1.feats()[fk] == p0.feats()[fk]);
                let g2 = p0.feats()[fk].group_key;
                assert(p0.grps().dom().contains(g2));
                let i2 = choose|i2: int|
                    0 <= i2 < p0.feature_groups@.len() && (#[trigger] p0.feature_groups@[i2])
                        == g2;
                assert(p1.grps()[g2].old_size == p0.grps()[g2].old_size);
            }
            lemma_sum_congruence(
                p0.live()[k].all_features@,
                p0.snap_term_fn(),
                p1.snap_term_fn(),
            );
        }
    }
}

/// Where the insertion index of a new feature of an existing group falls:
/// inside or just after the group's current range.
#[verifier::rlimit(100)]
#[verifier::spinoff_prover]
proof fn lemma_window_found<T>(p0: Pool<T>, f: Feature, idx: int, gpos: int)
    requires
        p0.features_vec_ok(),
        p0.groups_vec_ok(),
        p0.linkage_ok(),
        0 <= gpos < p0.feature_groups@.len(),
        p0.grps()[p0.feature_groups@[gpos]].id.id.bits == f.spec_group_bits(),
        0 <= idx <= p0.features@.len(),
        forall|i: int| 0 <= i < idx ==> (#[trigger] p0.features@[i]).feature.bits < f.bits,
        forall|i: int|
            idx <= i < p0.features@.len() ==> (#[trigger] p0.features@[i]).feature.bits > f.bits,
    ensures
        p0.grps()[p0.feature_groups@[gpos]].idcs_start <= idx <= p0.grps()[p0.feature_groups@[
            gpos]].idcs_end,
{
    let gv0 = p0.feature_groups@;
    let glen = gv0.len() as int;
    let gb = f.spec_group_bits();
    let s = p0.grps()[gv0[gpos]].idcs_start as int;
    let e = p0.grps()[gv0[gpos]].idcs_end as int;
    assert forall|a: int, b: int|
        0 <= a < glen && 0 <= b < glen && gv0[a] == gv0[b] implies a == b by {
        if a < b {
            assert(p0.grps()[gv0[a]].id.id.bits < p0.grps()[gv0[b]].id.id.bits);
        } else if b < a {
            assert(p0.grps()[gv0[b]].id.id.bits < p0.grps()[gv0[a]].id.id.bits);
        }
    }
    assert forall|p: int| 0 <= p < p0.features@.len() implies p0.grps()[
        #[trigger] p0.owner_at(p)].id.id.bits == p0.features@[p].feature.spec_group_bits() by {
        assert(p0.feats().dom().contains(p0.features@[p].key));
    }
    if idx < s {
        let p = idx;
        assert(0 <= p < p0.features@.len());
        let ok = p0.owner_at(p);
        let i2 = choose|i2: int| 0 <= i2 < glen && p0.feature_groups@[i2] == ok;
        assert(p0.grps()[ok].idcs_start <= p < p0.grps()[ok].idcs_end);
        if i2 > gpos {
            lemma_group_ranges_ordered(gv0, p0.grps(), gpos, i2);
            assert(false);
        } else if i2 == gpos {
            assert(false);
        } else {
            assert(p0.grps()[ok].id.id.bits < gb);
            lemma_erase_order(p0.features@[p].feature.bits, f.bits);
            assert(p0.features@[p].feature.bits > f.bits);
            assert(false);
        }
    }
    if idx > e {
        let p = e;
        assert(0 <= p < p0.features@.len());
        let ok = p0.owner_at(p);
        let i2 = choose|i2: int| 0 <= i2 < glen && p0.feature_groups@[i2] == ok;
        assert(p0.grps()[ok].idcs_start <= p < p0.grps()[ok].idcs_end);
        if i2 < gpos {
            lemma_group_ranges_ordered(gv0, p0.grps(), i2, gpos);
            assert(false);
        } else if i2 == gpos {
            assert(false);
        } else {
            assert(p0.grps()[ok].id.id.bits > gb);
            lemma_erase_order(f.bits, p0.features@[p].feature.bits);
            assert(p0.features@[p].feature.bits < f.bits);
            assert(false);
        }
    }
}

/// Where the insertion index of a feature of a brand-new group falls: at the
/// boundary between the groups with smaller and with larger ids.
#[verifier::rlimit(100)]
#[verifier::spinoff_prover]
proof fn lemma_window_fresh<T>(p0: Pool<T>, f: Feature, idx: int, gpos: int)
    requires
        p0.features_vec_ok(),
        p0.groups_vec_ok(),
        p0.linkage_ok(),
        0 <= gpos <= p0.feature_groups@.len(),
        forall|i: int|
            0 <= i < gpos ==> p0.grps()[#[trigger] p0.feature_groups@[i]].id.id.bits
                < f.spec_group_bits(),
        forall|i: int|
            gpos <= i < p0.feature_groups@.len() ==> p0.grps()[
                #[trigger] p0.feature_groups@[i]].id.id.bits > f.spec_group_bits(),
        0 <= idx <= p0.features@.len(),
        forall|i: int| 0 <= i < idx ==> (#[trigger] p0.features@[i]).feature.bits < f.bits,
        forall|i: int|
            idx <= i < p0.features@.len() ==> (#[trigger] p0.features@[i]).feature.bits > f.bits,
    ensures
        idx == (if gpos == 0 {
            0int
        } else {
            p0.grps()[p0.feature_groups@[gpos - 1]].idcs_end as int
        }),
{
    let gv0 = p0.feature_groups@;
    let glen = gv0.len() as int;
    let gb = f.spec_group_bits();
    let boundary: int = if gpos == 0 {
        0
    } else {
        p0.grps()[gv0[gpos - 1]].idcs_end as int
    };
    assert forall|a: int, b: int|
        0 <= a < glen && 0 <= b < glen && gv0[a] == gv0[b] implies a == b by {
        if a < b {
            assert(p0.grps()[gv0[a]].id.id.bits < p0.grps()[gv0[b]].id.id.bits);
        } else if b < a {
            assert(p0.grps()[gv0[b]].id.id.bits < p0.grps()[gv0[a]].id.id.bits);
        }
    }
    assert forall|p: int| 0 <= p < p0.features@.len() implies p0.grps()[
        #[trigger] p0.owner_at(p)].id.id.bits == p0.features@[p].feature.spec_group_bits() by {
        assert(p0.feats().dom().contains(p0.features@[p].key));
    }
    assert(boundary <= p0.features@.len()) by {
        if gpos > 0 {
            assert(p0.grps().dom().contains(gv0[gpos - 1]));
        }
    }
    if idx < boundary {
        let p = idx;
        let ok = p0.owner_at(p);
        let i2 = choose|i2: int| 0 <= i2 < glen && p0.feature_groups@[i2] == ok;
        assert(p0.grps()[ok].idcs_start <= p < p0.grps()[ok].idcs_end);
        assert(i2 <= gpos - 1) by {
            if i2 >= gpos {
                assert(p0.grps()[gv0[i2]].idcs_start >= boundary) by {
                    if i2 == gpos - 1 + 1 {
                        assert(p0.grps()[gv0[gpos - 1]].idcs_end == p0.grps()[
                            gv0[i2]].idcs_start);
                    } else {
                        lemma_group_ranges_ordered(gv0, p0.grps(), gpos - 1, i2);
                    }
                }
                assert(false);
            }
        }
        assert(p0.grps()[ok].id.id.bits < gb);
        lemma_erase_order(p0.features@[p].feature.bits, f.bits);
        assert(p0.features@[p].feature.bits > f.bits);
        assert(false);
    }
    if idx > boundary {
        let p = boundary;
        let ok = p0.owner_at(p);
        let i2 = choose|i2: int| 0 <= i2 < glen && p0.feature_groups@[i2] == ok;
        assert(p0.grps()[ok].idcs_start <= p < p0.grps()[ok].idcs_end);
        assert(i2 >= gpos) by {
            if i2 < gpos {
                assert(p0.grps()[gv0[i2]].idcs_end <= boundary) by {
                    if i2 < gpos - 1 {
                        lemma_group_ranges_ordered(gv0, p0.grps(), i2, gpos - 1);
                    }
                }
                assert(false);
            }
        }
        assert(p0.grps()[ok].id.id.bits > gb);
        lemma_erase_order(f.bits, p0.features@[p].feature.bits);
        assert(p0.features@[p].feature.bits < f.bits);
        assert(false);
    }
}

/// Putting the pieces together: a pool in the inserted shape is again
/// structurally sound, with score sums intact.
#[verifier::rlimit(100)]
#[verifier::spinoff_prover]
proof fn lemma_insert_assemble<T>(
    p0: Pool<T>,
    p1: Pool<T>,
    f: Feature,
    f_key: usize,
    gk: usize,
    ek: usize,
    cplx: u64,
    idx: int,
    gpos: int,
    found: bool,
)
    requires
        p0.structural(),
        p0.scored_except(ek),
        inserted_shape(p0, p1, f, f_key, gk, ek, cplx, idx, gpos, found),
        p1.slabs_ok(),
        p1.inputs == p0.inputs,
    ensures
        p1.structural(),
        p1.scored_except(ek),
{
    lemma_insert_features_vec(p0, p1, f, f_key, gk, ek, cplx, idx, gpos, found);
    lemma_insert_groups_vec(p0, p1, f, f_key, gk, ek, cplx, idx, gpos, found);
    if found {
        lemma_insert_linkage_found(p0, p1, f, f_key, gk, ek, cplx, idx, gpos);
    } else {
        lemma_insert_linkage_fresh(p0, p1, f, f_key, gk, ek, cplx, idx, gpos);
    }
    lemma_insert_records(p0, p1, f, f_key, gk, ek, cplx, idx, gpos, found);
    assert(p1.bounds_ok());
}

impl<T> Pool<T> {
    /// Place a new feature entry: insert it into the sorted
    /// features-iteration vector and extend or create its group, shifting
    /// the later groups' ranges. Returns the insertion index, the group's
    /// key, whether the group already existed, and its vector position.
    #[verifier::rlimit(100)]
    #[verifier::spinoff_prover]
    fn place_feature(&mut self, entry: FeatureForIteration) -> (r: (usize, usize, bool, usize))
        requires
            old(self).slabs_ok(),
            old(self).features_vec_ok(),
            old(self).groups_vec_ok(),
            old(self).linkage_ok(),
            forall|i: int|
                0 <= i < old(self).features@.len() ==> (#[trigger] old(self).features@[i]).feature.bits != entry.feature.bits,
            old(self).features@.len() < MAX_POOL_FEATURES,
        ensures
            ({
                let (idx, gk, found, gpos) = r;
                &&& idx <= old(self).features@.len()
                &&& final (self).features@ == old(self).features@.insert(idx as int, entry)
                &&& forall|i: int|
                    0 <= i < idx ==> (#[trigger] old(self).features@[i]).feature.bits
                        < entry.feature.bits
                &&& forall|i: int|
                    idx <= i < old(self).features@.len() ==> (#[trigger] old(self).features@[i]).feature.bits > entry.feature.bits
                &&& (found ==> {
                    &&& 0 <= gpos < old(self).feature_groups@.len()
                    &&& gk == old(self).feature_groups@[gpos as int]
                    &&& final (self).feature_groups@ == old(self).feature_groups@
                    &&& old(self).grps()[gk].id.id.bits == entry.feature.spec_group_bits()
                    &&& final (self).grps().dom() =~= old(self).grps().dom()
                    &&& forall|i: int|
                        0 <= i < gpos ==> final (self).grps()[
                            #[trigger] old(self).feature_groups@[i]] == old(self).grps()[old(self).feature_groups@[i]]
                    &&& final (self).grps()[gk] == (FeatureGroup {
                        idcs_end: (old(self).grps()[gk].idcs_end + 1) as usize,
                        ..old(self).grps()[gk]
                    })
                    &&& forall|i: int|
                        gpos < i < old(self).feature_groups@.len() ==> final (self).grps()[
                            #[trigger] old(self).feature_groups@[i]] == (FeatureGroup {
                            idcs_start: (old(self).grps()[old(self).feature_groups@[i]].idcs_start + 1) as usize,
                            idcs_end: (old(self).grps()[old(self).feature_groups@[i]].idcs_end
                                + 1) as usize,
                            ..old(self).grps()[old(self).feature_groups@[i]]
                        })
                    &&& old(self).grps()[gk].idcs_start <= idx as int <= old(self).grps()[
                        gk].idcs_end
                })
                &&& (!found ==> {
                    &&& 0 <= gpos <= old(self).feature_groups@.len()
                    &&& !old(self).grps().dom().contains(gk)
                    &&& final (self).grps().dom() =~= old(self).grps().dom().insert(gk)
                    &&& final (self).feature_groups@ == old(self).feature_groups@.insert(
                        gpos as int,
                        gk,
                    )
                    &&& final (self).grps()[gk] == (FeatureGroup {
                        id: FeatureGroupId {
                            id: Feature { bits: entry.feature.spec_group_bits() },
                        },
                        idcs_start: idx,
                        idcs_end: (idx + 1) as usize,
                        old_size: 1,
                    })
                    &&& forall|i: int|
                        0 <= i < gpos ==> final (self).grps()[
                            #[trigger] old(self).feature_groups@[i]] == old(self).grps()[old(self).feature_groups@[i]] && old(self).grps()[old(self).feature_groups@[i]].id.id.bits < entry.feature.spec_group_bits()
                    &&& forall|i: int|
                        gpos <= i < old(self).feature_groups@.len() ==> final (self).grps()[
                            #[trigger] old(self).feature_groups@[i]] == (FeatureGroup {
                            idcs_start: (old(self).grps()[old(self).feature_groups@[i]].idcs_start + 1) as usize,
                            idcs_end: (old(self).grps()[old(self).feature_groups@[i]].idcs_end
                                + 1) as usize,
                            ..old(self).grps()[old(self).feature_groups@[i]]
                        }) && old(self).grps()[old(self).feature_groups@[i]].id.id.bits
                            > entry.feature.spec_group_bits()
                    &&& idx as int == (if gpos as int == 0 {
                        0int
                    } else {
                        old(self).grps()[old(self).feature_groups@[gpos as int
                            - 1]].idcs_end as int
                    })
                })
            }),
            final (self).slab_features == old(self).slab_features,
            final (self).slab_inputs == old(self).slab_inputs,
            final (self).inputs == old(self).inputs,
            final (self).favored_input == old(self).favored_input,
            final (self).cumulative_weights == old(self).cumulative_weights,
            final (self).average_complexity == old(self).average_complexity,
            final (self).slab_feature_groups.wf(),
    {
        let ghost p0 = *self;
        let f = entry.feature;
        let idx = sorted_insert(&mut self.features, entry);
        proof {
            assert forall|i: int| 0 <= i < idx implies (
            #[trigger] p0.features@[i]).feature.bits < f.bits by {}
            assert forall|i: int| idx <= i < p0.features@.len() implies (
            #[trigger] p0.features@[i]).feature.bits > f.bits by {
                assert(p0.features@[idx as int].feature.bits > f.bits);
                if i > idx {
                    assert(p0.features@[idx as int].feature.bits < p0.features@[i].feature.bits);
                }
            }
        }
        let gb = f.erasing_payload().bits;
        let ghost glen = p0.feature_groups@.len() as int;
        proof {
            assert forall|a: int, b: int|
                0 <= a < glen && 0 <= b < glen && p0.feature_groups@[a]
                    == p0.feature_groups@[b] implies a == b by {
                if a < b {
                    assert(p0.grps()[p0.feature_groups@[a]].id.id.bits < p0.grps()[
                        p0.feature_groups@[b]].id.id.bits);
                } else if b < a {
                    assert(p0.grps()[p0.feature_groups@[b]].id.id.bits < p0.grps()[
                        p0.feature_groups@[a]].id.id.bits);
                }
            }
        }
        let (found, gpos) = binary_search_group(
            &self.feature_groups,
            &self.slab_feature_groups,
            gb,
        );
        let group_key: usize;
        if found {
            group_key = self.feature_groups[gpos];
            proof {
                lemma_window_found(p0, f, idx as int, gpos as int);
            }
            let g = self.slab_feature_groups.get_mut(group_key);
            let e0 = g.idcs_end;
            proof {
                assert(e0 <= p0.features@.len());
            }
            g.idcs_end = e0 + 1;
            let gl = self.feature_groups.len();
            proof {
                assert(gpos < gl);
            }
            self.shift_groups_after(gpos + 1);
        } else {
            proof {
                lemma_window_fresh(p0, f, idx as int, gpos as int);
                if gpos as int > 0 {
                    assert(p0.grps().dom().contains(p0.feature_groups@[gpos as int - 1]));
                }
            }
            let g = FeatureGroup::new(FeatureGroupId { id: Feature { bits: gb } }, idx, idx + 1);
            group_key = self.slab_feature_groups.insert(g);
            self.feature_groups.insert(gpos, group_key);
            proof {
                assert(self.feature_groups@[gpos as int] == group_key);
                assert forall|a: int, b: int|
                    0 <= a < b < self.feature_groups@.len() implies self.feature_groups@[a]
                        != self.feature_groups@[b] by {
                    let gv1 = self.feature_groups@;
                    let gv0 = p0.feature_groups@;
                    if a < gpos {
                        assert(gv1[a] == gv0[a]);
                    } else if a > gpos {
                        assert(gv1[a] == gv0[a - 1]);
                    }
                    if b < gpos {
                        assert(gv1[b] == gv0[b]);
                    } else if b > gpos {
                        assert(gv1[b] == gv0[b - 1]);
                    }
                }
            }
            let gl = self.feature_groups.len();
            proof {
                assert(gpos < gl);
            }
            let ghost p_mid = *self;
            self.shift_groups_after(gpos + 1);
            proof {
                assert(self.grps()[group_key] == p_mid.grps()[group_key]) by {
                    assert(p_mid.feature_groups@[gpos as int] == group_key);
                }
                assert forall|i: int| 0 <= i < gpos implies self.grps()[
                    #[trigger] p0.feature_groups@[i]] == p0.grps()[p0.feature_groups@[i]] by {
                    assert(p_mid.feature_groups@[i] == p0.feature_groups@[i]);
                    assert(self.grps()[p_mid.feature_groups@[i]] == p_mid.grps()[
                        p_mid.feature_groups@[i]]);
                    assert(p_mid.grps()[p0.feature_groups@[i]] == p0.grps()[
                        p0.feature_groups@[i]]) by {
                        assert(p0.feature_groups@[i] != group_key);
                    }
                }
                assert forall|i: int|
                    gpos <= i < p0.feature_groups@.len() implies self.grps()[
                    #[trigger] p0.feature_groups@[i]] == (FeatureGroup {
                    idcs_start: (p0.grps()[p0.feature_groups@[i]].idcs_start + 1) as usize,
                    idcs_end: (p0.grps()[p0.feature_groups@[i]].idcs_end + 1) as usize,
                    ..p0.grps()[p0.feature_groups@[i]]
                }) by {
                    assert(p_mid.feature_groups@[i + 1] == p0.feature_groups@[i]);
                    assert(p0.feature_groups@[i] != group_key);
                    assert(p_mid.grps()[p0.feature_groups@[i]] == p0.grps()[
                        p0.feature_groups@[i]]);
                }
            }
        }
        (idx, group_key, found, gpos)
    }

    /// Register a previously unseen feature: insert it into the sorted
    /// features-iteration vector, extend or create its group, create its
    /// record with the given input as sole exhibitor and witness, and link
    /// the input to it. Returns the new feature's key.
    #[verifier::rlimit(100)]
    #[verifier::spinoff_prover]
    fn insert_feature(&mut self, f: Feature, element_key: usize, complexity: u64) -> (f_key: usize)
        requires
            old(self).structural(),
            old(self).scored_except(element_key),
            old(self).live().dom().contains(element_key),
            forall|i: int|
                0 <= i < old(self).features@.len() ==> (#[trigger] old(self).features@[i]).feature.bits != f.bits,
            old(self).features@.len() < MAX_POOL_FEATURES,
            complexity == old(self).live()[element_key].complexity,
        ensures
            final (self).structural(),
            final (self).scored_except(element_key),
            !old(self).feats().dom().contains(f_key),
            final (self).feats().dom() =~= old(self).feats().dom().insert(f_key),
            forall|fk2: usize|
                #[trigger] old(self).feats().dom().contains(fk2) ==> final (self).feats()[fk2]
                    == old(self).feats()[fk2],
            final (self).feats()[f_key].feature == f,
            final (self).feats()[f_key].inputs@ =~= Seq::<usize>::empty().push(element_key),
            final (self).feats()[f_key].least_complexity == complexity,
            final (self).feats()[f_key].least_complex_input == element_key,
            final (self).feats()[f_key].old_multiplicity == 1,
            final (self).grps().dom().contains(final (self).feats()[f_key].group_key),
            forall|gk2: usize|
                #[trigger] old(self).grps().dom().contains(gk2) ==> {
                    &&& final (self).grps().dom().contains(gk2)
                    &&& final (self).grps()[gk2].old_size == old(self).grps()[gk2].old_size
                    &&& final (self).grps()[gk2].id == old(self).grps()[gk2].id
                },
            forall|gk2: usize|
                #[trigger] final (self).grps().dom().contains(gk2) ==> (old(self).grps(
                ).dom().contains(gk2) || gk2 == final (self).feats()[f_key].group_key),
            final (self).features@.len() == old(self).features@.len() + 1,
            exists|j: int|
                0 <= j < final (self).features@.len() && (#[trigger] final (self).features@[j])
                    == (FeatureForIteration { key: f_key, feature: f }),
            final (self).live().dom() =~= old(self).live().dom(),
            forall|k: usize|
                #[trigger] final (self).live().dom().contains(k) && k != element_key
                    ==> final (self).live()[k] == old(self).live()[k],
            final (self).live()[element_key] == (Input {
                all_features: final (self).live()[element_key].all_features,
                least_complex_for_features: final (self).live()[
                    element_key].least_complex_for_features,
                ..old(self).live()[element_key]
            }),
            final (self).live()[element_key].all_features@ == old(self).live()[element_key].all_features@.push(f_key),
            final (self).live()[element_key].least_complex_for_features@ == old(self).live()[element_key].least_complex_for_features@.push(f_key),
            final (self).inputs == old(self).inputs,
            final (self).favored_input == old(self).favored_input,
            final (self).cumulative_weights == old(self).cumulative_weights,
            final (self).average_complexity == old(self).average_complexity,
            final (self).slab_inputs.spec_next_key() == old(self).slab_inputs.spec_next_key(),
    {
        let ghost p0 = *self;
        let f_key = self.slab_features.next_key();
        let entry = FeatureForIteration { key: f_key, feature: f };
        let (idx, group_key, found, gpos) = self.place_feature(entry);
        let mut inputs_v: Vec<usize> = Vec::new();
        inputs_v.push(element_key);
        let record = FeatureInPool::new(f_key, f, group_key, inputs_v, element_key, complexity);
        let got = self.slab_features.insert(record);
        let inp = self.slab_inputs.get_mut(element_key);
        inp.all_features.push(f_key);
        inp.least_complex_for_features.push(f_key);
        proof {
            let p1 = *self;
            assert(p1.feats() =~= p0.feats().insert(
                f_key,
                (FeatureInPool {
                    key: f_key,
                    feature: f,
                    group_key: group_key,
                    inputs: p1.feats()[f_key].inputs,
                    least_complex_input: element_key,
                    least_complexity: complexity,
                    old_multiplicity: 1,
                }),
            ));
            assert(p1.feats()[f_key].inputs@ =~= Seq::<usize>::empty().push(element_key));
            assert(p1.live().dom() =~= p0.live().dom());
            if found {
                assert(p1.grps().dom() =~= p0.grps().dom());
            } else {
                assert(p1.grps().dom() =~= p0.grps().dom().insert(group_key));
            }
            assert(inserted_shape(
                p0,
                p1,
                f,
                f_key,
                group_key,
                element_key,
                complexity,
                idx as int,
                gpos as int,
                found,
            ));
            lemma_insert_assemble(
                p0, p1, f, f_key, group_key, element_key, complexity, idx as int, gpos as int,
                found,
            );
            assert(p1.features@[idx as int] == (FeatureForIteration { key: f_key, feature: f }));
        }
        f_key
    }
}

/// Insert a key into a strictly sorted vector of keys, keeping it sorted.
fn insert_key_sorted(v: &mut Vec<usize>, x: usize)
    requires
        forall|a: int, b: int| 0 <= a < b < old(v)@.len() ==> old(v)@[a] < old(v)@[b],
        !old(v)@.contains(x),
    ensures
        final (v)@.len() == old(v)@.len() + 1,
        forall|a: int, b: int| 0 <= a < b < final (v)@.len() ==> final (v)@[a] < final (v)@[b],
        forall|y: usize| final (v)@.contains(y) <==> (old(v)@.contains(y) || y == x),
{
    let ghost v0 = v@;
    let n = v.len();
    let mut pos: usize = 0;
    while pos < n && v[pos] < x
        invariant
            0 <= pos <= n,
            n == v@.len(),
            v@ == v0,
            forall|a: int| 0 <= a < pos ==> v@[a] < x,
        decreases n - pos,
    {
        pos += 1;
    }
    proof {
        assert(pos < n ==> v@[pos as int] >= x);
        assert(pos < n ==> v@[pos as int] != x) by {
            if pos < n && v@[pos as int] == x {
                assert(v0.contains(x));
            }
        }
    }
    v.insert(pos, x);
    proof {
        assert forall|a: int, b: int|
            0 <= a < b < v@.len() implies v@[a] < v@[b] by {
            let pa = if a < pos {
                a
            } else {
                a - 1
            };
            let pb = if b < pos {
                b
            } else {
                b - 1
            };
            if a != pos as int {
                assert(v@[a] == v0[pa]);
            }
            if b != pos as int {
                assert(v@[b] == v0[pb]);
            }
        }
        assert forall|y: usize| v@.contains(y) <==> (v0.contains(y) || y == x) by {
            if v@.contains(y) {
                let a = choose|a: int| 0 <= a < v@.len() && v@[a] == y;
                if a < pos {
                    assert(v0[a] == y);
                } else if a > pos {
                    assert(v0[a - 1] == y);
                }
            }
            if v0.contains(y) {
                let a = choose|a: int| 0 <= a < v0.len() && v0[a] == y;
                if a < pos {
                    assert(v@[a] == y);
                } else {
                    assert(v@[a + 1] == y);
                }
            }
            if y == x {
                assert(v@[pos as int] == y);
            }
        }
    }
}

/// Position of a key in a vector, if present.
fn find_opt(v: &Vec<usize>, x: usize) -> (r: Option<usize>)
    ensures
        match r {
            Some(j) => j < v@.len() && v@[j as int] == x,
            None => !v@.contains(x),
        },
{
    let mut j: usize = 0;
    while j < v.len()
        invariant
            0 <= j <= v.len(),
            forall|i: int| 0 <= i < j ==> v@[i] != x,
        decreases v.len() - j,
    {
        if v[j] == x {
            return Some(j);
        }
        j += 1;
    }
    None
}

impl<T> Pool<T> {
    /// Process one existing feature for a newly admitted input: strip the
    /// feature from the witness lists of all its holders that are at least
    /// as complex as the newcomer (marking those whose witness lists become
    /// empty), hand the witness slot to the newcomer if it is at least as
    /// simple as the incumbent, and link the newcomer to the feature.
    #[verifier::rlimit(100)]
    #[verifier::spinoff_prover]
    fn process_existing_feature(
        &mut self,
        fk: usize,
        nk: usize,
        cplx: u64,
        to_delete: &mut Vec<usize>,
    )
        requires
            old(self).structural(),
            old(self).scored_except(nk),
            old(self).feats().dom().contains(fk),
            old(self).live().dom().contains(nk),
            old(self).live()[nk].complexity == cplx,
            !old(self).live()[nk].all_features@.contains(fk),
            old(self).feats()[fk].inputs@.len() < MAX_POOL_INPUTS,
            forall|a: int, b: int|
                0 <= a < b < old(to_delete)@.len() ==> old(to_delete)@[a] < old(to_delete)@[b],
            forall|i: int|
                0 <= i < old(to_delete)@.len() ==> {
                    &&& old(self).live().dom().contains(#[trigger] old(to_delete)@[i])
                    &&& old(self).live()[old(to_delete)@[i]].least_complex_for_features@.len()
                        == 0
                    &&& old(to_delete)@[i] != nk
                },
            forall|k: usize|
                #[trigger] old(self).live().dom().contains(k) && k != nk && old(self).live()[k].least_complex_for_features@.len() == 0 ==> old(to_delete)@.contains(
                    k,
                ),
        ensures
            final (self).structural(),
            final (self).scored_except(nk),
            forall|a: int, b: int|
                0 <= a < b < final (to_delete)@.len() ==> final (to_delete)@[a] < final (
                to_delete)@[b],
            forall|i: int|
                0 <= i < final (to_delete)@.len() ==> {
                    &&& final (self).live().dom().contains(#[trigger] final (to_delete)@[i])
                    &&& final (self).live()[final (to_delete)@[
                        i]].least_complex_for_features@.len() == 0
                    &&& final (to_delete)@[i] != nk
                },
            forall|k: usize|
                #[trigger] final (self).live().dom().contains(k) && k != nk && final (self).live()[k].least_complex_for_features@.len() == 0 ==> final (to_delete)@.contains(k),
            final (self).live().dom() =~= old(self).live().dom(),
            final (self).feats().dom() =~= old(self).feats().dom(),
            forall|fk2: usize|
                #[trigger] final (self).feats().dom().contains(fk2) && fk2 != fk ==> final (self).feats()[fk2] == old(self).feats()[fk2],
            final (self).feats()[fk].feature == old(self).feats()[fk].feature,
            final (self).feats()[fk].group_key == old(self).feats()[fk].group_key,
            final (self).feats()[fk].old_multiplicity == old(self).feats()[fk].old_multiplicity,
            final (self).feats()[fk].inputs@ == old(self).feats()[fk].inputs@.push(nk),
            old(self).feats()[fk].least_complexity >= cplx ==> final (self).feats()[
                fk].least_complexity == cplx && final (self).feats()[fk].least_complex_input
                == nk,
            old(self).feats()[fk].least_complexity < cplx ==> final (self).feats()[fk]
                == (FeatureInPool {
                inputs: final (self).feats()[fk].inputs,
                ..old(self).feats()[fk]
            }),
            forall|k: usize|
                #[trigger] final (self).live().dom().contains(k) && k != nk ==> final (self).live()[k] == (Input {
                    least_complex_for_features: final (self).live()[
                        k].least_complex_for_features,
                    ..old(self).live()[k]
                }),
            final (self).live()[nk] == (Input {
                all_features: final (self).live()[nk].all_features,
                least_complex_for_features: final (self).live()[nk].least_complex_for_features,
                ..old(self).live()[nk]
            }),
            final (self).live()[nk].all_features@ == old(self).live()[nk].all_features@.push(fk),
            forall|k: usize|
                #[trigger] final (self).live().dom().contains(k) && k != nk ==> forall|x: usize|
                    final (self).live()[k].least_complex_for_features@.contains(x) <==> (old(
                    self).live()[k].least_complex_for_features@.contains(x) && !(x == fk && old(
                    self).feats()[fk].least_complexity >= cplx)),
            old(self).feats()[fk].least_complexity >= cplx ==> final (self).live()[
                nk].least_complex_for_features@ == old(self).live()[
                nk].least_complex_for_features@.push(fk),
            old(self).feats()[fk].least_complexity < cplx ==> final (self).live()[
                nk].least_complex_for_features@ == old(self).live()[
                nk].least_complex_for_features@,
            final (self).features == old(self).features,
            final (self).feature_groups == old(self).feature_groups,
            final (self).slab_feature_groups == old(self).slab_feature_groups,
            final (self).inputs == old(self).inputs,
            final (self).favored_input == old(self).favored_input,
            final (self).cumulative_weights == old(self).cumulative_weights,
            final (self).average_complexity == old(self).average_complexity,
            final (self).slab_inputs.spec_next_key() == old(self).slab_inputs.spec_next_key(),
    {
        let ghost p0 = *self;
        let m = self.slab_features.get(fk).inputs.len();
        let mut i: usize = 0;
        while i < m
            invariant
                0 <= i <= m,
                p0.structural(),
                p0.feats().dom().contains(fk),
                p0.live().dom().contains(nk),
                p0.live()[nk].complexity == cplx,
                !p0.live()[nk].all_features@.contains(fk),
                m == p0.feats()[fk].inputs@.len(),
                self.slabs_ok(),
                self.slab_features == p0.slab_features,
                self.features == p0.features,
                self.feature_groups == p0.feature_groups,
                self.slab_feature_groups == p0.slab_feature_groups,
                self.inputs == p0.inputs,
                self.favored_input == p0.favored_input,
                self.cumulative_weights == p0.cumulative_weights,
                self.average_complexity == p0.average_complexity,
                self.slab_inputs.spec_next_key() == p0.slab_inputs.spec_next_key(),
                self.live().dom() =~= p0.live().dom(),
                forall|k: usize|
                    #[trigger] self.live().dom().contains(k) ==> self.live()[k] == (Input {
                        least_complex_for_features: self.live()[k].least_complex_for_features,
                        ..p0.live()[k]
                    }),
                self.live()[nk] == p0.live()[nk],
                forall|k: usize|
                    #[trigger] self.live().dom().contains(k) ==> {
                        let l1 = self.live()[k].least_complex_for_features@;
                        let l0 = p0.live()[k].least_complex_for_features@;
                        &&& l1.no_duplicates()
                        &&& (forall|x: usize| l1.contains(x) ==> l0.contains(x))
                        &&& (forall|x: usize| l0.contains(x) && x != fk ==> l1.contains(x))
                        &&& (l1 == l0 || (l0.contains(fk) && !l1.contains(fk) && l1.len() == l0.len()
                            - 1 && p0.live()[k].complexity >= cplx))
                    },
                forall|j: int|
                    i <= j < m ==> self.live()[#[trigger] p0.feats()[fk].inputs@[j]]
                        == p0.live()[p0.feats()[fk].inputs@[j]],
                forall|j: int|
                    0 <= j < i && p0.live()[#[trigger] p0.feats()[fk].inputs@[j]].complexity
                        >= cplx ==> !self.live()[p0.feats()[
                        fk].inputs@[j]].least_complex_for_features@.contains(fk),
                forall|a: int, b: int|
                    0 <= a < b < to_delete@.len() ==> to_delete@[a] < to_delete@[b],
                forall|j: int|
                    0 <= j < to_delete@.len() ==> {
                        &&& self.live().dom().contains(#[trigger] to_delete@[j])
                        &&& self.live()[to_delete@[j]].least_complex_for_features@.len() == 0
                        &&& to_delete@[j] != nk
                    },
                forall|k: usize|
                    #[trigger] self.live().dom().contains(k) && k != nk && self.live()[
                        k].least_complex_for_features@.len() == 0 ==> to_delete@.contains(k),
            decreases m - i,
        {
            let h = self.slab_features.get(fk).inputs[i];
            proof {
                assert(p0.feats()[fk].inputs@[i as int] == h);
                assert(p0.live().dom().contains(h));
                assert(h != nk) by {
                    assert(p0.live()[h].all_features@.contains(fk));
                }
            }
            proof {
                assert forall|j: int|
                    0 <= j < m && p0.feats()[fk].inputs@[j] == h implies j == i as int by {
                    if j != i as int {
                        assert(p0.feats()[fk].inputs@.no_duplicates());
                    }
                }
            }
            let hc = self.slab_inputs.get(h).complexity;
            if hc >= cplx {
                let pos = {
                    let inp = self.slab_inputs.get(h);
                    find_opt(&inp.least_complex_for_features, fk)
                };
                match pos {
                    Some(j) => {
                        let ghost before = self.live()[h].least_complex_for_features@;
                        let inp = self.slab_inputs.get_mut(h);
                        inp.least_complex_for_features.remove(j);
                        proof {
                            lemma_seq_remove_key(before, j as int);
                            assert(before.contains(fk));
                            assert(p0.live()[h].least_complex_for_features@.contains(fk)) by {
                                assert(before.contains(fk));
                            }
                        }
                        let empty_now = {
                            let inp2 = self.slab_inputs.get(h);
                            inp2.least_complex_for_features.len() == 0
                        };
                        if empty_now {
                            let ghost td_before = to_delete@;
                            proof {
                                assert(!td_before.contains(h)) by {
                                    if td_before.contains(h) {
                                        assert(before.len() == 0);
                                    }
                                }
                            }
                            insert_key_sorted(to_delete, h);
                            proof {
                                assert(to_delete@.contains(h));
                                assert forall|j2: int|
                                    0 <= j2 < to_delete@.len() implies {
                                    &&& self.live().dom().contains(#[trigger] to_delete@[j2])
                                    &&& self.live()[to_delete@[
                                        j2]].least_complex_for_features@.len() == 0
                                    &&& to_delete@[j2] != nk
                                } by {
                                    let y = to_delete@[j2];
                                    assert(to_delete@.contains(y));
                                    if y != h {
                                        assert(td_before.contains(y));
                                        let a = choose|a: int|
                                            0 <= a < td_before.len() && td_before[a] == y;
                                    }
                                }
                            }
                        }
                    },
                    None => {},
                }
            }
            i += 1;
        }
        // hand over the witness slot if the newcomer is at least as simple
        let least = self.slab_features.get(fk).least_complexity;
        if least >= cplx {
            let inp = self.slab_inputs.get_mut(nk);
            inp.least_complex_for_features.push(fk);
            proof {
                assert(!p0.live()[nk].least_complex_for_features@.contains(fk)) by {
                    if p0.live()[nk].least_complex_for_features@.contains(fk) {
                        assert(p0.live()[nk].all_features@.contains(fk));
                    }
                }
            }
            let fr = self.slab_features.get_mut(fk);
            fr.least_complex_input = nk;
            fr.least_complexity = cplx;
        }
        let fr = self.slab_features.get_mut(fk);
        fr.inputs.push(nk);
        let inp = self.slab_inputs.get_mut(nk);
        inp.all_features.push(fk);
        proof {
            let p1 = *self;
            assert(p1.live()[nk].all_features@ == p0.live()[nk].all_features@.push(fk));
            assert(p1.structural()) by {
                assert(p1.inputs_vec_ok());
                assert(p1.features_vec_ok());
                assert(p1.groups_vec_ok()) by {
                    assert(p1.feature_groups == p0.feature_groups);
                    assert(p1.grps() == p0.grps());
                    assert(p1.features@.len() == p0.features@.len());
                }
                assert(p1.linkage_ok()) by {
                    assert forall|fk2: usize|
                        #[trigger] p1.feats().dom().contains(fk2) implies {
                        &&& p1.grps().dom().contains(p1.feats()[fk2].group_key)
                        &&& p1.grps()[p1.feats()[fk2].group_key].id.id.bits == p1.feats()[
                        fk2].feature.spec_group_bits()
                    } by {
                        assert(p0.feats().dom().contains(fk2));
                    }
                    assert forall|j: int| 0 <= j < p1.features@.len() implies {
                        let g = p1.grps()[#[trigger] p1.owner_at(j)];
                        g.idcs_start <= j < g.idcs_end
                    } by {
                        assert(p1.owner_at(j) == p0.owner_at(j));
                    }
                    assert forall|i2: int, j: int|
                        0 <= i2 < p1.feature_groups@.len()
                            && p1.grps()[#[trigger] p1.feature_groups@[i2]].idcs_start <= j
                            < p1.grps()[p1.feature_groups@[i2]].idcs_end implies #[trigger] p1.owner_at(
                        j,
                    ) == p1.feature_groups@[i2] by {
                        assert(p1.owner_at(j) == p0.owner_at(j));
                        assert(p0.owner_at(j) == p0.feature_groups@[i2]);
                    }
                }
                assert(p1.feature_records_ok()) by {
                    assert forall|fk2: usize|
                        #[trigger] p1.feats().dom().contains(fk2) implies {
                        let fr2 = p1.feats()[fk2];
                        &&& fr2.inputs@.no_duplicates()
                        &&& fr2.inputs@.len() <= MAX_POOL_INPUTS
                        &&& fr2.old_multiplicity <= MAX_POOL_INPUTS
                        &&& forall|i2: int|
                            0 <= i2 < fr2.inputs@.len() ==> {
                                &&& p1.live().dom().contains(#[trigger] fr2.inputs@[i2])
                                &&& p1.live()[fr2.inputs@[i2]].all_features@.contains(fk2)
                                &&& fr2.least_complexity <= p1.live()[fr2.inputs@[i2]].complexity
                            }
                    } by {
                        assert(p0.feats().dom().contains(fk2));
                        let fr2 = p1.feats()[fk2];
                        let fr0 = p0.feats()[fk2];
                        if fk2 == fk {
                            assert(fr2.inputs@ == fr0.inputs@.push(nk));
                            assert(fr2.inputs@.no_duplicates()) by {
                                assert(!fr0.inputs@.contains(nk)) by {
                                    if fr0.inputs@.contains(nk) {
                                        assert(p0.live()[nk].all_features@.contains(fk));
                                    }
                                }
                            }
                            assert forall|i2: int| 0 <= i2 < fr2.inputs@.len() implies {
                                &&& p1.live().dom().contains(#[trigger] fr2.inputs@[i2])
                                &&& p1.live()[fr2.inputs@[i2]].all_features@.contains(fk2)
                                &&& fr2.least_complexity <= p1.live()[fr2.inputs@[i2]].complexity
                            } by {
                                if i2 == fr2.inputs@.len() - 1 {
                                    assert(fr2.inputs@[i2] == nk);
                                    assert(p1.live()[nk].all_features@.last() == fk);
                                } else {
                                    let k = fr2.inputs@[i2];
                                    assert(fr0.inputs@[i2] == k);
                                    assert(p0.live().dom().contains(k));
                                    assert(p0.live()[k].all_features@.contains(fk2));
                                    if k == nk {
                                        assert(false);
                                    }
                                    assert(p1.live()[k].all_features@ == p0.live()[
                                        k].all_features@);
                                    assert(fr0.least_complexity <= p0.live()[k].complexity);
                                }
                            }
                        } else {
                            assert(fr2 == fr0);
                            assert forall|i2: int| 0 <= i2 < fr2.inputs@.len() implies {
                                &&& p1.live().dom().contains(#[trigger] fr2.inputs@[i2])
                                &&& p1.live()[fr2.inputs@[i2]].all_features@.contains(fk2)
                                &&& fr2.least_complexity <= p1.live()[fr2.inputs@[i2]].complexity
                            } by {
                                let k = fr2.inputs@[i2];
                                assert(p0.live().dom().contains(k));
                                assert(p0.live()[k].all_features@.contains(fk2));
                                if k == nk {
                                    assert(p1.live()[nk].all_features@ == p0.live()[
                                        nk].all_features@.push(fk));
                                    let a = choose|a: int|
                                        0 <= a < p0.live()[nk].all_features@.len() && p0.live()[
                                            nk].all_features@[a] == fk2;
                                    assert(p1.live()[nk].all_features@[a] == fk2);
                                } else {
                                    assert(p1.live()[k].all_features@ == p0.live()[
                                        k].all_features@);
                                }
                            }
                        }
                    }
                }
                assert(p1.input_records_ok()) by {
                    assert forall|k: usize| #[trigger] p1.live().dom().contains(k) implies {
                        let inp2 = p1.live()[k];
                        &&& inp2.all_features@.no_duplicates()
                        &&& inp2.least_complex_for_features@.no_duplicates()
                        &&& inp2.all_features@.len() <= p1.features@.len()
                        &&& inp2.complexity <= MAX_COMPLEXITY
                        &&& forall|i2: int|
                            0 <= i2 < inp2.all_features@.len() ==> {
                                &&& p1.feats().dom().contains(#[trigger] inp2.all_features@[i2])
                                &&& p1.feats()[inp2.all_features@[i2]].inputs@.contains(k)
                            }
                        &&& forall|i2: int|
                            0 <= i2 < inp2.least_complex_for_features@.len() ==> {
                                &&& inp2.all_features@.contains(
                                    #[trigger] inp2.least_complex_for_features@[i2],
                                )
                                &&& p1.feats().dom().contains(
                                    inp2.least_complex_for_features@[i2],
                                )
                                &&& p1.feats()[inp2.least_complex_for_features@[
                                i2]].least_complexity == inp2.complexity
                            }
                    } by {
                        assert(p0.live().dom().contains(k));
                        let inp2 = p1.live()[k];
                        let inp0 = p0.live()[k];
                        if k == nk {
                            assert(inp2.all_features@ == inp0.all_features@.push(fk));
                            assert(inp2.all_features@.no_duplicates());
                            assert(inp2.all_features@.len() <= p1.features@.len()) by {
                                assert(p0.features_vec_ok());
                                assert(exists|a: int|
                                    0 <= a < p0.features@.len() && (
                                    #[trigger] p0.features@[a]).key == fk);
                                let a = choose|a: int|
                                    0 <= a < p0.features@.len() && (
                                    #[trigger] p0.features@[a]).key == fk;
                                assert(inp0.all_features@.len() < p0.features@.len()) by {
                                    lemma_distinct_members_bound(
                                        inp0.all_features@,
                                        p0.features@,
                                        fk,
                                    );
                                }
                            }
                            assert forall|i2: int|
                                0 <= i2 < inp2.all_features@.len() implies {
                                &&& p1.feats().dom().contains(#[trigger] inp2.all_features@[i2])
                                &&& p1.feats()[inp2.all_features@[i2]].inputs@.contains(k)
                            } by {
                                if i2 == inp2.all_features@.len() - 1 {
                                    assert(inp2.all_features@[i2] == fk);
                                    assert(p1.feats()[fk].inputs@.last() == nk);
                                } else {
                                    let fk2 = inp2.all_features@[i2];
                                    assert(inp0.all_features@[i2] == fk2);
                                    assert(p0.feats()[fk2].inputs@.contains(nk));
                                    if fk2 == fk {
                                        assert(false);
                                    }
                                    let a = choose|a: int|
                                        0 <= a < p0.feats()[fk2].inputs@.len() && p0.feats()[
                                            fk2].inputs@[a] == nk;
                                    assert(p1.feats()[fk2].inputs@[a] == nk);
                                }
                            }
                            assert forall|i2: int|
                                0 <= i2 < inp2.least_complex_for_features@.len() implies {
                                &&& inp2.all_features@.contains(
                                    #[trigger] inp2.least_complex_for_features@[i2],
                                )
                                &&& p1.feats().dom().contains(
                                    inp2.least_complex_for_features@[i2],
                                )
                                &&& p1.feats()[inp2.least_complex_for_features@[
                                i2]].least_complexity == inp2.complexity
                            } by {
                                let fk2 = inp2.least_complex_for_features@[i2];
                                if p0.feats()[fk].least_complexity >= cplx && i2
                                    == inp2.least_complex_for_features@.len() - 1 {
                                    assert(fk2 == fk);
                                    assert(inp2.all_features@.last() == fk);
                                    assert(p1.feats()[fk].least_complexity == cplx);
                                } else {
                                    assert(inp0.least_complex_for_features@[i2] == fk2);
                                    assert(inp0.all_features@.contains(fk2));
                                    let a = choose|a: int|
                                        0 <= a < inp0.all_features@.len()
                                            && inp0.all_features@[a] == fk2;
                                    assert(inp2.all_features@[a] == fk2);
                                    assert(fk2 != fk) by {
                                        if fk2 == fk {
                                            assert(inp0.all_features@.contains(fk));
                                        }
                                    }
                                    assert(p1.feats()[fk2].least_complexity == p0.feats()[
                                        fk2].least_complexity);
                                }
                            }
                            assert(inp2.least_complex_for_features@.no_duplicates()) by {
                                if p0.feats()[fk].least_complexity >= cplx {
                                    assert(inp2.least_complex_for_features@
                                        == inp0.least_complex_for_features@.push(fk));
                                    assert(!inp0.least_complex_for_features@.contains(fk)) by {
                                        if inp0.least_complex_for_features@.contains(fk) {
                                            assert(inp0.all_features@.contains(fk));
                                        }
                                    }
                                }
                            }
                        } else {
                            assert(inp2.all_features@ == inp0.all_features@);
                            assert forall|i2: int|
                                0 <= i2 < inp2.all_features@.len() implies {
                                &&& p1.feats().dom().contains(#[trigger] inp2.all_features@[i2])
                                &&& p1.feats()[inp2.all_features@[i2]].inputs@.contains(k)
                            } by {
                                let fk2 = inp2.all_features@[i2];
                                assert(p0.feats()[fk2].inputs@.contains(k));
                                if fk2 == fk {
                                    let a = choose|a: int|
                                        0 <= a < p0.feats()[fk].inputs@.len() && p0.feats()[
                                            fk].inputs@[a] == k;
                                    assert(p1.feats()[fk].inputs@[a] == k);
                                } else {
                                    assert(p1.feats()[fk2] == p0.feats()[fk2]);
                                }
                            }
                            assert forall|i2: int|
                                0 <= i2 < inp2.least_complex_for_features@.len() implies {
                                &&& inp2.all_features@.contains(
                                    #[trigger] inp2.least_complex_for_features@[i2],
                                )
                                &&& p1.feats().dom().contains(
                                    inp2.least_complex_for_features@[i2],
                                )
                                &&& p1.feats()[inp2.least_complex_for_features@[
                                i2]].least_complexity == inp2.complexity
                            } by {
                                let fk2 = inp2.least_complex_for_features@[i2];
                                assert(inp2.least_complex_for_features@.contains(fk2));
                                assert(inp0.least_complex_for_features@.contains(fk2));
                                let a = choose|a: int|
                                    0 <= a < inp0.least_complex_for_features@.len()
                                        && inp0.least_complex_for_features@[a] == fk2;
                                assert(inp0.all_features@.contains(fk2));
                                assert(fk2 != fk ==> p1.feats()[fk2].least_complexity
                                    == p0.feats()[fk2].least_complexity);
                                if fk2 == fk {
                                    assert(p0.feats()[fk].least_complexity
                                        == inp0.complexity);
                                    assert(p0.feats()[fk].least_complexity < cplx) by {
                                        if p0.feats()[fk].least_complexity >= cplx {
                                            assert(inp0.complexity >= cplx);
                                            assert(p0.feats()[fk].inputs@.contains(k));
                                            let b = choose|b: int|
                                                0 <= b < p0.feats()[fk].inputs@.len()
                                                    && p0.feats()[fk].inputs@[b] == k;
                                            assert(p0.live()[p0.feats()[
                                                fk].inputs@[b]].complexity >= cplx);
                                            assert(!inp2.least_complex_for_features@.contains(
                                                fk,
                                            ));
                                            assert(inp2.least_complex_for_features@[i2] == fk2);
                                        }
                                    }
                                    assert(p1.feats()[fk].least_complexity == p0.feats()[
                                        fk].least_complexity);
                                }
                            }
                        }
                    }
                }
                assert(p1.bounds_ok());
            }
            assert(p1.scored_except(nk)) by {
                assert forall|k: usize|
                    #[trigger] p1.live().dom().contains(k) && k != nk implies p1.live()[
                    k].score as int == sum_over(p1.live()[k].all_features@, p1.snap_term_fn()) by {
                    assert(p0.live().dom().contains(k));
                    assert(p1.live()[k].score == p0.live()[k].score);
                    assert(p1.live()[k].all_features@ == p0.live()[k].all_features@);
                    assert forall|i2: int|
                        0 <= i2 < p0.live()[k].all_features@.len() implies p0.snap_term_fn()(
                        #[trigger] p0.live()[k].all_features@[i2],
                    ) == p1.snap_term_fn()(p0.live()[k].all_features@[i2]) by {
                        let fk2 = p0.live()[k].all_features@[i2];
                        assert(p0.feats().dom().contains(fk2));
                        assert(p1.feats()[fk2].old_multiplicity == p0.feats()[
                            fk2].old_multiplicity);
                        assert(p1.feats()[fk2].group_key == p0.feats()[fk2].group_key);
                    }
                    lemma_sum_congruence(
                        p0.live()[k].all_features@,
                        p0.snap_term_fn(),
                        p1.snap_term_fn(),
                    );
                }
            }
        }
    }
}

impl<T> Pool<T> {
    /// Re-aim the score shares of every feature in the group of the feature
    /// with the given bits at the group's current size and the features'
    /// current multiplicities, then refresh the group's size snapshot.
    #[verifier::rlimit(100)]
    #[verifier::spinoff_prover]
    fn rescore_group(&mut self, anchor_bits: u64, skip: usize)
        requires
            old(self).structural(),
            old(self).scored_except(skip),
            exists|j: int|
                0 <= j < old(self).features@.len() && (#[trigger] old(self).features@[j]).feature.bits == anchor_bits,
        ensures
            final (self).structural(),
            final (self).scored_except(skip),
            final (self).live().dom() =~= old(self).live().dom(),
            forall|k: usize|
                #[trigger] final (self).live().dom().contains(k) ==> final (self).live()[k] == (
                Input { score: final (self).live()[k].score, ..old(self).live()[k] }),
            old(self).live().dom().contains(skip) ==> final (self).live()[skip].score == old(self).live()[skip].score,
            final (self).feats().dom() =~= old(self).feats().dom(),
            forall|fk: usize|
                #[trigger] final (self).feats().dom().contains(fk) ==> final (self).feats()[fk]
                    == (FeatureInPool {
                    old_multiplicity: final (self).feats()[fk].old_multiplicity,
                    ..old(self).feats()[fk]
                }),
            final (self).grps().dom() =~= old(self).grps().dom(),
            forall|gk: usize|
                #[trigger] final (self).grps().dom().contains(gk) ==> final (self).grps()[gk]
                    == (FeatureGroup {
                    old_size: final (self).grps()[gk].old_size,
                    ..old(self).grps()[gk]
                }),
            ({
                let gk = old(self).feats()[old(self).features@[choose|j: int|
                    0 <= j < old(self).features@.len() && (#[trigger] old(self).features@[j]).feature.bits == anchor_bits].key].group_key;
                &&& final (self).grps()[gk].old_size as int == final (self).grps()[
                    gk].spec_size()
                &&& forall|fk: usize|
                    #[trigger] final (self).feats().dom().contains(fk) ==> final (self).feats()[
                        fk].old_multiplicity == (if final (self).feats()[fk].group_key == gk {
                        final (self).feats()[fk].inputs@.len() as usize
                    } else {
                        old(self).feats()[fk].old_multiplicity
                    })
                &&& forall|gk2: usize|
                    #[trigger] final (self).grps().dom().contains(gk2) && gk2 != gk ==> final (self).grps()[gk2] == old(self).grps()[gk2]
            }),
            final (self).features == old(self).features,
            final (self).feature_groups == old(self).feature_groups,
            final (self).inputs == old(self).inputs,
            final (self).favored_input == old(self).favored_input,
            final (self).cumulative_weights == old(self).cumulative_weights,
            final (self).average_complexity == old(self).average_complexity,
            final (self).slab_inputs.spec_next_key() == old(self).slab_inputs.spec_next_key(),
            final (self).slab_features.spec_next_key() == old(self).slab_features.spec_next_key(),
    {
        let ghost p0 = *self;
        let anchor_idx = binary_search_feature(&self.features, anchor_bits);
        let ghost cj = choose|j: int|
            0 <= j < p0.features@.len() && (#[trigger] p0.features@[j]).feature.bits
                == anchor_bits;
        proof {
            assert(cj == anchor_idx as int) by {
                if cj < anchor_idx as int {
                    assert(p0.features@[cj].feature.bits < p0.features@[
                        anchor_idx as int].feature.bits);
                } else if cj > anchor_idx as int {
                    assert(p0.features@[anchor_idx as int].feature.bits < p0.features@[
                        cj].feature.bits);
                }
            }
        }
        let anchor_key = self.features[anchor_idx].key;
        let gk = self.slab_features.get(anchor_key).group_key;
        let start = self.slab_feature_groups.get(gk).idcs_start;
        let end = self.slab_feature_groups.get(gk).idcs_end;
        let ghost size = end - start;
        proof {
            assert(p0.owner_at(anchor_idx as int) == gk);
            assert(start <= anchor_idx < end);
            assert(1 <= size <= MAX_POOL_FEATURES);
            // positions determine keys uniquely
            assert forall|a: int, b: int|
                0 <= a < p0.features@.len() && 0 <= b < p0.features@.len() && p0.features@[a].key
                    == p0.features@[b].key implies a == b by {
                if a < b {
                    assert(p0.features@[a].feature.bits < p0.features@[b].feature.bits);
                    assert(p0.feats()[p0.features@[a].key].feature == p0.features@[a].feature);
                } else if b < a {
                    assert(p0.features@[b].feature.bits < p0.features@[a].feature.bits);
                    assert(p0.feats()[p0.features@[b].key].feature == p0.features@[b].feature);
                }
            }
        }
        let ghost t0 = p0.snap_term_fn();
        proof {
            assert forall|fk2: usize| 0 <= #[trigger] t0(fk2) <= SCORE_UNIT by {
                if p0.feats().dom().contains(fk2) {
                    lemma_score_of_bounds(
                        p0.grps()[p0.feats()[fk2].group_key].old_size as int,
                        p0.feats()[fk2].old_multiplicity as int,
                    );
                }
            }
        }
        let ghost mut t = t0;
        let mut j: usize = start;
        while j < end
            invariant
                start <= j <= end,
                p0.structural(),
                end <= p0.features@.len(),
                1 <= size <= MAX_POOL_FEATURES,
                size == end - start,
                p0.grps().dom().contains(gk),
                start == p0.grps()[gk].idcs_start,
                end == p0.grps()[gk].idcs_end,
                forall|a: int, b: int|
                    0 <= a < p0.features@.len() && 0 <= b < p0.features@.len()
                        && p0.features@[a].key == p0.features@[b].key ==> a == b,
                self.slabs_ok(),
                self.features == p0.features,
                self.feature_groups == p0.feature_groups,
                self.slab_feature_groups == p0.slab_feature_groups,
                self.inputs == p0.inputs,
                self.favored_input == p0.favored_input,
                self.cumulative_weights == p0.cumulative_weights,
                self.average_complexity == p0.average_complexity,
                self.slab_inputs.spec_next_key() == p0.slab_inputs.spec_next_key(),
                self.slab_features.spec_next_key() == p0.slab_features.spec_next_key(),
                t0 == p0.snap_term_fn(),
                self.live().dom() =~= p0.live().dom(),
                forall|k: usize|
                    #[trigger] self.live().dom().contains(k) ==> self.live()[k] == (Input {
                        score: self.live()[k].score,
                        ..p0.live()[k]
                    }),
                p0.live().dom().contains(skip) ==> self.live()[skip].score == p0.live()[
                    skip].score,
                self.feats().dom() =~= p0.feats().dom(),
                forall|fk: usize|
                    #[trigger] self.feats().dom().contains(fk) ==> self.feats()[fk] == (
                    FeatureInPool {
                        old_multiplicity: self.feats()[fk].old_multiplicity,
                        ..p0.feats()[fk]
                    }),
                forall|a: int|
                    start <= a < j ==> self.feats()[(#[trigger] p0.features@[a]).key].old_multiplicity
                        == self.feats()[p0.features@[a].key].inputs@.len(),
                forall|fk: usize|
                    #[trigger] self.feats().dom().contains(fk) ==> self.feats()[
                        fk].old_multiplicity == (if exists|a: int|
                        start <= a < j && (#[trigger] p0.features@[a]).key == fk {
                        self.feats()[fk].inputs@.len() as usize
                    } else {
                        p0.feats()[fk].old_multiplicity
                    }),
                t == (|fk: usize|
                    if exists|a: int| start <= a < j && (#[trigger] p0.features@[a]).key == fk {
                        spec_score_of(size as int, p0.feats()[fk].inputs@.len() as int)
                    } else {
                        t0(fk)
                    }),
                forall|fk2: usize| 0 <= #[trigger] t(fk2) <= SCORE_UNIT,
                forall|k: usize|
                    #[trigger] self.live().dom().contains(k) && k != skip ==> self.live()[
                        k].score as int == sum_over(self.live()[k].all_features@, t),
            decreases end - j,
        {
            let fk = self.features[j].key;
            proof {
                assert(p0.features@[j as int].key == fk);
                assert(p0.feats().dom().contains(fk));
                assert(!(exists|a: int|
                    start <= a < j && (#[trigger] p0.features@[a]).key == fk));
                assert(t(fk) == t0(fk));
                assert(self.feats()[fk].old_multiplicity == p0.feats()[fk].old_multiplicity);
                assert(self.snap_term(fk) == p0.snap_term(fk)) by {
                    assert(self.feats()[fk].group_key == p0.feats()[fk].group_key);
                    assert(self.grps() == p0.grps());
                }
                assert(t0(fk) == p0.snap_term(fk));
                assert(t(fk) == self.snap_term(fk));
                assert forall|i2: int|
                    0 <= i2 < self.feats()[fk].inputs@.len() implies {
                    &&& self.live().dom().contains(#[trigger] self.feats()[fk].inputs@[i2])
                    &&& self.live()[self.feats()[fk].inputs@[i2]].all_features@.contains(fk)
                } by {
                    assert(p0.feats()[fk].inputs@[i2] == self.feats()[fk].inputs@[i2]);
                    assert(p0.live()[p0.feats()[fk].inputs@[i2]].all_features@.contains(fk));
                }
                assert forall|k: usize|
                    #[trigger] self.live().dom().contains(k) && self.live()[
                        k].all_features@.contains(fk) implies self.feats()[fk].inputs@.contains(
                    k,
                ) by {
                    assert(p0.live()[k].all_features@.contains(fk));
                    assert(p0.feats()[fk].inputs@.contains(k));
                }
            }
            let use_size = end - start;
            let ghost pre = *self;
            self.retarget_feature_term(fk, use_size, skip, Ghost(t));
            proof {
                let nt = spec_score_of(size as int, pre.feats()[fk].inputs@.len() as int);
                t = retargeted(t, fk, nt);
                assert forall|fk2: usize|
                    #[trigger] self.feats().dom().contains(fk2) implies self.feats()[
                    fk2].old_multiplicity == (if exists|a: int|
                    start <= a < j + 1 && (#[trigger] p0.features@[a]).key == fk2 {
                    self.feats()[fk2].inputs@.len() as usize
                } else {
                    p0.feats()[fk2].old_multiplicity
                }) by {
                    if fk2 == fk {
                        assert(p0.features@[j as int].key == fk);
                    } else {
                        assert((exists|a: int|
                            start <= a < j + 1 && (#[trigger] p0.features@[a]).key == fk2)
                            == (exists|a: int|
                            start <= a < j && (#[trigger] p0.features@[a]).key == fk2)) by {
                            if exists|a: int|
                                start <= a < j + 1 && (#[trigger] p0.features@[a]).key == fk2 {
                                let a = choose|a: int|
                                    start <= a < j + 1 && (#[trigger] p0.features@[a]).key
                                        == fk2;
                                assert(a != j as int);
                            }
                        }
                    }
                }
                assert(t == (|fk2: usize|
                    if exists|a: int|
                        start <= a < j + 1 && (#[trigger] p0.features@[a]).key == fk2 {
                        spec_score_of(size as int, p0.feats()[fk2].inputs@.len() as int)
                    } else {
                        t0(fk2)
                    })) by {
                    assert forall|fk2: usize| true implies #[trigger] t(fk2) == (if exists|a: int|
                        start <= a < j + 1 && (#[trigger] p0.features@[a]).key == fk2 {
                        spec_score_of(size as int, p0.feats()[fk2].inputs@.len() as int)
                    } else {
                        t0(fk2)
                    }) by {
                        if fk2 == fk {
                            assert(p0.features@[j as int].key == fk);
                            assert(pre.feats()[fk].inputs@ == p0.feats()[fk].inputs@);
                        } else {
                            assert((exists|a: int|
                                start <= a < j + 1 && (#[trigger] p0.features@[a]).key == fk2)
                                == (exists|a: int|
                                start <= a < j && (#[trigger] p0.features@[a]).key == fk2)) by {
                                if exists|a: int|
                                    start <= a < j + 1 && (#[trigger] p0.features@[a]).key
                                        == fk2 {
                                    let a = choose|a: int|
                                        start <= a < j + 1 && (#[trigger] p0.features@[a]).key
                                            == fk2;
                                    assert(a != j as int);
                                }
                            }
                        }
                    }
                }
            }
            j += 1;
        }
        let g = self.slab_feature_groups.get_mut(gk);
        g.old_size = end - start;
        proof {
            let p1 = *self;
            // features of this group are exactly those at the group's range
            assert forall|fk: usize|
                #[trigger] p1.feats().dom().contains(fk) implies (p1.feats()[fk].group_key == gk)
                == (exists|a: int|
                start <= a < end && (#[trigger] p0.features@[a]).key == fk) by {
                if exists|a: int| start <= a < end && (#[trigger] p0.features@[a]).key == fk {
                    let a = choose|a: int|
                        start <= a < end && (#[trigger] p0.features@[a]).key == fk;
                    assert(p0.owner_at(a) == gk);
                } else {
                    if p1.feats()[fk].group_key == gk {
                        let a = choose|a: int|
                            0 <= a < p0.features@.len() && (#[trigger] p0.features@[a]).key
                                == fk;
                        assert(p0.owner_at(a) == gk);
                        assert(start <= a < end);
                    }
                }
            }
            assert forall|fk2: usize| #[trigger] p1.snap_term(fk2) == t(fk2) by {
                if p1.feats().dom().contains(fk2) {
                    if p1.feats()[fk2].group_key == gk {
                        assert(exists|a: int|
                            start <= a < end && (#[trigger] p0.features@[a]).key == fk2);
                        assert(p1.feats()[fk2].old_multiplicity == p1.feats()[
                            fk2].inputs@.len());
                        assert(p1.grps()[gk].old_size as int == size);
                        assert(p1.feats()[fk2].inputs@ == p0.feats()[fk2].inputs@);
                    } else {
                        assert(!(exists|a: int|
                            start <= a < end && (#[trigger] p0.features@[a]).key == fk2));
                        assert(p1.feats()[fk2].old_multiplicity == p0.feats()[
                            fk2].old_multiplicity);
                        assert(p1.grps()[p1.feats()[fk2].group_key] == p0.grps()[p0.feats()[
                            fk2].group_key]);
                    }
                }
            }
            assert forall|k: usize|
                #[trigger] p1.live().dom().contains(k) && k != skip implies p1.live()[
                k].score as int == sum_over(p1.live()[k].all_features@, p1.snap_term_fn()) by {
                assert(p1.live()[k].score as int == sum_over(p1.live()[k].all_features@, t));
                assert forall|i2: int|
                    0 <= i2 < p1.live()[k].all_features@.len() implies t(
                    #[trigger] p1.live()[k].all_features@[i2],
                ) == p1.snap_term_fn()(p1.live()[k].all_features@[i2]) by {}
                lemma_sum_congruence(p1.live()[k].all_features@, t, p1.snap_term_fn());
            }
            assert(p1.structural()) by {
                assert(p1.features_vec_ok()) by {
                    assert forall|i: int| 0 <= i < p1.features@.len() implies {
                        &&& p1.feats().dom().contains((#[trigger] p1.features@[i]).key)
                        &&& p1.feats()[p1.features@[i].key].key == p1.features@[i].key
                        &&& p1.feats()[p1.features@[i].key].feature == p1.features@[i].feature
                    } by {
                        assert(p0.feats().dom().contains(p0.features@[i].key));
                    }
                }
                assert(p1.groups_vec_ok()) by {
                    assert forall|i: int|
                        0 <= i < p1.feature_groups@.len() implies {
                        let g2 = p1.grps()[#[trigger] p1.feature_groups@[i]];
                        g2.idcs_start < g2.idcs_end && g2.idcs_end <= p1.features@.len()
                    } by {
                        assert(p0.grps().dom().contains(p0.feature_groups@[i]));
                    }
                    assert forall|gk2: usize|
                        #[trigger] p1.grps().dom().contains(gk2) implies 1 <= p1.grps()[
                        gk2].old_size <= MAX_POOL_FEATURES by {
                        assert(p0.grps().dom().contains(gk2));
                    }
                }
                assert(p1.linkage_ok()) by {
                    assert forall|j2: int| 0 <= j2 < p1.features@.len() implies {
                        let g2 = p1.grps()[#[trigger] p1.owner_at(j2)];
                        g2.idcs_start <= j2 < g2.idcs_end
                    } by {
                        assert(p1.owner_at(j2) == p0.owner_at(j2));
                    }
                    assert forall|i: int, j2: int|
                        0 <= i < p1.feature_groups@.len()
                            && p1.grps()[#[trigger] p1.feature_groups@[i]].idcs_start <= j2
                            < p1.grps()[p1.feature_groups@[i]].idcs_end implies #[trigger] p1.owner_at(
                        j2,
                    ) == p1.feature_groups@[i] by {
                        assert(p1.owner_at(j2) == p0.owner_at(j2));
                        assert(p0.owner_at(j2) == p0.feature_groups@[i]);
                    }
                }
                assert(p1.feature_records_ok()) by {
                    assert forall|fk2: usize|
                        #[trigger] p1.feats().dom().contains(fk2) implies {
                        let fr2 = p1.feats()[fk2];
                        &&& fr2.inputs@.no_duplicates()
                        &&& fr2.inputs@.len() <= MAX_POOL_INPUTS
                        &&& fr2.old_multiplicity <= MAX_POOL_INPUTS
                        &&& forall|i2: int|
                            0 <= i2 < fr2.inputs@.len() ==> {
                                &&& p1.live().dom().contains(#[trigger] fr2.inputs@[i2])
                                &&& p1.live()[fr2.inputs@[i2]].all_features@.contains(fk2)
                                &&& fr2.least_complexity <= p1.live()[fr2.inputs@[i2]].complexity
                            }
                    } by {
                        assert(p0.feats().dom().contains(fk2));
                        let fr2 = p1.feats()[fk2];
                        assert(fr2.inputs@ == p0.feats()[fk2].inputs@);
                        assert(fr2.old_multiplicity <= MAX_POOL_INPUTS) by {
                            if p1.feats()[fk2].group_key == gk {
                            }
                        }
                        assert forall|i2: int| 0 <= i2 < fr2.inputs@.len() implies {
                            &&& p1.live().dom().contains(#[trigger] fr2.inputs@[i2])
                            &&& p1.live()[fr2.inputs@[i2]].all_features@.contains(fk2)
                            &&& fr2.least_complexity <= p1.live()[fr2.inputs@[i2]].complexity
                        } by {
                            assert(p0.feats()[fk2].inputs@[i2] == fr2.inputs@[i2]);
                            assert(p0.live().dom().contains(fr2.inputs@[i2]));
                            assert(p0.live()[fr2.inputs@[i2]].all_features@.contains(fk2));
                        }
                    }
                }
                assert(p1.input_records_ok()) by {
                    assert forall|k: usize| #[trigger] p1.live().dom().contains(k) implies {
                        let inp = p1.live()[k];
                        &&& inp.all_features@.no_duplicates()
                        &&& inp.least_complex_for_features@.no_duplicates()
                        &&& inp.all_features@.len() <= p1.features@.len()
                        &&& inp.complexity <= MAX_COMPLEXITY
                        &&& forall|i2: int|
                            0 <= i2 < inp.all_features@.len() ==> {
                                &&& p1.feats().dom().contains(#[trigger] inp.all_features@[i2])
                                &&& p1.feats()[inp.all_features@[i2]].inputs@.contains(k)
                            }
                        &&& forall|i2: int|
                            0 <= i2 < inp.least_complex_for_features@.len() ==> {
                                &&& inp.all_features@.contains(
                                    #[trigger] inp.least_complex_for_features@[i2],
                                )
                                &&& p1.feats().dom().contains(
                                    inp.least_complex_for_features@[i2],
                                )
                                &&& p1.feats()[inp.least_complex_for_features@[
                                i2]].least_complexity == inp.complexity
                            }
                    } by {
                        assert(p0.live().dom().contains(k));
                        let inp = p1.live()[k];
                        assert(inp.all_features@ == p0.live()[k].all_features@);
                        assert(inp.least_complex_for_features@ == p0.live()[
                            k].least_complex_for_features@);
                        assert forall|i2: int| 0 <= i2 < inp.all_features@.len() implies {
                            &&& p1.feats().dom().contains(#[trigger] inp.all_features@[i2])
                            &&& p1.feats()[inp.all_features@[i2]].inputs@.contains(k)
                        } by {
                            assert(p0.feats().dom().contains(inp.all_features@[i2]));
                            assert(p0.feats()[inp.all_features@[i2]].inputs@.contains(k));
                        }
                        assert forall|i2: int|
                            0 <= i2 < inp.least_complex_for_features@.len() implies {
                            &&& inp.all_features@.contains(
                                #[trigger] inp.least_complex_for_features@[i2],
                            )
                            &&& p1.feats().dom().contains(inp.least_complex_for_features@[i2])
                            &&& p1.feats()[inp.least_complex_for_features@[
                            i2]].least_complexity == inp.complexity
                        } by {
                            assert(p0.feats().dom().contains(
                                inp.least_complex_for_features@[i2],
                            ));
                        }
                    }
                }
            }
        }
    }
}

/// A duplicate-free sequence over a finite set missing one of its elements
/// is strictly shorter than the set is large.
proof fn lemma_distinct_in_set(s: Seq<usize>, d: Set<usize>, missing: usize)
    requires
        s.no_duplicates(),
        forall|i: int| 0 <= i < s.len() ==> d.contains(#[trigger] s[i]),
        !s.contains(missing),
        d.contains(missing),
        d.finite(),
    ensures
        s.len() < d.len(),
{
    s.unique_seq_to_set();
    vstd::seq_lib::seq_to_set_is_finite(s);
    assert forall|x: usize| s.to_set().contains(x) implies d.remove(missing).contains(x) by {
        let i = choose|i: int| 0 <= i < s.len() && s[i] == x;
    }
    vstd::set_lib::lemma_len_subset(s.to_set(), d.remove(missing));
    assert(d.remove(missing).len() == d.len() - 1);
}

/// The live inputs are exactly the handles in the input vector, so their
/// number is the vector's length.
proof fn lemma_live_card<T>(p: Pool<T>)
    requires
        p.inputs_vec_ok(),
    ensures
        p.live().dom().finite(),
        p.live().dom().len() == p.inputs@.len(),
        p.live().dom() =~= p.inputs@.to_set(),
{
    assert(p.inputs@.no_duplicates()) by {
        assert forall|i: int, j: int|
            0 <= i < p.inputs@.len() && 0 <= j < p.inputs@.len() && i != j implies p.inputs@[i]
            != p.inputs@[j] by {
            if p.inputs@[i] == p.inputs@[j] {
                assert(p.live()[p.inputs@[i]].idx_in_pool == i);
                assert(p.live()[p.inputs@[j]].idx_in_pool == j);
            }
        }
    }
    p.inputs@.unique_seq_to_set();
    vstd::seq_lib::seq_to_set_is_finite(p.inputs@);
    assert(p.live().dom() =~= p.inputs@.to_set()) by {
        assert forall|k: usize| #[trigger] p.live().dom().contains(k) implies p.inputs@.to_set(
        ).contains(k) by {
            assert(p.inputs@[p.live()[k].idx_in_pool as int] == k);
        }
    }
}

impl<T> Pool<T> {
    /// The multiplicity snapshot of `fk` agrees with its current holder count.
    pub open spec fn mult_current(self, fk: usize) -> bool {
        self.feats()[fk].old_multiplicity == self.feats()[fk].inputs@.len()
    }

    /// The size snapshot of group `gk` agrees with its current size.
    pub open spec fn size_current(self, gk: usize) -> bool {
        self.grps()[gk].old_size as int == self.grps()[gk].spec_size()
    }

}


impl<T> Pool<T> {
    /// The state of the pool part-way through processing the existing
    /// features of an admission: the first `i` entries of `ef` have been
    /// processed for the newcomer `nk`, relative to the pre-admission state
    /// `p0` and the state `p_a` right after the newcomer's insertion.
    pub open spec fn adding_existing_inv(
        p0: Pool<T>,
        p_a: Pool<T>,
        p: Pool<T>,
        td: Seq<usize>,
        ef: Seq<usize>,
        nk: usize,
        data: T,
        complexity: u64,
        i: int,
    ) -> bool {
        &&& (0 <= i <= ef.len())
        &&& (p_a.structural())
        &&& (p_a.live().dom().contains(nk))
        &&& (p_a.live()[nk].complexity == complexity)
        &&& (p_a.live()[nk].all_features@.len() == 0)
        &&& (p_a.live()[nk].least_complex_for_features@.len() == 0)
        &&& (p_a.live()[nk].data == data)
        &&& (p_a.inputs@.len() == p0.inputs@.len() + 1)
        &&& (p_a.inputs@.len() <= MAX_POOL_INPUTS)
        &&& (p_a.features == p0.features)
        &&& (p_a.feats() == p0.feats())
        &&& (p_a.grps() == p0.grps())
        &&& (p0.snapshots_current())
        &&& (
                forall|i2: int|
                    0 <= i2 < ef.len() ==> p_a.feats().dom().contains(
                        #[trigger] ef[i2],
                    )
        )
        &&& (
                forall|a: int, b: int|
                    0 <= a < b < ef.len() ==> p_a.feats()[(
                    #[trigger] ef[a])].feature.bits < p_a.feats()[(
                    #[trigger] ef[b])].feature.bits
        )
        &&& (p.structural())
        &&& (p.scored_except(nk))
        &&& (p.live().dom() =~= p_a.live().dom())
        &&& (p.feats().dom() =~= p_a.feats().dom())
        &&& (p.features == p_a.features)
        &&& (p.feature_groups == p_a.feature_groups)
        &&& (p.slab_feature_groups == p_a.slab_feature_groups)
        &&& (p.inputs == p_a.inputs)
        &&& (p.favored_input == p_a.favored_input)
        &&& (p.cumulative_weights == p_a.cumulative_weights)
        &&& (p.average_complexity == p_a.average_complexity)
        &&& (p.live()[nk].all_features@ == ef.subrange(0, i))
        &&& (p.live()[nk].complexity == complexity)
        &&& (p.live()[nk].data == data)
        &&& (p.live()[nk].score == p_a.live()[nk].score)
        &&& (p.live()[nk].idx_in_pool == p_a.live()[nk].idx_in_pool)
        &&& (
                forall|k: usize|
                    #[trigger] p.live().dom().contains(k) && k != nk ==> {
                        &&& p.live()[k].data == p_a.live()[k].data
                        &&& p.live()[k].complexity == p_a.live()[k].complexity
                        &&& p.live()[k].idx_in_pool == p_a.live()[k].idx_in_pool
                        &&& p.live()[k].all_features@ == p_a.live()[k].all_features@
                        &&& p.live()[k].score == p_a.live()[k].score
                    }
        )
        &&& (
                forall|fk: usize|
                    #[trigger] p.feats().dom().contains(fk)
                        && !ef.subrange(0, i).contains(fk)
                        ==> p.feats()[fk] == p_a.feats()[fk]
        )
        &&& (
                forall|fk: usize|
                    #[trigger] p.feats().dom().contains(fk) ==> {
                        &&& p.feats()[fk].feature == p_a.feats()[fk].feature
                        &&& p.feats()[fk].group_key == p_a.feats()[fk].group_key
                        &&& p.feats()[fk].old_multiplicity == p_a.feats()[
                        fk].old_multiplicity
                        &&& p.feats()[fk].least_complexity <= p_a.feats()[
                        fk].least_complexity
                    }
        )
        &&& (
                forall|fk: usize|
                    #[trigger] p.feats().dom().contains(fk) ==> (p.mult_current(fk)
                        || ef.subrange(0, i).contains(fk))
        )
        &&& (forall|x: usize|
            #[trigger] p.live()[nk].least_complex_for_features@.contains(x) <==> exists|j: int|
                0 <= j < i && #[trigger] ef[j] == x && p_a.feats()[ef[j]].least_complexity
                    >= complexity)
        &&& (
                forall|k: usize|
                    #[trigger] p.live().dom().contains(k) && k != nk ==> forall|x: usize|
                        p.live()[k].least_complex_for_features@.contains(x) <==> (p_a.live()[
                            k].least_complex_for_features@.contains(x) && !(
                        ef.subrange(0, i).contains(x) && p_a.feats()[
                            x].least_complexity >= complexity))
        )
        &&& (
                forall|j: int|
                    0 <= j < i ==> {
                        let fk = #[trigger] ef[j];
                        &&& p.feats()[fk].inputs@ == p_a.feats()[fk].inputs@.push(nk)
                        &&& p.feats()[fk].least_complexity == (if p_a.feats()[
                            fk].least_complexity >= complexity {
                            complexity
                        } else {
                            p_a.feats()[fk].least_complexity
                        })
                        &&& (p_a.feats()[fk].least_complexity >= complexity ==> p.feats()[
                        fk].least_complex_input == nk)
                    }
        )
        &&& (
                forall|a: int, b: int|
                    0 <= a < b < td.len() ==> td[a] < td[b]
        )
        &&& (
                forall|j: int|
                    0 <= j < td.len() ==> {
                        &&& p.live().dom().contains(#[trigger] td[j])
                        &&& p.live()[td[j]].least_complex_for_features@.len() == 0
                        &&& td[j] != nk
                    }
        )
        &&& (
                forall|k: usize|
                    #[trigger] p.live().dom().contains(k) && k != nk && p.live()[
                        k].least_complex_for_features@.len() == 0 ==> td.contains(k)
        )
    }
}

impl<T> Pool<T> {
    /// One step of processing the existing features of an admission.
    #[verifier::rlimit(100)]
    #[verifier::spinoff_prover]
    fn process_existing_step(
        &mut self,
        existing_features: &Vec<usize>,
        i: usize,
        nk: usize,
        complexity: u64,
        to_delete: &mut Vec<usize>,
        Ghost(p0): Ghost<Pool<T>>,
        Ghost(p_a): Ghost<Pool<T>>,
        Ghost(data): Ghost<T>,
    )
        requires
            i < existing_features@.len(),
            Pool::adding_existing_inv(
                p0,
                p_a,
                *old(self),
                old(to_delete)@,
                existing_features@,
                nk,
                data,
                complexity,
                i as int,
            ),
        ensures
            Pool::adding_existing_inv(
                p0,
                p_a,
                *final (self),
                final (to_delete)@,
                existing_features@,
                nk,
                data,
                complexity,
                i as int + 1,
            ),
    {
            let fk = existing_features[i];
            let ghost prefix = existing_features@.subrange(0, i as int);
            proof {
                assert(existing_features@[i as int] == fk);
                assert(!prefix.contains(fk)) by {
                    if prefix.contains(fk) {
                        let a = choose|a: int| 0 <= a < prefix.len() && prefix[a] == fk;
                        assert(p_a.feats()[existing_features@[a]].feature.bits == p_a.feats()[
                            existing_features@[i as int]].feature.bits);
                    }
                }
                assert(self.feats()[fk] == p_a.feats()[fk]);
                assert(!self.live()[nk].all_features@.contains(fk)) by {
                    if self.live()[nk].all_features@.contains(fk) {
                        let a = choose|a: int|
                            0 <= a < prefix.len() && #[trigger] prefix[a] == fk;
                        assert(prefix.contains(fk));
                    }
                }
                assert(self.feats()[fk].inputs@.len() < MAX_POOL_INPUTS) by {
                    lemma_live_card(*self);
                    assert(!self.feats()[fk].inputs@.contains(nk)) by {
                        if self.feats()[fk].inputs@.contains(nk) {
                            assert(self.live()[nk].all_features@.contains(fk));
                        }
                    }
                    lemma_distinct_in_set(
                        self.feats()[fk].inputs@,
                        self.live().dom(),
                        nk,
                    );
                }
            }
            let ghost pre = *self;
            self.process_existing_feature(fk, nk, complexity, to_delete);
            proof {
                assert(existing_features@.subrange(0, i as int + 1) =~= prefix.push(fk));
                assert(self.live()[nk].all_features@ =~= existing_features@.subrange(
                    0,
                    i as int + 1,
                ));
                assert forall|fk2: usize|
                    #[trigger] self.feats().dom().contains(fk2)
                        && !existing_features@.subrange(0, i as int + 1).contains(fk2) implies
                    self.feats()[fk2] == p_a.feats()[fk2] by {
                    assert(fk2 != fk) by {
                        assert(existing_features@.subrange(0, i as int + 1)[i as int] == fk);
                    }
                    assert(!prefix.contains(fk2)) by {
                        if prefix.contains(fk2) {
                            let a = choose|a: int| 0 <= a < prefix.len() && prefix[a] == fk2;
                            assert(existing_features@.subrange(0, i as int + 1)[a] == fk2);
                        }
                    }
                    assert(pre.feats()[fk2] == p_a.feats()[fk2]);
                }
                assert forall|fk2: usize|
                    #[trigger] self.feats().dom().contains(fk2) implies (self.mult_current(fk2)
                        || existing_features@.subrange(0, i as int + 1).contains(fk2)) by {
                    if fk2 != fk {
                        if pre.mult_current(fk2) {
                            assert(self.feats()[fk2] == pre.feats()[fk2]);
                        } else {
                            assert(prefix.contains(fk2));
                            let a = choose|a: int| 0 <= a < prefix.len() && prefix[a] == fk2;
                            assert(existing_features@.subrange(0, i as int + 1)[a] == fk2);
                        }
                    } else {
                        assert(existing_features@.subrange(0, i as int + 1)[i as int] == fk);
                    }
                }
                assert forall|k: usize|
                    #[trigger] self.live().dom().contains(k) && k != nk implies forall|x: usize|
                    self.live()[k].least_complex_for_features@.contains(x) <==> (p_a.live()[
                        k].least_complex_for_features@.contains(x) && !(
                    existing_features@.subrange(0, i as int + 1).contains(x) && p_a.feats()[
                        x].least_complexity >= complexity)) by {
                    let ext = existing_features@.subrange(0, i as int + 1);
                    assert(ext =~= prefix.push(fk));
                    assert(pre.live().dom().contains(k));
                    assert forall|x: usize|
                        self.live()[k].least_complex_for_features@.contains(x) <==> (
                        p_a.live()[k].least_complex_for_features@.contains(x) && !(
                        ext.contains(x) && p_a.feats()[x].least_complexity >= complexity)) by {
                        assert(ext.contains(x) <==> (prefix.contains(x) || x == fk)) by {
                            if ext.contains(x) {
                                let a = choose|a: int| 0 <= a < ext.len() && ext[a] == x;
                                if a < prefix.len() {
                                    assert(prefix[a] == x);
                                }
                            }
                            if prefix.contains(x) {
                                let a = choose|a: int|
                                    0 <= a < prefix.len() && prefix[a] == x;
                                assert(ext[a] == x);
                            }
                            if x == fk {
                                assert(ext[i as int] == x);
                            }
                        }
                        assert(self.live()[k].least_complex_for_features@.contains(x) <==> (
                        pre.live()[k].least_complex_for_features@.contains(x) && !(x == fk
                            && pre.feats()[fk].least_complexity >= complexity)));
                        assert(pre.feats()[fk].least_complexity == p_a.feats()[
                            fk].least_complexity);
                    }
                }
                assert forall|j: int|
                    0 <= j < i + 1 implies {
                    let fk2 = #[trigger] existing_features@[j];
                    &&& self.feats()[fk2].inputs@ == p_a.feats()[fk2].inputs@.push(nk)
                    &&& self.feats()[fk2].least_complexity == (if p_a.feats()[
                        fk2].least_complexity >= complexity {
                        complexity
                    } else {
                        p_a.feats()[fk2].least_complexity
                    })
                    &&& (p_a.feats()[fk2].least_complexity >= complexity ==> self.feats()[
                    fk2].least_complex_input == nk)
                } by {
                    let fk2 = existing_features@[j];
                    if j == i as int {
                        assert(pre.feats()[fk].least_complexity == p_a.feats()[
                            fk].least_complexity);
                        assert(pre.feats()[fk].inputs@ == p_a.feats()[fk].inputs@);
                    } else {
                        assert(fk2 != fk) by {
                            if fk2 == fk {
                                assert(p_a.feats()[existing_features@[j]].feature.bits
                                    == p_a.feats()[existing_features@[i as int]].feature.bits);
                            }
                        }
                        assert(self.feats()[fk2] == pre.feats()[fk2]);
                    }
                }
                assert forall|j: int|
                    0 <= j < i + 1 && p_a.feats()[(
                    #[trigger] existing_features@[j])].least_complexity >= complexity implies
                    self.live()[nk].least_complex_for_features@.contains(
                    existing_features@[j],
                ) by {
                    if j < i {
                        assert(pre.live()[nk].least_complex_for_features@.contains(
                            existing_features@[j],
                        ));
                        if pre.feats()[fk].least_complexity >= complexity {
                            assert(self.live()[nk].least_complex_for_features@ == pre.live()[
                                nk].least_complex_for_features@.push(fk));
                            let a = choose|a: int|
                                0 <= a < pre.live()[nk].least_complex_for_features@.len()
                                    && pre.live()[nk].least_complex_for_features@[a]
                                    == existing_features@[j];
                            assert(self.live()[nk].least_complex_for_features@[a]
                                == existing_features@[j]);
                        }
                    } else {
                        assert(pre.feats()[fk].least_complexity == p_a.feats()[
                            fk].least_complexity);
                        assert(self.live()[nk].least_complex_for_features@.last() == fk);
                    }
                }
            }
    }
}

impl<T: PoolValue> Pool<T> {
    /// Admit an input: insert it, process its features, sweep away inputs
    /// that stopped being witnesses, propagate all score changes, and report
    /// what happened.
    #[verifier::rlimit(100)]
    #[verifier::spinoff_prover]
    pub fn add(
        &mut self,
        data: T,
        complexity: u64,
        existing_features: Vec<usize>,
        new_features: Vec<Feature>,
    ) -> (r: Vec<PoolEvent<T>>)
        requires
            old(self).wf(),
            complexity <= MAX_COMPLEXITY,
            old(self).inputs@.len() < MAX_POOL_INPUTS,
            old(self).features@.len() + new_features@.len() <= MAX_POOL_FEATURES,
            forall|i: int|
                0 <= i < existing_features@.len() ==> old(self).feats().dom().contains(
                    #[trigger] existing_features@[i],
                ),
            forall|i: int, j: int|
                0 <= i < j < existing_features@.len() ==> old(self).feats()[(
                #[trigger] existing_features@[i])].feature.bits < old(self).feats()[(
                #[trigger] existing_features@[j])].feature.bits,
            forall|i: int, j: int|
                0 <= i < new_features@.len() && 0 <= j < new_features@.len() && i < j ==> (
                #[trigger] new_features@[i]).bits < (#[trigger] new_features@[j]).bits,
            forall|i: int, j: int|
                0 <= i < new_features@.len() && 0 <= j < old(self).features@.len() ==> (
                #[trigger] old(self).features@[j]).feature.bits != (
                #[trigger] new_features@[i]).bits,
            new_features@.len() > 0 || exists|i: int|
                0 <= i < existing_features@.len() && old(self).feats()[(
                #[trigger] existing_features@[i])].least_complexity >= complexity,
        ensures
            final (self).wf(),
            final (self).favored_input == old(self).favored_input,
            final (self).inputs@.len() >= 1,
            final (self).features@.len() == old(self).features@.len() + new_features@.len(),
            final (self).live().dom().contains(old(self).slab_inputs.spec_next_key()),
            final (self).live()[old(self).slab_inputs.spec_next_key()].complexity == complexity,
            final (self).live()[old(self).slab_inputs.spec_next_key()].data == data,
            forall|k: usize|
                #[trigger] final (self).live().dom().contains(k) && k != old(
                    self,
                ).slab_inputs.spec_next_key() ==> {
                    &&& old(self).live().dom().contains(k)
                    &&& final (self).live()[k].data == old(self).live()[k].data
                    &&& final (self).live()[k].complexity == old(self).live()[k].complexity
                },
            ({
                let n = old(self).inputs@.len() + 1 - final (self).inputs@.len();
                &&& (n == 0 ==> r@.len() == 2 && r@[0] == PoolEvent::<T>::New && r@[1]
                    == PoolEvent::<T>::Add(data))
                &&& (n > 0 ==> exists|dk: Seq<usize>|
                    {
                        &&& dk.len() == n
                        &&& (forall|a: int, b: int| 0 <= a < b < dk.len() ==> dk[a] < dk[b])
                        &&& (forall|x: usize|
                            dk.contains(x) <==> (old(self).live().dom().contains(x) && !final (
                            self).live().dom().contains(x)))
                        &&& r@.len() == n + 1
                        &&& r@[0] == PoolEvent::<T>::Replace(n as usize)
                        &&& (forall|i: int|
                            0 <= i < n ==> #[trigger] r@[i + 1] == PoolEvent::<T>::Remove(
                                old(self).live()[dk[i]].data,
                            ))
                    })
            }),
            ({
                let nk = old(self).slab_inputs.spec_next_key();
                &&& final (self).live()[nk].all_features@.len() == existing_features@.len()
                    + new_features@.len()
                &&& (forall|i: int|
                    0 <= i < existing_features@.len()
                        ==> final (self).live()[nk].all_features@[i] == existing_features@[i])
                &&& (forall|k: usize|
                    #[trigger] final (self).live().dom().contains(k) && k != nk ==> {
                        &&& final (self).live()[k].all_features@ == old(self).live()[
                        k].all_features@
                        &&& forall|x: usize|
                            final (self).live()[k].least_complex_for_features@.contains(x)
                                <==> (old(self).live()[
                                k].least_complex_for_features@.contains(x)
                                && !(existing_features@.contains(x) && old(self).feats()[
                                x].least_complexity >= complexity))
                    })
            }),
    {
        let ghost p0 = *self;
        proof {
            p0.slab_inputs.lemma_key_bound();
        }
        // insert the input unconditionally
        let nk = self.insert_new_input(data, complexity);
        let ghost p_a = *self;
        // process the existing features
        let mut to_delete: Vec<usize> = Vec::new();
        proof {
            assert(Pool::adding_existing_inv(
                p0,
                p_a,
                *self,
                to_delete@,
                existing_features@,
                nk,
                data,
                complexity,
                0,
            )) by {
                assert(existing_features@.subrange(0, 0) =~= Seq::<usize>::empty());
                assert(self.live()[nk].all_features@ =~= existing_features@.subrange(0, 0));
                assert(self.live().dom() =~= p_a.live().dom());
                assert(self.feats().dom() =~= p_a.feats().dom());
                assert forall|x: usize|
                    !(#[trigger] self.live()[nk].least_complex_for_features@.contains(x)) by {
                    if self.live()[nk].least_complex_for_features@.contains(x) {
                        let a = choose|a: int|
                            0 <= a < self.live()[nk].least_complex_for_features@.len()
                                && self.live()[nk].least_complex_for_features@[a] == x;
                    }
                }
                assert forall|fk: usize|
                    #[trigger] self.feats().dom().contains(fk) implies (self.mult_current(fk)
                        || existing_features@.subrange(0, 0).contains(fk)) by {
                    assert(p0.feats().dom().contains(fk));
                    assert(self.feats()[fk] == p0.feats()[fk]);
                }
            }
        }
        let mut i: usize = 0;
        while i < existing_features.len()
            invariant
                0 <= i <= existing_features@.len(),
                Pool::adding_existing_inv(
                    p0,
                    p_a,
                    *self,
                    to_delete@,
                    existing_features@,
                    nk,
                    data,
                    complexity,
                    i as int,
                ),
            decreases existing_features@.len() - i,
        {
            self.process_existing_step(
                &existing_features,
                i,
                nk,
                complexity,
                &mut to_delete,
                Ghost(p0),
                Ghost(p_a),
                Ghost(data),
            );
            i += 1;
        }
        proof {
            assert(existing_features@.subrange(0, existing_features@.len() as int)
                =~= existing_features@);
        }
        let ghost p_b = *self;
        // register the new features
        let mut i: usize = 0;
        while i < new_features.len()
            invariant
                0 <= i <= new_features@.len(),
                p_b.structural(),
                p_b.live().dom().contains(nk),
                p_b.live()[nk].complexity == complexity,
                p_b.features@.len() == p0.features@.len(),
                p_b.features@.len() + new_features@.len() <= MAX_POOL_FEATURES,
                forall|a: int, b: int|
                    0 <= a < new_features@.len() && 0 <= b < new_features@.len() && a < b ==> (
                    #[trigger] new_features@[a]).bits < (#[trigger] new_features@[b]).bits,
                self.structural(),
                self.scored_except(nk),
                self.live().dom() =~= p_b.live().dom(),
                self.features@.len() == p_b.features@.len() + i,
                forall|a: int, j: int|
                    i <= a < new_features@.len() && 0 <= j < self.features@.len() ==> (
                    #[trigger] self.features@[j]).feature.bits != (
                    #[trigger] new_features@[a]).bits,
                self.inputs == p_b.inputs,
                self.favored_input == p_b.favored_input,
                self.cumulative_weights == p_b.cumulative_weights,
                self.average_complexity == p_b.average_complexity,
                self.live()[nk].complexity == complexity,
                self.live()[nk].data == data,
                self.live()[nk].score == p_b.live()[nk].score,
                self.live()[nk].idx_in_pool == p_b.live()[nk].idx_in_pool,
                self.live()[nk].all_features@.len() == p_b.live()[nk].all_features@.len() + i,
                forall|a: int|
                    0 <= a < p_b.live()[nk].all_features@.len() ==> #[trigger] self.live()[
                        nk].all_features@[a] == p_b.live()[nk].all_features@[a],
                self.live()[nk].least_complex_for_features@.len() == p_b.live()[
                    nk].least_complex_for_features@.len() + i,
                forall|k: usize|
                    #[trigger] self.live().dom().contains(k) && k != nk ==> self.live()[k]
                        == p_b.live()[k],
                forall|fk: usize|
                    #[trigger] p_b.feats().dom().contains(fk) ==> self.feats().dom().contains(fk)
                        && self.feats()[fk] == p_b.feats()[fk],
                forall|a: int, b: int|
                    0 <= a < b < to_delete@.len() ==> to_delete@[a] < to_delete@[b],
                forall|j: int|
                    0 <= j < to_delete@.len() ==> {
                        &&& self.live().dom().contains(#[trigger] to_delete@[j])
                        &&& self.live()[to_delete@[j]].least_complex_for_features@.len() == 0
                        &&& to_delete@[j] != nk
                    },
                forall|k: usize|
                    #[trigger] self.live().dom().contains(k) && k != nk && self.live()[
                        k].least_complex_for_features@.len() == 0 ==> to_delete@.contains(k),
            decreases new_features@.len() - i,
        {
            let f = new_features[i];
            let ghost pre = *self;
            let fk = self.insert_feature(f, nk, complexity);
            proof {
                assert forall|a: int, j: int|
                    i + 1 <= a < new_features@.len() && 0 <= j < self.features@.len() implies (
                #[trigger] self.features@[j]).feature.bits != (
                #[trigger] new_features@[a]).bits by {
                    if self.features@[j].feature.bits == new_features@[a].bits {
                        assert(new_features@[a].bits != f.bits);
                        assert(exists|j0: int|
                            0 <= j0 < pre.features@.len() && (#[trigger] pre.features@[j0]).feature
                                == self.features@[j].feature) by {
                            assert(self.feats().dom().contains(self.features@[j].key));
                            if self.features@[j].key == fk {
                                assert(self.features@[j].feature == f);
                            } else {
                                assert(pre.feats().dom().contains(self.features@[j].key));
                                let j0 = choose|j0: int|
                                    0 <= j0 < pre.features@.len() && (
                                    #[trigger] pre.features@[j0]).key == self.features@[j].key;
                                assert(pre.features@[j0].feature == pre.feats()[
                                    self.features@[j].key].feature);
                            }
                        }
                        let j0 = choose|j0: int|
                            0 <= j0 < pre.features@.len() && (#[trigger] pre.features@[j0]).feature
                                == self.features@[j].feature;
                        assert(pre.features@[j0].feature.bits != new_features@[a].bits);
                    }
                }
                assert forall|j: int|
                    0 <= j < to_delete@.len() implies {
                    &&& self.live().dom().contains(#[trigger] to_delete@[j])
                    &&& self.live()[to_delete@[j]].least_complex_for_features@.len() == 0
                    &&& to_delete@[j] != nk
                } by {
                    assert(pre.live().dom().contains(to_delete@[j]));
                    assert(self.live()[to_delete@[j]] == pre.live()[to_delete@[j]]);
                }
            }
            i += 1;
        }
        let ghost p_c = *self;
        // sweep the inputs that lost their last witness
        let ghost td = to_delete@;
        let n_deleted = to_delete.len();
        proof {
            assert(td.no_duplicates()) by {
                assert forall|a: int, b: int|
                    0 <= a < td.len() && 0 <= b < td.len() && a != b implies td[a] != td[b] by {
                    if a < b {
                        assert(td[a] < td[b]);
                    } else {
                        assert(td[b] < td[a]);
                    }
                }
            }
        }
        let removed_values = self.delete_elements(to_delete, nk);
        let ghost p_d = *self;
        proof {
            assert(p_d.live().dom().contains(nk));
        }
        // re-aim every group's score shares at the current sizes and
        // multiplicities, and refresh all snapshots
        let n_groups = self.feature_groups.len();
        let mut gi: usize = 0;
        while gi < n_groups
            invariant
                0 <= gi <= n_groups,
                p_d.structural(),
                p_d.live().dom().contains(nk),
                n_groups == p_d.feature_groups@.len(),
                self.structural(),
                self.scored_except(nk),
                self.live().dom() =~= p_d.live().dom(),
                self.feats().dom() =~= p_d.feats().dom(),
                self.grps().dom() =~= p_d.grps().dom(),
                self.features == p_d.features,
                self.feature_groups == p_d.feature_groups,
                self.inputs == p_d.inputs,
                self.favored_input == p_d.favored_input,
                self.cumulative_weights == p_d.cumulative_weights,
                self.average_complexity == p_d.average_complexity,
                forall|k: usize|
                    #[trigger] self.live().dom().contains(k) ==> self.live()[k] == (Input {
                        score: self.live()[k].score,
                        ..p_d.live()[k]
                    }),
                self.live()[nk].score == p_d.live()[nk].score,
                forall|fk: usize|
                    #[trigger] self.feats().dom().contains(fk) ==> self.feats()[fk] == (
                    FeatureInPool {
                        old_multiplicity: self.feats()[fk].old_multiplicity,
                        ..p_d.feats()[fk]
                    }),
                forall|gk: usize|
                    #[trigger] self.grps().dom().contains(gk) ==> self.grps()[gk] == (
                    FeatureGroup { old_size: self.grps()[gk].old_size, ..p_d.grps()[gk] }),
                forall|gi2: int|
                    0 <= gi2 < gi ==> {
                        &&& self.size_current(#[trigger] self.feature_groups@[gi2])
                        &&& forall|fk: usize|
                            #[trigger] self.feats().dom().contains(fk) && self.feats()[
                                fk].group_key == self.feature_groups@[gi2]
                                ==> self.mult_current(fk)
                    },
            decreases n_groups - gi,
        {
            let gk = self.feature_groups[gi];
            let start = self.slab_feature_groups.get(gk).idcs_start;
            let anchor_bits = self.features[start].feature.bits;
            let ghost pre = *self;
            proof {
                assert(pre.grps().dom().contains(gk));
                assert(pre.grps()[gk].idcs_start < pre.grps()[gk].idcs_end);
                assert(pre.features@[start as int].feature.bits == anchor_bits);
                assert(pre.owner_at(start as int) == gk);
                // the anchor is the unique feature with these bits
                assert forall|j: int|
                    0 <= j < pre.features@.len() && (#[trigger] pre.features@[j]).feature.bits
                        == anchor_bits implies j == start as int by {
                    if j < start as int {
                        assert(pre.features@[j].feature.bits < pre.features@[
                            start as int].feature.bits);
                    } else if j > start as int {
                        assert(pre.features@[start as int].feature.bits < pre.features@[
                            j].feature.bits);
                    }
                }
            }
            self.rescore_group(anchor_bits, nk);
            proof {
                let cj = choose|j: int|
                    0 <= j < pre.features@.len() && (#[trigger] pre.features@[j]).feature.bits
                        == anchor_bits;
                assert(cj == start as int);
                let agk = pre.feats()[pre.features@[cj].key].group_key;
                assert(agk == gk);
                assert forall|gi2: int|
                    0 <= gi2 < gi + 1 implies {
                    &&& self.size_current(#[trigger] self.feature_groups@[gi2])
                    &&& forall|fk: usize|
                        #[trigger] self.feats().dom().contains(fk) && self.feats()[fk].group_key
                            == self.feature_groups@[gi2] ==> self.mult_current(fk)
                } by {
                    let gk2 = self.feature_groups@[gi2];
                    if gi2 == gi as int {
                        assert(self.size_current(gk));
                        assert forall|fk: usize|
                            #[trigger] self.feats().dom().contains(fk) && self.feats()[
                                fk].group_key == gk implies self.mult_current(fk) by {}
                    } else {
                        assert(pre.size_current(gk2));
                        assert(self.grps()[gk2] == pre.grps()[gk2]);
                        assert forall|fk: usize|
                            #[trigger] self.feats().dom().contains(fk) && self.feats()[
                                fk].group_key == gk2 implies self.mult_current(fk) by {
                            assert(pre.feats().dom().contains(fk));
                            assert(pre.feats()[fk].group_key == gk2);
                            if self.feats()[fk].group_key == gk {
                                assert(gk2 == gk);
                                let a2 = choose|a2: int|
                                    0 <= a2 < pre.feature_groups@.len() && (
                                    #[trigger] pre.feature_groups@[a2]) == gk;
                                assert(pre.grps()[pre.feature_groups@[gi2]].id.id.bits
                                    == pre.grps()[pre.feature_groups@[gi as int]].id.id.bits
                                    ==> gi2 == gi as int);
                            } else {
                                assert(pre.mult_current(fk));
                                assert(self.feats()[fk].old_multiplicity == pre.feats()[
                                    fk].old_multiplicity);
                            }
                        }
                    }
                }
            }
            gi += 1;
        }
        let ghost p_e = *self;
        proof {
            assert forall|k: usize|
                #[trigger] p_e.live().dom().contains(k) implies p_e.live()[k] == (Input {
                score: p_e.live()[k].score,
                ..p_d.live()[k]
            }) by {}
            assert(p_e.live()[nk].least_complex_for_features@.len() > 0) by {
                assert(p_e.live()[nk].least_complex_for_features@ == p_d.live()[
                    nk].least_complex_for_features@);
                if new_features@.len() > 0 {
                    assert(p_c.live()[nk].least_complex_for_features@.len() > 0);
                    assert(p_d.live()[nk].least_complex_for_features@ == p_c.live()[
                        nk].least_complex_for_features@);
                } else {
                    let w = choose|w: int|
                        0 <= w < existing_features@.len() && old(self).feats()[(
                        #[trigger] existing_features@[w])].least_complexity >= complexity;
                    assert(p_b.live()[nk].least_complex_for_features@.contains(
                        existing_features@[w],
                    )) by {
                        assert(p_a.feats() == p0.feats());
                    }
                    assert(p_c.live()[nk].least_complex_for_features@.len() > 0);
                    assert(p_d.live()[nk].least_complex_for_features@ == p_c.live()[
                        nk].least_complex_for_features@);
                }
            }
        }
        let ghost p_f = *self;
        proof {
            assert(p_f.snapshots_current()) by {
                assert forall|gk: usize|
                    #[trigger] p_f.grps().dom().contains(gk) implies p_f.size_current(gk) by {
                    let gi2 = choose|gi2: int|
                        0 <= gi2 < p_f.feature_groups@.len() && (
                        #[trigger] p_f.feature_groups@[gi2]) == gk;
                    assert(p_f.size_current(p_f.feature_groups@[gi2]));
                }
                assert forall|fk: usize|
                    #[trigger] p_f.feats().dom().contains(fk) implies p_f.mult_current(fk) by {
                    let gk = p_f.feats()[fk].group_key;
                    assert(p_f.grps().dom().contains(gk));
                    let gi2 = choose|gi2: int|
                        0 <= gi2 < p_f.feature_groups@.len() && (
                        #[trigger] p_f.feature_groups@[gi2]) == gk;
                    assert(p_f.size_current(p_f.feature_groups@[gi2]));
                }
            }
        }
        // compute the newcomer's score from scratch
        self.finalize_new_input_score(nk);
        proof {
            let p_g = *self;
            assert(p_g.admission_ok()) by {
                assert forall|k: usize|
                    #[trigger] p_g.live().dom().contains(k) implies p_g.live()[
                    k].least_complex_for_features@.len() > 0 by {
                    assert(p_f.live().dom().contains(k));
                    assert(p_g.live()[k].least_complex_for_features@ == p_f.live()[
                        k].least_complex_for_features@);
                    if k == nk {
                        assert(p_e.live()[nk].least_complex_for_features@.len() > 0);
                        assert(p_f.live()[nk].least_complex_for_features@ == p_e.live()[
                            nk].least_complex_for_features@);
                    } else {
                        assert(p_d.live().dom().contains(k));
                        assert(!td.contains(k));
                        assert(p_c.live().dom().contains(k));
                        assert(p_c.live()[k].least_complex_for_features@.len() > 0);
                        assert(p_d.live()[k].least_complex_for_features@ == p_c.live()[
                            k].least_complex_for_features@);
                        assert(p_e.live()[k].least_complex_for_features@ == p_d.live()[
                            k].least_complex_for_features@);
                        assert(p_f.live()[k].least_complex_for_features@ == p_e.live()[
                            k].least_complex_for_features@);
                    }
                }
            }
        }
        self.update_stats();
        // report what happened
        let mut actions: Vec<PoolEvent<T>> = Vec::new();
        if n_deleted == 0 {
            actions.push(PoolEvent::New);
            let value = self.slab_inputs.get(nk).data.duplicate();
            actions.push(PoolEvent::Add(value));
            proof {
                assert(self.live()[nk].data == data);
                assert(actions@.len() == 2);
                assert(actions@[0] == PoolEvent::<T>::New);
                assert(actions@[1] == PoolEvent::<T>::Add(data));
                assert(self.inputs@.len() == p0.inputs@.len() + 1);
            }
        } else {
            actions.push(PoolEvent::Replace(n_deleted));
            let mut removed_values = removed_values;
            let ghost removed0 = removed_values@;
            let mut j: usize = 0;
            while j < n_deleted
                invariant
                    0 <= j <= n_deleted,
                    n_deleted == td.len(),
                    removed0.len() == n_deleted,
                    removed_values@ == removed0.subrange(j as int, n_deleted as int),
                    actions@.len() == j + 1,
                    actions@[0] == PoolEvent::<T>::Replace(n_deleted),
                    forall|a: int|
                        1 <= a <= j ==> #[trigger] actions@[a] == PoolEvent::<T>::Remove(
                            removed0[a - 1],
                        ),
                decreases n_deleted - j,
            {
                let v = removed_values.remove(0);
                proof {
                    assert(removed0.subrange(j as int, n_deleted as int)[0] == removed0[
                        j as int]);
                    assert(removed_values@ =~= removed0.subrange(j as int + 1, n_deleted as int));
                }
                actions.push(PoolEvent::Remove(v));
                j += 1;
            }
            proof {
                assert(self.inputs@.len() == p0.inputs@.len() + 1 - n_deleted);
                assert forall|x: usize|
                    td.contains(x) <==> (p0.live().dom().contains(x)
                        && !self.live().dom().contains(x)) by {
                    if td.contains(x) {
                        let a = choose|a: int| 0 <= a < td.len() && td[a] == x;
                        assert(p_c.live().dom().contains(x));
                        assert(x != nk);
                        assert(p_a.live().dom().contains(x));
                        assert(p0.live().dom().contains(x));
                        assert(!p_d.live().dom().contains(x));
                        assert(!self.live().dom().contains(x));
                    }
                    if p0.live().dom().contains(x) && !self.live().dom().contains(x) {
                        assert(p_a.live().dom().contains(x));
                        assert(p_c.live().dom().contains(x));
                        assert(!p_d.live().dom().contains(x));
                        assert(td.contains(x)) by {
                            if !td.contains(x) {
                                assert(p_d.live().dom().contains(x));
                            }
                        }
                    }
                }
                assert forall|a: int|
                    0 <= a < n_deleted implies #[trigger] actions@[a + 1]
                    == PoolEvent::<T>::Remove(p0.live()[td[a]].data) by {
                    let k = td[a];
                    assert(p_c.live().dom().contains(k));
                    assert(k != nk);
                    assert(p_a.live().dom().contains(k));
                    assert(actions@[a + 1] == PoolEvent::<T>::Remove(removed0[a]));
                    assert(removed0[a] == p_c.live()[k].data);
                    assert(p_c.live()[k].data == p0.live()[k].data) by {
                        assert(p_b.live()[k].data == p_a.live()[k].data);
                    }
                }
                assert(td.len() == p0.inputs@.len() + 1 - self.inputs@.len());
            }
        }
        proof {
            let p_fin = *self;
            // the newcomer's feature list and the survivors' lists
            assert(p_fin.live()[nk].all_features@.len() == existing_features@.len()
                + new_features@.len()) by {
                assert(p_fin.live()[nk].all_features@ == p_c.live()[nk].all_features@);
                assert(p_b.live()[nk].all_features@ == existing_features@.subrange(
                    0,
                    existing_features@.len() as int,
                ));
            }
            assert forall|i2: int|
                0 <= i2 < existing_features@.len() implies p_fin.live()[nk].all_features@[i2]
                == existing_features@[i2] by {
                assert(p_fin.live()[nk].all_features@ == p_c.live()[nk].all_features@);
                assert(p_c.live()[nk].all_features@[i2] == p_b.live()[nk].all_features@[i2]);
                assert(p_b.live()[nk].all_features@ == existing_features@.subrange(
                    0,
                    existing_features@.len() as int,
                ));
            }
            assert forall|k: usize|
                #[trigger] p_fin.live().dom().contains(k) && k != nk implies {
                &&& p_fin.live()[k].all_features@ == p0.live()[k].all_features@
                &&& forall|x: usize|
                    p_fin.live()[k].least_complex_for_features@.contains(x) <==> (p0.live()[
                        k].least_complex_for_features@.contains(x) && !(
                    existing_features@.contains(x) && p0.feats()[x].least_complexity
                        >= complexity))
            } by {
                assert(p_d.live().dom().contains(k));
                assert(p_c.live().dom().contains(k));
                assert(p_a.live().dom().contains(k));
                assert(p_fin.live()[k].all_features@ == p_d.live()[k].all_features@);
                assert(p_d.live()[k].all_features@ == p_c.live()[k].all_features@);
                assert(p_c.live()[k].all_features@ == p_b.live()[k].all_features@);
                assert(p_b.live()[k].all_features@ == p_a.live()[k].all_features@);
                assert(p_a.live()[k] == p0.live()[k]);
                assert(p_fin.live()[k].least_complex_for_features@ == p_d.live()[
                    k].least_complex_for_features@);
                assert(p_d.live()[k].least_complex_for_features@ == p_c.live()[
                    k].least_complex_for_features@);
                assert(p_c.live()[k].least_complex_for_features@ == p_b.live()[
                    k].least_complex_for_features@);
                assert forall|x: usize|
                    p_b.live()[k].least_complex_for_features@.contains(x) <==> (p0.live()[
                        k].least_complex_for_features@.contains(x) && !(
                    existing_features@.contains(x) && p0.feats()[x].least_complexity
                        >= complexity)) by {
                    assert(p_b.live()[k].least_complex_for_features@.contains(x) <==> (
                    p_a.live()[k].least_complex_for_features@.contains(x) && !(
                    existing_features@.subrange(
                        0,
                        existing_features@.len() as int,
                    ).contains(x) && p_a.feats()[x].least_complexity >= complexity)));
                    assert(existing_features@.subrange(0, existing_features@.len() as int)
                        =~= existing_features@);
                    assert(p_a.feats() == p0.feats());
                }
            }
        }
        proof {
            assert forall|k: usize|
                #[trigger] self.live().dom().contains(k) && k != nk implies {
                &&& p0.live().dom().contains(k)
                &&& self.live()[k].data == p0.live()[k].data
                &&& self.live()[k].complexity == p0.live()[k].complexity
            } by {
                assert(p_f.live().dom().contains(k));
                assert(p_d.live().dom().contains(k));
                assert(p_c.live().dom().contains(k));
                assert(p_a.live().dom().contains(k));
                assert(p0.live().dom().contains(k));
                assert(p_c.live()[k].data == p0.live()[k].data && p_c.live()[k].complexity
                    == p0.live()[k].complexity) by {
                    assert(p_b.live()[k].data == p_a.live()[k].data && p_b.live()[k].complexity
                        == p_a.live()[k].complexity);
                }
                assert(p_d.live()[k].data == p_c.live()[k].data && p_d.live()[k].complexity
                    == p_c.live()[k].complexity);
            }
            assert(self.live()[nk].data == data && self.live()[nk].complexity == complexity);
            assert(self.features@.len() == p0.features@.len() + new_features@.len());
        }
        actions
    }
}

impl<T> Pool<T> {
    /// Insert a fresh input record with empty feature lists and zero score.
    #[verifier::rlimit(100)]
    #[verifier::spinoff_prover]
    fn insert_new_input(&mut self, data: T, complexity: u64) -> (nk: usize)
        requires
            old(self).structural(),
            old(self).scored(),
            old(self).inputs@.len() < MAX_POOL_INPUTS,
            complexity <= MAX_COMPLEXITY,
        ensures
            final (self).structural(),
            final (self).scored_except(nk),
            nk == old(self).slab_inputs.spec_next_key(),
            !old(self).live().dom().contains(nk),
            final (self).live().dom() =~= old(self).live().dom().insert(nk),
            forall|k: usize|
                #[trigger] final (self).live().dom().contains(k) && k != nk ==> final (self).live()[
                    k] == old(self).live()[k],
            final (self).live()[nk].complexity == complexity,
            final (self).live()[nk].data == data,
            final (self).live()[nk].all_features@.len() == 0,
            final (self).live()[nk].least_complex_for_features@.len() == 0,
            final (self).live()[nk].score == 0,
            final (self).inputs@.len() == old(self).inputs@.len() + 1,
            final (self).features == old(self).features,
            final (self).feature_groups == old(self).feature_groups,
            final (self).slab_features == old(self).slab_features,
            final (self).slab_feature_groups == old(self).slab_feature_groups,
            final (self).favored_input == old(self).favored_input,
            final (self).cumulative_weights == old(self).cumulative_weights,
            final (self).average_complexity == old(self).average_complexity,
    {
        let ghost p0 = *self;
        let idx_in_pool = self.inputs.len();
        let element = Input {
            least_complex_for_features: Vec::new(),
            all_features: Vec::new(),
            score: 0u64,
            data,
            complexity,
            idx_in_pool,
        };
        let nk = self.slab_inputs.insert(element);
        self.inputs.push(nk);
        proof {
            assert(self.live().dom() =~= p0.live().dom().insert(nk));
            assert(self.structural()) by {
                assert forall|k: usize| #[trigger] self.live().dom().contains(k) implies {
                    &&& self.live()[k].idx_in_pool < self.inputs@.len()
                    &&& self.inputs@[self.live()[k].idx_in_pool as int] == k
                } by {
                    if k != nk {
                        assert(p0.live().dom().contains(k));
                        assert(self.inputs@[p0.live()[k].idx_in_pool as int] == k);
                    } else {
                        assert(self.inputs@[idx_in_pool as int] == nk);
                    }
                }
                assert forall|i: int| 0 <= i < self.inputs@.len() implies {
                    &&& self.live().dom().contains(#[trigger] self.inputs@[i])
                    &&& self.live()[self.inputs@[i]].idx_in_pool == i
                } by {
                    if i < p0.inputs@.len() {
                        assert(self.inputs@[i] == p0.inputs@[i]);
                        assert(p0.live()[p0.inputs@[i]].idx_in_pool == i);
                    }
                }
                assert(self.feats() == p0.feats());
                assert(self.grps() == p0.grps());
                assert(self.features_vec_ok()) by {
                    assert forall|i: int| 0 <= i < self.features@.len() implies {
                        &&& self.feats().dom().contains((#[trigger] self.features@[i]).key)
                        &&& self.feats()[self.features@[i].key].key == self.features@[i].key
                        &&& self.feats()[self.features@[i].key].feature == self.features@[
                        i].feature
                    } by {
                        assert(p0.feats().dom().contains(p0.features@[i].key));
                    }
                }
                assert(self.groups_vec_ok()) by {
                    assert(self.feature_groups == p0.feature_groups);
                    assert(self.features@.len() == p0.features@.len());
                }
                assert(self.linkage_ok()) by {
                    assert forall|j: int| 0 <= j < self.features@.len() implies {
                        let g = self.grps()[#[trigger] self.owner_at(j)];
                        g.idcs_start <= j < g.idcs_end
                    } by {
                        assert(self.owner_at(j) == p0.owner_at(j));
                    }
                    assert forall|i2: int, j: int|
                        0 <= i2 < self.feature_groups@.len()
                            && self.grps()[#[trigger] self.feature_groups@[i2]].idcs_start <= j
                            < self.grps()[self.feature_groups@[i2]].idcs_end implies #[trigger] self.owner_at(
                        j,
                    ) == self.feature_groups@[i2] by {
                        assert(self.owner_at(j) == p0.owner_at(j));
                        assert(p0.owner_at(j) == p0.feature_groups@[i2]);
                    }
                }
                assert(self.feature_records_ok()) by {
                    assert forall|fk: usize|
                        #[trigger] self.feats().dom().contains(fk) implies {
                        let fr = self.feats()[fk];
                        &&& fr.inputs@.no_duplicates()
                        &&& fr.inputs@.len() <= MAX_POOL_INPUTS
                        &&& fr.old_multiplicity <= MAX_POOL_INPUTS
                        &&& forall|i2: int|
                            0 <= i2 < fr.inputs@.len() ==> {
                                &&& self.live().dom().contains(#[trigger] fr.inputs@[i2])
                                &&& self.live()[fr.inputs@[i2]].all_features@.contains(fk)
                                &&& fr.least_complexity <= self.live()[fr.inputs@[i2]].complexity
                            }
                    } by {
                        let fr = p0.feats()[fk];
                        assert forall|i2: int| 0 <= i2 < fr.inputs@.len() implies {
                            &&& self.live().dom().contains(#[trigger] fr.inputs@[i2])
                            &&& self.live()[fr.inputs@[i2]].all_features@.contains(fk)
                            &&& fr.least_complexity <= self.live()[fr.inputs@[i2]].complexity
                        } by {
                            assert(p0.live().dom().contains(fr.inputs@[i2]));
                            assert(fr.inputs@[i2] != nk);
                        }
                    }
                }
                assert(self.input_records_ok()) by {
                    assert forall|k: usize| #[trigger] self.live().dom().contains(k) implies {
                        let inp = self.live()[k];
                        &&& inp.all_features@.no_duplicates()
                        &&& inp.least_complex_for_features@.no_duplicates()
                        &&& inp.all_features@.len() <= self.features@.len()
                        &&& inp.complexity <= MAX_COMPLEXITY
                        &&& forall|i2: int|
                            0 <= i2 < inp.all_features@.len() ==> {
                                &&& self.feats().dom().contains(#[trigger] inp.all_features@[i2])
                                &&& self.feats()[inp.all_features@[i2]].inputs@.contains(k)
                            }
                        &&& forall|i2: int|
                            0 <= i2 < inp.least_complex_for_features@.len() ==> {
                                &&& inp.all_features@.contains(
                                    #[trigger] inp.least_complex_for_features@[i2],
                                )
                                &&& self.feats().dom().contains(
                                    inp.least_complex_for_features@[i2],
                                )
                                &&& self.feats()[inp.least_complex_for_features@[
                                i2]].least_complexity == inp.complexity
                            }
                    } by {
                        if k != nk {
                            assert(p0.live().dom().contains(k));
                            assert(self.live()[k] == p0.live()[k]);
                        } else {
                            assert(self.live()[nk].all_features@.len() == 0);
                            assert(self.live()[nk].least_complex_for_features@.len() == 0);
                        }
                    }
                }
            }
            assert(self.scored_except(nk)) by {
                assert forall|k: usize|
                    #[trigger] self.live().dom().contains(k) && k != nk implies self.live()[
                    k].score as int == sum_over(
                    self.live()[k].all_features@,
                    self.snap_term_fn(),
                ) by {
                    assert(p0.live().dom().contains(k));
                    assert(p0.input_score_ok(k));
                    assert forall|i2: int|
                        0 <= i2 < p0.live()[k].all_features@.len() implies p0.snap_term_fn()(
                        #[trigger] p0.live()[k].all_features@[i2],
                    ) == self.snap_term_fn()(p0.live()[k].all_features@[i2]) by {}
                    lemma_sum_congruence(
                        p0.live()[k].all_features@,
                        p0.snap_term_fn(),
                        self.snap_term_fn(),
                    );
                }
            }
        }
        nk
    }

    /// Compute the newcomer's score as the straight sum of its features'
    /// current shares, once all snapshots agree with the current state.
    #[verifier::rlimit(100)]
    #[verifier::spinoff_prover]
    fn finalize_new_input_score(&mut self, nk: usize)
        requires
            old(self).structural(),
            old(self).snapshots_current(),
            old(self).scored_except(nk),
            old(self).live().dom().contains(nk),
        ensures
            final (self).structural(),
            final (self).snapshots_current(),
            final (self).scored(),
            final (self).live().dom() =~= old(self).live().dom(),
            forall|k: usize|
                #[trigger] final (self).live().dom().contains(k) && k != nk ==> final (self).live()[
                    k] == old(self).live()[k],
            final (self).live()[nk] == (Input {
                score: final (self).live()[nk].score,
                ..old(self).live()[nk]
            }),
            *final (self) == (Pool { slab_inputs: final (self).slab_inputs, ..*old(self) }),
    {
        let ghost p_f = *self;
        let af_len = self.slab_inputs.get(nk).all_features.len();
        let mut acc: u64 = 0;
        let mut i: usize = 0;
        while i < af_len
            invariant
                0 <= i <= af_len,
                *self == p_f,
                p_f.structural(),
                p_f.snapshots_current(),
                p_f.live().dom().contains(nk),
                af_len == p_f.live()[nk].all_features@.len(),
                acc as int == sum_over(
                    p_f.live()[nk].all_features@.subrange(0, i as int),
                    p_f.snap_term_fn(),
                ),
                acc as int <= i as int * 0x1_0000_0000,
            decreases af_len - i,
        {
            let fk = self.slab_inputs.get(nk).all_features[i];
            let gk2 = self.slab_features.get(fk).group_key;
            let g_start = self.slab_feature_groups.get(gk2).idcs_start;
            let g_end = self.slab_feature_groups.get(gk2).idcs_end;
            let size = g_end - g_start;
            let mult = self.slab_features.get(fk).inputs.len();
            proof {
                assert(p_f.live()[nk].all_features@[i as int] == fk);
                assert(p_f.feats().dom().contains(fk));
                assert(mult >= 1) by {
                    assert(p_f.feats()[fk].inputs@.contains(nk));
                }
                assert(1 <= size <= MAX_POOL_FEATURES);
            }
            let term = Self::score_of_feature(size, mult);
            proof {
                assert(term as int == p_f.snap_term(fk));
                assert(p_f.live()[nk].all_features@.subrange(0, i as int + 1) =~= p_f.live()[
                    nk].all_features@.subrange(0, i as int).push(fk));
                lemma_sum_push(
                    p_f.live()[nk].all_features@.subrange(0, i as int),
                    p_f.snap_term_fn(),
                    fk,
                );
            }
            acc = acc + term;
            i += 1;
        }
        proof {
            assert(p_f.live()[nk].all_features@.subrange(0, af_len as int) =~= p_f.live()[
                nk].all_features@);
        }
        let inp = self.slab_inputs.get_mut(nk);
        inp.score = acc;
        proof {
            let p_g = *self;
            assert(p_g.live().dom() =~= p_f.live().dom());
            assert(p_g.feats() == p_f.feats());
            assert(p_g.grps() == p_f.grps());
            assert(p_g.features == p_f.features);
            assert(p_g.feature_groups == p_f.feature_groups);
            assert(p_g.inputs == p_f.inputs);
            assert(p_g.structural()) by {
                assert(p_g.features_vec_ok()) by {
                    assert forall|i: int| 0 <= i < p_g.features@.len() implies {
                        &&& p_g.feats().dom().contains((#[trigger] p_g.features@[i]).key)
                        &&& p_g.feats()[p_g.features@[i].key].key == p_g.features@[i].key
                        &&& p_g.feats()[p_g.features@[i].key].feature == p_g.features@[
                        i].feature
                    } by {
                        assert(p_f.feats().dom().contains(p_f.features@[i].key));
                    }
                }
                assert(p_g.groups_vec_ok());
                assert(p_g.linkage_ok()) by {
                    assert forall|j: int| 0 <= j < p_g.features@.len() implies {
                        let g = p_g.grps()[#[trigger] p_g.owner_at(j)];
                        g.idcs_start <= j < g.idcs_end
                    } by {
                        assert(p_g.owner_at(j) == p_f.owner_at(j));
                    }
                    assert forall|i2: int, j: int|
                        0 <= i2 < p_g.feature_groups@.len()
                            && p_g.grps()[#[trigger] p_g.feature_groups@[i2]].idcs_start <= j
                            < p_g.grps()[p_g.feature_groups@[i2]].idcs_end implies #[trigger] p_g.owner_at(
                        j,
                    ) == p_g.feature_groups@[i2] by {
                        assert(p_g.owner_at(j) == p_f.owner_at(j));
                        assert(p_f.owner_at(j) == p_f.feature_groups@[i2]);
                    }
                }
                assert forall|fk: usize|
                    #[trigger] p_g.feats().dom().contains(fk) implies {
                    let fr = p_g.feats()[fk];
                    &&& forall|i2: int|
                        0 <= i2 < fr.inputs@.len() ==> {
                            &&& p_g.live().dom().contains(#[trigger] fr.inputs@[i2])
                            &&& p_g.live()[fr.inputs@[i2]].all_features@.contains(fk)
                            &&& fr.least_complexity <= p_g.live()[fr.inputs@[i2]].complexity
                        }
                } by {
                    let fr = p_f.feats()[fk];
                    assert forall|i2: int| 0 <= i2 < fr.inputs@.len() implies {
                        &&& p_g.live().dom().contains(#[trigger] fr.inputs@[i2])
                        &&& p_g.live()[fr.inputs@[i2]].all_features@.contains(fk)
                        &&& fr.least_complexity <= p_g.live()[fr.inputs@[i2]].complexity
                    } by {
                        assert(p_f.live().dom().contains(fr.inputs@[i2]));
                        assert(p_f.live()[fr.inputs@[i2]].all_features@.contains(fk));
                    }
                }
                assert forall|k: usize| #[trigger] p_g.live().dom().contains(k) implies {
                    &&& p_g.live()[k].idx_in_pool < p_g.inputs@.len()
                    &&& p_g.inputs@[p_g.live()[k].idx_in_pool as int] == k
                } by {
                    assert(p_f.live().dom().contains(k));
                }
                assert(p_g.input_records_ok()) by {
                    assert forall|k: usize| #[trigger] p_g.live().dom().contains(k) implies {
                        let inp2 = p_g.live()[k];
                        &&& inp2.all_features@.no_duplicates()
                        &&& inp2.least_complex_for_features@.no_duplicates()
                        &&& inp2.all_features@.len() <= p_g.features@.len()
                        &&& inp2.complexity <= MAX_COMPLEXITY
                        &&& forall|i2: int|
                            0 <= i2 < inp2.all_features@.len() ==> {
                                &&& p_g.feats().dom().contains(#[trigger] inp2.all_features@[i2])
                                &&& p_g.feats()[inp2.all_features@[i2]].inputs@.contains(k)
                            }
                        &&& forall|i2: int|
                            0 <= i2 < inp2.least_complex_for_features@.len() ==> {
                                &&& inp2.all_features@.contains(
                                    #[trigger] inp2.least_complex_for_features@[i2],
                                )
                                &&& p_g.feats().dom().contains(
                                    inp2.least_complex_for_features@[i2],
                                )
                                &&& p_g.feats()[inp2.least_complex_for_features@[
                                i2]].least_complexity == inp2.complexity
                            }
                    } by {
                        assert(p_f.live().dom().contains(k));
                        if k != nk {
                            assert(p_g.live()[k] == p_f.live()[k]);
                        } else {
                            assert(p_g.live()[nk].all_features@ == p_f.live()[
                                nk].all_features@);
                            assert(p_g.live()[nk].least_complex_for_features@ == p_f.live()[
                                nk].least_complex_for_features@);
                        }
                    }
                }
            }
            assert(p_g.scored()) by {
                assert forall|k: usize|
                    #[trigger] p_g.live().dom().contains(k) implies p_g.input_score_ok(k) by {
                    assert forall|i2: int|
                        0 <= i2 < p_g.live()[k].all_features@.len() implies p_f.snap_term_fn()(
                        #[trigger] p_g.live()[k].all_features@[i2],
                    ) == p_g.snap_term_fn()(p_g.live()[k].all_features@[i2]) by {}
                    if k == nk {
                        lemma_sum_congruence(
                            p_g.live()[nk].all_features@,
                            p_f.snap_term_fn(),
                            p_g.snap_term_fn(),
                        );
                    } else {
                        assert(p_f.live()[k].score as int == sum_over(
                            p_f.live()[k].all_features@,
                            p_f.snap_term_fn(),
                        ));
                        lemma_sum_congruence(
                            p_g.live()[k].all_features@,
                            p_f.snap_term_fn(),
                            p_g.snap_term_fn(),
                        );
                    }
                }
            }
            assert(p_g.snapshots_current()) by {
                assert forall|fk: usize|
                    #[trigger] p_g.feats().dom().contains(fk) implies p_g.feats()[
                    fk].old_multiplicity == p_g.feats()[fk].inputs@.len() by {}
            }
        }
    }
}

/// Cumulative weights of non-negative terms are monotone.
proof fn lemma_cw_mono(cw: Seq<u64>, s: Seq<usize>, f: spec_fn(usize) -> int, i: int, j: int)
    requires
        cw.len() == s.len(),
        forall|a: int|
            0 <= a < s.len() ==> (#[trigger] cw[a]) as int == (if a == 0 {
                0int
            } else {
                cw[a - 1] as int
            }) + f(s[a]),
        forall|a: int| 0 <= a < s.len() ==> f(#[trigger] s[a]) >= 0,
        0 <= i <= j < s.len(),
    ensures
        cw[i] <= cw[j],
    decreases j - i,
{
    if i < j {
        lemma_cw_mono(cw, s, f, i, j - 1);
    }
}

/// Every input of a well-formed pool has a positive score and is the
/// least-complex witness of at least one feature.
pub proof fn lemma_pool_input_positive<T>(p: Pool<T>, k: usize)
    requires
        p.wf(),
        p.live().dom().contains(k),
    ensures
        p.live()[k].score >= 1,
        p.live()[k].least_complex_for_features@.len() > 0,
{
    assert(p.live()[k].least_complex_for_features@.len() > 0);
    let fk0 = p.live()[k].least_complex_for_features@[0];
    assert(p.live()[k].all_features@.contains(fk0));
    assert forall|i2: int|
        0 <= i2 < p.live()[k].all_features@.len() implies 0 <= p.snap_term_fn()(
        #[trigger] p.live()[k].all_features@[i2],
    ) by {
        let fk = p.live()[k].all_features@[i2];
        lemma_score_of_bounds(
            p.grps()[p.feats()[fk].group_key].old_size as int,
            p.feats()[fk].old_multiplicity as int,
        );
    }
    let a = choose|a: int|
        0 <= a < p.live()[k].all_features@.len() && p.live()[k].all_features@[a] == fk0;
    lemma_sum_element_lower(p.live()[k].all_features@, p.snap_term_fn(), a);
    assert(p.snap_term(fk0) >= 1) by {
        assert(p.feats()[fk0].inputs@.contains(k));
        assert(p.feats()[fk0].inputs@.len() >= 1);
        assert(p.feats()[fk0].old_multiplicity == p.feats()[fk0].inputs@.len());
        lemma_score_of_bounds(
            p.grps()[p.feats()[fk0].group_key].old_size as int,
            p.feats()[fk0].old_multiplicity as int,
        );
    }
}

/// Well-formedness does not depend on the random generator's state.
#[verifier::rlimit(100)]
#[verifier::spinoff_prover]
proof fn lemma_wf_rng_independent<T>(p1: Pool<T>, p2: Pool<T>)
    requires
        p1.wf(),
        p2 == (Pool { rng: p2.rng, ..p1 }),
    ensures
        p2.wf(),
{
    assert(p2.feats() == p1.feats());
    assert(p2.grps() == p1.grps());
    assert(p2.live() == p1.live());
    assert(p2.features == p1.features);
    assert(p2.feature_groups == p1.feature_groups);
    assert(p2.inputs == p1.inputs);
    assert(p2.cumulative_weights == p1.cumulative_weights);
    assert(p2.structural()) by {
        assert(p2.features_vec_ok()) by {
            assert forall|i: int| 0 <= i < p2.features@.len() implies {
                &&& p2.feats().dom().contains((#[trigger] p2.features@[i]).key)
                &&& p2.feats()[p2.features@[i].key].key == p2.features@[i].key
                &&& p2.feats()[p2.features@[i].key].feature == p2.features@[i].feature
            } by {
                assert(p1.feats().dom().contains(p1.features@[i].key));
            }
        }
        assert(p2.groups_vec_ok());
        assert(p2.linkage_ok()) by {
            assert forall|j: int| 0 <= j < p2.features@.len() implies {
                let g = p2.grps()[#[trigger] p2.owner_at(j)];
                g.idcs_start <= j < g.idcs_end
            } by {
                assert(p2.owner_at(j) == p1.owner_at(j));
            }
            assert forall|i2: int, j: int|
                0 <= i2 < p2.feature_groups@.len()
                    && p2.grps()[#[trigger] p2.feature_groups@[i2]].idcs_start <= j < p2.grps()[
                    p2.feature_groups@[i2]].idcs_end implies #[trigger] p2.owner_at(j)
                == p2.feature_groups@[i2] by {
                assert(p2.owner_at(j) == p1.owner_at(j));
                assert(p1.owner_at(j) == p1.feature_groups@[i2]);
            }
        }
    }
    assert(p2.scored()) by {
        assert forall|k: usize|
            #[trigger] p2.live().dom().contains(k) implies p2.input_score_ok(k) by {
            assert(p1.live().dom().contains(k));
            assert(p1.input_score_ok(k));
            assert forall|i2: int|
                0 <= i2 < p1.live()[k].all_features@.len() implies p1.snap_term_fn()(
                #[trigger] p1.live()[k].all_features@[i2],
            ) == p2.snap_term_fn()(p1.live()[k].all_features@[i2]) by {}
            lemma_sum_congruence(
                p1.live()[k].all_features@,
                p1.snap_term_fn(),
                p2.snap_term_fn(),
            );
        }
    }
}

/// Weighted selection against a cumulative-weights vector: the smallest
/// position whose cumulative weight exceeds the drawn value, so position `k`
/// is chosen exactly when the draw falls in `[cw[k-1], cw[k])` — a window as
/// wide as the `k`-th weight.
pub fn pick_weighted(cumulative_weights: &Vec<u64>, x: u64) -> (k: usize)
    requires
        cumulative_weights@.len() > 0,
        x < cumulative_weights@[cumulative_weights@.len() - 1],
    ensures
        k < cumulative_weights@.len(),
        cumulative_weights@[k as int] > x,
        k > 0 ==> cumulative_weights@[k - 1] <= x,
{
    let n = cumulative_weights.len();
    let mut lo: usize = 0;
    let mut hi: usize = n - 1;
    while lo < hi
        invariant
            0 <= lo <= hi < n,
            n == cumulative_weights@.len(),
            x < cumulative_weights@[hi as int],
            lo > 0 ==> cumulative_weights@[lo - 1] <= x,
        decreases hi - lo,
    {
        let mid = lo + (hi - lo) / 2;
        if cumulative_weights[mid] > x {
            hi = mid;
        } else {
            lo = mid + 1;
        }
    }
    lo
}

impl<T> Pool<T> {
    /// Pick an index to mutate next: the favored input with probability one
    /// in four when present (or surely when the regular pool is empty), else
    /// a regular input drawn with probability proportional to its score.
    #[verifier::rlimit(100)]
    #[verifier::spinoff_prover]
    pub fn random_index(&mut self) -> (r: PoolIndex)
        requires
            old(self).wf(),
            old(self).favored_input is Some || old(self).inputs@.len() > 0,
        ensures
            final (self).wf(),
            *final (self) == (Pool { rng: final (self).rng, ..*old(self) }),
            match r {
                PoolIndex::Favored => final (self).favored_input is Some,
                PoolIndex::Normal(k) => final (self).live().dom().contains(k) && exists|idx: int|
                    {
                        &&& 0 <= idx < old(self).inputs@.len()
                        &&& k == old(self).inputs@[idx]
                        &&& (if idx == 0 {
                            #[trigger] old(self).cumulative_weights@[idx] > 0
                        } else {
                            old(self).cumulative_weights@[idx - 1] < old(
                            self,
                            ).cumulative_weights@[idx]
                        })
                    },
            },
    {
        let ghost p0 = *self;
        let use_favored = if self.favored_input.is_some() {
            crate::rng::rng_below(&mut self.rng, 4) == 0 || self.inputs.len() == 0
        } else {
            false
        };
        let r = if use_favored {
            PoolIndex::Favored
        } else {
            let n = self.inputs.len();
            proof {
                assert(n > 0);
                let k0 = p0.inputs@[0];
                assert(p0.live().dom().contains(k0));
                assert(p0.live()[k0].least_complex_for_features@.len() > 0);
                assert(p0.live()[k0].all_features@.contains(p0.live()[
                    k0].least_complex_for_features@[0]));
                let fk0 = p0.live()[k0].least_complex_for_features@[0];
                assert(p0.live()[k0].score >= 1) by {
                    assert forall|i2: int|
                        0 <= i2 < p0.live()[k0].all_features@.len() implies 0
                        <= p0.snap_term_fn()(#[trigger] p0.live()[k0].all_features@[i2]) by {
                        let fk = p0.live()[k0].all_features@[i2];
                        lemma_score_of_bounds(
                            p0.grps()[p0.feats()[fk].group_key].old_size as int,
                            p0.feats()[fk].old_multiplicity as int,
                        );
                    }
                    let a = choose|a: int|
                        0 <= a < p0.live()[k0].all_features@.len() && p0.live()[
                            k0].all_features@[a] == fk0;
                    lemma_sum_element_lower(
                        p0.live()[k0].all_features@,
                        p0.snap_term_fn(),
                        a,
                    );
                    assert(p0.snap_term(fk0) >= 1) by {
                        assert(p0.feats()[fk0].inputs@.contains(k0));
                        assert(p0.feats()[fk0].inputs@.len() >= 1);
                        assert(p0.feats()[fk0].old_multiplicity == p0.feats()[
                            fk0].inputs@.len());
                        lemma_score_of_bounds(
                            p0.grps()[p0.feats()[fk0].group_key].old_size as int,
                            p0.feats()[fk0].old_multiplicity as int,
                        );
                    }
                }
                assert(p0.cumulative_weights@[n - 1] >= 1) by {
                    assert(p0.cumulative_weights@[0] as int == p0.score_fn()(p0.inputs@[0]));
                    assert(p0.cumulative_weights@[0] >= 1);
                    lemma_cw_mono(
                        p0.cumulative_weights@,
                        p0.inputs@,
                        p0.score_fn(),
                        0,
                        n - 1,
                    );
                }
            }
            let total = self.cumulative_weights[n - 1];
            let x = crate::rng::rng_below(&mut self.rng, total);
            let idx = pick_weighted(&self.cumulative_weights, x);
            proof {
                assert(p0.cumulative_weights@[idx as int] > x);
                assert(idx > 0 ==> p0.cumulative_weights@[idx - 1] <= x);
            }
            PoolIndex::Normal(self.inputs[idx])
        };
        proof {
            lemma_wf_rng_independent(p0, *self);
        }
        r
    }
}

} // verus!
