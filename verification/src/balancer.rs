//! The router's load balancer: the live pool of instances, the tiered
//! selection rules (cache-type, session affinity, weighted round-robin by
//! model), and membership driven by registry syncs with a grace period.

use vstd::prelude::*;

use crate::instance::{spec_instance_wf, InstanceModel, ServiceInstance};
use crate::json::{JModel, Json};
use crate::metadata::{
    is_openai_api, is_static_meta, meta_cache_type, meta_models, spec_is_openai_api,
    spec_meta_cache_type, spec_meta_models, spec_meta_static,
};

verus! {

/// Whether an instance may serve a request: believed healthy, serving the
/// requested model if one was named, and tagged with the requested cache
/// type if one was asked for.
pub open spec fn spec_matches(
    m: InstanceModel,
    model: Option<Seq<char>>,
    cache: Option<Seq<char>>,
) -> bool {
    &&& m.healthy
    &&& match model {
        Some(id) => m.models.contains(id),
        None => true,
    }
    &&& match cache {
        Some(ct) => spec_meta_cache_type(m.metadata) == Some(ct),
        None => true,
    }
}

/// The indices of the matching instances, in pool order.
pub open spec fn spec_cands(
    pool: Seq<InstanceModel>,
    model: Option<Seq<char>>,
    cache: Option<Seq<char>>,
) -> Seq<int>
    decreases pool.len(),
{
    if pool.len() == 0 {
        Seq::empty()
    } else {
        let rest = spec_cands(pool.drop_last(), model, cache);
        if spec_matches(pool.last(), model, cache) {
            rest.push(pool.len() - 1)
        } else {
            rest
        }
    }
}

/// Candidate indices point into the pool, rise strictly, pick out exactly
/// the matching instances, and name every matching instance.
pub proof fn lemma_cands_props(
    pool: Seq<InstanceModel>,
    model: Option<Seq<char>>,
    cache: Option<Seq<char>>,
)
    ensures
        forall|k: int|
            0 <= k < spec_cands(pool, model, cache).len() ==> {
                let i = #[trigger] spec_cands(pool, model, cache)[k];
                0 <= i < pool.len() && spec_matches(pool[i], model, cache)
            },
        forall|k1: int, k2: int|
            0 <= k1 < k2 < spec_cands(pool, model, cache).len() ==> spec_cands(
                pool,
                model,
                cache,
            )[k1] < spec_cands(pool, model, cache)[k2],
        forall|i: int|
            0 <= i < pool.len() && spec_matches(#[trigger] pool[i], model, cache) ==> spec_cands(
                pool,
                model,
                cache,
            ).contains(i),
    decreases pool.len(),
{
    if pool.len() > 0 {
        lemma_cands_props(pool.drop_last(), model, cache);
        let rest = spec_cands(pool.drop_last(), model, cache);
        let whole = spec_cands(pool, model, cache);
        assert(forall|i: int|
            0 <= i < pool.drop_last().len() ==> #[trigger] pool.drop_last()[i] == pool[i]);
        assert forall|i: int|
            0 <= i < pool.len() && spec_matches(#[trigger] pool[i], model, cache) implies whole.contains(
            i,
        ) by {
            if i == pool.len() - 1 {
                if spec_matches(pool.last(), model, cache) {
                    assert(whole[whole.len() - 1] == i);
                }
            } else {
                assert(spec_matches(pool.drop_last()[i], model, cache));
                assert(rest.contains(i));
                let k = choose|k: int| 0 <= k < rest.len() && rest[k] == i;
                assert(whole[k] == i);
            }
        }
    }
}

/// The instances at a sequence of indices.
pub open spec fn spec_at(pool: Seq<InstanceModel>, idxs: Seq<int>) -> Seq<InstanceModel> {
    Seq::new(idxs.len(), |k: int| pool[idxs[k]])
}

/// The summed weight of the first `j` candidates.
pub open spec fn spec_psum(cands: Seq<InstanceModel>, j: int) -> int
    decreases j,
{
    if j <= 0 {
        0
    } else {
        spec_psum(cands, j - 1) + cands[j - 1].weight
    }
}

/// Partial weight sums never fall.
pub proof fn lemma_psum_monotone(cands: Seq<InstanceModel>, i: int, j: int)
    requires
        0 <= i <= j,
    ensures
        spec_psum(cands, i) <= spec_psum(cands, j),
    decreases j - i,
{
    if i < j {
        lemma_psum_monotone(cands, i, j - 1);
    }
}

/// The candidate that a weighted cursor value lands on: weights are laid
/// end to end and the cursor falls in one candidate's span.
pub open spec fn spec_wpick(cands: Seq<InstanceModel>, t: int) -> int
    decreases cands.len(),
{
    if cands.len() == 0 {
        0
    } else if t < cands[0].weight {
        0
    } else {
        1 + spec_wpick(cands.drop_first(), t - cands[0].weight)
    }
}

/// Partial sums of the tail, shifted by the head's weight.
pub proof fn lemma_psum_drop_first(cands: Seq<InstanceModel>, j: int)
    requires
        cands.len() > 0,
        0 <= j < cands.len(),
    ensures
        spec_psum(cands.drop_first(), j) == spec_psum(cands, j + 1) - cands[0].weight,
    decreases j,
{
    if j > 0 {
        lemma_psum_drop_first(cands, j - 1);
        assert(cands.drop_first()[j - 1] == cands[j]);
        assert(spec_psum(cands.drop_first(), j) == spec_psum(cands.drop_first(), j - 1)
            + cands.drop_first()[j - 1].weight);
        assert(spec_psum(cands, j + 1) == spec_psum(cands, j) + cands[j].weight);
    } else {
        assert(spec_psum(cands.drop_first(), 0) == 0);
        assert(spec_psum(cands, 1) == spec_psum(cands, 0) + cands[0].weight);
        assert(spec_psum(cands, 0) == 0);
    }
}

/// Where the weighted pick lands: inside the candidate whose span of the
/// summed weights holds the cursor.
pub proof fn lemma_wpick_interval(cands: Seq<InstanceModel>, t: int)
    requires
        0 <= t < spec_psum(cands, cands.len() as int),
    ensures
        ({
            let j = spec_wpick(cands, t);
            0 <= j < cands.len() && spec_psum(cands, j) <= t < spec_psum(cands, j + 1)
        }),
    decreases cands.len(),
{
    if cands.len() > 0 {
        if t < cands[0].weight {
        } else {
            let sub = cands.drop_first();
            lemma_psum_drop_first(cands, sub.len() as int);
            lemma_wpick_interval(sub, t - cands[0].weight);
            let j = spec_wpick(sub, t - cands[0].weight);
            lemma_psum_drop_first(cands, j);
            lemma_psum_drop_first(cands, j + 1);
        }
    }
}

/// One weighted-round-robin choice among candidates, driven by a counter:
/// with weights summing to zero the counter walks the candidates one by
/// one; otherwise it walks their weight spans.
pub open spec fn spec_choice(cands: Seq<InstanceModel>, counter: u64) -> int
    recommends
        cands.len() > 0,
{
    let w = spec_psum(cands, cands.len() as int);
    if w == 0 {
        counter as int % cands.len() as int
    } else {
        spec_wpick(cands, counter as int % w)
    }
}

/// The choice lands on a candidate.
pub proof fn lemma_choice_in_range(cands: Seq<InstanceModel>, counter: u64)
    requires
        cands.len() > 0,
    ensures
        0 <= spec_choice(cands, counter) < cands.len(),
{
    let w = spec_psum(cands, cands.len() as int);
    lemma_psum_monotone(cands, 0, cands.len() as int);
    if w == 0 {
    } else {
        lemma_wpick_interval(cands, counter as int % w);
    }
}

/// The selection counter after one pick: one more, wrapping at the top.
pub open spec fn spec_bump(counter: u64) -> u64 {
    if counter == u64::MAX {
        0
    } else {
        (counter + 1) as u64
    }
}

/// The live pool, a single monotonic selection counter, and the grace
/// period that shields instances through registry outages.
pub struct LoadBalancer {
    pub pool: Vec<ServiceInstance>,
    pub current_index: u64,
    pub service_removal_grace_period: u64,
}

/// The mathematical shape of the balancer.
pub ghost struct BalancerModel {
    pub pool: Seq<InstanceModel>,
    pub current_index: u64,
    pub grace: u64,
}

impl View for LoadBalancer {
    type V = BalancerModel;

    open spec fn view(&self) -> BalancerModel {
        BalancerModel {
            pool: Seq::new(self.pool@.len(), |i: int| self.pool@[i]@),
            current_index: self.current_index,
            grace: self.service_removal_grace_period,
        }
    }
}

/// Distinct names and derived endpoints throughout the pool.
pub open spec fn spec_pool_wf(pool: Seq<InstanceModel>) -> bool {
    &&& forall|i: int, j: int|
        0 <= i < j < pool.len() ==> (#[trigger] pool[i].name) != (#[trigger] pool[j].name)
    &&& forall|i: int| 0 <= i < pool.len() ==> spec_instance_wf(#[trigger] pool[i])
}

impl LoadBalancer {
    /// An empty pool.
    pub fn new(service_removal_grace_period: u64) -> (r: LoadBalancer)
        ensures
            r@.pool =~= Seq::<InstanceModel>::empty(),
            r@.current_index == 0,
            r@.grace == service_removal_grace_period,
            spec_pool_wf(r@.pool),
    {
        LoadBalancer { pool: Vec::new(), current_index: 0, service_removal_grace_period }
    }

    /// The indices of the instances that may serve, in pool order.
    pub fn candidate_indices(&self, model: Option<&String>, cache: Option<&String>) -> (r: Vec<
        usize,
    >)
        ensures
            Seq::new(r@.len(), |k: int| r@[k] as int) =~= spec_cands(
                self@.pool,
                match model {
                    Some(s) => Some(s@),
                    None => None,
                },
                match cache {
                    Some(s) => Some(s@),
                    None => None,
                },
            ),
            forall|k: int| 0 <= k < r@.len() ==> (#[trigger] r@[k]) < self.pool@.len(),
    {
        let ghost mv: Option<Seq<char>> = match model {
            Some(s) => Some(s@),
            None => None,
        };
        let ghost cv: Option<Seq<char>> = match cache {
            Some(s) => Some(s@),
            None => None,
        };
        let mut out: Vec<usize> = Vec::new();
        let mut i: usize = 0;
        proof {
            assert(self@.pool.subrange(0, 0) =~= Seq::<InstanceModel>::empty());
        }
        while i < self.pool.len()
            invariant
                0 <= i <= self.pool@.len(),
                self@.pool.len() == self.pool@.len(),
                mv == (match model {
                    Some(s) => Some(s@),
                    None => None,
                }),
                cv == (match cache {
                    Some(s) => Some(s@),
                    None => None,
                }),
                forall|k: int| 0 <= k < out@.len() ==> (#[trigger] out@[k]) < i,
                Seq::new(out@.len(), |k: int| out@[k] as int) =~= spec_cands(
                    self@.pool.subrange(0, i as int),
                    mv,
                    cv,
                ),
            decreases self.pool@.len() - i,
        {
            let inst = &self.pool[i];
            let healthy = inst.is_healthy();
            let model_ok = match model {
                Some(id) => inst.supports_model(id.as_str()),
                None => true,
            };
            let cache_ok = match cache {
                Some(ct) => match meta_cache_type(&inst.metadata) {
                    Some(t) => t.eq(ct),
                    None => false,
                },
                None => true,
            };
            proof {
                assert(self@.pool.subrange(0, i as int + 1).drop_last() =~= self@.pool.subrange(
                    0,
                    i as int,
                ));
                assert(self@.pool.subrange(0, i as int + 1).last() == self@.pool[i as int]);
            }
            if healthy && model_ok && cache_ok {
                let ghost old_out = out@;
                out.push(i);
                proof {
                    assert(Seq::new(out@.len(), |k: int| out@[k] as int) =~= Seq::new(
                        old_out.len(),
                        |k: int| old_out[k] as int,
                    ).push(i as int));
                }
            }
            i += 1;
        }
        proof {
            assert(self@.pool.subrange(0, self@.pool.len() as int) =~= self@.pool);
        }
        out
    }

    /// The weighted-round-robin choice among the given candidates at the
    /// current counter; the counter is not advanced here.
    fn pick_among(&self, cands: &Vec<usize>) -> (r: usize)
        requires
            cands@.len() > 0,
            forall|k: int| 0 <= k < cands@.len() ==> (#[trigger] cands@[k]) < self.pool@.len(),
        ensures
            r < cands@.len(),
            r as int == spec_choice(
                spec_at(self@.pool, Seq::new(cands@.len(), |k: int| cands@[k] as int)),
                self@.current_index,
            ),
    {
        let ghost cmodels = spec_at(
            self@.pool,
            Seq::new(cands@.len(), |k: int| cands@[k] as int),
        );
        proof {
            assert(cmodels.len() == cands@.len());
        }
        // Sum the weights; u128 keeps any pool's sum exact.
        let mut w: u128 = 0;
        let mut k: usize = 0;
        while k < cands.len()
            invariant
                0 <= k <= cands@.len(),
                cmodels == spec_at(
                    self@.pool,
                    Seq::new(cands@.len(), |kk: int| cands@[kk] as int),
                ),
                cmodels.len() == cands@.len(),
                forall|kk: int| 0 <= kk < cands@.len() ==> (#[trigger] cands@[kk])
                    < self.pool@.len(),
                w == spec_psum(cmodels, k as int),
                w <= k as int * 0x1_0000_0000,
            decreases cands@.len() - k,
        {
            let idx = cands[k];
            let wt = self.pool[idx].weight;
            proof {
                assert(cmodels[k as int] == self@.pool[cands@[k as int] as int]);
                assert((k + 1) as int * 0x1_0000_0000 == k as int * 0x1_0000_0000
                    + 0x1_0000_0000) by (nonlinear_arith);
            }
            w = w + (wt as u128);
            k += 1;
        }
        if w == 0 {
            let t = (self.current_index as u128) % (cands.len() as u128);
            t as usize
        } else {
            let t: u128 = (self.current_index as u128) % w;
            proof {
                lemma_wpick_interval(cmodels, t as int);
            }
            let mut cw: u128 = 0;
            let mut j: usize = 0;
            loop
                invariant
                    0 <= j <= cands@.len(),
                    cmodels == spec_at(
                        self@.pool,
                        Seq::new(cands@.len(), |kk: int| cands@[kk] as int),
                    ),
                    cmodels.len() == cands@.len(),
                    forall|kk: int| 0 <= kk < cands@.len() ==> (#[trigger] cands@[kk])
                        < self.pool@.len(),
                    cw == spec_psum(cmodels, j as int),
                    cw <= t,
                    t < spec_psum(cmodels, cmodels.len() as int),
                    spec_psum(cmodels, cmodels.len() as int) <= cmodels.len() as int
                        * 0x1_0000_0000,
                    t == self@.current_index as int % spec_psum(cmodels, cmodels.len() as int),
                    spec_psum(cmodels, spec_wpick(cmodels, t as int)) <= t < spec_psum(
                        cmodels,
                        spec_wpick(cmodels, t as int) + 1,
                    ),
                    0 <= spec_wpick(cmodels, t as int) < cmodels.len(),
                decreases cands@.len() - j,
            {
                if j >= cands.len() {
                    proof {
                        lemma_psum_monotone(cmodels, cmodels.len() as int, j as int);
                        assert(false);
                    }
                    return 0;
                }
                let idx = cands[j];
                let wt = self.pool[idx].weight;
                proof {
                    assert(cmodels[j as int] == self@.pool[cands@[j as int] as int]);
                }
                if (wt as u128) > t - cw {
                    proof {
                        assert(cw + wt > t);
                    }
                    proof {
                        let p = spec_wpick(cmodels, t as int);
                        if p < j as int {
                            lemma_psum_monotone(cmodels, p + 1, j as int);
                            assert(false);
                        }
                        if p > j as int {
                            lemma_psum_monotone(cmodels, j as int + 1, p);
                            assert(false);
                        }
                    }
                    return j;
                }
                cw = cw + (wt as u128);
                j += 1;
            }
        }
    }
}

} // verus!

verus! {

/// An instance after one more counted request.
pub open spec fn spec_bump_request(m: InstanceModel) -> InstanceModel {
    InstanceModel {
        request_count: if m.request_count < u64::MAX {
            (m.request_count + 1) as u64
        } else {
            u64::MAX
        },
        ..m
    }
}

/// The index of the first instance with a name, if any.
pub open spec fn spec_ifind(pool: Seq<InstanceModel>, name: Seq<char>) -> Option<int>
    decreases pool.len(),
{
    if pool.len() == 0 {
        None
    } else if pool[0].name == name {
        Some(0)
    } else {
        match spec_ifind(pool.drop_first(), name) {
            Some(i) => Some(i + 1),
            None => None,
        }
    }
}

/// What `spec_ifind` finds: the first index bearing the name, or nothing
/// anywhere.
pub proof fn lemma_ifind_characterizes(pool: Seq<InstanceModel>, name: Seq<char>)
    ensures
        match spec_ifind(pool, name) {
            Some(i) => 0 <= i < pool.len() && pool[i].name == name && (forall|j: int|
                0 <= j < i ==> (#[trigger] pool[j].name) != name),
            None => forall|j: int| 0 <= j < pool.len() ==> (#[trigger] pool[j].name) != name,
        },
    decreases pool.len(),
{
    if pool.len() > 0 && pool[0].name != name {
        lemma_ifind_characterizes(pool.drop_first(), name);
        match spec_ifind(pool.drop_first(), name) {
            Some(i) => {
                assert(pool[i + 1].name == name) by {
                    assert(pool.drop_first()[i] == pool[i + 1]);
                }
                assert forall|j: int| 0 <= j < i + 1 implies (#[trigger] pool[j].name)
                    != name by {
                    if j > 0 {
                        assert(pool.drop_first()[j - 1] == pool[j]);
                    }
                }
            },
            None => {
                assert forall|j: int| 0 <= j < pool.len() implies (#[trigger] pool[j].name)
                    != name by {
                    if j > 0 {
                        assert(pool.drop_first()[j - 1] == pool[j]);
                    }
                }
            },
        }
    }
}

/// The FNV-1a offset basis.
pub const FNV_BASIS: u64 = 0xcbf29ce484222325;

/// The FNV-1a prime.
pub const FNV_PRIME: u64 = 0x100000001b3;

/// One FNV-1a step: fold a byte in, then spread it.
pub open spec fn spec_fnv_step(h: u64, b: u8) -> u64 {
    (h ^ (b as u64)).wrapping_mul(FNV_PRIME)
}

/// The FNV-1a digest of a byte sequence: the session hash.
pub open spec fn spec_fnv1a64(s: Seq<u8>) -> u64
    decreases s.len(),
{
    if s.len() == 0 {
        FNV_BASIS
    } else {
        spec_fnv_step(spec_fnv1a64(s.drop_last()), s.last())
    }
}

/// Computes the FNV-1a digest of bytes.
pub fn fnv1a64(bytes: &[u8]) -> (r: u64)
    ensures
        r == spec_fnv1a64(bytes@),
{
    let mut h: u64 = FNV_BASIS;
    let mut i: usize = 0;
    proof {
        assert(bytes@.subrange(0, 0) =~= Seq::<u8>::empty());
    }
    while i < bytes.len()
        invariant
            0 <= i <= bytes@.len(),
            h == spec_fnv1a64(bytes@.subrange(0, i as int)),
        decreases bytes@.len() - i,
    {
        let b = bytes[i];
        proof {
            assert(bytes@.subrange(0, i as int + 1).drop_last() =~= bytes@.subrange(0, i as int));
            assert(bytes@.subrange(0, i as int + 1).last() == bytes@[i as int]);
        }
        h = (h ^ (b as u64)).wrapping_mul(FNV_PRIME);
        i += 1;
    }
    proof {
        assert(bytes@.subrange(0, bytes@.len() as int) =~= bytes@);
    }
    h
}

impl LoadBalancer {
    /// The index of the instance with a name.
    pub fn find_instance(&self, name: &str) -> (r: Option<usize>)
        ensures
            match r {
                Some(i) => spec_ifind(self@.pool, name@) == Some(i as int) && i
                    < self.pool@.len(),
                None => spec_ifind(self@.pool, name@) is None,
            },
    {
        let key: String = name.to_owned();
        let mut i: usize = 0;
        while i < self.pool.len()
            invariant
                0 <= i <= self@.pool.len(),
                self@.pool.len() == self.pool@.len(),
                key@ == name@,
                forall|j: int| 0 <= j < i ==> (#[trigger] self@.pool[j].name) != name@,
            decreases self@.pool.len() - i,
        {
            if self.pool[i].name.eq(&key) {
                proof {
                    lemma_ifind_characterizes(self@.pool, name@);
                    assert(self@.pool[i as int].name == name@);
                    match spec_ifind(self@.pool, name@) {
                        Some(k) => {
                            assert(self@.pool[k].name == name@);
                            assert(k == i as int);
                        },
                        None => {
                            assert(false);
                        },
                    }
                }
                return Some(i);
            }
            proof {
                assert(self@.pool[i as int].name != name@);
            }
            i += 1;
        }
        proof {
            lemma_ifind_characterizes(self@.pool, name@);
        }
        None
    }

    /// Weighted round-robin among the healthy instances that serve the
    /// model, counting the pick as a request and advancing the counter.
    /// `None` exactly when no healthy instance serves the model.
    pub fn get_next_healthy_service_by_model(&mut self, model_id: Option<&String>) -> (r: Option<
        usize,
    >)
        ensures
            ({
                let mv: Option<Seq<char>> = match model_id {
                    Some(s) => Some(s@),
                    None => None,
                };
                let cands = spec_cands(old(self)@.pool, mv, None);
                match r {
                    Some(idx) => {
                        let k = spec_choice(spec_at(old(self)@.pool, cands), old(
                            self,
                        )@.current_index);
                        &&& cands.len() > 0
                        &&& 0 <= k < cands.len()
                        &&& idx as int == cands[k]
                        &&& idx < old(self)@.pool.len()
                        &&& final(self)@.pool =~= old(self)@.pool.update(
                            idx as int,
                            spec_bump_request(old(self)@.pool[idx as int]),
                        )
                        &&& final(self)@.current_index == spec_bump(old(self)@.current_index)
                        &&& final(self)@.grace == old(self)@.grace
                    },
                    None => cands.len() == 0 && final(self)@ == old(self)@,
                }
            }),
    {
        self.select_counted(model_id, None)
    }

    /// Weighted round-robin among all healthy instances.
    pub fn get_next_healthy_service(&mut self) -> (r: Option<usize>)
        ensures
            ({
                let cands = spec_cands(old(self)@.pool, None, None);
                match r {
                    Some(idx) => {
                        let k = spec_choice(spec_at(old(self)@.pool, cands), old(
                            self,
                        )@.current_index);
                        &&& cands.len() > 0
                        &&& 0 <= k < cands.len()
                        &&& idx as int == cands[k]
                        &&& idx < old(self)@.pool.len()
                        &&& final(self)@.pool =~= old(self)@.pool.update(
                            idx as int,
                            spec_bump_request(old(self)@.pool[idx as int]),
                        )
                        &&& final(self)@.current_index == spec_bump(old(self)@.current_index)
                        &&& final(self)@.grace == old(self)@.grace
                    },
                    None => cands.len() == 0 && final(self)@ == old(self)@,
                }
            }),
    {
        self.select_counted(None, None)
    }

    /// Weighted round-robin among healthy instances that serve the model
    /// and carry the asked-for cache type.
    pub fn get_service_by_cache_type(&mut self, cache_type: &String, model_id: Option<&String>)
        -> (r: Option<usize>)
        ensures
            ({
                let mv: Option<Seq<char>> = match model_id {
                    Some(s) => Some(s@),
                    None => None,
                };
                let cands = spec_cands(old(self)@.pool, mv, Some(cache_type@));
                match r {
                    Some(idx) => {
                        let k = spec_choice(spec_at(old(self)@.pool, cands), old(
                            self,
                        )@.current_index);
                        &&& cands.len() > 0
                        &&& 0 <= k < cands.len()
                        &&& idx as int == cands[k]
                        &&& idx < old(self)@.pool.len()
                        &&& final(self)@.pool =~= old(self)@.pool.update(
                            idx as int,
                            spec_bump_request(old(self)@.pool[idx as int]),
                        )
                        &&& final(self)@.current_index == spec_bump(old(self)@.current_index)
                        &&& final(self)@.grace == old(self)@.grace
                    },
                    None => cands.len() == 0 && final(self)@ == old(self)@,
                }
            }),
    {
        self.select_counted(model_id, Some(cache_type))
    }

    /// The shared body of the counted selection tiers.
    fn select_counted(&mut self, model_id: Option<&String>, cache: Option<&String>) -> (r: Option<
        usize,
    >)
        ensures
            ({
                let mv: Option<Seq<char>> = match model_id {
                    Some(s) => Some(s@),
                    None => None,
                };
                let cv: Option<Seq<char>> = match cache {
                    Some(s) => Some(s@),
                    None => None,
                };
                let cands = spec_cands(old(self)@.pool, mv, cv);
                match r {
                    Some(idx) => {
                        let k = spec_choice(spec_at(old(self)@.pool, cands), old(
                            self,
                        )@.current_index);
                        &&& cands.len() > 0
                        &&& 0 <= k < cands.len()
                        &&& idx as int == cands[k]
                        &&& idx < old(self)@.pool.len()
                        &&& final(self)@.pool =~= old(self)@.pool.update(
                            idx as int,
                            spec_bump_request(old(self)@.pool[idx as int]),
                        )
                        &&& final(self)@.current_index == spec_bump(old(self)@.current_index)
                        &&& final(self)@.grace == old(self)@.grace
                    },
                    None => cands.len() == 0 && final(self)@ == old(self)@,
                }
            }),
    {
        let cands = self.candidate_indices(model_id, cache);
        if cands.len() == 0 {
            proof {
                assert(spec_cands(
                    self@.pool,
                    match model_id {
                        Some(s) => Some(s@),
                        None => None,
                    },
                    match cache {
                        Some(s) => Some(s@),
                        None => None,
                    },
                ).len() == 0);
            }
            return None;
        }
        let k = self.pick_among(&cands);
        let ghost cseq = Seq::new(cands@.len(), |kk: int| cands@[kk] as int);
        proof {
            lemma_choice_in_range(spec_at(self@.pool, cseq), self@.current_index);
        }
        let idx = cands[k];
        self.pool[idx].request_count = self.pool[idx].request_count.saturating_add(1);
        self.current_index = if self.current_index == u64::MAX {
            0
        } else {
            self.current_index + 1
        };
        proof {
            assert(final(self)@.pool =~= old(self)@.pool.update(
                idx as int,
                spec_bump_request(old(self)@.pool[idx as int]),
            ));
        }
        Some(idx)
    }

    /// The session-affine choice: a consistent mapping from the session key
    /// to one healthy candidate serving the model. Reads the pool only.
    pub fn get_service_by_session(&self, session_key: &String, model_id: Option<&String>) -> (r:
        Option<usize>)
        ensures
            ({
                let mv: Option<Seq<char>> = match model_id {
                    Some(s) => Some(s@),
                    None => None,
                };
                let cands = spec_cands(self@.pool, mv, None);
                match r {
                    Some(idx) => cands.len() > 0 && idx as int == cands[spec_fnv1a64(
                        vstd::utf8::encode_utf8(session_key@),
                    ) as int % cands.len() as int] && idx < self.pool@.len(),
                    None => cands.len() == 0,
                }
            }),
    {
        let cands = self.candidate_indices(model_id, None);
        if cands.len() == 0 {
            return None;
        }
        let h = fnv1a64(session_key.as_str().as_bytes());
        let slot = ((h as u128) % (cands.len() as u128)) as usize;
        Some(cands[slot])
    }
}

} // verus!

verus! {

/// One service row as a registry sync reports it.
pub struct SyncService {
    pub name: String,
    pub host: String,
    pub port: u16,
    pub is_healthy: bool,
    pub weight: u32,
    pub metadata: Json,
}

/// The mathematical shape of one synced row.
pub ghost struct SyncModel {
    pub name: Seq<char>,
    pub host: Seq<char>,
    pub port: u16,
    pub is_healthy: bool,
    pub weight: u32,
    pub metadata: JModel,
}

impl View for SyncService {
    type V = SyncModel;

    open spec fn view(&self) -> SyncModel {
        SyncModel {
            name: self.name@,
            host: self.host@,
            port: self.port,
            is_healthy: self.is_healthy,
            weight: self.weight,
            metadata: self.metadata@,
        }
    }
}

/// An existing instance refreshed by a sync row: identity fields and
/// endpoints follow the row, health follows the registry's verdict, models
/// and metadata are replaced, and the instance counts as seen now. Its
/// counters, weight and probe timing stay.
pub open spec fn spec_refresh(m: InstanceModel, e: SyncModel, now: u64) -> InstanceModel {
    InstanceModel {
        host: e.host,
        port: e.port,
        url: crate::strutil::spec_http_url(e.host, e.port),
        babysitter_url: crate::strutil::spec_http_url(e.host, (e.port + 1) as u16),
        healthy: e.is_healthy,
        models: spec_meta_models(e.metadata),
        metadata: e.metadata,
        last_seen: now,
        ..m
    }
}

/// A new instance made from a sync row.
pub open spec fn spec_from_sync(e: SyncModel, now: u64) -> InstanceModel {
    InstanceModel {
        name: e.name,
        host: e.host,
        port: e.port,
        url: crate::strutil::spec_http_url(e.host, e.port),
        babysitter_url: crate::strutil::spec_http_url(e.host, (e.port + 1) as u16),
        healthy: e.is_healthy,
        models: spec_meta_models(e.metadata),
        metadata: e.metadata,
        request_count: 0,
        error_count: 0,
        weight: e.weight,
        last_seen: now,
        last_check: 0,
        response_time_ms: 0,
    }
}

/// What one sync row leaves in the pool: its namesake refreshed, or a new
/// instance appended.
pub open spec fn spec_upsert(pool: Seq<InstanceModel>, e: SyncModel, now: u64) -> Seq<
    InstanceModel,
> {
    match spec_ifind(pool, e.name) {
        Some(i) => pool.update(i, spec_refresh(pool[i], e, now)),
        None => pool.push(spec_from_sync(e, now)),
    }
}

/// The pool after the rows of one sync reply are folded in, in order; rows
/// that are not a worker's OpenAI surface are ignored.
pub open spec fn spec_apply_entries(
    pool: Seq<InstanceModel>,
    entries: Seq<SyncModel>,
    now: u64,
) -> Seq<InstanceModel>
    decreases entries.len(),
{
    if entries.len() == 0 {
        pool
    } else {
        let prev = spec_apply_entries(pool, entries.drop_last(), now);
        if spec_is_openai_api(entries.last().metadata) {
            spec_upsert(prev, entries.last(), now)
        } else {
            prev
        }
    }
}

/// A name among sync rows.
pub open spec fn spec_sync_has_name(entries: Seq<SyncModel>, name: Seq<char>) -> bool
    decreases entries.len(),
{
    entries.len() > 0 && (entries[0].name == name || spec_sync_has_name(
        entries.drop_first(),
        name,
    ))
}

/// A name is among sync rows exactly when some row bears it.
pub proof fn lemma_sync_has_name_index(entries: Seq<SyncModel>, name: Seq<char>)
    ensures
        spec_sync_has_name(entries, name) <==> exists|i: int|
            0 <= i < entries.len() && (#[trigger] entries[i].name) == name,
    decreases entries.len(),
{
    if entries.len() > 0 {
        lemma_sync_has_name_index(entries.drop_first(), name);
        if entries[0].name == name {
        } else if spec_sync_has_name(entries.drop_first(), name) {
            let i = choose|i: int|
                0 <= i < entries.drop_first().len() && (#[trigger] entries.drop_first()[i].name)
                    == name;
            assert(entries[i + 1].name == name);
        } else {
            assert forall|i: int| 0 <= i < entries.len() implies (#[trigger] entries[i].name)
                != name by {
                if i > 0 {
                    assert(entries.drop_first()[i - 1] == entries[i]);
                }
            }
        }
    }
}

/// Whether membership pruning keeps an instance: this sync named it, or it
/// is static, or it was seen within the grace period.
pub open spec fn spec_keep(m: InstanceModel, entries: Seq<SyncModel>, now: u64, grace: u64) -> bool {
    ||| spec_sync_has_name(entries, m.name)
    ||| spec_meta_static(m.metadata)
    ||| now - m.last_seen < grace
}

/// The pool after membership pruning, in order.
pub open spec fn spec_prune(
    pool: Seq<InstanceModel>,
    entries: Seq<SyncModel>,
    now: u64,
    grace: u64,
) -> Seq<InstanceModel>
    decreases pool.len(),
{
    if pool.len() == 0 {
        Seq::empty()
    } else {
        let rest = spec_prune(pool.drop_first(), entries, now, grace);
        if spec_keep(pool[0], entries, now, grace) {
            seq![pool[0]] + rest
        } else {
            rest
        }
    }
}

/// Pruning is exact: an instance stays if and only if the sync named it,
/// it is static, or its grace period still runs.
pub proof fn lemma_prune_membership(
    pool: Seq<InstanceModel>,
    entries: Seq<SyncModel>,
    now: u64,
    grace: u64,
)
    ensures
        forall|i: int|
            0 <= i < pool.len() && spec_keep(#[trigger] pool[i], entries, now, grace)
                ==> spec_prune(pool, entries, now, grace).contains(pool[i]),
        forall|k: int|
            0 <= k < spec_prune(pool, entries, now, grace).len() ==> spec_keep(
                #[trigger] spec_prune(pool, entries, now, grace)[k],
                entries,
                now,
                grace,
            ) && pool.contains(spec_prune(pool, entries, now, grace)[k]),
    decreases pool.len(),
{
    if pool.len() > 0 {
        lemma_prune_membership(pool.drop_first(), entries, now, grace);
        let sub = spec_prune(pool.drop_first(), entries, now, grace);
        let whole = spec_prune(pool, entries, now, grace);
        assert(forall|k: int|
            0 <= k < pool.drop_first().len() ==> #[trigger] pool.drop_first()[k] == pool[k + 1]);
        assert forall|i: int|
            0 <= i < pool.len() && spec_keep(#[trigger] pool[i], entries, now, grace) implies whole.contains(
            pool[i],
        ) by {
            if i == 0 {
                assert(whole[0] == pool[0]);
            } else {
                assert(sub.contains(pool.drop_first()[i - 1]));
                let k = choose|k: int| 0 <= k < sub.len() && sub[k] == pool[i];
                if spec_keep(pool[0], entries, now, grace) {
                    assert(whole[k + 1] == pool[i]);
                } else {
                    assert(whole[k] == pool[i]);
                }
            }
        }
        assert forall|k: int| 0 <= k < whole.len() implies spec_keep(
            #[trigger] whole[k],
            entries,
            now,
            grace,
        ) && pool.contains(whole[k]) by {
            if spec_keep(pool[0], entries, now, grace) {
                if k == 0 {
                    assert(whole[0] == pool[0]);
                } else {
                    assert(whole[k] == sub[k - 1]);
                    assert(pool.drop_first().contains(sub[k - 1]));
                    let j = choose|j: int|
                        0 <= j < pool.drop_first().len() && pool.drop_first()[j] == sub[k - 1];
                    assert(pool[j + 1] == whole[k]);
                }
            } else {
                assert(whole[k] == sub[k]);
                assert(pool.drop_first().contains(sub[k]));
                let j = choose|j: int|
                    0 <= j < pool.drop_first().len() && pool.drop_first()[j] == sub[k];
                assert(pool[j + 1] == whole[k]);
            }
        }
    }
}

/// Membership outlives a registry outage only within the grace period:
/// whatever pruning keeps was named by this sync, is static, or was seen
/// within the grace period; everything else is gone.
pub proof fn lemma_sync_grace_period(
    pool: Seq<InstanceModel>,
    entries: Seq<SyncModel>,
    now: u64,
    grace: u64,
)
    ensures
        forall|k: int|
            0 <= k < spec_prune(pool, entries, now, grace).len() ==> {
                let m = #[trigger] spec_prune(pool, entries, now, grace)[k];
                spec_sync_has_name(entries, m.name) || spec_meta_static(m.metadata) || now
                    - m.last_seen < grace
            },
{
    lemma_prune_membership(pool, entries, now, grace);
}

} // verus!

verus! {

/// An instance after one health probe: a success restores it (healthy,
/// errors cleared, response time recorded); a failure demotes it and counts
/// the error. The probe time is noted either way.
pub open spec fn spec_probe_result(
    m: InstanceModel,
    success: bool,
    response_time_ms: u64,
    now: u64,
) -> InstanceModel {
    if success {
        InstanceModel {
            healthy: true,
            error_count: 0,
            response_time_ms,
            last_check: now,
            ..m
        }
    } else {
        InstanceModel {
            healthy: false,
            error_count: if m.error_count < u32::MAX {
                (m.error_count + 1) as u32
            } else {
                u32::MAX
            },
            last_check: now,
            ..m
        }
    }
}

/// An instance after a transport failure while proxying to it: demoted and
/// the error counted.
pub open spec fn spec_proxy_failure(m: InstanceModel) -> InstanceModel {
    InstanceModel {
        healthy: false,
        error_count: if m.error_count < u32::MAX {
            (m.error_count + 1) as u32
        } else {
            u32::MAX
        },
        ..m
    }
}

impl LoadBalancer {
    /// Records one health probe's outcome against an instance.
    pub fn apply_health_result(
        &mut self,
        idx: usize,
        success: bool,
        response_time_ms: u64,
        now: u64,
    )
        requires
            idx < old(self)@.pool.len(),
        ensures
            final(self)@.pool =~= old(self)@.pool.update(
                idx as int,
                spec_probe_result(old(self)@.pool[idx as int], success, response_time_ms, now),
            ),
            final(self)@.current_index == old(self)@.current_index,
            final(self)@.grace == old(self)@.grace,
    {
        if success {
            self.pool[idx].healthy = true;
            self.pool[idx].error_count = 0;
            self.pool[idx].response_time_ms = response_time_ms;
        } else {
            self.pool[idx].healthy = false;
            self.pool[idx].error_count = self.pool[idx].error_count.saturating_add(1);
        }
        self.pool[idx].last_check = now;
        proof {
            assert(self@.pool =~= old(self)@.pool.update(
                idx as int,
                spec_probe_result(old(self)@.pool[idx as int], success, response_time_ms, now),
            ));
        }
    }

    /// Records a transport failure against the instance a proxied request
    /// was sent to: it is demoted and its error counted, so the next
    /// selection passes it over.
    pub fn record_proxy_failure(&mut self, idx: usize)
        requires
            idx < old(self)@.pool.len(),
        ensures
            final(self)@.pool =~= old(self)@.pool.update(
                idx as int,
                spec_proxy_failure(old(self)@.pool[idx as int]),
            ),
            final(self)@.current_index == old(self)@.current_index,
            final(self)@.grace == old(self)@.grace,
            !final(self)@.pool[idx as int].healthy,
    {
        self.pool[idx].healthy = false;
        self.pool[idx].error_count = self.pool[idx].error_count.saturating_add(1);
        proof {
            assert(self@.pool =~= old(self)@.pool.update(
                idx as int,
                spec_proxy_failure(old(self)@.pool[idx as int]),
            ));
        }
    }

    /// Counts a successfully proxied request against its instance.
    pub fn record_proxy_success(&mut self, idx: usize)
        requires
            idx < old(self)@.pool.len(),
        ensures
            final(self)@.pool =~= old(self)@.pool.update(
                idx as int,
                spec_bump_request(old(self)@.pool[idx as int]),
            ),
            final(self)@.current_index == old(self)@.current_index,
            final(self)@.grace == old(self)@.grace,
    {
        self.pool[idx].request_count = self.pool[idx].request_count.saturating_add(1);
        proof {
            assert(self@.pool =~= old(self)@.pool.update(
                idx as int,
                spec_bump_request(old(self)@.pool[idx as int]),
            ));
        }
    }

    /// Folds one sync reply into the pool, then prunes: rows tagged as a
    /// worker's OpenAI surface refresh their namesakes or join the pool;
    /// instances the registry no longer names leave once they are neither
    /// static nor within the grace period.
    pub fn sync_from_registry(&mut self, entries: Vec<SyncService>, now: u64)
        requires
            spec_pool_wf(old(self)@.pool),
            forall|k: int| 0 <= k < entries@.len() ==> (#[trigger] entries@[k]@.port) < 65535,
        ensures
            ({
                let eview = Seq::new(entries@.len(), |i: int| entries@[i]@);
                final(self)@.pool =~= spec_prune(
                    spec_apply_entries(old(self)@.pool, eview, now),
                    eview,
                    now,
                    old(self)@.grace,
                )
            }),
            spec_pool_wf(final(self)@.pool),
            final(self)@.current_index == old(self)@.current_index,
            final(self)@.grace == old(self)@.grace,
    {
        let ghost eview = Seq::new(entries@.len(), |i: int| entries@[i]@);
        let ghost old_pool = self@.pool;

        // Keep every row's name for the pruning pass: a row of any type
        // shields its namesake from removal.
        let mut names: Vec<String> = Vec::new();
        let mut i: usize = 0;
        while i < entries.len()
            invariant
                0 <= i <= entries@.len(),
                names@.len() == i,
                forall|k: int| 0 <= k < i ==> (#[trigger] names@[k]@) == entries@[k]@.name,
            decreases entries@.len() - i,
        {
            names.push(entries[i].name.clone());
            i += 1;
        }

        // Fold the rows in, in order.
        let ghost grace = self@.grace;
        proof {
            assert(eview.subrange(0, 0) =~= Seq::<SyncModel>::empty());
        }
        let mut rest = entries;
        let ghost mut done: int = 0;
        proof {
            assert(Seq::new(rest@.len(), |k: int| rest@[k]@) =~= eview.subrange(
                0,
                eview.len() as int,
            ));
            assert(eview.subrange(0, eview.len() as int) =~= eview);
        }
        while rest.len() > 0
            invariant
                0 <= done,
                done + rest@.len() == eview.len(),
                eview == Seq::new(entries@.len(), |i: int| entries@[i]@),
                old_pool == old(self)@.pool,
                Seq::new(rest@.len(), |k: int| rest@[k]@) =~= eview.subrange(
                    done,
                    eview.len() as int,
                ),
                self@.pool =~= spec_apply_entries(old_pool, eview.subrange(0, done), now),
                spec_pool_wf(self@.pool),
                forall|k: int| 0 <= k < eview.len() ==> (#[trigger] eview[k].port) < 65535,
                self@.current_index == old(self)@.current_index,
                self@.grace == old(self)@.grace,
            decreases rest@.len(),
        {
            let ghost pre = self@.pool;
            let ghost de = done;
            let ghost old_rest = rest@;
            let e = rest.remove(0);
            proof {
                assert(eview.subrange(de, eview.len() as int)[0] == eview[de]);
                assert(e@ == eview[de]);
                assert(rest@ =~= old_rest.drop_first());
                assert forall|k: int| 0 <= k < rest@.len() implies (#[trigger] rest@[k]@)
                    == eview.subrange(de + 1, eview.len() as int)[k] by {
                    assert(rest@[k] == old_rest[k + 1]);
                    assert(Seq::new(old_rest.len(), |kk: int| old_rest[kk]@)[k + 1] == eview.subrange(
                        de,
                        eview.len() as int,
                    )[k + 1]);
                }
                assert(Seq::new(rest@.len(), |k: int| rest@[k]@) =~= eview.subrange(
                    de + 1,
                    eview.len() as int,
                ));
                assert(eview.subrange(0, de + 1).drop_last() =~= eview.subrange(0, de));
                assert(eview.subrange(0, de + 1).last() == eview[de]);
            }
            if is_openai_api(&e.metadata) {
                match self.find_instance(e.name.as_str()) {
                    Some(j) => {
                        let models = crate::metadata::meta_models(&e.metadata);
                        let url = crate::strutil::http_url(e.host.as_str(), e.port);
                        let bab = crate::strutil::http_url(e.host.as_str(), e.port + 1);
                        self.pool[j].host = e.host;
                        self.pool[j].port = e.port;
                        self.pool[j].url = url;
                        self.pool[j].babysitter_url = bab;
                        self.pool[j].healthy = e.is_healthy;
                        self.pool[j].models = models;
                        self.pool[j].metadata = e.metadata;
                        self.pool[j].last_seen = now;
                        proof {
                            assert(self@.pool =~= pre.update(
                                j as int,
                                spec_refresh(pre[j as int], eview[de], now),
                            ));
                            assert(self@.pool =~= spec_upsert(pre, eview[de], now));
                            assert forall|a: int|
                                0 <= a < self@.pool.len() implies (#[trigger] self@.pool[a].name)
                                == pre[a].name by {}
                            assert forall|a: int, b: int|
                                0 <= a < b < self@.pool.len() implies (
                            #[trigger] self@.pool[a].name) != (#[trigger] self@.pool[b].name) by {
                                assert(pre[a].name != pre[b].name);
                            }
                            assert forall|a: int|
                                0 <= a < self@.pool.len() implies spec_instance_wf(
                                #[trigger] self@.pool[a],
                            ) by {
                                if a != j as int {
                                    assert(self@.pool[a] == pre[a]);
                                }
                            }
                        }
                    },
                    None => {
                        let mut inst = crate::instance::ServiceInstance::new(
                            e.name,
                            e.host,
                            e.port,
                            e.weight,
                            e.metadata,
                            now,
                        );
                        inst.healthy = e.is_healthy;
                        self.pool.push(inst);
                        proof {
                            lemma_ifind_characterizes(pre, eview[de].name);
                            assert(self@.pool =~= pre.push(spec_from_sync(eview[de], now)));
                            assert forall|a: int, b: int|
                                0 <= a < b < self@.pool.len() implies (
                            #[trigger] self@.pool[a].name) != (#[trigger] self@.pool[b].name) by {
                                if b < pre.len() {
                                    assert(pre[a].name != pre[b].name);
                                } else {
                                    assert(pre[a].name != eview[de].name);
                                }
                            }
                            assert forall|a: int|
                                0 <= a < self@.pool.len() implies spec_instance_wf(
                                #[trigger] self@.pool[a],
                            ) by {
                                if a < pre.len() {
                                    assert(self@.pool[a] == pre[a]);
                                }
                            }
                        }
                    },
                }
            }
            proof {
                done = done + 1;
                assert(self@.pool =~= spec_apply_entries(old_pool, eview.subrange(0, de + 1), now));
            }
        }
        proof {
            assert(eview.subrange(0, eview.len() as int) =~= eview);
        }

        // Prune: drop whatever this sync did not shield.
        let ghost mid_pool = self@.pool;
        let mut kept: Vec<ServiceInstance> = Vec::new();
        proof {
            assert(Seq::new(kept@.len(), |k: int| kept@[k]@) + spec_prune(mid_pool, eview, now, grace)
                =~= spec_prune(mid_pool, eview, now, grace));
            assert(Seq::new(kept@.len(), |k: int| kept@[k]@) + mid_pool =~= mid_pool);
        }
        while self.pool.len() > 0
            invariant
                eview == Seq::new(entries@.len(), |i: int| entries@[i]@),
                grace == old(self)@.grace,
                names@.len() == eview.len(),
                forall|k: int| 0 <= k < eview.len() ==> (#[trigger] names@[k]@) == eview[k].name,
                spec_prune(mid_pool, eview, now, grace) =~= Seq::new(
                    kept@.len(),
                    |k: int| kept@[k]@,
                ) + spec_prune(self@.pool, eview, now, grace),
                spec_pool_wf(Seq::new(kept@.len(), |k: int| kept@[k]@) + self@.pool),
                self@.current_index == old(self)@.current_index,
                self@.grace == old(self)@.grace,
            decreases self.pool@.len(),
        {
            let ghost before = self@.pool;
            let ghost kview = Seq::new(kept@.len(), |k: int| kept@[k]@);
            let inst = self.pool.remove(0);
            proof {
                assert(self@.pool =~= before.drop_first());
                assert(inst@ == before[0]);
            }
            let named = contains_name(&names, &inst.name);
            proof {
                lemma_sync_has_name_index(eview, inst@.name);
                if named {
                    let k = choose|k: int|
                        0 <= k < names@.len() && (#[trigger] names@[k]@) == inst@.name;
                    assert(eview[k].name == inst@.name);
                }
                if spec_sync_has_name(eview, inst@.name) {
                    let k = choose|k: int|
                        0 <= k < eview.len() && (#[trigger] eview[k].name) == inst@.name;
                    assert(names@[k]@ == inst@.name);
                }
                assert(named == spec_sync_has_name(eview, inst@.name));
            }
            let keep = named || crate::metadata::is_static_meta(&inst.metadata) || now
                < inst.last_seen || now - inst.last_seen < self.service_removal_grace_period;
            proof {
                assert(keep == spec_keep(inst@, eview, now, grace));
                assert(spec_prune(before, eview, now, grace) == (if spec_keep(
                    before[0],
                    eview,
                    now,
                    grace,
                ) {
                    seq![before[0]] + spec_prune(before.drop_first(), eview, now, grace)
                } else {
                    spec_prune(before.drop_first(), eview, now, grace)
                }));
            }
            if keep {
                kept.push(inst);
                proof {
                    assert(Seq::new(kept@.len(), |k: int| kept@[k]@) =~= kview.push(before[0]));
                    assert(kview + (seq![before[0]] + spec_prune(
                        before.drop_first(),
                        eview,
                        now,
                        grace,
                    )) =~= kview.push(before[0]) + spec_prune(
                        before.drop_first(),
                        eview,
                        now,
                        grace,
                    ));
                    assert(kview.push(before[0]) + self@.pool =~= kview + before);
                }
            } else {
                proof {
                    let ghost old_comb = kview + before;
                    let ghost new_comb = kview + before.drop_first();
                    assert forall|a: int, b: int|
                        0 <= a < b < new_comb.len() implies (#[trigger] new_comb[a].name) != (
                    #[trigger] new_comb[b].name) by {
                        let a2 = if a < kview.len() { a } else { a + 1 };
                        let b2 = if b < kview.len() { b } else { b + 1 };
                        assert(new_comb[a] == old_comb[a2]);
                        assert(new_comb[b] == old_comb[b2]);
                        assert(old_comb[a2].name != old_comb[b2].name);
                    }
                    assert forall|a: int|
                        0 <= a < new_comb.len() implies spec_instance_wf(
                        #[trigger] new_comb[a],
                    ) by {
                        let a2 = if a < kview.len() { a } else { a + 1 };
                        assert(new_comb[a] == old_comb[a2]);
                        assert(spec_instance_wf(old_comb[a2]));
                    }
                }
            }
        }
        proof {
            assert(spec_prune(self@.pool, eview, now, grace) =~= Seq::<InstanceModel>::empty());
            assert(Seq::new(kept@.len(), |k: int| kept@[k]@) + Seq::<InstanceModel>::empty()
                =~= Seq::new(kept@.len(), |k: int| kept@[k]@));
            assert(Seq::new(kept@.len(), |k: int| kept@[k]@) + self@.pool =~= Seq::new(
                kept@.len(),
                |k: int| kept@[k]@,
            ));
        }
        self.pool = kept;
    }
}

/// Whether a name stands among the given names.
fn contains_name(names: &Vec<String>, name: &String) -> (r: bool)
    ensures
        r <==> exists|k: int| 0 <= k < names@.len() && (#[trigger] names@[k]@) == name@,
{
    let mut i: usize = 0;
    while i < names.len()
        invariant
            0 <= i <= names@.len(),
            forall|k: int| 0 <= k < i ==> (#[trigger] names@[k]@) != name@,
        decreases names@.len() - i,
    {
        if names[i].eq(name) {
            return true;
        }
        i += 1;
    }
    false
}

} // verus!

verus! {

/// The candidate selected at counter value `c`, for candidates whose
/// weights do not all vanish: the counter is reduced modulo the summed
/// weight and lands in one candidate's span. This is the value
/// `spec_choice` takes at every counter once the sum is positive.
pub open spec fn spec_select_at(cands: Seq<InstanceModel>, c: int) -> int {
    spec_wpick(cands, c % spec_psum(cands, cands.len() as int))
}

/// With a positive weight sum, each counted selection follows
/// `spec_select_at` at the then-current counter.
pub proof fn lemma_choice_is_select_at(cands: Seq<InstanceModel>, counter: u64)
    requires
        spec_psum(cands, cands.len() as int) > 0,
    ensures
        spec_choice(cands, counter) == spec_select_at(cands, counter as int),
{
}

/// How many counter values in `[lo, hi)` select candidate `j`.
pub open spec fn spec_pick_count(cands: Seq<InstanceModel>, j: int, lo: int, hi: int) -> int
    decreases hi - lo,
{
    if hi <= lo {
        0
    } else {
        spec_pick_count(cands, j, lo, hi - 1) + (if spec_select_at(cands, hi - 1) == j {
            1int
        } else {
            0int
        })
    }
}

/// The pick is `j` exactly on `j`'s span of the summed weights.
proof fn lemma_wpick_iff_span(cands: Seq<InstanceModel>, j: int, t: int)
    requires
        0 <= j < cands.len(),
        0 <= t < spec_psum(cands, cands.len() as int),
    ensures
        spec_wpick(cands, t) == j <==> (spec_psum(cands, j) <= t < spec_psum(cands, j + 1)),
{
    lemma_wpick_interval(cands, t);
    let p = spec_wpick(cands, t);
    if p != j && spec_psum(cands, j) <= t < spec_psum(cands, j + 1) {
        if p < j {
            lemma_psum_monotone(cands, p + 1, j);
            assert(false);
        } else {
            lemma_psum_monotone(cands, j + 1, p);
            assert(false);
        }
    }
}

/// Counting from zero: within one period, candidate `j` is selected once
/// for each counter value in its span.
proof fn lemma_count_prefix(cands: Seq<InstanceModel>, j: int, hi: int)
    requires
        spec_psum(cands, cands.len() as int) > 0,
        0 <= j < cands.len(),
        0 <= hi <= spec_psum(cands, cands.len() as int),
    ensures
        spec_pick_count(cands, j, 0, hi) == (if hi <= spec_psum(cands, j) {
            0
        } else if hi < spec_psum(cands, j + 1) {
            hi - spec_psum(cands, j)
        } else {
            spec_psum(cands, j + 1) - spec_psum(cands, j)
        }),
    decreases hi,
{
    lemma_psum_monotone(cands, 0, j);
    lemma_psum_monotone(cands, j, j + 1);
    if hi > 0 {
        lemma_count_prefix(cands, j, hi - 1);
        vstd::arithmetic::div_mod::lemma_small_mod(
            (hi - 1) as nat,
            spec_psum(cands, cands.len() as int) as nat,
        );
        lemma_wpick_iff_span(cands, j, hi - 1);
    }
}

/// Counting peels from the low end as well.
proof fn lemma_count_peel_lo(cands: Seq<InstanceModel>, j: int, lo: int, hi: int)
    requires
        lo < hi,
    ensures
        spec_pick_count(cands, j, lo, hi) == (if spec_select_at(cands, lo) == j {
            1int
        } else {
            0int
        }) + spec_pick_count(cands, j, lo + 1, hi),
    decreases hi - lo,
{
    if lo + 1 < hi {
        lemma_count_peel_lo(cands, j, lo, hi - 1);
    } else {
        assert(spec_pick_count(cands, j, lo, lo) == 0);
        assert(spec_pick_count(cands, j, lo + 1, hi) == 0);
    }
}

/// A period's count is the same wherever the period starts.
proof fn lemma_count_period(cands: Seq<InstanceModel>, j: int, c0: int)
    requires
        spec_psum(cands, cands.len() as int) > 0,
        0 <= j < cands.len(),
        0 <= c0,
    ensures
        spec_pick_count(cands, j, c0, c0 + spec_psum(cands, cands.len() as int))
            == spec_pick_count(cands, j, 0, spec_psum(cands, cands.len() as int)),
    decreases c0,
{
    let w = spec_psum(cands, cands.len() as int);
    if c0 > 0 {
        lemma_count_period(cands, j, c0 - 1);
        lemma_count_peel_lo(cands, j, c0 - 1, c0 + w);
        vstd::arithmetic::div_mod::lemma_mod_add_multiples_vanish(c0 - 1, w);
        assert(spec_select_at(cands, c0 - 1 + w) == spec_select_at(cands, c0 - 1));
        assert(spec_pick_count(cands, j, c0 - 1, c0 + w) == spec_pick_count(
            cands,
            j,
            c0 - 1,
            c0 - 1 + w,
        ) + (if spec_select_at(cands, c0 - 1 + w) == j {
            1int
        } else {
            0int
        }));
    }
}

/// Counts over adjacent windows add up.
proof fn lemma_count_split(cands: Seq<InstanceModel>, j: int, lo: int, mid: int, hi: int)
    requires
        lo <= mid <= hi,
    ensures
        spec_pick_count(cands, j, lo, hi) == spec_pick_count(cands, j, lo, mid)
            + spec_pick_count(cands, j, mid, hi),
    decreases hi - mid,
{
    if mid < hi {
        lemma_count_split(cands, j, lo, mid, hi - 1);
    }
}

/// Weighted round-robin is fair in the long run: over any window of
/// `k` whole periods of the summed weight, starting at any counter value,
/// each candidate is selected exactly `k` times its weight. Each counted
/// selection advances the counter by one and picks `spec_select_at` of it,
/// so over `k * W` consecutive selections against a fixed candidate set a
/// candidate of weight `w` is chosen exactly `k * w` times.
pub proof fn lemma_weighted_round_robin_fair(
    cands: Seq<InstanceModel>,
    j: int,
    c0: int,
    k: int,
)
    requires
        spec_psum(cands, cands.len() as int) > 0,
        0 <= j < cands.len(),
        0 <= c0,
        0 <= k,
    ensures
        spec_pick_count(cands, j, c0, c0 + k * spec_psum(cands, cands.len() as int)) == k * (
        cands[j].weight as int),
    decreases k,
{
    let w = spec_psum(cands, cands.len() as int);
    if k == 0 {
        assert(k * w == 0) by (nonlinear_arith)
            requires
                k == 0,
        ;
        assert(k * (cands[j].weight as int) == 0) by (nonlinear_arith)
            requires
                k == 0,
        ;
    } else {
        lemma_weighted_round_robin_fair(cands, j, c0, k - 1);
        assert((k - 1) * w + w == k * w) by (nonlinear_arith);
        assert((k - 1) * (cands[j].weight as int) + (cands[j].weight as int) == k * (
        cands[j].weight as int)) by (nonlinear_arith);
        assert(0 <= (k - 1) * w) by (nonlinear_arith)
            requires
                k >= 1 && w > 0,
        ;
        lemma_count_split(cands, j, c0, c0 + (k - 1) * w, c0 + k * w);
        lemma_count_period(cands, j, c0 + (k - 1) * w);
        lemma_count_prefix(cands, j, w);
        lemma_psum_monotone(cands, j + 1, cands.len() as int);
        assert(spec_psum(cands, j + 1) == spec_psum(cands, j) + cands[j].weight);
    }
}

/// Session stickiness: against one candidate set and one session key, the
/// session-affine choice is always the same candidate.
pub proof fn lemma_session_sticky(
    pool1: Seq<InstanceModel>,
    pool2: Seq<InstanceModel>,
    model: Option<Seq<char>>,
    key1: Seq<u8>,
    key2: Seq<u8>,
)
    requires
        pool1 =~= pool2,
        key1 =~= key2,
    ensures
        ({
            let c1 = spec_cands(pool1, model, None);
            let c2 = spec_cands(pool2, model, None);
            &&& c1 == c2
            &&& c1.len() > 0 ==> c1[spec_fnv1a64(key1) as int % c1.len() as int] == c2[spec_fnv1a64(
                key2,
            ) as int % c2.len() as int]
        }),
{
    assert(pool1 == pool2);
    assert(key1 == key2);
}

} // verus!

verus! {

/// Whether the error tally alone would mark an instance unhealthy; the
/// health checker uses it to decide what is worth reporting.
pub fn should_mark_unhealthy(error_count: u32, max_errors: u32) -> (r: bool)
    ensures
        r == (error_count >= max_errors),
{
    error_count >= max_errors
}

/// A probe answer counts as success exactly when its status is a success
/// status.
pub fn probe_verdict(status: u16) -> (r: bool)
    ensures
        r == (200 <= status < 300),
{
    status >= 200 && status < 300
}

} // verus!

verus! {

/// A pool instance made from one static entry: endpoints derived, models
/// read from its metadata, optimistically healthy, seen now.
pub open spec fn spec_from_static(e: crate::config::StaticModel, now: u64) -> InstanceModel {
    InstanceModel {
        name: e.name,
        host: e.host,
        port: e.port,
        url: crate::strutil::spec_http_url(e.host, e.port),
        babysitter_url: crate::strutil::spec_http_url(e.host, (e.port + 1) as u16),
        healthy: true,
        models: spec_meta_models(e.metadata),
        metadata: e.metadata,
        request_count: 0,
        error_count: 0,
        weight: e.weight,
        last_seen: now,
        last_check: 0,
        response_time_ms: 0,
    }
}

/// The pool after the static entries are folded in, in order: an entry
/// replaces its namesake wholly, or joins the pool.
pub open spec fn spec_seed(
    pool: Seq<InstanceModel>,
    entries: Seq<crate::config::StaticModel>,
    now: u64,
) -> Seq<InstanceModel>
    decreases entries.len(),
{
    if entries.len() == 0 {
        pool
    } else {
        let prev = spec_seed(pool, entries.drop_last(), now);
        let inst = spec_from_static(entries.last(), now);
        match spec_ifind(prev, inst.name) {
            Some(i) => prev.update(i, inst),
            None => prev.push(inst),
        }
    }
}

impl LoadBalancer {
    /// Seeds the pool with the static entries, one instance per entry, a
    /// later entry replacing an earlier namesake.
    pub fn seed_static(&mut self, services: &Vec<crate::config::StaticService>, now: u64)
        requires
            spec_pool_wf(old(self)@.pool),
            forall|k: int| 0 <= k < services@.len() ==> (#[trigger] services@[k]@.port) < 65535,
        ensures
            final(self)@.pool =~= spec_seed(
                old(self)@.pool,
                Seq::new(services@.len(), |i: int| services@[i]@),
                now,
            ),
            spec_pool_wf(final(self)@.pool),
            final(self)@.current_index == old(self)@.current_index,
            final(self)@.grace == old(self)@.grace,
    {
        let ghost eview = Seq::new(services@.len(), |i: int| services@[i]@);
        let ghost old_pool = self@.pool;
        let mut i: usize = 0;
        proof {
            assert(eview.subrange(0, 0) =~= Seq::<crate::config::StaticModel>::empty());
            assert(self@.pool =~= spec_seed(old_pool, eview.subrange(0, 0), now));
        }
        while i < services.len()
            invariant
                0 <= i <= services@.len(),
                eview == Seq::new(services@.len(), |k: int| services@[k]@),
                old_pool == old(self)@.pool,
                forall|k: int| 0 <= k < eview.len() ==> (#[trigger] eview[k].port) < 65535,
                self@.pool =~= spec_seed(old_pool, eview.subrange(0, i as int), now),
                spec_pool_wf(self@.pool),
                self@.current_index == old(self)@.current_index,
                self@.grace == old(self)@.grace,
            decreases services@.len() - i,
        {
            let ghost pre = self@.pool;
            let ghost de = i as int;
            proof {
                assert(eview.subrange(0, de + 1).drop_last() =~= eview.subrange(0, de));
                assert(eview.subrange(0, de + 1).last() == eview[de]);
            }
            let entry = &services[i];
            let inst = crate::instance::ServiceInstance::new(
                entry.name.clone(),
                entry.host.clone(),
                entry.port,
                entry.weight,
                entry.metadata.deep_clone(),
                now,
            );
            proof {
                assert(inst@ == spec_from_static(eview[de], now));
            }
            match self.find_instance(entry.name.as_str()) {
                Some(j) => {
                    self.pool[j] = inst;
                    proof {
                        lemma_ifind_characterizes(pre, eview[de].name);
                        assert(pre[j as int].name == eview[de].name);
                        assert(self@.pool =~= pre.update(j as int, spec_from_static(eview[de], now)));
                        assert forall|a: int|
                            0 <= a < self@.pool.len() implies (#[trigger] self@.pool[a].name)
                            == pre[a].name by {}
                        assert forall|a: int, b: int|
                            0 <= a < b < self@.pool.len() implies (#[trigger] self@.pool[a].name)
                            != (#[trigger] self@.pool[b].name) by {
                            assert(pre[a].name != pre[b].name);
                        }
                        assert forall|a: int|
                            0 <= a < self@.pool.len() implies spec_instance_wf(
                            #[trigger] self@.pool[a],
                        ) by {
                            if a != j as int {
                                assert(self@.pool[a] == pre[a]);
                            }
                        }
                    }
                },
                None => {
                    self.pool.push(inst);
                    proof {
                        lemma_ifind_characterizes(pre, eview[de].name);
                        assert(self@.pool =~= pre.push(spec_from_static(eview[de], now)));
                        assert forall|a: int, b: int|
                            0 <= a < b < self@.pool.len() implies (#[trigger] self@.pool[a].name)
                            != (#[trigger] self@.pool[b].name) by {
                            if b < pre.len() {
                                assert(pre[a].name != pre[b].name);
                            } else {
                                assert(pre[a].name != eview[de].name);
                            }
                        }
                        assert forall|a: int|
                            0 <= a < self@.pool.len() implies spec_instance_wf(
                            #[trigger] self@.pool[a],
                        ) by {
                            if a < pre.len() {
                                assert(self@.pool[a] == pre[a]);
                            }
                        }
                    }
                },
            }
            i += 1;
            proof {
                assert(self@.pool =~= spec_seed(old_pool, eview.subrange(0, de + 1), now));
            }
        }
        proof {
            assert(eview.subrange(0, eview.len() as int) =~= eview);
        }
    }
}

} // verus!
