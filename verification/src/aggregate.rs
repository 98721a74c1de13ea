//! Aggregation of the models served by the pool: the union of every
//! healthy OpenAI-surface instance's model objects, deduplicated by id
//! (the first contributor wins) and sorted by id.

use vstd::prelude::*;

use crate::balancer::LoadBalancer;
use crate::instance::InstanceModel;
use crate::json::{jm_as_arr, jm_get, jm_get_str, jview_items, JModel, Json};
use crate::metadata::{is_openai_api, spec_is_openai_api};

verus! {

/// Strict lexicographic order on character sequences, by scalar value:
/// the order model ids are listed in.
pub open spec fn spec_lex_lt(a: Seq<char>, b: Seq<char>) -> bool
    decreases a.len(),
{
    if b.len() == 0 {
        false
    } else if a.len() == 0 {
        true
    } else if a[0] != b[0] {
        (a[0] as u32) < (b[0] as u32)
    } else {
        spec_lex_lt(a.drop_first(), b.drop_first())
    }
}

/// Exactly one of `a < b`, `b < a`, `a == b` holds.
pub proof fn lemma_lex_trichotomy(a: Seq<char>, b: Seq<char>)
    ensures
        spec_lex_lt(a, b) || spec_lex_lt(b, a) || a =~= b,
        spec_lex_lt(a, b) ==> !spec_lex_lt(b, a),
        a =~= b ==> !spec_lex_lt(a, b),
    decreases a.len() + b.len(),
{
    if a.len() > 0 && b.len() > 0 && a[0] == b[0] {
        lemma_lex_trichotomy(a.drop_first(), b.drop_first());
        if a.drop_first() =~= b.drop_first() {
            assert(a.len() == b.len());
            assert forall|k: int| 0 <= k < a.len() implies a[k] == b[k] by {
                if k > 0 {
                    assert(a.drop_first()[k - 1] == a[k]);
                    assert(b.drop_first()[k - 1] == b[k]);
                }
            }
            assert(a =~= b);
        }
        if a =~= b {
            assert(a.drop_first() =~= b.drop_first());
        }
    } else if a.len() > 0 && b.len() > 0 && a[0] != b[0] {
        if (a[0] as u32) == (b[0] as u32) {
            vstd::utf8::char_u32_cast(a[0], a[0] as u32);
            vstd::utf8::char_u32_cast(b[0], b[0] as u32);
            assert(false);
        }
    }
}

/// The order is transitive.
pub proof fn lemma_lex_trans(a: Seq<char>, b: Seq<char>, c: Seq<char>)
    requires
        spec_lex_lt(a, b),
        spec_lex_lt(b, c),
    ensures
        spec_lex_lt(a, c),
    decreases a.len() + b.len() + c.len(),
{
    if b.len() > 0 && c.len() > 0 && a.len() > 0 {
        if a[0] == b[0] && b[0] == c[0] {
            lemma_lex_trans(a.drop_first(), b.drop_first(), c.drop_first());
        }
    }
}

/// Compares character slices in the id order.
pub fn chars_lt(a: &[char], b: &[char]) -> (r: bool)
    ensures
        r == spec_lex_lt(a@, b@),
{
    let mut i: usize = 0;
    proof {
        assert(a@.subrange(0, a@.len() as int) =~= a@);
        assert(b@.subrange(0, b@.len() as int) =~= b@);
    }
    loop
        invariant
            0 <= i <= a@.len(),
            i <= b@.len(),
            spec_lex_lt(a@, b@) == spec_lex_lt(
                a@.subrange(i as int, a@.len() as int),
                b@.subrange(i as int, b@.len() as int),
            ),
        decreases a@.len() - i,
    {
        let ghost ta = a@.subrange(i as int, a@.len() as int);
        let ghost tb = b@.subrange(i as int, b@.len() as int);
        proof {
            assert(ta.len() > 0 ==> ta[0] == a@[i as int]);
            assert(tb.len() > 0 ==> tb[0] == b@[i as int]);
            assert(ta.len() > 0 ==> ta.drop_first() =~= a@.subrange(i as int + 1, a@.len() as int));
            assert(tb.len() > 0 ==> tb.drop_first() =~= b@.subrange(i as int + 1, b@.len() as int));
        }
        if i >= b.len() {
            return false;
        }
        if i >= a.len() {
            return true;
        }
        let ca = a[i];
        let cb = b[i];
        if ca != cb {
            return (ca as u32) < (cb as u32);
        }
        i += 1;
    }
}

/// The (id, object) pairs one list of model objects contributes: each
/// object that carries a string `id`, under that id.
pub open spec fn spec_list_contribs(items: Seq<JModel>) -> Seq<(Seq<char>, JModel)>
    decreases items.len(),
{
    if items.len() == 0 {
        Seq::empty()
    } else {
        let rest = spec_list_contribs(items.drop_last());
        match jm_get_str(items.last(), "id"@) {
            Some(id) => rest.push((id, items.last())),
            None => rest,
        }
    }
}

/// The minimal model objects an instance's bare id list contributes.
pub open spec fn spec_id_contribs(ids: Seq<Seq<char>>) -> Seq<(Seq<char>, JModel)>
    decreases ids.len(),
{
    if ids.len() == 0 {
        Seq::empty()
    } else {
        spec_id_contribs(ids.drop_last()).push(
            (ids.last(), JModel::Obj(seq![("id"@, JModel::Str(ids.last()))])),
        )
    }
}

/// What one instance contributes: its full model objects when its metadata
/// lists them, else minimal objects made of its bare model ids.
pub open spec fn spec_instance_contribs(m: InstanceModel) -> Seq<(Seq<char>, JModel)> {
    match jm_get(m.metadata, "models_list"@) {
        Some(v) => match jm_as_arr(v) {
            Some(items) => spec_list_contribs(items),
            None => spec_id_contribs(m.models),
        },
        None => spec_id_contribs(m.models),
    }
}

/// What the pool contributes, in pool order: only healthy instances of the
/// OpenAI surface count.
pub open spec fn spec_pool_contribs(pool: Seq<InstanceModel>) -> Seq<(Seq<char>, JModel)>
    decreases pool.len(),
{
    if pool.len() == 0 {
        Seq::empty()
    } else {
        let rest = spec_pool_contribs(pool.drop_last());
        if pool.last().healthy && spec_is_openai_api(pool.last().metadata) {
            rest + spec_instance_contribs(pool.last())
        } else {
            rest
        }
    }
}

/// An id among pairs.
pub open spec fn spec_has_id(pairs: Seq<(Seq<char>, JModel)>, id: Seq<char>) -> bool
    decreases pairs.len(),
{
    pairs.len() > 0 && (pairs[0].0 == id || spec_has_id(pairs.drop_first(), id))
}

/// The pairs with each id's first occurrence kept.
pub open spec fn spec_dedup(pairs: Seq<(Seq<char>, JModel)>) -> Seq<(Seq<char>, JModel)>
    decreases pairs.len(),
{
    if pairs.len() == 0 {
        Seq::empty()
    } else {
        let d = spec_dedup(pairs.drop_last());
        if spec_has_id(d, pairs.last().0) {
            d
        } else {
            d.push(pairs.last())
        }
    }
}

/// Where an insertion-sorted list takes a new pair: before the first entry
/// whose id is greater.
pub open spec fn spec_ins_pos(s: Seq<(Seq<char>, JModel)>, id: Seq<char>) -> int
    decreases s.len(),
{
    if s.len() == 0 {
        0
    } else if spec_lex_lt(id, s[0].0) {
        0
    } else {
        1 + spec_ins_pos(s.drop_first(), id)
    }
}

pub proof fn lemma_ins_pos_props(s: Seq<(Seq<char>, JModel)>, id: Seq<char>)
    ensures
        0 <= spec_ins_pos(s, id) <= s.len(),
        forall|j: int| 0 <= j < spec_ins_pos(s, id) ==> !spec_lex_lt(id, (#[trigger] s[j]).0),
        spec_ins_pos(s, id) < s.len() ==> spec_lex_lt(id, s[spec_ins_pos(s, id)].0),
    decreases s.len(),
{
    if s.len() > 0 && !spec_lex_lt(id, s[0].0) {
        lemma_ins_pos_props(s.drop_first(), id);
        let p = spec_ins_pos(s, id);
        assert forall|j: int| 0 <= j < p implies !spec_lex_lt(id, (#[trigger] s[j]).0) by {
            if j > 0 {
                assert(s.drop_first()[j - 1] == s[j]);
            }
        }
        if p < s.len() {
            assert(s.drop_first()[p - 1] == s[p]);
        }
    }
}

/// Pairs sorted by insertion, one at a time.
pub open spec fn spec_sort(pairs: Seq<(Seq<char>, JModel)>) -> Seq<(Seq<char>, JModel)>
    decreases pairs.len(),
{
    if pairs.len() == 0 {
        Seq::empty()
    } else {
        let s = spec_sort(pairs.drop_last());
        s.insert(spec_ins_pos(s, pairs.last().0), pairs.last())
    }
}

/// Non-decreasing ids.
pub open spec fn spec_sorted_by_id(s: Seq<(Seq<char>, JModel)>) -> bool {
    forall|i: int, j: int|
        0 <= i < j < s.len() ==> !spec_lex_lt((#[trigger] s[j]).0, (#[trigger] s[i]).0)
}

/// Inserting at the computed position keeps the ids non-decreasing.
pub proof fn lemma_insert_keeps_sorted(s: Seq<(Seq<char>, JModel)>, p: (Seq<char>, JModel))
    requires
        spec_sorted_by_id(s),
    ensures
        spec_sorted_by_id(s.insert(spec_ins_pos(s, p.0), p)),
{
    lemma_ins_pos_props(s, p.0);
    let pos = spec_ins_pos(s, p.0);
    let t = s.insert(pos, p);
    assert forall|i: int, j: int|
        0 <= i < j < t.len() implies !spec_lex_lt((#[trigger] t[j]).0, (#[trigger] t[i]).0) by {
        let oi = if i < pos {
            i
        } else {
            i - 1
        };
        let oj = if j < pos {
            j
        } else {
            j - 1
        };
        if i == pos && j == pos {
        } else if i == pos {
            // t[i] is the new pair; t[j] sits at old index j - 1 >= pos.
            assert(t[j] == s[j - 1]);
            if spec_lex_lt(s[j - 1].0, p.0) {
                if pos < s.len() {
                    lemma_lex_trichotomy(p.0, s[pos].0);
                    if pos < j - 1 {
                        lemma_lex_trans(s[j - 1].0, p.0, s[pos].0);
                        assert(!spec_lex_lt(s[j - 1].0, s[pos].0));
                        assert(false);
                    } else {
                        lemma_lex_trans(s[j - 1].0, p.0, s[j - 1].0);
                        lemma_lex_trichotomy(s[j - 1].0, s[j - 1].0);
                        assert(false);
                    }
                } else {
                    assert(j - 1 < s.len());
                    assert(false);
                }
            }
        } else if j == pos {
            // t[j] is the new pair; t[i] sits at old index i < pos.
            assert(t[i] == s[i]);
            assert(!spec_lex_lt(p.0, s[i].0));
        } else {
            assert(t[i] == s[oi]);
            assert(t[j] == s[oj]);
        }
    }
}

/// The sorted pairs have non-decreasing ids.
pub proof fn lemma_sort_sorted(pairs: Seq<(Seq<char>, JModel)>)
    ensures
        spec_sorted_by_id(spec_sort(pairs)),
    decreases pairs.len(),
{
    if pairs.len() > 0 {
        lemma_sort_sorted(pairs.drop_last());
        lemma_insert_keeps_sorted(spec_sort(pairs.drop_last()), pairs.last());
    }
}

/// The objects of the pool's aggregated models: contributions in pool
/// order, first contributor of an id winning, sorted by id.
pub open spec fn spec_aggregated(pool: Seq<InstanceModel>) -> Seq<JModel> {
    let sorted = spec_sort(spec_dedup(spec_pool_contribs(pool)));
    Seq::new(sorted.len(), |i: int| sorted[i].1)
}

/// Aggregates model objects across the pool.
pub struct ModelAggregator;

} // verus!

verus! {

/// An id is among pairs exactly when some pair bears it.
proof fn lemma_has_id_index(pairs: Seq<(Seq<char>, JModel)>, id: Seq<char>)
    ensures
        spec_has_id(pairs, id) <==> exists|i: int|
            0 <= i < pairs.len() && (#[trigger] pairs[i]).0 == id,
    decreases pairs.len(),
{
    if pairs.len() > 0 {
        lemma_has_id_index(pairs.drop_first(), id);
        if pairs[0].0 == id {
        } else if spec_has_id(pairs.drop_first(), id) {
            let i = choose|i: int|
                0 <= i < pairs.drop_first().len() && (#[trigger] pairs.drop_first()[i]).0 == id;
            assert(pairs[i + 1] == pairs.drop_first()[i]);
        } else {
            assert forall|i: int| 0 <= i < pairs.len() implies (#[trigger] pairs[i]).0 != id by {
                if i > 0 {
                    assert(pairs.drop_first()[i - 1] == pairs[i]);
                }
            }
        }
    }
}

/// Whether an id stands among collected pairs.
fn pairs_have_id(pairs: &Vec<(Vec<char>, Json)>, id: &Vec<char>) -> (r: bool)
    ensures
        r == spec_has_id(crate::json::jview_fields(pairs@), id@),
{
    let ghost pview = crate::json::jview_fields(pairs@);
    proof {
        crate::json::lemma_jview_fields_len(pairs@);
        lemma_has_id_index(pview, id@);
    }
    let mut m: usize = 0;
    while m < pairs.len()
        invariant
            0 <= m <= pairs@.len(),
            pview == crate::json::jview_fields(pairs@),
            pview.len() == pairs@.len(),
            forall|j: int| 0 <= j < m ==> (#[trigger] pview[j]).0 != id@,
        decreases pairs@.len() - m,
    {
        proof {
            crate::json::lemma_jview_fields_index(pairs@, m as int);
        }
        if crate::strutil::chars_eq(pairs[m].0.as_slice(), id.as_slice()) {
            proof {
                lemma_has_id_index(pview, id@);
                assert(pview[m as int].0 == id@);
            }
            return true;
        }
        m += 1;
    }
    proof {
        lemma_has_id_index(pview, id@);
    }
    false
}

impl ModelAggregator {
    /// The pool's aggregated model objects: every healthy OpenAI-surface
    /// instance's models, first contributor of an id winning, sorted by id.
    pub fn aggregate_models(lb: &LoadBalancer) -> (r: Vec<Json>)
        ensures
            jview_items(r@) == spec_aggregated(lb@.pool),
    {
        let contribs = Self::collect_contribs(lb);
        // Keep the first contribution of each id.
        let mut deduped: Vec<(Vec<char>, Json)> = Vec::new();
        let ghost all = crate::json::jview_fields(contribs@);
        let mut rest = contribs;
        let ghost mut done: int = 0;
        proof {
            crate::json::lemma_jview_fields_len(rest@);
            assert(crate::json::jview_fields(rest@) =~= all);
            assert(all.subrange(0, 0) =~= Seq::<(Seq<char>, JModel)>::empty());
            assert(crate::json::jview_fields(deduped@) =~= spec_dedup(all.subrange(0, 0)));
        }
        while rest.len() > 0
            invariant
                0 <= done,
                done + rest@.len() == all.len(),
                all =~= spec_pool_contribs(lb@.pool),
                crate::json::jview_fields(rest@) =~= all.subrange(done, all.len() as int),
                crate::json::jview_fields(deduped@) =~= spec_dedup(all.subrange(0, done)),
            decreases rest@.len(),
        {
            let ghost de = done;
            let ghost old_rest = rest@;
            proof {
                crate::json::lemma_jview_fields_len(old_rest);
            }
            let p = rest.remove(0);
            proof {
                assert(rest@ =~= old_rest.drop_first());
                crate::json::lemma_jview_fields_index(old_rest, 0);
                assert((p.0@, crate::json::jview(p.1)) == all.subrange(de, all.len() as int)[0]);
                assert forall|kk: int|
                    0 <= kk < rest@.len() implies #[trigger] crate::json::jview_fields(rest@)[kk]
                    == all.subrange(de + 1, all.len() as int)[kk] by {
                    crate::json::lemma_jview_fields_index(rest@, kk);
                    crate::json::lemma_jview_fields_index(old_rest, kk + 1);
                    assert(old_rest[kk + 1] == rest@[kk]);
                }
                crate::json::lemma_jview_fields_len(rest@);
                assert(crate::json::jview_fields(rest@) =~= all.subrange(de + 1, all.len() as int));
                assert(all.subrange(0, de + 1).drop_last() =~= all.subrange(0, de));
                assert(all.subrange(0, de + 1).last() == all[de]);
                assert(all[de] == (p.0@, crate::json::jview(p.1)));
            }
            let seen = pairs_have_id(&deduped, &p.0);
            if !seen {
                let ghost before = deduped@;
                deduped.push(p);
                proof {
                    crate::json::lemma_jview_fields_push(before, deduped@.last());
                    assert(deduped@.drop_last() =~= before);
                }
            }
            proof {
                done = done + 1;
                assert(crate::json::jview_fields(deduped@) =~= spec_dedup(all.subrange(0, de + 1)));
            }
        }
        proof {
            assert(all.subrange(0, all.len() as int) =~= all);
        }

        // Sort by id.
        let mut sorted: Vec<(Vec<char>, Json)> = Vec::new();
        let ghost dd = crate::json::jview_fields(deduped@);
        let mut drest = deduped;
        let ghost mut sdone: int = 0;
        proof {
            crate::json::lemma_jview_fields_len(drest@);
            assert(crate::json::jview_fields(drest@) =~= dd);
            assert(dd.subrange(0, 0) =~= Seq::<(Seq<char>, JModel)>::empty());
            assert(crate::json::jview_fields(sorted@) =~= spec_sort(dd.subrange(0, 0)));
        }
        while drest.len() > 0
            invariant
                0 <= sdone,
                sdone + drest@.len() == dd.len(),
                dd =~= spec_dedup(spec_pool_contribs(lb@.pool)),
                crate::json::jview_fields(drest@) =~= dd.subrange(sdone, dd.len() as int),
                crate::json::jview_fields(sorted@) =~= spec_sort(dd.subrange(0, sdone)),
            decreases drest@.len(),
        {
            let ghost de = sdone;
            let ghost old_rest = drest@;
            proof {
                crate::json::lemma_jview_fields_len(old_rest);
            }
            let p = drest.remove(0);
            proof {
                assert(drest@ =~= old_rest.drop_first());
                crate::json::lemma_jview_fields_index(old_rest, 0);
                assert((p.0@, crate::json::jview(p.1)) == dd.subrange(de, dd.len() as int)[0]);
                assert forall|kk: int|
                    0 <= kk < drest@.len() implies #[trigger] crate::json::jview_fields(drest@)[kk]
                    == dd.subrange(de + 1, dd.len() as int)[kk] by {
                    crate::json::lemma_jview_fields_index(drest@, kk);
                    crate::json::lemma_jview_fields_index(old_rest, kk + 1);
                    assert(old_rest[kk + 1] == drest@[kk]);
                }
                crate::json::lemma_jview_fields_len(drest@);
                assert(crate::json::jview_fields(drest@) =~= dd.subrange(de + 1, dd.len() as int));
                assert(dd.subrange(0, de + 1).drop_last() =~= dd.subrange(0, de));
                assert(dd.subrange(0, de + 1).last() == dd[de]);
                assert(dd[de] == (p.0@, crate::json::jview(p.1)));
            }
            let ghost sview = crate::json::jview_fields(sorted@);
            proof {
                lemma_ins_pos_props(sview, p.0@);
                crate::json::lemma_jview_fields_len(sorted@);
            }
            let mut pos: usize = 0;
            while pos < sorted.len() && !chars_lt(p.0.as_slice(), sorted[pos].0.as_slice())
                invariant
                    0 <= pos <= sorted@.len(),
                    sview == crate::json::jview_fields(sorted@),
                    sview.len() == sorted@.len(),
                    forall|j: int| 0 <= j < pos ==> !spec_lex_lt(p.0@, (#[trigger] sview[j]).0),
                decreases sorted@.len() - pos,
            {
                proof {
                    crate::json::lemma_jview_fields_index(sorted@, pos as int);
                }
                pos += 1;
            }
            proof {
                lemma_ins_pos_props(sview, p.0@);
                let ip = spec_ins_pos(sview, p.0@);
                if (pos as int) < sview.len() {
                    crate::json::lemma_jview_fields_index(sorted@, pos as int);
                    assert(spec_lex_lt(p.0@, sview[pos as int].0));
                }
                if ip < pos as int {
                    assert(spec_lex_lt(p.0@, sview[ip].0));
                    assert(false);
                }
                if ip > pos as int {
                    assert(!spec_lex_lt(p.0@, sview[pos as int].0));
                    assert(false);
                }
            }
            let ghost before = sorted@;
            let ghost pv = (p.0@, crate::json::jview(p.1));
            sorted.insert(pos, p);
            proof {
                let elem = sorted@[pos as int];
                assert(sorted@ =~= before.insert(pos as int, elem));
                assert((elem.0@, crate::json::jview(elem.1)) == pv);
                crate::json::lemma_jview_fields_insert(before, pos as int, elem);
                sdone = sdone + 1;
                assert(crate::json::jview_fields(sorted@) =~= spec_sort(dd.subrange(0, sdone)));
            }
        }
        proof {
            assert(dd.subrange(0, dd.len() as int) =~= dd);
        }

        // Hand the objects out.
        let mut out: Vec<Json> = Vec::new();
        let ghost sv = crate::json::jview_fields(sorted@);
        proof {
            assert(dd.subrange(0, dd.len() as int) =~= dd);
            assert(sv =~= spec_sort(spec_dedup(spec_pool_contribs(lb@.pool))));
        }
        let mut srest = sorted;
        let ghost mut odone: int = 0;
        proof {
            crate::json::lemma_jview_fields_len(srest@);
            assert(crate::json::jview_fields(srest@) =~= sv);
        }
        while srest.len() > 0
            invariant
                0 <= odone,
                odone + srest@.len() == sv.len(),
                sv =~= spec_sort(spec_dedup(spec_pool_contribs(lb@.pool))),
                crate::json::jview_fields(srest@) =~= sv.subrange(odone, sv.len() as int),
                out@.len() == odone,
                forall|j: int| 0 <= j < odone ==> crate::json::jview(#[trigger] out@[j]) == sv[
                    j].1,
            decreases srest@.len(),
        {
            let ghost de = odone;
            let ghost old_rest = srest@;
            proof {
                crate::json::lemma_jview_fields_len(old_rest);
            }
            let p = srest.remove(0);
            proof {
                assert(srest@ =~= old_rest.drop_first());
                crate::json::lemma_jview_fields_index(old_rest, 0);
                assert((p.0@, crate::json::jview(p.1)) == sv.subrange(de, sv.len() as int)[0]);
                assert forall|kk: int|
                    0 <= kk < srest@.len() implies #[trigger] crate::json::jview_fields(srest@)[kk]
                    == sv.subrange(de + 1, sv.len() as int)[kk] by {
                    crate::json::lemma_jview_fields_index(srest@, kk);
                    crate::json::lemma_jview_fields_index(old_rest, kk + 1);
                    assert(old_rest[kk + 1] == srest@[kk]);
                }
                crate::json::lemma_jview_fields_len(srest@);
                assert(crate::json::jview_fields(srest@) =~= sv.subrange(de + 1, sv.len() as int));
            }
            out.push(p.1);
            proof {
                odone = odone + 1;
            }
        }
        proof {
            crate::json::lemma_jview_items_len(out@);
            assert forall|k: int|
                0 <= k < out@.len() implies #[trigger] jview_items(out@)[k] == sv[k].1 by {
                crate::json::lemma_jview_items_index(out@, k);
            }
            assert(jview_items(out@) =~= Seq::new(sv.len(), |i: int| sv[i].1));
        }
        out
    }

    /// Gathers every contribution of the pool, in pool order.
    #[verifier::rlimit(60)]
    fn collect_contribs(lb: &LoadBalancer) -> (r: Vec<(Vec<char>, Json)>)
        ensures
            crate::json::jview_fields(r@) =~= spec_pool_contribs(lb@.pool),
    {
        let id_key = crate::bindings::str_to_chars("id");
        let models_list_key = crate::bindings::str_to_chars("models_list");
        let mut contribs: Vec<(Vec<char>, Json)> = Vec::new();
        let mut i: usize = 0;
        proof {
            assert(lb@.pool.subrange(0, 0) =~= Seq::<InstanceModel>::empty());
            assert(crate::json::jview_fields(contribs@) =~= Seq::<(Seq<char>, JModel)>::empty());
        }
        while i < lb.pool.len()
            invariant
                0 <= i <= lb.pool@.len(),
                lb@.pool.len() == lb.pool@.len(),
                id_key@ == "id"@,
                models_list_key@ == "models_list"@,
                crate::json::jview_fields(contribs@) =~= spec_pool_contribs(
                    lb@.pool.subrange(0, i as int),
                ),
            decreases lb.pool@.len() - i,
        {
            proof {
                assert(lb@.pool.subrange(0, i as int + 1).drop_last() =~= lb@.pool.subrange(
                    0,
                    i as int,
                ));
                assert(lb@.pool.subrange(0, i as int + 1).last() == lb@.pool[i as int]);
            }
            let inst = &lb.pool[i];
            if inst.is_healthy() && is_openai_api(&inst.metadata) {
                let ghost base = crate::json::jview_fields(contribs@);
                match inst.metadata.obj_get(models_list_key.as_slice()) {
                    Some(v) => match v.as_arr() {
                        Some(items) => {
                            let mut k: usize = 0;
                            proof {
                                crate::json::lemma_jview_items_len(items@);
                                assert(jview_items(items@).subrange(0, 0) =~= Seq::<
                                    JModel,
                                >::empty());
                                assert(base + spec_list_contribs(
                                    jview_items(items@).subrange(0, 0),
                                ) =~= base);
                            }
                            while k < items.len()
                                invariant
                                    0 <= k <= items@.len(),
                                    id_key@ == "id"@,
                                    jview_items(items@).len() == items@.len(),
                                    crate::json::jview_fields(contribs@) =~= base
                                        + spec_list_contribs(
                                        jview_items(items@).subrange(0, k as int),
                                    ),
                                decreases items@.len() - k,
                            {
                                proof {
                                    crate::json::lemma_jview_items_index(items@, k as int);
                                    assert(jview_items(items@).subrange(
                                        0,
                                        k as int + 1,
                                    ).drop_last() =~= jview_items(items@).subrange(0, k as int));
                                    assert(jview_items(items@).subrange(0, k as int + 1).last()
                                        == jview_items(items@)[k as int]);
                                }
                                match items[k].obj_get(id_key.as_slice()) {
                                    Some(idv) => match idv.as_str_chars() {
                                        Some(idt) => {
                                            let pair = (
                                                vstd::slice::slice_to_vec(idt.as_slice()),
                                                items[k].deep_clone(),
                                            );
                                            let ghost pv = (pair.0@, crate::json::jview(pair.1));
                                            let ghost before = contribs@;
                                            contribs.push(pair);
                                            proof {
                                                crate::json::lemma_jview_fields_push(
                                                    before,
                                                    contribs@.last(),
                                                );
                                                assert(contribs@.drop_last() =~= before);
                                            }
                                        },
                                        None => {},
                                    },
                                    None => {},
                                }
                                k += 1;
                            }
                            proof {
                                assert(jview_items(items@).subrange(0, items@.len() as int)
                                    =~= jview_items(items@));
                            }
                        },
                        None => {
                            Self::push_id_contribs(&mut contribs, &inst.models);
                            proof {
                                assert(crate::json::jview_fields(contribs@) =~= base
                                    + spec_id_contribs(inst.models.deep_view()));
                            }
                        },
                    },
                    None => {
                        Self::push_id_contribs(&mut contribs, &inst.models);
                        proof {
                            assert(crate::json::jview_fields(contribs@) =~= base
                                + spec_id_contribs(inst.models.deep_view()));
                        }
                    },
                }
            }
            i += 1;
        }
        proof {
            assert(lb@.pool.subrange(0, lb@.pool.len() as int) =~= lb@.pool);
        }
        contribs
    }

    /// Pushes the minimal objects of a bare id list.
    fn push_id_contribs(contribs: &mut Vec<(Vec<char>, Json)>, models: &Vec<String>)
        ensures
            crate::json::jview_fields(final(contribs)@) =~= crate::json::jview_fields(
                old(contribs)@,
            ) + spec_id_contribs(models.deep_view()),
    {
        let id_key = crate::bindings::str_to_chars("id");
        let ghost base = crate::json::jview_fields(contribs@);
        let mut k: usize = 0;
        proof {
            assert(models.deep_view().subrange(0, 0) =~= Seq::<Seq<char>>::empty());
            assert(base + spec_id_contribs(models.deep_view().subrange(0, 0)) =~= base);
        }
        while k < models.len()
            invariant
                0 <= k <= models@.len(),
                id_key@ == "id"@,
                models.deep_view().len() == models@.len(),
                forall|j: int| 0 <= j < models@.len() ==> models.deep_view()[j] == (
                #[trigger] models@[j])@,
                crate::json::jview_fields(contribs@) =~= crate::json::jview_fields(old(contribs)@)
                    + spec_id_contribs(models.deep_view().subrange(0, k as int)),
            decreases models@.len() - k,
        {
            proof {
                assert(models.deep_view().subrange(0, k as int + 1).drop_last()
                    =~= models.deep_view().subrange(0, k as int));
                assert(models.deep_view().subrange(0, k as int + 1).last() == models.deep_view()[
                    k as int]);
            }
            let idc = crate::bindings::str_to_chars(models[k].as_str());
            let mut fields: Vec<(Vec<char>, Json)> = Vec::new();
            fields.push(
                (vstd::slice::slice_to_vec(id_key.as_slice()), Json::Str(
                    vstd::slice::slice_to_vec(idc.as_slice()),
                )),
            );
            let ghost fv = fields@;
            let obj = Json::Obj(fields);
            proof {
                assert(fv.len() == 1);
                assert(fv.drop_first() =~= Seq::<(Vec<char>, Json)>::empty());
                assert(crate::json::jview_fields(fv.drop_first()) =~= Seq::<(
                    Seq<char>,
                    JModel,
                )>::empty()) by {
                    reveal_with_fuel(crate::json::jview_fields, 1);
                }
                assert(fv[0].0@ == "id"@);
                assert(crate::json::jview(fv[0].1) == JModel::Str(models.deep_view()[k as int]));
                assert(crate::json::jview_fields(fv) =~= seq![
                    ("id"@, JModel::Str(models.deep_view()[k as int])),
                ]);
                assert(obj@ == JModel::Obj(crate::json::jview_fields(fv)));
            }
            let pair = (idc, obj);
            let ghost before = contribs@;
            contribs.push(pair);
            proof {
                crate::json::lemma_jview_fields_push(before, contribs@.last());
                assert(contribs@.drop_last() =~= before);
            }
            k += 1;
        }
        proof {
            assert(models.deep_view().subrange(0, models@.len() as int) =~= models.deep_view());
        }
    }
}

} // verus!
