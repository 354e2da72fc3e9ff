//! Planning the splices of a rewrite so that unprotected groups stay in place.
use vstd::prelude::*;
use crate::base::{BaseLike};
use crate::parse::{TItem, TSpec, tpl_specs};

verus! {


/// A range of positions, start included and end excluded.
pub type Rng = (usize, usize);

/// An entry of a splice plan: a range of the DNA and the range of template items
/// whose expansion replaces it.
pub type PlanEntry = (Rng, Rng);

/// The template item at `ti` is an unprotected reference to a group whose range is `r`.
pub open spec fn kept_ref<T: BaseLike>(tpl: Seq<TSpec<T>>, env: Seq<Rng>, ti: int, r: Rng) -> bool {
    0 <= ti < tpl.len() && match tpl[ti] {
        TSpec::Ref { group, level } => level == 0 && group < env.len() && env[group as int] == r,
        _ => false,
    }
}

/// A splice plan for the DNA range `[lo, hi)` and the template items `[tlo, thi)`:
/// entries run right to left; each DNA range and each template range lies within
/// the bounds; the first entry ends at `hi` and `thi`, the last starts at `lo` and
/// `tlo`; and between two consecutive entries lies exactly one unprotected group
/// reference, in the template, whose group's range fills the gap in the DNA.
pub open spec fn plan_ok<T: BaseLike>(
    p: Seq<PlanEntry>,
    tpl: Seq<TSpec<T>>,
    env: Seq<Rng>,
    lo: int,
    hi: int,
    tlo: int,
    thi: int,
) -> bool {
    &&& p.len() > 0
    &&& p[0].0.1 == hi && p[0].1.1 == thi
    &&& p.last().0.0 == lo && p.last().1.0 == tlo
    &&& forall|k: int|
        0 <= k < p.len() ==> lo <= (#[trigger] p[k]).0.0 <= p[k].0.1 <= hi && tlo <= p[k].1.0
            <= p[k].1.1 <= thi
    &&& forall|k: int|
        0 <= k < p.len() - 1 ==> kept_ref(
            tpl,
            env,
            (#[trigger] p[k + 1]).1.1 as int,
            (p[k + 1].0.1, p[k].0.0),
        ) && p[k].1.0 == p[k + 1].1.1 + 1
}

/// Candidates `[from, to)` are unprotected references listed by increasing template
/// index, each with the range of its group.
pub open spec fn cands_ok<T: BaseLike>(c: Seq<(usize, Rng)>, tpl: Seq<TSpec<T>>, env: Seq<Rng>) -> bool {
    &&& forall|k: int| 0 <= k < c.len() ==> kept_ref(tpl, env, (#[trigger] c[k]).0 as int, c[k].1)
    &&& forall|k: int| 0 <= k < c.len() ==> (#[trigger] c[k]).1.0 <= c[k].1.1
    &&& forall|k1: int, k2: int| 0 <= k1 < k2 < c.len() ==> (#[trigger] c[k1]).0 < (#[trigger] c[k2]).0
}

pub(crate) proof fn lemma_plan_concat<T: BaseLike>(
    a: Seq<PlanEntry>,
    b: Seq<PlanEntry>,
    tpl: Seq<TSpec<T>>,
    env: Seq<Rng>,
    lo: int,
    hi: int,
    tlo: int,
    thi: int,
    ti: int,
    r: Rng,
)
    requires
        plan_ok(a, tpl, env, r.1 as int, hi, ti + 1, thi),
        plan_ok(b, tpl, env, lo, r.0 as int, tlo, ti),
        kept_ref(tpl, env, ti, r),
        lo <= r.0 <= r.1 <= hi,
        tlo <= ti < thi,
    ensures
        plan_ok(a + b, tpl, env, lo, hi, tlo, thi),
{
    let p = a + b;
    assert forall|k: int| 0 <= k < p.len() - 1 implies kept_ref(
        tpl,
        env,
        (#[trigger] p[k + 1]).1.1 as int,
        (p[k + 1].0.1, p[k].0.0),
    ) && p[k].1.0 == p[k + 1].1.1 + 1 by {
        if k + 1 < a.len() {
            assert(p[k + 1] == a[k + 1] && p[k] == a[k]);
            assert(kept_ref(tpl, env, a[k + 1].1.1 as int, (a[k + 1].0.1, a[k].0.0)));
        } else if k + 1 == a.len() {
            assert(p[k + 1] == b[0] && p[k] == a[a.len() - 1]);
            assert((b[0].0.1, a[a.len() - 1].0.0) == r);
        } else {
            let k2 = k - a.len();
            assert(p[k + 1] == b[k2 + 1] && p[k] == b[k2]);
            assert(kept_ref(tpl, env, b[k2 + 1].1.1 as int, (b[k2 + 1].0.1, b[k2].0.0)));
        }
    }
    assert forall|k: int| 0 <= k < p.len() implies lo <= (#[trigger] p[k]).0.0 <= p[k].0.1 <= hi
        && tlo <= p[k].1.0 <= p[k].1.1 <= thi by {
        if k < a.len() {
            assert(p[k] == a[k]);
        } else {
            assert(p[k] == b[k - a.len()]);
        }
    }
}

/// The candidate range `r` lies within `range`.
pub open spec fn in_range(r: Rng, range: Rng) -> bool {
    range.0 <= r.0 && r.1 <= range.1
}

/// Among candidates `[from, k)` whose ranges lie within `range`, the first of the
/// longest.
pub open spec fn best_cand(c: Seq<(usize, Rng)>, from: int, k: int, range: Rng) -> Option<int>
    decreases k - from,
{
    if k <= from {
        None
    } else {
        let b = best_cand(c, from, k - 1, range);
        if in_range(c[k - 1].1, range) && (b is None || c[k - 1].1.1 - c[k - 1].1.0 > c[b.unwrap()].1.1
            - c[b.unwrap()].1.0) {
            Some(k - 1)
        } else {
            b
        }
    }
}

/// The plan for the DNA range `range` and the template items `tpl_r`, with candidates
/// `[from, to)`: keep the first of the longest candidates in range, plan right of it,
/// then left of it; with none, one entry for the whole.
pub open spec fn plan_spec(c: Seq<(usize, Rng)>, from: int, to: int, range: Rng, tpl_r: Rng) -> Seq<
    PlanEntry,
>
    decreases to - from,
{
    match best_cand(c, from, to, range) {
        None => seq![(range, tpl_r)],
        Some(b) => if from <= b < to {
            plan_spec(c, b + 1, to, (c[b].1.1, range.1), ((c[b].0 + 1) as usize, tpl_r.1)) + plan_spec(
                c,
                from,
                b,
                (range.0, c[b].1.0),
                (tpl_r.0, c[b].0),
            )
        } else {
            Seq::empty()
        },
    }
}

/// The unprotected references among the first `i` template items whose group exists,
/// each with its template index and the group's range.
pub open spec fn cands_of<T: BaseLike>(ts: Seq<TSpec<T>>, env: Seq<Rng>, i: int) -> Seq<(usize, Rng)>
    decreases i,
{
    if i <= 0 {
        Seq::empty()
    } else {
        let c = cands_of(ts, env, i - 1);
        match ts[i - 1] {
            TSpec::Ref { group, level } => if level == 0 && group < env.len() {
                c.push(((i - 1) as usize, env[group as int]))
            } else {
                c
            },
            _ => c,
        }
    }
}

pub(crate) fn plan_internal<T: BaseLike>(
    cands: &Vec<(usize, Rng)>,
    from: usize,
    to: usize,
    range: Rng,
    tpl_r: Rng,
    out: &mut Vec<PlanEntry>,
    Ghost(tpl): Ghost<Seq<TSpec<T>>>,
    Ghost(env): Ghost<Seq<Rng>>,
)
    requires
        from <= to <= cands@.len(),
        range.0 <= range.1,
        tpl_r.0 <= tpl_r.1,
        cands_ok(cands@, tpl, env),
        forall|k: int| from <= k < to ==> tpl_r.0 <= (#[trigger] cands@[k]).0 < tpl_r.1,
    ensures
        final(out)@ == old(out)@ + plan_spec(cands@, from as int, to as int, range, tpl_r),
        exists|piece: Seq<PlanEntry>|
            final(out)@ == old(out)@ + piece && plan_ok(
                piece,
                tpl,
                env,
                range.0 as int,
                range.1 as int,
                tpl_r.0 as int,
                tpl_r.1 as int,
            ),
    decreases to - from,
{
    let mut best: Option<usize> = None;
    let mut best_len: usize = 0;
    let mut k = from;
    while k < to
        invariant
            from <= k <= to,
            to <= cands@.len(),
            best matches Some(b) ==> from <= b < k && range.0 <= cands@[b as int].1.0 && cands@[
                b as int].1.1 <= range.1 && best_len == cands@[b as int].1.1 - cands@[b as int].1.0,
            best_cand(cands@, from as int, k as int, range) == match best {
                Some(b) => Some(b as int),
                None => None::<int>,
            },
            cands_ok(cands@, tpl, env),
        decreases to - k,
    {
        let (ti, r) = cands[k];
        proof {
            assert(cands@[k as int].1.0 <= cands@[k as int].1.1);
        }
        if r.0 >= range.0 && r.1 <= range.1 {
            let l = r.1 - r.0;
            if best.is_none() || l > best_len {
                best = Some(k);
                best_len = l;
            }
        }
        k = k + 1;
    }
    match best {
        None => {
            let ghost o = out@;
            out.push((range, tpl_r));
            proof {
                let piece = seq![(range, tpl_r)];
                assert(out@ == o + piece);
                assert(plan_spec(cands@, from as int, to as int, range, tpl_r) == piece);
                assert(plan_ok(piece, tpl, env, range.0 as int, range.1 as int, tpl_r.0 as int, tpl_r.1 as int));
            }
        },
        Some(b) => {
            let (ti, r) = cands[b];
            proof {
                assert(kept_ref(tpl, env, ti as int, r));
                assert(r.0 <= r.1);
                assert forall|k2: int| b + 1 <= k2 < to implies ti + 1 <= (#[trigger] cands@[k2]).0 < tpl_r.1 by {
                    assert(cands@[b as int].0 < cands@[k2].0);
                }
                assert forall|k2: int| from <= k2 < b implies tpl_r.0 <= (#[trigger] cands@[k2]).0 < ti by {
                    assert(cands@[k2].0 < cands@[b as int].0);
                }
            }
            let ghost o = out@;
            plan_internal::<T>(cands, b + 1, to, (r.1, range.1), (ti + 1, tpl_r.1), out, Ghost(tpl), Ghost(env));
            let ghost o1 = out@;
            plan_internal::<T>(cands, from, b, (range.0, r.0), (tpl_r.0, ti), out, Ghost(tpl), Ghost(env));
            proof {
                let pa = choose|pa: Seq<PlanEntry>| o1 == o + pa && plan_ok(
                    pa,
                    tpl,
                    env,
                    r.1 as int,
                    range.1 as int,
                    ti + 1,
                    tpl_r.1 as int,
                );
                let pb = choose|pb: Seq<PlanEntry>| out@ == o1 + pb && plan_ok(
                    pb,
                    tpl,
                    env,
                    range.0 as int,
                    r.0 as int,
                    tpl_r.0 as int,
                    ti as int,
                );
                lemma_plan_concat(pa, pb, tpl, env, range.0 as int, range.1 as int, tpl_r.0 as int, tpl_r.1 as int, ti as int, r);
                assert(out@ =~= o + (pa + pb));
                assert(cands@[b as int] == (ti, r));
                assert(plan_spec(cands@, from as int, to as int, range, tpl_r) == plan_spec(
                    cands@,
                    b + 1,
                    to as int,
                    (r.1, range.1),
                    ((ti + 1) as usize, tpl_r.1),
                ) + plan_spec(cands@, from as int, b as int, (range.0, r.0), (tpl_r.0, ti)));
                assert(out@ =~= o + plan_spec(cands@, from as int, to as int, range, tpl_r));
            }
        },
    }
}

/// The splice plan of a rewrite of the DNA range `range` by the template `tpl`: the
/// unprotected references to groups that lie in the range stay in place, the largest
/// first (the earliest in the template among equals), and each stretch between them is
/// replaced by the expansion of the template items between them.
pub fn find_splice<T: BaseLike>(tpl: &[TItem<T>], env: &[Rng], range: Rng) -> (r: Vec<PlanEntry>)
    requires
        range.0 <= range.1,
        forall|k: int| 0 <= k < env@.len() ==> (#[trigger] env@[k]).0 <= env@[k].1,
    ensures
        plan_ok(
            r@,
            tpl_specs(tpl@),
            env@,
            range.0 as int,
            range.1 as int,
            0,
            tpl@.len() as int,
        ),
        ({
            let c = cands_of(tpl_specs(tpl@), env@, tpl@.len() as int);
            r@ == plan_spec(c, 0, c.len() as int, range, (0usize, tpl@.len() as usize))
        }),
{
    let ghost ts = tpl_specs(tpl@);
    let mut cands: Vec<(usize, Rng)> = Vec::new();
    let mut i: usize = 0;
    while i < tpl.len()
        invariant
            0 <= i <= tpl@.len(),
            ts == tpl_specs(tpl@),
            ts.len() == tpl@.len(),
            forall|k: int| 0 <= k < env@.len() ==> (#[trigger] env@[k]).0 <= env@[k].1,
            cands_ok(cands@, ts, env@),
            forall|k: int| 0 <= k < cands@.len() ==> (#[trigger] cands@[k]).0 < i,
            cands@ == cands_of(ts, env@, i as int),
        decreases tpl@.len() - i,
    {
        proof {
            assert(ts[i as int] == tpl@[i as int].spec_item());
        }
        match tpl[i].as_unprotected_group() {
            Some(g) => {
                if g < env.len() {
                    let ghost c0 = cands@;
                    cands.push((i, env[g]));
                    proof {
                        assert(kept_ref(ts, env@, i as int, env@[g as int]));
                        assert forall|k1: int, k2: int| 0 <= k1 < k2 < cands@.len() implies (#[trigger] cands@[k1]).0
                            < (#[trigger] cands@[k2]).0 by {
                            if k2 == cands@.len() - 1 {
                                assert(cands@[k1] == c0[k1]);
                            } else {
                                assert(cands@[k1] == c0[k1] && cands@[k2] == c0[k2]);
                            }
                        }
                        assert forall|k: int| 0 <= k < cands@.len() implies kept_ref(ts, env@, (#[trigger] cands@[k]).0 as int, cands@[k].1) by {
                            if k < c0.len() {
                                assert(cands@[k] == c0[k]);
                            }
                        }
                    }
                }
            },
            None => {},
        }
        i = i + 1;
    }
    let mut out: Vec<PlanEntry> = Vec::new();
    let n = cands.len();
    plan_internal::<T>(&cands, 0, n, range, (0, tpl.len()), &mut out, Ghost(ts), Ghost(env@));
    proof {
        let piece = choose|piece: Seq<PlanEntry>| out@ == Seq::<PlanEntry>::empty() + piece && plan_ok(
            piece,
            ts,
            env@,
            range.0 as int,
            range.1 as int,
            0,
            tpl@.len() as int,
        );
        assert(out@ =~= piece);
        assert(out@ =~= plan_spec(cands@, 0, n as int, range, (0usize, tpl.len())));
    }
    out
}


} // verus!
