//! The engine: its state, one rewrite iteration, and checks over the DNA.
use vstd::prelude::*;
use std::collections::BTreeMap;
use crate::base::{Base, BaseLike, syms, lemma_syms, expand, lemma_syms_concat};
use crate::rope::{Rope, RopeCursor, inserted};
use crate::parse::{pattern_marks, template_marks, OpCode, PItem, PSpec, Rna, TItem, TSpec, cur_syms, lemma_cat_assoc, lemma_num_end, lemma_quoted_len, min_pos, num_end, op_at, pat_specs, pattern_from, quoted_len, rna_at, rna_specs, template_from, tpl_specs};
use crate::matcher::{Env, env_ok, match_all, match_step};
use crate::expand::{expand_item, expand_items, expand_item_t, expand_items_t, protect_all, protect_run};
use crate::plan::{Rng, PlanEntry, find_splice, kept_ref, plan_ok, plan_spec, cands_of};
use crate::coverage::{Stat, mark_source, RunKind, record_run};

verus! {


/// The engine's state between iterations: whether it has finished and the RNA
/// emitted so far.
pub struct DnaState<T> {
    pub print: bool,
    pub print_verbose: bool,
    pub iters: u32,
    /// For bases that carry a source: what each (address, level) was last used as.
    pub coverage: BTreeMap<(usize, i8), Stat>,
    pub finished: bool,
    pub rna: Vec<Rna<T>>,
}

impl<T: BaseLike> DnaState<T> {
    pub fn new() -> (r: DnaState<T>)
        ensures
            !r.finished,
            r.rna@.len() == 0,
            r.iters == 0,
            r.coverage@ == Map::<(usize, i8), Stat>::empty(),
    {
        DnaState {
            print: false,
            print_verbose: false,
            iters: 0,
            coverage: BTreeMap::new(),
            finished: false,
            rna: Vec::new(),
        }
    }

    pub fn finish(&mut self)
        ensures
            final(self).finished,
            final(self).rna == old(self).rna,
            final(self).iters == old(self).iters,
            final(self).coverage == old(self).coverage,
    {
        self.finished = true;
    }

    pub fn finished(&self) -> (r: bool)
        ensures
            r == self.finished,
    {
        self.finished
    }

    pub fn rna(&self) -> (r: &[Rna<T>])
        ensures
            r@ == self.rna@,
    {
        self.rna.as_slice()
    }

    /// Handles the `III` at the cursor: moves 10 bases on (past the opcode and the
    /// seven bases after it), and records those seven as a fragment of RNA if the DNA
    /// holds all of them.
    pub fn emit(&mut self, c: &mut RopeCursor<T>)
        requires
            old(c).wf(),
            old(c).spec_pos() < old(c).data().len(),
            old(c).data().len() + 10 <= usize::MAX,
        ensures
            final(c).wf(),
            final(c).data() == old(c).data(),
            final(c).spec_pos() == old(c).spec_pos() + 10,
            final(self).coverage@ == if old(c).spec_pos() + 10 <= old(c).data().len() {
                record_run(
                    old(self).coverage@,
                    old(c).data().subrange(old(c).spec_pos() + 3, old(c).spec_pos() + 10),
                    old(self).iters,
                    RunKind::Rna,
                )
            } else {
                old(self).coverage@
            },
            rna_specs(final(self).rna@) == rna_specs(old(self).rna@) + rna_at(
                old(c).data(),
                old(c).spec_pos(),
            ),
            final(self).finished == old(self).finished,
            final(self).iters == old(self).iters,
    {
        let i = c.pos();
        let n = c.full_len();
        let ghost d = c.data();
        c.seek(i + 10);
        if n - i < 10 {
            proof {
                assert(rna_specs(self.rna@) + rna_at(d, i as int) =~= rna_specs(self.rna@));
            }
            return;
        }
        let rna: Rna<T> = [
            c.at(i + 3),
            c.at(i + 4),
            c.at(i + 5),
            c.at(i + 6),
            c.at(i + 7),
            c.at(i + 8),
            c.at(i + 9),
        ];
        proof {
            assert(rna@ =~= d.subrange(i + 3, i + 10));
        }
        self.record_rna(&rna);
        let ghost old_rna = self.rna@;
        self.rna.push(rna);
        proof {
            assert(rna@ =~= d.subrange(i + 3, i + 10));
            assert(self.rna@.drop_last() =~= old_rna);
            assert(rna_specs(self.rna@) =~= rna_specs(old_rna) + seq![rna@]);
        }
    }
}



/// The DNA after one rewrite whose pattern and template were parsed and whose match
/// starts at `end`: on a match, the template's expansion replaces everything up to the
/// match's end; otherwise only what was parsed is dropped.
pub open spec fn rewrite<T: BaseLike>(s: Seq<Base>, pat: Seq<PSpec<T>>, tpl: Seq<TSpec<T>>, end: int) -> Seq<Base> {
    match match_all(s, pat, end, Seq::empty(), Seq::empty()) {
        None => s.subrange(end, s.len() as int),
        Some((e, _, groups)) => expand_items(s, tpl, groups) + s.subrange(e, s.len() as int),
    }
}

/// `rewrite` over the bases themselves: the template's expansion keeps the addresses
/// and levels that the bases carry.
pub open spec fn rewrite_t<T: BaseLike>(d: Seq<T>, pat: Seq<PSpec<T>>, tpl: Seq<TSpec<T>>, end: int) -> Seq<T> {
    match match_all(syms(d), pat, end, Seq::empty(), Seq::empty()) {
        None => d.subrange(end, d.len() as int),
        Some((e, _, groups)) => expand_items_t(d, tpl, groups) + d.subrange(e, d.len() as int),
    }
}

/// The match fails, or the DNA and the whole template's expansion together hold at
/// most half of `usize::MAX` bases: then the rewrite is always carried out.
pub open spec fn rewrite_fits<T: BaseLike>(s: Seq<Base>, pat: Seq<PSpec<T>>, tpl: Seq<TSpec<T>>, end: int) -> bool {
    match match_all(s, pat, end, Seq::empty(), Seq::empty()) {
        None => true,
        Some((e, _, groups)) => s.len() + expand_items(s, tpl, groups).len() <= usize::MAX / 2,
    }
}

/// The coverage after the seam before position `pos` of `d` is marked: the bases on
/// both sides of it become splice points.
pub open spec fn mark_seam<T: BaseLike>(m: Map<(usize, i8), Stat>, d: Seq<T>, pos: int) -> Map<
    (usize, i8),
    Stat,
> {
    if 0 < pos < d.len() {
        mark_source(mark_source(m, d[pos - 1].spec_source()), d[pos].spec_source())
    } else {
        m
    }
}

/// The plan of the rewrite whose match ends at `e`, as `find_splice` makes it.
pub open spec fn plan_of<T: BaseLike>(ts: Seq<TSpec<T>>, groups: Seq<Rng>, e: int) -> Seq<PlanEntry> {
    let c = cands_of(ts, groups, ts.len() as int);
    plan_spec(c, 0, c.len() as int, (0usize, e as usize), (0usize, ts.len() as usize))
}

/// The DNA once the plan's entries up to and including `k` are applied (right to left).
pub open spec fn dna_after<T: BaseLike>(
    d: Seq<T>,
    ts: Seq<TSpec<T>>,
    groups: Seq<Rng>,
    p: Seq<PlanEntry>,
    e: int,
    k: int,
) -> Seq<T> {
    d.subrange(0, p[k].0.0 as int) + expand_items_t(d, ts.subrange(p[k].1.0 as int, ts.len() as int), groups)
        + d.subrange(e, d.len() as int)
}

/// The coverage after the first `k` entries of the plan are applied, each marking its
/// two seams (before its inserted bases and after them) in the DNA as it then stands.
pub open spec fn seam_marks<T: BaseLike>(
    m: Map<(usize, i8), Stat>,
    d: Seq<T>,
    ts: Seq<TSpec<T>>,
    groups: Seq<Rng>,
    p: Seq<PlanEntry>,
    e: int,
    k: int,
) -> Map<(usize, i8), Stat>
    decreases k,
{
    if k <= 0 {
        m
    } else {
        let j = k - 1;
        let after = dna_after(d, ts, groups, p, e, j);
        let a = p[j].0.0 as int;
        let l = expand_items_t(d, ts.subrange(p[j].1.0 as int, p[j].1.1 as int), groups).len() as int;
        mark_seam(mark_seam(seam_marks(m, d, ts, groups, p, e, j), after, a), after, a + l)
    }
}

/// The coverage after a rewrite: on a match, every seam of the plan is marked.
pub open spec fn rewrite_marks<T: BaseLike>(
    m: Map<(usize, i8), Stat>,
    d: Seq<T>,
    pat: Seq<PSpec<T>>,
    tpl: Seq<TSpec<T>>,
    end: int,
) -> Map<(usize, i8), Stat> {
    match match_all(syms(d), pat, end, Seq::empty(), Seq::empty()) {
        None => m,
        Some((e, _, g)) => seam_marks(m, d, tpl, g, plan_of(tpl, g, e), e, plan_of(tpl, g, e).len() as int),
    }
}

pub(crate) proof fn lemma_expand_items_concat<T: BaseLike>(s: Seq<Base>, a: Seq<TSpec<T>>, b: Seq<TSpec<T>>, env: Seq<Rng>)
    ensures
        expand_items(s, a + b, env) == expand_items(s, a, env) + expand_items(s, b, env),
    decreases b.len(),
{
    if b.len() == 0 {
        assert(a + b =~= a);
        assert(expand_items(s, a, env) + expand_items(s, b, env) =~= expand_items(s, a, env));
    } else {
        assert((a + b).drop_last() =~= a + b.drop_last());
        assert((a + b).last() == b.last());
        lemma_expand_items_concat(s, a, b.drop_last(), env);
        lemma_cat_assoc(expand_items(s, a, env), expand_items(s, b.drop_last(), env), expand_item(s, b.last(), env));
    }
}

pub(crate) proof fn lemma_protect_all_zero(x: Seq<Base>)
    ensures
        protect_all(x, 0) == x,
    decreases x.len(),
{
    if x.len() > 0 {
        lemma_protect_all_zero(x.drop_last());
        let b = x.last();
        assert(crate::base::expand(b.index()) == seq![Base::of_index(b.index())]);
        assert(Base::of_index(b.index()) == b);
        assert(x.drop_last().push(b) =~= x);
    }
}

pub(crate) proof fn lemma_match_env<T: BaseLike>(
    s: Seq<Base>,
    item: PSpec<T>,
    pos: int,
    starts: Seq<usize>,
    groups: Seq<Rng>,
)
    requires
        0 <= pos <= s.len(),
        s.len() <= usize::MAX,
        forall|k: int| 0 <= k < starts.len() ==> #[trigger] starts[k] <= pos,
        forall|k: int| 0 <= k < groups.len() ==> (#[trigger] groups[k]).0 <= groups[k].1 <= s.len(),
    ensures
        match_step(s, item, pos, starts, groups) matches Some((p, st, g)) ==> pos <= p <= s.len()
            && (forall|k: int| 0 <= k < st.len() ==> #[trigger] st[k] <= p) && (forall|k: int|
            0 <= k < g.len() ==> (#[trigger] g[k]).0 <= g[k].1 <= s.len()),
{
    match item {
        PSpec::Search(v) => {
            crate::search::lemma_first_occ_bound(s, syms(v), pos);
        },
        PSpec::Close => {
            if starts.len() > 0 {
                let g = groups.push((starts.last(), pos as usize));
                assert(starts.last() == starts[starts.len() - 1]);
                assert forall|k: int| 0 <= k < g.len() implies (#[trigger] g[k]).0 <= g[k].1 <= s.len() by {
                    if k < groups.len() {
                        assert(g[k] == groups[k]);
                    }
                }
            }
        },
        _ => {},
    }
}

/// Matches the pattern at `start` and rewrites the DNA. Returns false, leaving the DNA
/// as it was, only where the rewritten DNA would hold more than half of `usize::MAX`
/// bases.
pub(crate) fn match_replace<T: BaseLike>(
    dna: &mut Rope<T>,
    pat: &Vec<PItem<T>>,
    tpl: &Vec<TItem<T>>,
    start: usize,
    state: &mut DnaState<T>,
) -> (applied: bool)
    requires
        old(dna).wf(),
        start <= old(dna)@.len(),
        2 * old(dna)@.len() <= usize::MAX,
    ensures
        final(dna).wf(),
        applied ==> syms(final(dna)@) == rewrite(syms(old(dna)@), pat_specs(pat@), tpl_specs(tpl@), start as int),
        applied ==> final(dna)@ == rewrite_t(old(dna)@, pat_specs(pat@), tpl_specs(tpl@), start as int),
        applied ==> 2 * final(dna)@.len() <= usize::MAX,
        !applied ==> final(dna)@ == old(dna)@,
        !applied ==> (match_all(syms(old(dna)@), pat_specs(pat@), start as int, Seq::empty(), Seq::empty())
            matches Some((e, _, g)) && old(dna)@.len() + expand_items(syms(old(dna)@), tpl_specs(tpl@), g).len()
            > usize::MAX / 2),
        rewrite_fits(syms(old(dna)@), pat_specs(pat@), tpl_specs(tpl@), start as int) ==> applied,
        match_all(syms(old(dna)@), pat_specs(pat@), start as int, Seq::empty(), Seq::empty()) is None
            ==> applied && final(dna)@ == old(dna)@.subrange(start as int, old(dna)@.len() as int),
        final(state).finished == old(state).finished,
        final(state).rna == old(state).rna,
        final(state).iters == old(state).iters,
        applied ==> final(state).coverage@ == rewrite_marks(
            old(state).coverage@,
            old(dna)@,
            pat_specs(pat@),
            tpl_specs(tpl@),
            start as int,
        ),
        !applied ==> final(state).coverage@ == old(state).coverage@,
{
    let ghost orig = dna@;
    let ghost s = syms(dna@);
    let ghost ps = pat_specs(pat@);
    let ghost ts = tpl_specs(tpl@);
    proof {
        lemma_syms(dna@);
        dna.lemma_wf_len();
    }
    let len = dna.len();
    let mut cursor = dna.cursor();
    cursor.seek(start);
    let mut env = Env { starts: Vec::new(), groups: Vec::new() };
    let mut k: usize = 0;
    proof {
        assert(ps.skip(0) =~= ps);
    }
    while k < pat.len()
        invariant
            dna.wf(),
            dna@ == orig,
            orig.len() == len,
            cursor.wf(),
            cursor.data() == orig,
            s == syms(orig),
            orig == old(dna)@,
            state.coverage@ == old(state).coverage@,
            s.len() == len,
            2 * len <= usize::MAX,
            ps == pat_specs(pat@),
            ps.len() == pat@.len(),
            k <= pat@.len(),
            start <= cursor.spec_pos() <= len,
            forall|x: int| 0 <= x < env.starts@.len() ==> #[trigger] env.starts@[x] <= cursor.spec_pos(),
            forall|x: int| 0 <= x < env.groups@.len() ==> (#[trigger] env.groups@[x]).0 <= env.groups@[x].1 <= len,
            match_all(s, ps, start as int, Seq::empty(), Seq::empty()) == match_all(
                s,
                ps.skip(k as int),
                cursor.spec_pos(),
                env.starts@,
                env.groups@,
            ),
        decreases pat@.len() - k,
    {
        let ghost st0 = env.starts@;
        let ghost g0 = env.groups@;
        let ghost p0 = cursor.spec_pos();
        proof {
            assert(ps.skip(k as int)[0] == ps[k as int]);
            assert(ps[k as int] == pat@[k as int].spec_item());
            assert(ps.skip(k as int).skip(1) =~= ps.skip(k + 1));
            lemma_match_env(s, ps[k as int], p0, st0, g0);
        }
        let ok = pat[k].exec(&mut cursor, &mut env);
        if !ok {
            proof {
                assert(match_all(s, ps, start as int, Seq::empty(), Seq::empty()) is None);
            }
            dna.splice(0, start, None);
            proof {
                crate::base::lemma_syms(orig);
                assert(syms(dna@) =~= s.subrange(start as int, s.len() as int));
                assert(rewrite(s, ps, tpl_specs(tpl@), start as int) == s.subrange(start as int, s.len() as int));
                assert(dna@ =~= orig.subrange(start as int, orig.len() as int));
                dna.lemma_wf_len();
            }
            return true;
        }
        k = k + 1;
    }
    let e = cursor.pos();
    let ghost groups = env.groups@;
    proof {
        assert(ps.skip(k as int) =~= Seq::<PSpec<T>>::empty());
        assert(match_all(s, ps, start as int, Seq::empty(), Seq::empty()) == Some((e as int, env.starts@, groups)));
    }
    let plan = find_splice(tpl.as_slice(), env.groups.as_slice(), (0, e));
    let ghost p = plan@;
    // Expand every entry before any edit: the groups' ranges refer to the DNA as it was.
    let mut exps: Vec<Vec<T>> = Vec::new();
    let mut j: usize = 0;
    while j < plan.len()
        invariant
            dna.wf(),
            dna@ == orig,
            orig.len() == len,
            2 * len <= usize::MAX,
            cursor.wf(),
            cursor.data() == orig,
            s == syms(orig),
            orig == old(dna)@,
            state.coverage@ == old(state).coverage@,
            s.len() == len,
            e <= len,
            groups == env.groups@,
            forall|x: int| 0 <= x < groups.len() ==> (#[trigger] groups[x]).0 <= groups[x].1 <= len,
            ts == tpl_specs(tpl@),
            ts.len() == tpl@.len(),
            p == plan@,
            plan_ok(p, ts, groups, 0, e as int, 0, ts.len() as int),
            ps == pat_specs(pat@),
            match_all(s, ps, start as int, Seq::empty(), Seq::empty()) == Some((e as int, env.starts@, groups)),
            j <= p.len(),
            exps@.len() == j,
            forall|x: int|
                0 <= x < j ==> syms((#[trigger] exps@[x])@) == expand_items(
                    s,
                    ts.subrange(p[x].1.0 as int, p[x].1.1 as int),
                    groups,
                ),
            forall|x: int|
                0 <= x < j ==> (#[trigger] exps@[x])@ == expand_items_t(
                    orig,
                    ts.subrange(p[x].1.0 as int, p[x].1.1 as int),
                    groups,
                ),
        decreases p.len() - j,
    {
        let (dr, tr) = plan[j];
        proof {
            assert(p[j as int] == (dr, tr));
        }
        let mut v: Vec<T> = Vec::new();
        let mut t = tr.0;
        proof {
            assert(ts.subrange(tr.0 as int, tr.0 as int) =~= Seq::<TSpec<T>>::empty());
            assert(syms(v@) =~= Seq::<Base>::empty());
            assert(v@ =~= Seq::<T>::empty());
        }
        while t < tr.1
            invariant
                dna.wf(),
                dna@ == orig,
                cursor.wf(),
                cursor.data() == orig,
                s == syms(orig),
                orig == old(dna)@,
                state.coverage@ == old(state).coverage@,
                s.len() == len,
                ts == tpl_specs(tpl@),
                ts.len() == tpl@.len(),
                tr.0 <= t <= tr.1,
                tr.1 <= ts.len(),
                groups == env.groups@,
                forall|x: int| 0 <= x < groups.len() ==> (#[trigger] groups[x]).0 <= groups[x].1 <= len,
                syms(v@) == expand_items(s, ts.subrange(tr.0 as int, t as int), groups),
                v@ == expand_items_t(orig, ts.subrange(tr.0 as int, t as int), groups),
            decreases tr.1 - t,
        {
            proof {
                assert(ts[t as int] == tpl@[t as int].spec_item());
                assert(ts.subrange(tr.0 as int, t + 1).drop_last() =~= ts.subrange(tr.0 as int, t as int));
                assert(ts.subrange(tr.0 as int, t + 1).last() == ts[t as int]);
                assert(env_ok(Seq::empty(), groups, len as int));
            }
            tpl[t].expand(&mut v, env.groups.as_slice(), &mut cursor);
            t = t + 1;
        }
        let ghost e0 = exps@;
        exps.push(v);
        proof {
            assert forall|x: int|
                0 <= x < j + 1 implies syms((#[trigger] exps@[x])@) == expand_items(
                s,
                ts.subrange(p[x].1.0 as int, p[x].1.1 as int),
                groups,
            ) by {
                if x < j {
                    assert(exps@[x] == e0[x]);
                }
            }
            assert forall|x: int|
                0 <= x < j + 1 implies (#[trigger] exps@[x])@ == expand_items_t(
                orig,
                ts.subrange(p[x].1.0 as int, p[x].1.1 as int),
                groups,
            ) by {
                if x < j {
                    assert(exps@[x] == e0[x]);
                }
            }
        }
        j = j + 1;
    }
    // The size check: the rewritten DNA must stay within half of the address space.
    let ghost all = exps@;
    let mut total: usize = 0;
    let mut j2: usize = 0;
    while j2 < exps.len()
        invariant
            dna.wf(),
            dna@ == orig,
            orig.len() == len,
            j2 <= exps@.len(),
            exps@ == all,
            2 * len <= usize::MAX,
            total == lens_from(all, 0) - lens_from(all, j2 as int),
            total <= usize::MAX / 2 - len,
            ps == pat_specs(pat@),
            s == syms(orig),
            orig == old(dna)@,
            state.coverage@ == old(state).coverage@,
            s.len() == len,
            e <= len,
            groups == env.groups@,
            forall|i: int| 0 <= i < groups.len() ==> (#[trigger] groups[i]).0 <= groups[i].1 <= len,
            ts == tpl_specs(tpl@),
            ts.len() == tpl@.len(),
            p == plan@,
            plan_ok(p, ts, groups, 0, e as int, 0, ts.len() as int),
            all.len() == p.len(),
            forall|i: int|
                0 <= i < p.len() ==> syms((#[trigger] all[i])@) == expand_items(
                    s,
                    ts.subrange(p[i].1.0 as int, p[i].1.1 as int),
                    groups,
                ),
            forall|i: int|
                0 <= i < p.len() ==> (#[trigger] all[i])@ == expand_items_t(
                    orig,
                    ts.subrange(p[i].1.0 as int, p[i].1.1 as int),
                    groups,
                ),
            match_all(s, ps, start as int, Seq::empty(), Seq::empty()) == Some((e as int, env.starts@, groups)),
        decreases exps@.len() - j2,
    {
        proof {
            lemma_lens_from_step(all, j2 as int);
        }
        if exps[j2].len() > usize::MAX / 2 - len - total {
            proof {
                assert(dna@ == old(dna)@);
                assert forall|i: int| 0 <= i < p.len() implies (#[trigger] all[i])@.len() == expand_items(
                    s,
                    ts.subrange(p[i].1.0 as int, p[i].1.1 as int),
                    groups,
                ).len() by {
                    lemma_syms(all[i]@);
                }
                lemma_plan_total(s, ts, groups, p, all, e as int);
                lemma_lens_from_nonneg(all, j2 + 1);
            }
            return false;
        }
        total = total + exps[j2].len();
        j2 = j2 + 1;
    }
    proof {
        lemma_lens_from_end(all);
        lemma_lens_from_nonneg(all, 0);
    }
    let ghost cut: int = e as int;
    let ghost tcut: int = ts.len() as int;
    let mut x: usize = 0;
    proof {
        assert(orig.subrange(cut, orig.len() as int) =~= orig.subrange(e as int, len as int));
        assert(ts.subrange(tcut, tcut) =~= Seq::<TSpec<T>>::empty());
        crate::base::lemma_syms(orig);
        assert(syms(orig.subrange(e as int, len as int)) =~= s.subrange(e as int, len as int));
        assert(expand_items(s, ts.subrange(tcut, tcut), groups) + s.subrange(e as int, len as int)
            =~= s.subrange(e as int, len as int));
        assert(dna@.subrange(0, cut) =~= orig.subrange(0, cut));
        assert(exps@ =~= all.skip(0));
        assert(expand_items_t(orig, ts.subrange(tcut, tcut), groups) =~= Seq::<T>::empty());
        assert(dna@.subrange(cut, dna@.len() as int) =~= expand_items_t(orig, ts.subrange(tcut, ts.len() as int), groups)
            + orig.subrange(e as int, len as int));
    }
    while x < plan.len()
        invariant
            dna.wf(),
            s == syms(orig),
            orig == old(dna)@,
            s.len() == len,
            orig.len() == len,
            e <= len,
            2 * len <= usize::MAX,
            ts == tpl_specs(tpl@),
            p == plan@,
            plan_ok(p, ts, groups, 0, e as int, 0, ts.len() as int),
            ps == pat_specs(pat@),
            match_all(s, ps, start as int, Seq::empty(), Seq::empty()) == Some((e as int, env.starts@, groups)),
            forall|i: int| 0 <= i < groups.len() ==> (#[trigger] groups[i]).0 <= groups[i].1 <= len,
            forall|i: int|
                0 <= i < p.len() ==> syms((#[trigger] all[i])@) == expand_items(
                    s,
                    ts.subrange(p[i].1.0 as int, p[i].1.1 as int),
                    groups,
                ),
            forall|i: int|
                0 <= i < p.len() ==> (#[trigger] all[i])@ == expand_items_t(
                    orig,
                    ts.subrange(p[i].1.0 as int, p[i].1.1 as int),
                    groups,
                ),
            all.len() == p.len(),
            x <= p.len(),
            exps@ == all.skip(x as int),
            lens_from(all, 0) <= usize::MAX / 2 - len,
            dna@.len() + lens_from(all, x as int) <= len + lens_from(all, 0),
            x == 0 ==> cut == e && tcut == ts.len(),
            x > 0 ==> cut == p[x - 1].0.0 && tcut == p[x - 1].1.0,
            0 <= cut <= dna@.len(),
            cut <= len,
            0 <= tcut <= ts.len(),
            dna@.subrange(0, cut) == orig.subrange(0, cut),
            state.finished == old(state).finished,
            state.rna == old(state).rna,
            state.iters == old(state).iters,
            state.coverage@ == seam_marks(old(state).coverage@, orig, ts, groups, p, e as int, x as int),
            p == plan_of(ts, groups, e as int),
            dna@.subrange(cut, dna@.len() as int) == expand_items_t(
                orig,
                ts.subrange(tcut, ts.len() as int),
                groups,
            ) + orig.subrange(e as int, len as int),
            syms(dna@.subrange(cut, dna@.len() as int)) == expand_items(
                s,
                ts.subrange(tcut, ts.len() as int),
                groups,
            ) + s.subrange(e as int, len as int),
        decreases p.len() - x,
    {
        let ((a, b), (ta, tb)) = plan[x];
        proof {
            assert(p[x as int] == ((a, b), (ta, tb)));
            assert(exps@[0] == all[x as int]);
            lemma_lens_from_step(all, x as int);
            lemma_lens_from_nonneg(all, x + 1);
            if x > 0 {
                let k = x - 1;
                assert(kept_ref(ts, groups, p[k + 1].1.1 as int, (p[k + 1].0.1, p[k].0.0)));
                assert(p[k].1.0 == p[k + 1].1.1 + 1);
            }
        }
        let ins = exps.remove(0);
        let ghost old_dna = dna@;
        let l = ins.len();
        let insert = if l > 0 {
            Some(ins)
        } else {
            None
        };
        proof {
            assert(inserted(insert) == all[x as int]@) by {
                if l == 0 {
                    assert(inserted(insert) =~= all[x as int]@);
                }
            }
        }
        dna.splice(a, b - a, insert);
        proof {
            lemma_apply_step(
                orig,
                old_dna,
                dna@,
                inserted(insert),
                s,
                ts,
                groups,
                a as int,
                b as int,
                ta as int,
                tb as int,
                cut,
                tcut,
                e as int,
                x == 0,
            );
            lemma_apply_step_t(
                orig,
                old_dna,
                dna@,
                inserted(insert),
                ts,
                groups,
                a as int,
                b as int,
                ta as int,
                tb as int,
                cut,
                tcut,
                e as int,
                x == 0,
            );
            assert(exps@ =~= all.skip(x + 1));
        }
        proof {
            dna.lemma_wf_len();
        }
        proof {
            assert(p[x as int].0.0 == a && p[x as int].1.0 == ta);
            assert(dna@ =~= dna@.subrange(0, a as int) + dna@.subrange(a as int, dna@.len() as int));
            assert(dna@ =~= dna_after(orig, ts, groups, p, e as int, x as int));
            assert(l == expand_items_t(orig, ts.subrange(p[x as int].1.0 as int, p[x as int].1.1 as int), groups).len());
        }
        state.record_splice(dna, a);
        state.record_splice(dna, a + l);
        proof {
            cut = a as int;
            tcut = ta as int;
        }
        x = x + 1;
    }
    proof {
        assert(cut == 0 && tcut == 0);
        assert(dna@.subrange(0, dna@.len() as int) =~= dna@);
        assert(ts.subrange(0, ts.len() as int) =~= ts);
        lemma_lens_from_end(all);
        dna.lemma_wf_len();
    }
    true
}


pub(crate) proof fn lemma_apply_step<T: BaseLike>(
    orig: Seq<T>,
    old_dna: Seq<T>,
    d: Seq<T>,
    ins: Seq<T>,
    s: Seq<Base>,
    ts: Seq<TSpec<T>>,
    groups: Seq<Rng>,
    a: int,
    b: int,
    ta: int,
    tb: int,
    cut: int,
    tcut: int,
    e: int,
    first: bool,
)
    requires
        s == syms(orig),
        orig.len() <= usize::MAX,
        0 <= a <= b <= cut <= old_dna.len(),
        cut <= orig.len(),
        0 <= e <= orig.len(),
        0 <= ta <= tb <= ts.len(),
        0 <= tcut <= ts.len(),
        old_dna.subrange(0, cut) == orig.subrange(0, cut),
        syms(old_dna.subrange(cut, old_dna.len() as int)) == expand_items(
            s,
            ts.subrange(tcut, ts.len() as int),
            groups,
        ) + s.subrange(e, orig.len() as int),
        d == old_dna.subrange(0, a) + ins + old_dna.subrange(b, old_dna.len() as int),
        syms(ins) == expand_items(s, ts.subrange(ta, tb), groups),
        first ==> b == cut && tb == tcut,
        !first ==> kept_ref(ts, groups, tb, (b as usize, cut as usize)) && tcut == tb + 1,
    ensures
        d.subrange(0, a) == orig.subrange(0, a),
        syms(d.subrange(a, d.len() as int)) == expand_items(s, ts.subrange(ta, ts.len() as int), groups)
            + s.subrange(e, orig.len() as int),
{
    crate::base::lemma_syms(orig);
    crate::base::lemma_syms(old_dna);
    assert(d.subrange(0, a) =~= old_dna.subrange(0, cut).subrange(0, a));
    assert(orig.subrange(0, a) =~= orig.subrange(0, cut).subrange(0, a));
    let gap = old_dna.subrange(b, cut);
    assert(gap =~= orig.subrange(0, cut).subrange(b, cut));
    assert(syms(gap) =~= s.subrange(b, cut));
    let tail = old_dna.subrange(cut, old_dna.len() as int);
    assert(d.subrange(a, d.len() as int) =~= ins + gap + tail);
    crate::base::lemma_syms_concat(ins, gap);
    crate::base::lemma_syms_concat(ins + gap, tail);
    let ex = expand_items(s, ts.subrange(ta, tb), groups);
    let rest_t = expand_items(s, ts.subrange(tcut, ts.len() as int), groups);
    let tl = s.subrange(e, orig.len() as int);
    if first {
        assert(s.subrange(b, cut) =~= Seq::<Base>::empty());
        assert(ts.subrange(ta, tb) + ts.subrange(tcut, ts.len() as int) =~= ts.subrange(ta, ts.len() as int));
        lemma_expand_items_concat(s, ts.subrange(ta, tb), ts.subrange(tcut, ts.len() as int), groups);
        assert(syms(d.subrange(a, d.len() as int)) =~= ex + rest_t + tl);
    } else {
        let g = match ts[tb] {
            TSpec::Ref { group, level } => group,
            _ => 0,
        };
        assert(groups[g as int] == (b as usize, cut as usize));
        lemma_protect_all_zero(s.subrange(b, cut));
        assert(expand_item(s, ts[tb], groups) == s.subrange(b, cut));
        let one = ts.subrange(tb, tb + 1);
        assert(one.drop_last() =~= Seq::<TSpec<T>>::empty());
        assert(one.last() == ts[tb]);
        assert(expand_items(s, one.drop_last(), groups) =~= Seq::<Base>::empty());
        assert(expand_items(s, one, groups) =~= s.subrange(b, cut));
        assert(ts.subrange(ta, tb) + one =~= ts.subrange(ta, tb + 1));
        assert(ts.subrange(ta, tb + 1) + ts.subrange(tcut, ts.len() as int) =~= ts.subrange(ta, ts.len() as int));
        lemma_expand_items_concat(s, ts.subrange(ta, tb), one, groups);
        lemma_expand_items_concat(s, ts.subrange(ta, tb + 1), ts.subrange(tcut, ts.len() as int), groups);
        assert(syms(d.subrange(a, d.len() as int)) =~= ex + s.subrange(b, cut) + rest_t + tl);
    }
}

pub(crate) proof fn lemma_expand_items_t_concat<T: BaseLike>(
    d: Seq<T>,
    a: Seq<TSpec<T>>,
    b: Seq<TSpec<T>>,
    env: Seq<Rng>,
)
    ensures
        expand_items_t(d, a + b, env) == expand_items_t(d, a, env) + expand_items_t(d, b, env),
    decreases b.len(),
{
    if b.len() == 0 {
        assert(a + b =~= a);
        assert(expand_items_t(d, a, env) + expand_items_t(d, b, env) =~= expand_items_t(d, a, env));
    } else {
        assert((a + b).drop_last() =~= a + b.drop_last());
        assert((a + b).last() == b.last());
        lemma_expand_items_t_concat(d, a, b.drop_last(), env);
        lemma_cat_assoc(expand_items_t(d, a, env), expand_items_t(d, b.drop_last(), env), expand_item_t(d, b.last(), env));
    }
}

pub(crate) proof fn lemma_protect_run_zero<T: BaseLike>(x: Seq<T>)
    ensures
        protect_run(x, 0) == x,
    decreases x.len(),
{
    if x.len() > 0 {
        lemma_protect_run_zero(x.drop_last());
        x.last().lemma_protect_zero();
        assert(x.drop_last().push(x.last()) =~= x);
    }
}

proof fn lemma_apply_step_t<T: BaseLike>(
    orig: Seq<T>,
    old_dna: Seq<T>,
    d: Seq<T>,
    ins: Seq<T>,
    ts: Seq<TSpec<T>>,
    groups: Seq<Rng>,
    a: int,
    b: int,
    ta: int,
    tb: int,
    cut: int,
    tcut: int,
    e: int,
    first: bool,
)
    requires
        orig.len() <= usize::MAX,
        0 <= a <= b <= cut <= old_dna.len(),
        cut <= orig.len(),
        0 <= e <= orig.len(),
        0 <= ta <= tb <= ts.len(),
        0 <= tcut <= ts.len(),
        old_dna.subrange(0, cut) == orig.subrange(0, cut),
        old_dna.subrange(cut, old_dna.len() as int) == expand_items_t(
            orig,
            ts.subrange(tcut, ts.len() as int),
            groups,
        ) + orig.subrange(e, orig.len() as int),
        d == old_dna.subrange(0, a) + ins + old_dna.subrange(b, old_dna.len() as int),
        ins == expand_items_t(orig, ts.subrange(ta, tb), groups),
        first ==> b == cut && tb == tcut,
        !first ==> kept_ref(ts, groups, tb, (b as usize, cut as usize)) && tcut == tb + 1,
    ensures
        d.subrange(a, d.len() as int) == expand_items_t(orig, ts.subrange(ta, ts.len() as int), groups)
            + orig.subrange(e, orig.len() as int),
{
    let gap = old_dna.subrange(b, cut);
    assert(gap =~= old_dna.subrange(0, cut).subrange(b, cut));
    assert(gap =~= orig.subrange(b, cut)) by {
        assert(orig.subrange(b, cut) =~= orig.subrange(0, cut).subrange(b, cut));
    }
    let tail = old_dna.subrange(cut, old_dna.len() as int);
    assert(d.subrange(a, d.len() as int) =~= ins + gap + tail);
    let rest_t = expand_items_t(orig, ts.subrange(tcut, ts.len() as int), groups);
    let tl = orig.subrange(e, orig.len() as int);
    if first {
        assert(gap =~= Seq::<T>::empty());
        assert(ts.subrange(ta, tb) + ts.subrange(tcut, ts.len() as int) =~= ts.subrange(ta, ts.len() as int));
        lemma_expand_items_t_concat(orig, ts.subrange(ta, tb), ts.subrange(tcut, ts.len() as int), groups);
        assert(d.subrange(a, d.len() as int) =~= ins + rest_t + tl);
    } else {
        let g = match ts[tb] {
            TSpec::Ref { group, level } => group,
            _ => 0,
        };
        assert(groups[g as int] == (b as usize, cut as usize));
        lemma_protect_run_zero(orig.subrange(b, cut));
        assert(expand_item_t(orig, ts[tb], groups) == orig.subrange(b, cut));
        let one = ts.subrange(tb, tb + 1);
        assert(one.drop_last() =~= Seq::<TSpec<T>>::empty());
        assert(one.last() == ts[tb]);
        assert(expand_items_t(orig, one.drop_last(), groups) =~= Seq::<T>::empty());
        assert(expand_items_t(orig, one, groups) =~= orig.subrange(b, cut));
        assert(ts.subrange(ta, tb) + one =~= ts.subrange(ta, tb + 1));
        assert(ts.subrange(ta, tb + 1) + ts.subrange(tcut, ts.len() as int) =~= ts.subrange(ta, ts.len() as int));
        lemma_expand_items_t_concat(orig, ts.subrange(ta, tb), one, groups);
        lemma_expand_items_t_concat(orig, ts.subrange(ta, tb + 1), ts.subrange(tcut, ts.len() as int), groups);
        assert(d.subrange(a, d.len() as int) =~= ins + orig.subrange(b, cut) + rest_t + tl);
    }
}

proof fn lemma_plan_prefix<T: BaseLike>(
    s: Seq<Base>,
    ts: Seq<TSpec<T>>,
    groups: Seq<Rng>,
    p: Seq<PlanEntry>,
    all: Seq<Vec<T>>,
    e: int,
    k: int,
)
    requires
        plan_ok(p, ts, groups, 0, e, 0, ts.len() as int),
        all.len() == p.len(),
        forall|i: int|
            0 <= i < p.len() ==> (#[trigger] all[i])@.len() == expand_items(
                s,
                ts.subrange(p[i].1.0 as int, p[i].1.1 as int),
                groups,
            ).len(),
        0 <= k < p.len(),
    ensures
        expand_items(s, ts.subrange(p[k].1.0 as int, ts.len() as int), groups).len() >= lens_from(all, 0)
            - lens_from(all, k + 1),
    decreases k,
{
    lemma_lens_from_step(all, k);
    let a = p[k].1.0 as int;
    let b = p[k].1.1 as int;
    let thi = ts.len() as int;
    if k == 0 {
        assert(b == thi);
    } else {
        lemma_plan_prefix(s, ts, groups, p, all, e, k - 1);
        let j = k - 1;
        assert(p[j].1.0 == p[j + 1].1.1 + 1);
        let c = p[j].1.0 as int;
        assert(c == b + 1);
        assert(ts.subrange(a, b) + ts.subrange(b, c) =~= ts.subrange(a, c));
        assert(ts.subrange(a, c) + ts.subrange(c, thi) =~= ts.subrange(a, thi));
        lemma_expand_items_concat(s, ts.subrange(a, b), ts.subrange(b, c), groups);
        lemma_expand_items_concat(s, ts.subrange(a, c), ts.subrange(c, thi), groups);
        lemma_lens_from_nonneg(all, k + 1);
    }
}

/// The expansions of a plan's entries are parts of the whole template's expansion.
proof fn lemma_plan_total<T: BaseLike>(
    s: Seq<Base>,
    ts: Seq<TSpec<T>>,
    groups: Seq<Rng>,
    p: Seq<PlanEntry>,
    all: Seq<Vec<T>>,
    e: int,
)
    requires
        plan_ok(p, ts, groups, 0, e, 0, ts.len() as int),
        all.len() == p.len(),
        forall|i: int|
            0 <= i < p.len() ==> (#[trigger] all[i])@.len() == expand_items(
                s,
                ts.subrange(p[i].1.0 as int, p[i].1.1 as int),
                groups,
            ).len(),
    ensures
        expand_items(s, ts, groups).len() >= lens_from(all, 0),
{
    let k = p.len() - 1;
    lemma_plan_prefix(s, ts, groups, p, all, e, k);
    assert(ts.subrange(0, ts.len() as int) =~= ts);
    lemma_lens_from_end(all);
}

/// The total length of the vectors from index `k` on.
pub open spec fn lens_from<T>(v: Seq<Vec<T>>, k: int) -> int
    decreases v.len() - k,
{
    if k < 0 || k >= v.len() {
        0
    } else {
        v[k]@.len() + lens_from(v, k + 1)
    }
}

pub(crate) proof fn lemma_lens_from_step<T>(v: Seq<Vec<T>>, k: int)
    requires
        0 <= k < v.len(),
    ensures
        lens_from(v, k) == v[k]@.len() + lens_from(v, k + 1),
{
}

pub(crate) proof fn lemma_lens_from_end<T>(v: Seq<Vec<T>>)
    ensures
        lens_from(v, v.len() as int) == 0,
{
}

pub(crate) proof fn lemma_lens_from_nonneg<T>(v: Seq<Vec<T>>, k: int)
    ensures
        lens_from(v, k) >= 0,
    decreases v.len() - k,
{
    if 0 <= k < v.len() {
        lemma_lens_from_nonneg(v, k + 1);
    }
}



pub(crate) proof fn lemma_pattern_end<T: BaseLike>(d: Seq<T>, i: int, depth: nat)
    requires
        0 <= i <= d.len(),
    ensures
        !pattern_from(d, i, depth).finished ==> i <= pattern_from(d, i, depth).end <= d.len(),
    decreases d.len() - i,
{
    let s = syms(d);
    lemma_syms(d);
    if 0 <= i < s.len() {
        let n = s.len() as int;
        lemma_quoted_len(s.skip(i));
        match op_at(s, i) {
            OpCode::C | OpCode::F | OpCode::P | OpCode::IC => {
                let j = i + quoted_len(s.skip(i));
                if j > i && j <= n {
                    lemma_pattern_end(d, j, depth);
                }
            },
            OpCode::IF => {
                let k = min_pos(i + 3, n);
                lemma_quoted_len(s.skip(k));
                let j = k + quoted_len(s.skip(k));
                if j <= n {
                    lemma_pattern_end(d, j, depth);
                }
            },
            OpCode::IP => {
                lemma_num_end(s, i + 2);
                match num_end(s, i + 2) {
                    Some(e) => if e >= i && e < n {
                        lemma_pattern_end(d, e + 1, depth);
                    },
                    None => {},
                }
            },
            OpCode::IIC | OpCode::IIF => {
                if depth > 0 {
                    lemma_pattern_end(d, i + 3, (depth - 1) as nat);
                }
            },
            OpCode::IIP => {
                lemma_pattern_end(d, i + 3, depth + 1);
            },
            OpCode::III => {
                if i + 10 <= n {
                    lemma_pattern_end(d, i + 10, depth);
                }
            },
            OpCode::Invalid => {},
        }
    }
}

pub(crate) proof fn lemma_template_end<T: BaseLike>(d: Seq<T>, i: int)
    requires
        0 <= i <= d.len(),
    ensures
        !template_from(d, i).finished ==> i <= template_from(d, i).end <= d.len(),
    decreases d.len() - i,
{
    let s = syms(d);
    lemma_syms(d);
    if 0 <= i < s.len() {
        let n = s.len() as int;
        lemma_quoted_len(s.skip(i));
        match op_at(s, i) {
            OpCode::C | OpCode::F | OpCode::P | OpCode::IC => {
                let j = i + quoted_len(s.skip(i));
                if j > i && j <= n {
                    lemma_template_end(d, j);
                }
            },
            OpCode::IF | OpCode::IP => {
                lemma_num_end(s, i + 2);
                match num_end(s, i + 2) {
                    Some(e) => {
                        lemma_num_end(s, e + 1);
                        match num_end(s, e + 1) {
                            Some(e2) => if e2 >= i && e2 < n {
                                lemma_template_end(d, e2 + 1);
                            },
                            None => {},
                        }
                    },
                    None => {},
                }
            },
            OpCode::IIP => {
                lemma_num_end(s, i + 3);
                match num_end(s, i + 3) {
                    Some(e) => if e >= i && e < n {
                        lemma_template_end(d, e + 1);
                    },
                    None => {},
                }
            },
            OpCode::III => {
                if i + 10 <= n {
                    lemma_template_end(d, i + 10);
                }
            },
            _ => {},
        }
    }
}

impl<T: BaseLike> DnaState<T> {
    /// One iteration of the engine: parses a pattern and a template from the head of
    /// the DNA, emitting RNA on the way, then matches the pattern after the template
    /// and rewrites the DNA. Marks the state finished where the DNA runs out during
    /// parsing, or where the rewritten DNA would not fit in half the address space.
    pub fn iterate(&mut self, dna: &mut Rope<T>)
        requires
            old(dna).wf(),
            2 * old(dna)@.len() <= usize::MAX,
        ensures
            ({
                let s = syms(old(dna)@);
                let p = pattern_from(old(dna)@, 0, 0);
                let t = template_from(old(dna)@, p.end);
                &&& final(dna).wf()
                &&& 2 * final(dna)@.len() <= usize::MAX
                &&& final(self).iters == if old(self).iters == u32::MAX {
                    0
                } else {
                    old(self).iters + 1
                }
                &&& ({
                    let it = final(self).iters;
                    let m1 = pattern_marks(old(self).coverage@, old(dna)@, 0, 0, it);
                    let m2 = template_marks(m1, old(dna)@, p.end, it);
                    if old(self).finished || p.finished {
                        final(self).coverage@ == m1
                    } else if t.finished || final(self).finished {
                        final(self).coverage@ == m2
                    } else {
                        final(self).coverage@ == rewrite_marks(m2, old(dna)@, p.items, t.items, t.end)
                    }
                })
                &&& if old(self).finished || p.finished {
                    &&& final(self).finished
                    &&& final(dna)@ == old(dna)@
                    &&& rna_specs(final(self).rna@) == rna_specs(old(self).rna@) + p.rna
                } else if t.finished {
                    &&& final(self).finished
                    &&& final(dna)@ == old(dna)@
                    &&& rna_specs(final(self).rna@) == rna_specs(old(self).rna@) + p.rna + t.rna
                } else {
                    &&& rna_specs(final(self).rna@) == rna_specs(old(self).rna@) + p.rna + t.rna
                    &&& rewrite_fits(s, p.items, t.items, t.end) ==> !final(self).finished
                    &&& if final(self).finished {
                        final(dna)@ == old(dna)@
                    } else {
                        &&& syms(final(dna)@) == rewrite(s, p.items, t.items, t.end)
                        &&& final(dna)@ == rewrite_t(old(dna)@, p.items, t.items, t.end)
                    }
                }
            }),
    {
        let ghost s = syms(dna@);
        let ghost d0 = dna@;
        proof {
            crate::base::lemma_syms(dna@);
            lemma_pattern_end(d0, 0, 0);
        }
        self.iters = if self.iters == u32::MAX {
            0
        } else {
            self.iters + 1
        };
        let mut cursor = dna.cursor();
        let pat = PItem::parse(&mut cursor, self);
        if self.finished {
            return;
        }
        proof {
            lemma_template_end(d0, cursor.spec_pos());
        }
        let tpl = TItem::parse(&mut cursor, self);
        if self.finished {
            proof {
                lemma_cat_assoc(rna_specs(old(self).rna@), pattern_from(d0, 0, 0).rna, template_from(d0, pattern_from(d0, 0, 0).end).rna);
            }
            return;
        }
        let template_end = cursor.pos();
        proof {
            lemma_cat_assoc(rna_specs(old(self).rna@), pattern_from(d0, 0, 0).rna, template_from(d0, pattern_from(d0, 0, 0).end).rna);
        }
        let applied = match_replace(dna, &pat, &tpl, template_end, self);
        if !applied {
            self.finish();
        }
    }
}



/// Relies on `String::push`: appends one character.
#[verifier::external_body]
pub(crate) fn push_char(s: &mut String, c: char)
    ensures
        final(s)@ == old(s)@.push(c),
{
    s.push(c)
}

/// Relies on `String::push_str`: appends the text.
#[verifier::external_body]
pub(crate) fn push_text(s: &mut String, t: &str)
    ensures
        final(s)@ == old(s)@ + t@,
{
    s.push_str(t)
}

/// The DNA as text: one letter per base.
pub fn str<T: BaseLike>(dna: &Rope<T>) -> (r: String)
    requires
        dna.wf(),
    ensures
        r@ == syms(dna@).map_values(|b: Base| b.spec_char()),
{
    let ghost want = syms(dna@).map_values(|b: Base| b.spec_char());
    let mut out = String::new();
    let mut c = dna.cursor();
    let n = dna.len();
    let mut i: usize = 0;
    proof {
        crate::base::lemma_syms(dna@);
        assert(out@ =~= want.take(0));
    }
    while i < n
        invariant
            c.wf(),
            c.data() == dna@,
            n == dna@.len(),
            syms(dna@).len() == n,
            want == syms(dna@).map_values(|b: Base| b.spec_char()),
            forall|k: int| 0 <= k < n ==> #[trigger] syms(dna@)[k] == dna@[k].sym(),
            i <= n,
            out@ == want.take(i as int),
        decreases n - i,
    {
        let b = c.at(i).to_base();
        push_char(&mut out, b.char());
        proof {
            assert(want.take(i + 1) =~= want.take(i as int).push(b.spec_char()));
        }
        i = i + 1;
    }
    proof {
        assert(want.take(n as int) =~= want);
    }
    out
}



/// One round of the CRC-32 table computation (reflected polynomial 0xedb88320).
pub open spec fn crc_round(c: u32) -> u32 {
    if c & 1u32 != 0 {
        0xedb88320u32 ^ (c >> 1u32)
    } else {
        c >> 1u32
    }
}

pub open spec fn crc_rounds(c: u32, k: nat) -> u32
    decreases k,
{
    if k == 0 {
        c
    } else {
        crc_rounds(crc_round(c), (k - 1) as nat)
    }
}

/// Entry `i` of the CRC-32 table: eight rounds from `i`.
pub open spec fn crc_entry(i: u32) -> u32 {
    crc_rounds(i, 8)
}

/// The running CRC after the bases of `s`, each fed as its two-bit code.
pub open spec fn crc_fold(s: Seq<Base>) -> u32
    decreases s.len(),
{
    if s.len() == 0 {
        0xffff_ffffu32
    } else {
        let c = crc_fold(s.drop_last());
        (c >> 8u32) ^ crc_entry((c ^ (s.last().index() as u32)) & 0xffu32)
    }
}

/// The CRC-32 of a DNA's two-bit codes.
pub open spec fn crc_of(s: Seq<Base>) -> u32 {
    crc_fold(s) ^ 0xffff_ffffu32
}

/// The CRC-32 table.
pub fn make_crc_table() -> (t: Vec<u32>)
    ensures
        t@.len() == 256,
        forall|i: int| 0 <= i < 256 ==> #[trigger] t@[i] == crc_entry(i as u32),
{
    let mut table: Vec<u32> = Vec::new();
    let mut i: u32 = 0;
    while i < 256
        invariant
            i <= 256,
            table@.len() == i,
            forall|k: int| 0 <= k < i ==> #[trigger] table@[k] == crc_entry(k as u32),
        decreases 256 - i,
    {
        let mut c: u32 = i;
        let mut r: u32 = 0;
        while r < 8
            invariant
                r <= 8,
                crc_rounds(c, (8 - r) as nat) == crc_entry(i),
            decreases 8 - r,
        {
            c = if (c & 1) != 0 {
                0xedb88320 ^ (c >> 1)
            } else {
                c >> 1
            };
            r = r + 1;
        }
        table.push(c);
        i = i + 1;
    }
    table
}

/// The CRC-32 of the DNA's two-bit codes.
pub fn crc<T: BaseLike>(rope: &Rope<T>) -> (r: u32)
    requires
        rope.wf(),
    ensures
        r == crc_of(syms(rope@)),
{
    let table = make_crc_table();
    let mut crc: u32 = 0xffff_ffff;
    let mut cursor = rope.cursor();
    let n = rope.len();
    let mut i: usize = 0;
    let ghost s = syms(rope@);
    proof {
        crate::base::lemma_syms(rope@);
        assert(s.take(0) =~= Seq::<Base>::empty());
    }
    while i < n
        invariant
            cursor.wf(),
            cursor.data() == rope@,
            s == syms(rope@),
            s.len() == n,
            forall|k: int| 0 <= k < n ==> #[trigger] s[k] == rope@[k].sym(),
            table@.len() == 256,
            forall|k: int| 0 <= k < 256 ==> #[trigger] table@[k] == crc_entry(k as u32),
            i <= n,
            crc == crc_fold(s.take(i as int)),
        decreases n - i,
    {
        let b = cursor.at(i).to_u2() as u32;
        let x = crc ^ b;
        assert(x & 0xffu32 < 256) by (bit_vector);
        let idx = (x & 0xff) as usize;
        crc = (crc >> 8) ^ table[idx];
        proof {
            assert(s.take(i + 1).drop_last() =~= s.take(i as int));
            assert(s.take(i + 1).last() == s[i as int]);
        }
        i = i + 1;
    }
    proof {
        assert(s.take(n as int) =~= s);
    }
    crc ^ 0xffff_ffff
}


} // verus!
