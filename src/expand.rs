//! Expanding template items: literal bases, group lengths and protected groups.
use vstd::prelude::*;
use crate::base::{Base, BaseLike, syms, lemma_syms, expand, lemma_syms_concat};
use crate::rope::{RopeCursor};
use crate::parse::{TItem, TSpec, cur_syms, lemma_cat_assoc, lemma_cat_push};
use crate::matcher::{env_ok};

verus! {


/// The bases that encode the number `k`: its bits little-endian, `I` for 0 and `C`
/// for 1, ended by `P`.
pub open spec fn nat_syms(k: nat) -> Seq<Base>
    decreases k,
{
    if k == 0 {
        seq![Base::P]
    } else {
        seq![if k % 2 == 1 {
            Base::C
        } else {
            Base::I
        }] + nat_syms(k / 2)
    }
}

/// Each symbol of `s` protected by `level`, one after another.
pub open spec fn protect_all(s: Seq<Base>, level: nat) -> Seq<Base>
    decreases s.len(),
{
    if s.len() == 0 {
        Seq::empty()
    } else {
        protect_all(s.drop_last(), level) + crate::base::expand(s.last().index() + level)
    }
}

/// What a template item expands to, given the DNA `s` that was matched and the
/// groups that the match captured.
pub open spec fn expand_item<T: BaseLike>(s: Seq<Base>, item: TSpec<T>, env: Seq<(usize, usize)>) -> Seq<Base> {
    match item {
        TSpec::Bases(v) => syms(v),
        TSpec::Len(g) => if g < env.len() {
            nat_syms((env[g as int].1 - env[g as int].0) as nat)
        } else {
            seq![Base::P]
        },
        TSpec::Ref { group, level } => if group < env.len() {
            protect_all(s.subrange(env[group as int].0 as int, env[group as int].1 as int), level % 256)
        } else {
            Seq::empty()
        },
    }
}

/// What a sequence of template items expands to.
pub open spec fn expand_items<T: BaseLike>(s: Seq<Base>, items: Seq<TSpec<T>>, env: Seq<(usize, usize)>) -> Seq<Base>
    decreases items.len(),
{
    if items.len() == 0 {
        Seq::empty()
    } else {
        expand_items(s, items.drop_last(), env) + expand_item(s, items.last(), env)
    }
}

/// The symbols made synthetic bases (no source; level -32 where tracked).
pub open spec fn synthetic_of<T: BaseLike>(s: Seq<Base>) -> Seq<T> {
    s.map_values(|b: Base| T::spec_synthetic(b))
}

/// Each base of `d` protected by `level`, one after another.
pub open spec fn protect_run<T: BaseLike>(d: Seq<T>, level: nat) -> Seq<T>
    decreases d.len(),
{
    if d.len() == 0 {
        Seq::empty()
    } else {
        protect_run(d.drop_last(), level) + d.last().protect_spec(level)
    }
}

/// The bases that a template item expands to, given the DNA `d` that was matched and
/// the groups captured: literal bases as they are; a group's length as synthetic
/// bases (a lone `P` for a missing group); a group's bases protected by the level
/// (taken modulo 256, as `protect` takes a byte).
pub open spec fn expand_item_t<T: BaseLike>(d: Seq<T>, item: TSpec<T>, env: Seq<(usize, usize)>) -> Seq<T> {
    match item {
        TSpec::Bases(v) => v,
        TSpec::Len(g) => if g < env.len() {
            synthetic_of::<T>(nat_syms((env[g as int].1 - env[g as int].0) as nat))
        } else {
            seq![T::spec_from_base_pos(Base::P, 0)]
        },
        TSpec::Ref { group, level } => if group < env.len() {
            protect_run(d.subrange(env[group as int].0 as int, env[group as int].1 as int), level % 256)
        } else {
            Seq::empty()
        },
    }
}

/// The bases that a sequence of template items expands to.
pub open spec fn expand_items_t<T: BaseLike>(d: Seq<T>, items: Seq<TSpec<T>>, env: Seq<(usize, usize)>) -> Seq<T>
    decreases items.len(),
{
    if items.len() == 0 {
        Seq::empty()
    } else {
        expand_items_t(d, items.drop_last(), env) + expand_item_t(d, items.last(), env)
    }
}

/// The encoding of the number `i` as synthetic bases.
pub fn as_nat<T: BaseLike>(i: usize) -> (v: Vec<T>)
    ensures
        syms(v@) == nat_syms(i as nat),
        v@ == synthetic_of::<T>(nat_syms(i as nat)),
{
    let mut v: Vec<T> = Vec::new();
    let mut k = i;
    proof {
        assert(syms(v@) =~= Seq::<Base>::empty());
    }
    while k > 0
        invariant
            syms(v@) + nat_syms(k as nat) == nat_syms(i as nat),
            v@ + synthetic_of::<T>(nat_syms(k as nat)) == synthetic_of::<T>(nat_syms(i as nat)),
        decreases k,
    {
        let ghost v0 = v@;
        let b = if k % 2 == 1 {
            Base::C
        } else {
            Base::I
        };
        let x = T::from_parts(b, 0, -32);
        v.push(x);
        proof {
            assert(v@.drop_last() =~= v0);
            assert(syms(v@) =~= syms(v0).push(b));
            lemma_cat_push(syms(v0), b, nat_syms((k / 2) as nat));
            assert(synthetic_of::<T>(nat_syms(k as nat)) =~= seq![T::spec_synthetic(b)] + synthetic_of::<T>(
                nat_syms((k / 2) as nat),
            ));
            assert(v@ + synthetic_of::<T>(nat_syms((k / 2) as nat)) =~= v0 + synthetic_of::<T>(
                nat_syms(k as nat),
            ));
        }
        k = k / 2;
    }
    let p = T::from_parts(Base::P, 0, -32);
    let ghost v0 = v@;
    v.push(p);
    proof {
        assert(v@.drop_last() =~= v0);
        assert(syms(v@) =~= syms(v0).push(Base::P));
        assert(syms(v0) + nat_syms(0) =~= syms(v0).push(Base::P));
        assert(synthetic_of::<T>(nat_syms(0)) =~= seq![T::spec_synthetic(Base::P)]);
        assert(v@ =~= v0 + synthetic_of::<T>(nat_syms(0)));
    }
    v
}

pub(crate) proof fn lemma_protect_all_push(s: Seq<Base>, b: Base, level: nat)
    ensures
        protect_all(s.push(b), level) == protect_all(s, level) + crate::base::expand(b.index() + level),
{
    assert(s.push(b).drop_last() =~= s);
}

impl<T: BaseLike> TItem<T> {
    /// Appends the expansion of this item.
    pub fn expand(&self, out: &mut Vec<T>, env: &[(usize, usize)], cursor: &mut RopeCursor<T>)
        requires
            old(cursor).wf(),
            env_ok(Seq::empty(), env@, old(cursor).data().len() as int),
        ensures
            final(cursor).wf(),
            final(cursor).data() == old(cursor).data(),
            final(cursor).spec_pos() == old(cursor).spec_pos(),
            syms(final(out)@) == syms(old(out)@) + expand_item(
                cur_syms(old(cursor)),
                self.spec_item(),
                env@,
            ),
            final(out)@ == old(out)@ + expand_item_t(old(cursor).data(), self.spec_item(), env@),
    {
        let ghost dd = cursor.data();
        let ghost s = cur_syms(cursor);
        let ghost o0 = out@;
        proof {
            lemma_syms(cursor.data());
        }
        match self {
            TItem::Bases(v) => {
                let mut k: usize = 0;
                while k < v.len()
                    invariant
                        0 <= k <= v@.len(),
                        out@ == o0 + v@.take(k as int),
                    decreases v@.len() - k,
                {
                    out.push(v[k]);
                    k = k + 1;
                    proof {
                        assert(v@.take(k as int) =~= v@.take(k - 1).push(v@[k - 1]));
                    }
                }
                proof {
                    assert(v@.take(k as int) =~= v@);
                    crate::base::lemma_syms_concat(o0, v@);
                }
            },
            TItem::Len(i) => {
                if *i < env.len() {
                    let (a, b) = env[*i];
                    let mut x = as_nat::<T>(b - a);
                    let ghost xs = x@;
                    out.append(&mut x);
                    proof {
                        crate::base::lemma_syms_concat(o0, xs);
                    }
                } else {
                    out.push(T::from_base(Base::P));
                    proof {
                        assert(out@ =~= o0 + seq![out@.last()]);
                        crate::base::lemma_syms_concat(o0, seq![out@.last()]);
                        assert(syms(seq![out@.last()]) =~= seq![Base::P]);
                        assert(out@.last() == T::spec_from_base_pos(Base::P, 0));
                    }
                }
            },
            TItem::Ref { group, level } => {
                if *group < env.len() {
                    let (a, b) = env[*group];
                    let lv = (*level % 256) as u8;
                    let mut i = a;
                    proof {
                        assert(s.subrange(a as int, a as int) =~= Seq::<Base>::empty());
                        assert(syms(o0) + protect_all(Seq::empty(), lv as nat) =~= syms(o0));
                        assert(dd.subrange(a as int, a as int) =~= Seq::<T>::empty());
                        assert(o0 + protect_run(Seq::<T>::empty(), lv as nat) =~= o0);
                    }
                    while i < b
                        invariant
                            cursor.wf(),
                            cursor.data() == old(cursor).data(),
                            cursor.spec_pos() == old(cursor).spec_pos(),
                            s == cur_syms(cursor),
                            s.len() == cursor.data().len(),
                            a <= i <= b,
                            b <= cursor.data().len(),
                            syms(out@) == syms(o0) + protect_all(s.subrange(a as int, i as int), lv as nat),
                            dd == cursor.data(),
                            out@ == o0 + protect_run(dd.subrange(a as int, i as int), lv as nat),
                        decreases b - i,
                    {
                        proof {
                            lemma_syms(cursor.data());
                        }
                        let x = cursor.at(i);
                        let ghost out_before = out@;
                        x.protect(lv, out);
                        proof {
                            x.lemma_protect_syms(lv as nat);
                            crate::base::lemma_syms_concat(out_before, x.protect_spec(lv as nat));
                            assert(syms(x.protect_spec(lv as nat)) =~= crate::base::expand(x.sym().index() + lv as nat));
                            assert(s.subrange(a as int, i + 1) =~= s.subrange(a as int, i as int).push(s[i as int]));
                            lemma_protect_all_push(s.subrange(a as int, i as int), s[i as int], lv as nat);
                            lemma_cat_assoc(syms(o0), protect_all(s.subrange(a as int, i as int), lv as nat), crate::base::expand(x.sym().index() + lv as nat));
                            let dr = dd.subrange(a as int, i as int);
                            assert(dd.subrange(a as int, i + 1) =~= dr.push(dd[i as int]));
                            assert(dr.push(dd[i as int]).drop_last() =~= dr);
                            assert(x == dd[i as int]);
                            lemma_cat_assoc(o0, protect_run(dr, lv as nat), x.protect_spec(lv as nat));
                        }
                        i = i + 1;
                    }
                } else {
                    proof {
                        assert(syms(out@) =~= syms(o0) + Seq::<Base>::empty());
                        assert(out@ =~= o0 + Seq::<T>::empty());
                    }
                }
            },
        }
    }

    /// The group of a reference that does not protect: such references are where a
    /// rewrite can leave the DNA in place.
    pub fn as_unprotected_group(&self) -> (r: Option<usize>)
        ensures
            r == match self.spec_item() {
                TSpec::Ref { group, level } => if level == 0 {
                    Some(group as usize)
                } else {
                    None::<usize>
                },
                _ => None::<usize>,
            },
    {
        match self {
            TItem::Ref { group, level } => if *level == 0 {
                Some(*group)
            } else {
                None
            },
            _ => None,
        }
    }
}


} // verus!
