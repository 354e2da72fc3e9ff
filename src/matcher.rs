//! Matching a pattern against the DNA, capturing groups.
use vstd::prelude::*;
use crate::base::{Base, BaseLike, syms, lemma_syms};
use crate::rope::{RopeCursor};
use crate::parse::{PItem, PSpec, cur_syms};
use crate::search::first_occ;

verus! {


/// The state of a match: open groups' starts and closed groups' ranges, in the order
/// the pattern closed them.
pub struct Env {
    pub starts: Vec<usize>,
    pub groups: Vec<(usize, usize)>,
}

/// One pattern item matched at `pos`: the new position, open starts and groups, or
/// `None` where the match fails.
pub open spec fn match_step<T: BaseLike>(
    s: Seq<Base>,
    item: PSpec<T>,
    pos: int,
    starts: Seq<usize>,
    groups: Seq<(usize, usize)>,
) -> Option<(int, Seq<usize>, Seq<(usize, usize)>)> {
    match item {
        PSpec::Open => Some((pos, starts.push(pos as usize), groups)),
        PSpec::Close => if starts.len() == 0 {
            None
        } else {
            Some((pos, starts.drop_last(), groups.push((starts.last(), pos as usize))))
        },
        PSpec::Bases(v) => if pos + v.len() <= s.len() && s.subrange(pos, pos + v.len()) == syms(v) {
            Some((pos + v.len(), starts, groups))
        } else {
            None
        },
        PSpec::Skip(n) => if pos + n > s.len() {
            None
        } else {
            Some((pos + n, starts, groups))
        },
        PSpec::Search(v) => match first_occ(s, syms(v), pos) {
            Some(k) => Some((k + v.len(), starts, groups)),
            None => None,
        },
    }
}

/// A whole pattern matched from `pos`.
pub open spec fn match_all<T: BaseLike>(
    s: Seq<Base>,
    items: Seq<PSpec<T>>,
    pos: int,
    starts: Seq<usize>,
    groups: Seq<(usize, usize)>,
) -> Option<(int, Seq<usize>, Seq<(usize, usize)>)>
    decreases items.len(),
{
    if items.len() == 0 {
        Some((pos, starts, groups))
    } else {
        match match_step(s, items[0], pos, starts, groups) {
            None => None,
            Some((p, st, g)) => match_all(s, items.skip(1), p, st, g),
        }
    }
}

/// Every open start and closed group lies within `[0, n]`, and groups do not run
/// backwards.
pub open spec fn env_ok(starts: Seq<usize>, groups: Seq<(usize, usize)>, n: int) -> bool {
    &&& forall|k: int| 0 <= k < starts.len() ==> #[trigger] starts[k] <= n
    &&& forall|k: int| 0 <= k < groups.len() ==> #[trigger] groups[k].0 <= groups[k].1 <= n
}

impl<T: BaseLike> PItem<T> {
    /// Matches this item at the cursor, updating the cursor and the groups. A group
    /// closed with none open fails the match (parsed patterns never hold one).
    pub fn exec<S: BaseLike>(&self, cursor: &mut RopeCursor<S>, env: &mut Env) -> (r: bool)
        requires
            old(cursor).wf(),
            old(cursor).spec_pos() <= old(cursor).data().len(),
            2 * old(cursor).data().len() <= usize::MAX,
        ensures
            final(cursor).wf(),
            final(cursor).data() == old(cursor).data(),
            ({
                let m = match_step(
                    cur_syms(old(cursor)),
                    self.spec_item(),
                    old(cursor).spec_pos(),
                    old(env).starts@,
                    old(env).groups@,
                );
                &&& r == m.is_some()
                &&& !(self.spec_item() is Open) && !(self.spec_item() is Close) ==> final(env).starts@
                    == old(env).starts@ && final(env).groups@ == old(env).groups@
                &&& m matches Some((p, st, g)) ==> final(cursor).spec_pos() == p
                    && final(env).starts@ == st && final(env).groups@ == g
            }),
    {
        let ghost s = cur_syms(cursor);
        proof {
            lemma_syms(cursor.data());
            cursor.lemma_len();
            cursor.lemma_pos();
        }
        let pos = cursor.pos();
        let n = cursor.full_len();
        match self {
            PItem::OpenGroup => {
                env.starts.push(pos);
                true
            },
            PItem::CloseGroup => {
                match env.starts.pop() {
                    Some(st) => {
                        env.groups.push((st, pos));
                        true
                    },
                    None => false,
                }
            },
            PItem::Bases(bases) => {
                let ghost v = syms(bases@);
                proof {
                    lemma_syms(bases@);
                    assert(self.spec_item() == PSpec::Bases(bases@));
                }
                if bases.len() > n - pos {
                    return false;
                }
                let mut k: usize = 0;
                while k < bases.len()
                    invariant
                        cursor.wf(),
                        cursor.data() == old(cursor).data(),
                        s == cur_syms(cursor),
                        s.len() == n,
                        n == cursor.data().len(),
                        self.spec_item() == PSpec::Bases(bases@),
                        pos == old(cursor).spec_pos(),
                        s == cur_syms(old(cursor)),
                        env.starts@ == old(env).starts@,
                        env.groups@ == old(env).groups@,
                        v == syms(bases@),
                        v.len() == bases@.len(),
                        pos + bases@.len() <= n,
                        cursor.spec_pos() == pos + k,
                        k <= bases@.len(),
                        forall|x: int| 0 <= x < k ==> #[trigger] s[pos + x] == v[x],
                    decreases bases@.len() - k,
                {
                    proof {
                        lemma_syms(cursor.data());
                        lemma_syms(bases@);
                    }
                    let b = cursor.next();
                    match b {
                        Some(x) => {
                            proof {
                                assert(x == cursor.data()[pos + k]);
                                assert(s[pos + k] == x.sym());
                                assert(v[k as int] == bases@[k as int].sym());
                            }
                            if x.to_base() != bases[k].to_base() {
                                proof {
                                    assert(s.subrange(pos as int, pos + v.len())[k as int] == s[pos + k]);
                                    assert(s.subrange(pos as int, pos + v.len()) != v);
                                    assert(match_step(s, self.spec_item(), pos as int, env.starts@, env.groups@) is None);
                                }
                                return false;
                            }
                        },
                        None => {
                            return false;
                        },
                    }
                    k = k + 1;
                }
                proof {
                    assert forall|x: int| 0 <= x < v.len() implies s.subrange(pos as int, pos + v.len())[x]
                        == v[x] by {
                        assert(s[pos + x] == v[x]);
                    }
                    assert(s.subrange(pos as int, pos + v.len()) =~= v);
                }
                true
            },
            PItem::Skip(i) => {
                if *i > n - pos {
                    return false;
                }
                cursor.seek(pos + *i);
                true
            },
            PItem::Search(bs) => {
                proof {
                    lemma_syms(bs@);
                }
                if bs.len() > n - pos {
                    proof {
                        assert(first_occ(s, syms(bs@), pos as int) is None);
                    }
                    return false;
                }
                match crate::search::find(cursor, bs.as_slice(), pos) {
                    Some(index) => {
                        proof {
                            crate::search::lemma_first_occ_bound(s, syms(bs@), pos as int);
                        }
                        cursor.seek(index + bs.len());
                        true
                    },
                    None => false,
                }
            },
        }
    }
}


} // verus!
