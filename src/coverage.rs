//! Recording what each base with a source was used as, for provenance analysis.
use vstd::prelude::*;
use crate::base::{Base, BaseLike};
use crate::rope::{Rope, RopeCursor};
use crate::parse::{Rna, bit, bits_value, word_bits, lemma_bits_value_bound};
use std::collections::BTreeMap;
use crate::dna::{push_char, push_text};
use crate::text::{backslashes, decimal, push_decimal};
use vstd::arithmetic::power2::{pow2, lemma2_to64, lemma_pow2_unfold, lemma_pow2_strictly_increases, lemma_pow2_pos};
use crate::dna::{DnaState};

verus! {


broadcast use vstd::laws_cmp::group_laws_cmp;

/// What a base with a source was used as.
#[derive(PartialEq, Eq, Debug, Copy, Clone)]
pub enum Usage {
    PatBaseI,
    PatBaseC,
    PatBaseF,
    PatBaseP,
    PatSkip,
    PatSearch,
    PatOpen,
    PatClose,
    PatEnd,
    TplLen,
    TplRef,
    TplEnd,
    Num0,
    Num1,
    NumP,
    SearchBaseI,
    SearchBaseC,
    SearchBaseF,
    SearchBaseP,
    Rna,
    RnaBaseI,
    RnaBaseC,
    RnaBaseF,
    RnaBaseP,
}

/// A base of a literal in a pattern.
pub open spec fn pat_base_usage(b: Base) -> Usage {
    match b {
        Base::I => Usage::PatBaseI,
        Base::C => Usage::PatBaseC,
        Base::F => Usage::PatBaseF,
        Base::P => Usage::PatBaseP,
    }
}

/// A base of a search needle.
pub open spec fn search_base_usage(b: Base) -> Usage {
    match b {
        Base::I => Usage::SearchBaseI,
        Base::C => Usage::SearchBaseC,
        Base::F => Usage::SearchBaseF,
        Base::P => Usage::SearchBaseP,
    }
}

/// A base of emitted RNA.
pub open spec fn rna_base_usage(b: Base) -> Usage {
    match b {
        Base::I => Usage::RnaBaseI,
        Base::C => Usage::RnaBaseC,
        Base::F => Usage::RnaBaseF,
        Base::P => Usage::RnaBaseP,
    }
}

impl Usage {
    /// A base of a literal in a pattern.
    pub fn pat_base(b: Base) -> (r: Usage)
        ensures
            r == pat_base_usage(b),
    {
        match b {
            Base::I => Usage::PatBaseI,
            Base::C => Usage::PatBaseC,
            Base::F => Usage::PatBaseF,
            Base::P => Usage::PatBaseP,
        }
    }

    /// A base of a search needle.
    pub fn search_base(b: Base) -> (r: Usage)
        ensures
            r == search_base_usage(b),
    {
        match b {
            Base::I => Usage::SearchBaseI,
            Base::C => Usage::SearchBaseC,
            Base::F => Usage::SearchBaseF,
            Base::P => Usage::SearchBaseP,
        }
    }

    /// A base of emitted RNA.
    pub fn rna_base(b: Base) -> (r: Usage)
        ensures
            r == rna_base_usage(b),
    {
        match b {
            Base::I => Usage::RnaBaseI,
            Base::C => Usage::RnaBaseC,
            Base::F => Usage::RnaBaseF,
            Base::P => Usage::RnaBaseP,
        }
    }
}

/// What is known of one (address, level): whether a splice seam touched it, its last
/// usage, how often it was used, and in which iterations first and last.
#[derive(PartialEq, Eq, Clone, Copy, Debug)]
pub struct Stat {
    pub splice: bool,
    pub usage: Option<Usage>,
    pub count: u32,
    pub first: u32,
    pub last: u32,
}

/// A stat after one more use in iteration `iter`.
pub open spec fn used(st: Stat, iter: u32, usage: Usage) -> Stat {
    Stat {
        splice: st.splice,
        usage: Some(usage),
        count: if st.count == u32::MAX {
            0
        } else {
            (st.count + 1) as u32
        },
        first: if st.first > st.last {
            iter
        } else {
            st.first
        },
        last: iter,
    }
}

pub open spec fn fresh_stat() -> Stat {
    Stat { splice: false, usage: None, count: 0, first: u32::MAX, last: 0 }
}

impl Stat {
    pub fn new() -> (r: Stat)
        ensures
            r == fresh_stat(),
    {
        Stat { splice: false, usage: None, count: 0, first: u32::MAX, last: 0 }
    }

    pub fn record_usage(&mut self, iter: u32, usage: Usage)
        ensures
            *final(self) == used(*old(self), iter, usage),
    {
        self.usage = Some(usage);
        if self.first > self.last {
            self.first = iter;
        }
        self.last = iter;
        self.count = if self.count == u32::MAX {
            0
        } else {
            self.count + 1
        };
    }

    pub fn record_splice(&mut self)
        ensures
            *final(self) == (Stat { splice: true, ..*old(self) }),
    {
        self.splice = true;
    }
}

/// The stat of `key` in `m`, or a fresh one.
pub open spec fn stat_of(m: Map<(usize, i8), Stat>, key: (usize, i8)) -> Stat {
    if m.contains_key(key) {
        m[key]
    } else {
        fresh_stat()
    }
}

/// The coverage after a use of (`addr`, `level`) in iteration `iter`; synthetic bases
/// (level -32) are not recorded.
pub open spec fn record_spec(
    m: Map<(usize, i8), Stat>,
    addr: u32,
    level: i8,
    iter: u32,
    usage: Usage,
) -> Map<(usize, i8), Stat> {
    if level == -32 {
        m
    } else {
        m.insert((addr as usize, level), used(stat_of(m, (addr as usize, level)), iter, usage))
    }
}

/// The coverage after a use of a base with the given source, if any.
pub open spec fn record_source(
    m: Map<(usize, i8), Stat>,
    src: Option<(u32, i8)>,
    iter: u32,
    usage: Usage,
) -> Map<(usize, i8), Stat> {
    match src {
        Some(p) => record_spec(m, p.0, p.1, iter, usage),
        None => m,
    }
}

/// How a literal's, a needle's or an RNA fragment's bases are recorded.
#[derive(Clone, Copy)]
pub enum RunKind {
    Pat,
    Search,
    Rna,
}

pub open spec fn run_usage(k: RunKind, b: Base) -> Usage {
    match k {
        RunKind::Pat => pat_base_usage(b),
        RunKind::Search => search_base_usage(b),
        RunKind::Rna => rna_base_usage(b),
    }
}

/// The coverage after each base of `bases` is recorded, in order.
pub open spec fn record_run<T: BaseLike>(
    m: Map<(usize, i8), Stat>,
    bases: Seq<T>,
    iter: u32,
    k: RunKind,
) -> Map<(usize, i8), Stat>
    decreases bases.len(),
{
    if bases.len() == 0 {
        m
    } else {
        record_source(
            record_run(m, bases.drop_last(), iter, k),
            bases.last().spec_source(),
            iter,
            run_usage(k, bases.last().sym()),
        )
    }
}

/// The coverage after the bases of the number at `pos` are recorded.
pub open spec fn record_num_spec<T: BaseLike>(
    m: Map<(usize, i8), Stat>,
    d: Seq<T>,
    pos: int,
    iter: u32,
) -> Map<(usize, i8), Stat>
    decreases d.len() - pos,
{
    if pos < 0 || pos >= d.len() {
        m
    } else {
        let b = d[pos].sym();
        let u = if b == Base::P {
            Usage::NumP
        } else if b == Base::C {
            Usage::Num1
        } else {
            Usage::Num0
        };
        let m2 = record_source(m, d[pos].spec_source(), iter, u);
        if b == Base::P {
            m2
        } else {
            record_num_spec(m2, d, pos + 1, iter)
        }
    }
}

/// The coverage after a base with the given source is marked as a splice point.
pub open spec fn mark_source(m: Map<(usize, i8), Stat>, src: Option<(u32, i8)>) -> Map<
    (usize, i8),
    Stat,
> {
    match src {
        Some(p) => if p.1 == -32 {
            m
        } else {
            m.insert(
                (p.0 as usize, p.1),
                Stat { splice: true, ..stat_of(m, (p.0 as usize, p.1)) },
            )
        },
        None => m,
    }
}

proof fn lemma_record_num_plain<T: BaseLike>(
    m: Map<(usize, i8), Stat>,
    d: Seq<T>,
    pos: int,
    iter: u32,
)
    requires
        !T::spec_has_source(),
    ensures
        record_num_spec(m, d, pos, iter) == m,
    decreases d.len() - pos,
{
    if 0 <= pos < d.len() {
        d[pos].lemma_source();
        lemma_record_num_plain(m, d, pos + 1, iter);
    }
}

proof fn lemma_record_run_plain<T: BaseLike>(
    m: Map<(usize, i8), Stat>,
    bases: Seq<T>,
    iter: u32,
    k: RunKind,
)
    requires
        !T::spec_has_source(),
    ensures
        record_run(m, bases, iter, k) == m,
    decreases bases.len(),
{
    if bases.len() > 0 {
        bases.last().lemma_source();
        lemma_record_run_plain(m, bases.drop_last(), iter, k);
    }
}

impl<T: BaseLike> DnaState<T> {
    /// Records a use of the given address and level, unless the level marks a
    /// synthetic base.
    pub fn record(&mut self, addr: u32, level: i8, usage: Usage)
        ensures
            final(self).finished == old(self).finished,
            final(self).rna == old(self).rna,
            final(self).iters == old(self).iters,
            final(self).coverage@ == record_spec(old(self).coverage@, addr, level, old(self).iters, usage),
    {
        if level != -32 {
            let key = (addr as usize, level);
            let mut st = match self.coverage.get(&key) {
                Some(s) => *s,
                None => Stat::new(),
            };
            st.record_usage(self.iters, usage);
            self.coverage.insert(key, st);
        }
    }

    fn record_base(&mut self, base: T, usage: Usage)
        ensures
            final(self).finished == old(self).finished,
            final(self).rna == old(self).rna,
            final(self).iters == old(self).iters,
            final(self).coverage@ == record_source(old(self).coverage@, base.spec_source(), old(self).iters, usage),
    {
        match (base.source_addr(), base.source_level()) {
            (Some(addr), Some(level)) => self.record(addr, level, usage),
            _ => {},
        }
    }

    /// Marks the base as touched by a splice seam, unless it is synthetic.
    fn mark_splice(&mut self, base: T)
        ensures
            final(self).finished == old(self).finished,
            final(self).rna == old(self).rna,
            final(self).iters == old(self).iters,
            final(self).coverage@ == mark_source(old(self).coverage@, base.spec_source()),
    {
        match (base.source_addr(), base.source_level()) {
            (Some(addr), Some(level)) => {
                if level != -32 {
                    let key = (addr as usize, level);
                    let mut st = match self.coverage.get(&key) {
                        Some(s) => *s,
                        None => Stat::new(),
                    };
                    st.record_splice();
                    self.coverage.insert(key, st);
                }
            },
            _ => {},
        }
    }

    /// Records how the base at `pos` was used, where bases carry a source.
    pub fn record_usage(&mut self, cursor: &mut RopeCursor<T>, pos: usize, usage: Usage)
        requires
            old(cursor).wf(),
        ensures
            final(cursor).wf(),
            final(cursor).data() == old(cursor).data(),
            final(cursor).spec_pos() == old(cursor).spec_pos(),
            final(self).finished == old(self).finished,
            final(self).rna == old(self).rna,
            final(self).iters == old(self).iters,
            final(self).coverage@ == if pos < old(cursor).data().len() {
                record_source(
                    old(self).coverage@,
                    old(cursor).data()[pos as int].spec_source(),
                    old(self).iters,
                    usage,
                )
            } else {
                old(self).coverage@
            },
    {
        if pos >= cursor.full_len() {
            return;
        }
        if !T::has_source() {
            proof {
                cursor.data()[pos as int].lemma_source();
            }
            return;
        }
        let base = cursor.at(pos);
        self.record_base(base, usage);
    }

    /// Records the bases of the number at the cursor: `Num1` for each `C`, `Num0` for
    /// each `I` or `F`, `NumP` for the `P` that ends it.
    pub fn record_num(&mut self, cursor: &mut RopeCursor<T>)
        requires
            old(cursor).wf(),
        ensures
            final(cursor).wf(),
            final(cursor).data() == old(cursor).data(),
            final(cursor).spec_pos() == old(cursor).spec_pos(),
            final(self).finished == old(self).finished,
            final(self).rna == old(self).rna,
            final(self).iters == old(self).iters,
            final(self).coverage@ == record_num_spec(
                old(self).coverage@,
                old(cursor).data(),
                old(cursor).spec_pos(),
                old(self).iters,
            ),
    {
        if !T::has_source() {
            proof {
                lemma_record_num_plain(self.coverage@, cursor.data(), cursor.spec_pos(), self.iters);
            }
            return;
        }
        let n = cursor.full_len();
        let mut pos = cursor.pos();
        proof {
            cursor.lemma_pos();
        }
        while pos < n
            invariant
                cursor.wf(),
                cursor.data() == old(cursor).data(),
                cursor.spec_pos() == old(cursor).spec_pos(),
                n == cursor.data().len(),
                self.finished == old(self).finished,
                self.rna == old(self).rna,
                self.iters == old(self).iters,
                old(cursor).spec_pos() <= pos,
                record_num_spec(self.coverage@, cursor.data(), pos as int, self.iters)
                    == record_num_spec(
                    old(self).coverage@,
                    old(cursor).data(),
                    old(cursor).spec_pos(),
                    old(self).iters,
                ),
            decreases n - pos,
        {
            let b = cursor.at(pos);
            let base = b.to_u2();
            if base == 3 {
                self.record_base(b, Usage::NumP);
                return;
            }
            let u = if base == 1 {
                Usage::Num1
            } else {
                Usage::Num0
            };
            self.record_base(b, u);
            pos = pos + 1;
        }
    }

    /// Records each base of a literal of a pattern, a search needle or a fragment of RNA.
    fn record_bases(&mut self, bases: &[T], k: RunKind)
        ensures
            final(self).finished == old(self).finished,
            final(self).rna == old(self).rna,
            final(self).iters == old(self).iters,
            final(self).coverage@ == record_run(old(self).coverage@, bases@, old(self).iters, k),
    {
        if !T::has_source() {
            proof {
                lemma_record_run_plain(self.coverage@, bases@, self.iters, k);
            }
            return;
        }
        let mut i: usize = 0;
        proof {
            assert(bases@.take(0) =~= Seq::<T>::empty());
        }
        while i < bases.len()
            invariant
                i <= bases@.len(),
                self.finished == old(self).finished,
                self.rna == old(self).rna,
                self.iters == old(self).iters,
                self.coverage@ == record_run(old(self).coverage@, bases@.take(i as int), old(self).iters, k),
            decreases bases@.len() - i,
        {
            let b = bases[i];
            let sym = b.to_base();
            let u = match k {
                RunKind::Pat => Usage::pat_base(sym),
                RunKind::Search => Usage::search_base(sym),
                RunKind::Rna => Usage::rna_base(sym),
            };
            self.record_base(b, u);
            proof {
                assert(bases@.take(i + 1).drop_last() =~= bases@.take(i as int));
                assert(bases@.take(i + 1).last() == b);
            }
            i = i + 1;
        }
        proof {
            assert(bases@.take(i as int) =~= bases@);
        }
    }

    pub fn record_pat_bases(&mut self, bases: &Vec<T>)
        ensures
            final(self).finished == old(self).finished,
            final(self).rna == old(self).rna,
            final(self).iters == old(self).iters,
            final(self).coverage@ == record_run(old(self).coverage@, bases@, old(self).iters, RunKind::Pat),
    {
        self.record_bases(bases.as_slice(), RunKind::Pat);
    }

    pub fn record_search_bases(&mut self, bases: &Vec<T>)
        ensures
            final(self).finished == old(self).finished,
            final(self).rna == old(self).rna,
            final(self).iters == old(self).iters,
            final(self).coverage@ == record_run(old(self).coverage@, bases@, old(self).iters, RunKind::Search),
    {
        self.record_bases(bases.as_slice(), RunKind::Search);
    }

    /// Records the seven bases of a fragment of RNA.
    pub fn record_rna(&mut self, rna: &Rna<T>)
        ensures
            final(self).finished == old(self).finished,
            final(self).rna == old(self).rna,
            final(self).iters == old(self).iters,
            final(self).coverage@ == record_run(old(self).coverage@, rna@, old(self).iters, RunKind::Rna),
    {
        self.record_bases(rna.as_slice(), RunKind::Rna);
    }

    /// Marks both bases next to the seam before `pos` as splice points.
    pub fn record_splice(&mut self, dna: &Rope<T>, pos: usize)
        requires
            dna.wf(),
        ensures
            final(self).finished == old(self).finished,
            final(self).rna == old(self).rna,
            final(self).iters == old(self).iters,
            final(self).coverage@ == if 0 < pos < dna@.len() {
                mark_source(
                    mark_source(old(self).coverage@, dna@[pos - 1].spec_source()),
                    dna@[pos as int].spec_source(),
                )
            } else {
                old(self).coverage@
            },
    {
        if pos == 0 || pos >= dna.len() {
            return;
        }
        if !T::has_source() {
            proof {
                dna@[pos - 1].lemma_source();
                dna@[pos as int].lemma_source();
            }
            return;
        }
        let mut c = dna.cursor();
        let left = c.at(pos - 1);
        let right = c.at(pos);
        self.mark_splice(left);
        self.mark_splice(right);
    }
}

} // verus!

verus! {

/// The usage recorded at address `i` and level `lvl`, if any.
pub open spec fn usage_at(m: Map<(usize, i8), Stat>, i: int, lvl: i8) -> Option<Usage> {
    if has_key(m, i, lvl) {
        m[(i as usize, lvl)].usage
    } else {
        None
    }
}

pub open spec fn has_key(m: Map<(usize, i8), Stat>, i: int, lvl: i8) -> bool {
    0 <= i <= usize::MAX && m.contains_key((i as usize, lvl))
}

/// Where the number recorded from address `i` ends: the address of its `NumP`, if
/// every address before it holds `Num0` or `Num1`.
pub open spec fn num_run_end(m: Map<(usize, i8), Stat>, i: int, lvl: i8) -> Option<int>
    decreases usize::MAX + 1 - i,
{
    if !has_key(m, i, lvl) {
        None
    } else if usage_at(m, i, lvl) == Some(Usage::NumP) {
        Some(i)
    } else if usage_at(m, i, lvl) == Some(Usage::Num0) || usage_at(m, i, lvl) == Some(Usage::Num1) {
        num_run_end(m, i + 1, lvl)
    } else {
        None
    }
}

/// The bits of the number recorded over `[i, e)`: `C` for `Num1`, `I` otherwise.
pub open spec fn num_run_bits(m: Map<(usize, i8), Stat>, i: int, e: int, lvl: i8) -> Seq<Base> {
    Seq::new(
        (e - i) as nat,
        |k: int|
            if usage_at(m, i + k, lvl) == Some(Usage::Num1) {
                Base::C
            } else {
                Base::I
            },
    )
}

/// The text of the number recorded from `i`: its value in decimal between `pre` and
/// `post`, or `none` where no whole number is recorded there.
pub open spec fn num_text(
    m: Map<(usize, i8), Stat>,
    i: int,
    lvl: i8,
    pre: Seq<char>,
    post: Seq<char>,
    none: Seq<char>,
) -> Seq<char> {
    match num_run_end(m, i, lvl) {
        Some(e) => if e < usize::MAX {
            pre + decimal(num_run_value(m, i, e, lvl)) + post
        } else {
            none
        },
        None => none,
    }
}

/// The text of the reference whose opcode was recorded at `addr`: `$`, then the
/// escape level as backslashes (or, from 5 on, as a number and one backslash), then
/// the group; `ref` where its two numbers are not recorded whole.
pub open spec fn ref_text(m: Map<(usize, i8), Stat>, addr: int, lvl: i8) -> Seq<char> {
    match num_run_end(m, addr + 2, lvl) {
        Some(e) => if e + 1 < usize::MAX {
            match num_run_end(m, e + 1, lvl) {
                Some(e2) => if e2 < usize::MAX {
                    let esc = num_run_value(m, addr + 2, e, lvl);
                    let grp = num_run_value(m, e + 1, e2, lvl);
                    if esc < 5 {
                        seq!['$'] + backslashes(esc) + decimal(grp)
                    } else {
                        seq!['$'] + decimal(esc) + seq!['\\'] + decimal(grp)
                    }
                } else {
                    "ref"@
                },
                None => "ref"@,
            }
        } else {
            "ref"@
        },
        None => "ref"@,
    }
}

/// The value of the number recorded from `i` to `e`, bits past the word's width lost.
pub open spec fn num_run_value(m: Map<(usize, i8), Stat>, i: int, e: int, lvl: i8) -> nat {
    let bits = num_run_bits(m, i, e, lvl);
    bits_value(if bits.len() > word_bits() {
        bits.take(word_bits() as int)
    } else {
        bits
    })
}

/// Decodes the number recorded from `addr` at level `lvl`: its value, the keys it
/// covers, and the address after its terminating `P`.
pub fn dump_num(coverage: &BTreeMap<(usize, i8), Stat>, addr: usize, lvl: i8) -> (r: Option<
    (usize, Vec<(usize, i8)>, usize),
>)
    requires
        addr < usize::MAX,
    ensures
        match num_run_end(coverage@, addr as int, lvl) {
            None => r is None,
            Some(e) => if e == usize::MAX {
                r is None
            } else {
                r matches Some((v, used, a)) && a == e + 1 && v as nat == num_run_value(
                coverage@,
                addr as int,
                e,
                lvl,
            ) && used@ == Seq::new((e - addr + 1) as nat, |k: int| ((addr + k) as usize, lvl))
            },
        },
{
    let ghost m = coverage@;
    let mut i = addr;
    let mut v: usize = 0;
    let mut mask: usize = 1;
    let mut used: Vec<(usize, i8)> = Vec::new();
    let mut k: usize = 0;
    proof {
        lemma2_to64();
        assert(usize::MAX == 0xffff_ffff || usize::MAX == 0xffff_ffff_ffff_ffff);
        assert(num_run_bits(m, addr as int, addr as int, lvl) =~= Seq::<Base>::empty());
        assert(used@ =~= Seq::new(0, |j: int| ((addr + j) as usize, lvl)));
    }
    loop
        invariant
            m == coverage@,
            addr < usize::MAX,
            addr <= i,
            k == i - addr,
            num_run_end(m, addr as int, lvl) == num_run_end(m, i as int, lvl),
            used@ == Seq::new(k as nat, |j: int| ((addr + j) as usize, lvl)),
            k < word_bits() ==> mask == pow2(k as nat) && v == bits_value(
                num_run_bits(m, addr as int, i as int, lvl),
            ),
            k >= word_bits() ==> mask == 0 && v == bits_value(
                num_run_bits(m, addr as int, i as int, lvl).take(word_bits() as int),
            ),
        decreases usize::MAX - i,
    {
        proof {
            lemma2_to64();
            assert(usize::MAX == 0xffff_ffff || usize::MAX == 0xffff_ffff_ffff_ffff);
        }
        let stat = match coverage.get(&(i, lvl)) {
            Some(st) => *st,
            None => {
                return None;
            },
        };
        proof {
            assert(m.contains_key((i, lvl)) && m[(i, lvl)] == stat);
            assert(usage_at(m, i as int, lvl) == stat.usage);
        }
        let ghost used0 = used@;
        used.push((i, lvl));
        proof {
            assert(used@ =~= Seq::new((k + 1) as nat, |j: int| ((addr + j) as usize, lvl)));
        }
        let ghost pre = num_run_bits(m, addr as int, i as int, lvl);
        let ghost b = if stat.usage == Some(Usage::Num1) {
            Base::C
        } else {
            Base::I
        };
        proof {
            assert(num_run_bits(m, addr as int, i + 1, lvl) =~= pre.push(b));
            assert(pre.push(b).drop_last() =~= pre);
        }
        match stat.usage {
            Some(Usage::NumP) => {
                proof {
                    if k == word_bits() {
                        assert(pre.take(word_bits() as int) =~= pre);
                    }
                }
                if i == usize::MAX {
                    return None;
                }
                return Some((v, used, i + 1));
            },
            Some(Usage::Num0) => {},
            Some(Usage::Num1) => {
                if mask != 0 {
                    proof {
                        lemma_bits_value_bound(pre);
                        lemma_pow2_unfold((k + 1) as nat);
                        if k + 1 < word_bits() {
                            lemma_pow2_strictly_increases((k + 1) as nat, word_bits());
                        }
                        assert(pow2(word_bits()) == usize::MAX + 1);
                    }
                    v = v + mask;
                }
            },
            _ => {
                return None;
            },
        }
        proof {
            assert(bits_value(pre.push(b)) == bits_value(pre) + bit(b) * pow2(k as nat));
            if mask == 0 && k < word_bits() {
                lemma_pow2_pos(k as nat);
            }
            if k >= word_bits() {
                assert(pre.push(b).take(word_bits() as int) =~= pre.take(word_bits() as int));
            }
        }
        if mask != 0 {
            proof {
                lemma_pow2_unfold((k + 1) as nat);
            }
            if mask > usize::MAX / 2 {
                proof {
                    lemma2_to64();
                    assert(usize::MAX == 0xffff_ffff || usize::MAX == 0xffff_ffff_ffff_ffff);
                    lemma_pow2_unfold((k + 1) as nat);
                    if k + 1 < word_bits() {
                        lemma_pow2_strictly_increases((k + 1) as nat, word_bits());
                    }
                    assert(pow2(word_bits()) == usize::MAX + 1);
                    assert(k + 1 == word_bits());
                    assert(pre.push(b).take(word_bits() as int) =~= pre.push(b));
                }
                mask = 0;
            } else {
                mask = mask * 2;
            }
        }
        if i == usize::MAX {
            proof {
                assert(!has_key(m, i + 1, lvl));
                assert(num_run_end(m, i + 1, lvl) is None);
                assert(num_run_end(m, i as int, lvl) is None);
            }
            return None;
        }
        i = i + 1;
        k = k + 1;
    }
}

} // verus!

verus! {

proof fn lemma_num_run_keys(m: Map<(usize, i8), Stat>, i: int, lvl: i8)
    ensures
        num_run_end(m, i, lvl) matches Some(e) ==> i <= e && forall|j: int|
            i <= j <= e ==> #[trigger] has_key(m, j, lvl),
    decreases usize::MAX + 1 - i,
{
    if has_key(m, i, lvl) && usage_at(m, i, lvl) != Some(Usage::NumP) {
        lemma_num_run_keys(m, i + 1, lvl);
    }
}

/// The symbol that a base-usage stands for, by its offset from the kind's first usage.
pub open spec fn usage_base_spec(u: Usage) -> Base {
    match u {
        Usage::PatBaseI | Usage::SearchBaseI | Usage::RnaBaseI => Base::I,
        Usage::PatBaseC | Usage::SearchBaseC | Usage::RnaBaseC => Base::C,
        Usage::PatBaseF | Usage::SearchBaseF | Usage::RnaBaseF => Base::F,
        _ => Base::P,
    }
}

pub open spec fn is_pat_base(u: Usage) -> bool {
    u == Usage::PatBaseI || u == Usage::PatBaseC || u == Usage::PatBaseF || u == Usage::PatBaseP
}

/// Whether a usage belongs to the run kind: 0 pattern literals, 1 search needles,
/// otherwise RNA.
pub open spec fn of_kind(u: Usage, kind: u8) -> bool {
    if kind == 0 {
        is_pat_base(u)
    } else if kind == 1 {
        is_search_base(u)
    } else {
        is_rna_base(u)
    }
}

/// The letters of the run of base usages of the given kind from address `i`, where
/// at most two unrecorded addresses in a row are passed over.
pub open spec fn run_text(m: Map<(usize, i8), Stat>, i: int, lvl: i8, kind: u8, skipped: nat) -> Seq<char>
    decreases usize::MAX - i,
{
    if i < 0 || i >= usize::MAX {
        Seq::empty()
    } else {
        match usage_at(m, i, lvl) {
            Some(u) => if of_kind(u, kind) {
                seq![usage_base_spec(u).spec_char()] + run_text(m, i + 1, lvl, kind, 0)
            } else {
                Seq::empty()
            },
            None => if skipped < 2 {
                run_text(m, i + 1, lvl, kind, skipped + 1)
            } else {
                Seq::empty()
            },
        }
    }
}

fn usage_base(u: Usage) -> (b: Base)
    ensures
        b == usage_base_spec(u),
{
    match u {
        Usage::PatBaseI | Usage::SearchBaseI | Usage::RnaBaseI => Base::I,
        Usage::PatBaseC | Usage::SearchBaseC | Usage::RnaBaseC => Base::C,
        Usage::PatBaseF | Usage::SearchBaseF | Usage::RnaBaseF => Base::F,
        _ => Base::P,
    }
}

pub open spec fn is_search_base(u: Usage) -> bool {
    u == Usage::SearchBaseI || u == Usage::SearchBaseC || u == Usage::SearchBaseF || u
        == Usage::SearchBaseP
}

pub open spec fn is_rna_base(u: Usage) -> bool {
    u == Usage::RnaBaseI || u == Usage::RnaBaseC || u == Usage::RnaBaseF || u == Usage::RnaBaseP
}

/// All keys after the first are covered keys at level `lvl`.
pub open spec fn seen_ok(m: Map<(usize, i8), Stat>, seen: Seq<(usize, i8)>, addr: usize, lvl: i8) -> bool {
    &&& seen.len() >= 1
    &&& seen[0] == (addr, lvl)
    &&& forall|k: int| 1 <= k < seen.len() ==> (#[trigger] seen[k]).1 == lvl && m.contains_key(seen[k])
}

/// Appends the run of base usages of the given kind that follows `from`, allowing at
/// most two unrecorded addresses in a row.
fn dump_run(
    coverage: &BTreeMap<(usize, i8), Stat>,
    from: usize,
    lvl: i8,
    kind: u8,
    s: &mut String,
    seen: &mut Vec<(usize, i8)>,
    Ghost(addr): Ghost<usize>,
)
    requires
        seen_ok(coverage@, old(seen)@, addr, lvl),
    ensures
        seen_ok(coverage@, final(seen)@, addr, lvl),
        final(s)@ == old(s)@ + run_text(coverage@, from as int, lvl, kind, 0),
{
    let mut skipped: usize = 0;
    let mut i = from;
    let ghost s0 = s@;
    proof {
        assert(s@ =~= s@ + Seq::<char>::empty());
    }
    while i < usize::MAX
        invariant
            seen_ok(coverage@, seen@, addr, lvl),
            skipped <= 2,
            s@ + run_text(coverage@, i as int, lvl, kind, skipped as nat) == s0 + run_text(
                coverage@,
                from as int,
                lvl,
                kind,
                0,
            ),
        ensures
            s@ == s0 + run_text(coverage@, from as int, lvl, kind, 0),
        decreases usize::MAX - i,
    {
        let ghost sk = skipped;
        let u = match coverage.get(&(i, lvl)) {
            Some(st) => st.usage,
            None => None,
        };
        proof {
            assert(u == usage_at(coverage@, i as int, lvl));
        }
        let matches_kind = match u {
            Some(x) => if kind == 0 {
                matches!(x, Usage::PatBaseI | Usage::PatBaseC | Usage::PatBaseF | Usage::PatBaseP)
            } else if kind == 1 {
                matches!(x, Usage::SearchBaseI | Usage::SearchBaseC | Usage::SearchBaseF | Usage::SearchBaseP)
            } else {
                matches!(x, Usage::RnaBaseI | Usage::RnaBaseC | Usage::RnaBaseF | Usage::RnaBaseP)
            },
            None => false,
        };
        if matches_kind {
            skipped = 0;
            let ghost seen0 = seen@;
            proof {
                assert(coverage@.contains_key((i, lvl)));
            }
            seen.push((i, lvl));
            proof {
                assert forall|k: int| 1 <= k < seen@.len() implies (#[trigger] seen@[k]).1 == lvl
                    && coverage@.contains_key(seen@[k]) by {
                    if k < seen0.len() {
                        assert(seen@[k] == seen0[k]);
                    }
                }
            }
            let ghost sb = s@;
            match u {
                Some(x) => push_char(s, usage_base(x).char()),
                None => {},
            }
            proof {
                let x = u.unwrap();
                assert(of_kind(x, kind));
                assert(s@ == sb.push(usage_base_spec(x).spec_char()));
                assert(run_text(coverage@, i as int, lvl, kind, sk as nat) == seq![usage_base_spec(x).spec_char()]
                    + run_text(coverage@, i + 1, lvl, kind, 0));
                assert(s@ + run_text(coverage@, i + 1, lvl, kind, 0) =~= sb + run_text(coverage@, i as int, lvl, kind, sk as nat));
            }
        } else if u.is_none() && skipped < 2 {
            skipped = skipped + 1;
        } else {
            proof {
                if u is Some {
                    assert(!of_kind(u.unwrap(), kind));
                }
                assert(run_text(coverage@, i as int, lvl, kind, skipped as nat) == Seq::<char>::empty());
                assert(s@ =~= s@ + Seq::<char>::empty());
            }
            break ;
        }
        i = i + 1;
    }
    proof {
        assert(run_text(coverage@, i as int, lvl, kind, skipped as nat) == Seq::<char>::empty());
    }
}

impl<T: BaseLike> DnaState<T> {
    /// Decodes, for the coverage report, the construct whose first base was recorded at
    /// `addr` and level `lvl`: returns its text and the keys it covers, the first key
    /// first.
    pub fn source_dump(&self, addr: usize, lvl: i8) -> (r: (String, Vec<(usize, i8)>))
        ensures
            seen_ok(self.coverage@, r.1@, addr, lvl),
            usage_at(self.coverage@, addr as int, lvl) is None ==> r.0@.len() == 0 && r.1@.len() == 1,
            usage_at(self.coverage@, addr as int, lvl) == Some(Usage::PatOpen) ==> r.0@ == seq!['('],
            usage_at(self.coverage@, addr as int, lvl) == Some(Usage::PatClose) ==> r.0@ == seq![')'],
            usage_at(self.coverage@, addr as int, lvl) == Some(Usage::PatEnd) ==> r.0@ == "endpat"@,
            usage_at(self.coverage@, addr as int, lvl) == Some(Usage::TplEnd) ==> r.0@ == "endtpl"@,
            (usage_at(self.coverage@, addr as int, lvl) matches Some(u) && is_search_base(u)) ==> r.0@
                == "search base"@,
            (usage_at(self.coverage@, addr as int, lvl) matches Some(u) && is_rna_base(u)) ==> r.0@
                == "rna base"@,
            (addr < usize::MAX && (usage_at(self.coverage@, addr as int, lvl) == Some(Usage::Num0)
                || usage_at(self.coverage@, addr as int, lvl) == Some(Usage::Num1) || usage_at(
                self.coverage@,
                addr as int,
                lvl,
            ) == Some(Usage::NumP))) ==> r.0@ == num_text(self.coverage@, addr as int, lvl, Seq::empty(), Seq::empty(), "num"@),
            (addr < usize::MAX && usage_at(self.coverage@, addr as int, lvl) is Some && is_pat_base(
                usage_at(self.coverage@, addr as int, lvl).unwrap(),
            )) ==> r.0@ == seq![usage_base_spec(usage_at(self.coverage@, addr as int, lvl).unwrap()).spec_char()]
                + run_text(self.coverage@, addr + 1, lvl, 0, 0),
            (addr < usize::MAX - 3 && usage_at(self.coverage@, addr as int, lvl) == Some(Usage::PatSearch))
                ==> r.0@ == seq!['?', '<'] + run_text(self.coverage@, addr + 3, lvl, 1, 0) + seq!['>'],
            (addr < usize::MAX - 3 && usage_at(self.coverage@, addr as int, lvl) == Some(Usage::Rna))
                ==> r.0@ == "rna "@ + run_text(self.coverage@, addr + 3, lvl, 2, 0),
            (addr < usize::MAX - 2 && usage_at(self.coverage@, addr as int, lvl) == Some(Usage::TplRef))
                ==> r.0@ == ref_text(self.coverage@, addr as int, lvl),
            (addr < usize::MAX - 2 && usage_at(self.coverage@, addr as int, lvl) == Some(Usage::PatSkip))
                ==> r.0@ == num_text(self.coverage@, addr + 2, lvl, seq!['!'], Seq::empty(), "skip"@),
            (addr < usize::MAX - 3 && usage_at(self.coverage@, addr as int, lvl) == Some(Usage::TplLen))
                ==> r.0@ == num_text(self.coverage@, addr + 3, lvl, seq!['|'], seq!['|'], "len"@),
    {
        let ghost m = self.coverage@;
        let mut seen: Vec<(usize, i8)> = Vec::new();
        seen.push((addr, lvl));
        let mut s = String::new();
        let stat = match self.coverage.get(&(addr, lvl)) {
            Some(st) => *st,
            None => {
                return (s, seen);
            },
        };
        proof {
            assert(m.contains_key((addr, lvl)) && m[(addr, lvl)] == stat);
            assert(usage_at(m, addr as int, lvl) == stat.usage);
        }
        let usage = match stat.usage {
            Some(u) => u,
            None => {
                return (s, seen);
            },
        };
        match usage {
            Usage::PatBaseI | Usage::PatBaseC | Usage::PatBaseF | Usage::PatBaseP => {
                push_char(&mut s, usage_base(usage).char());
                if addr < usize::MAX {
                    dump_run(&self.coverage, addr + 1, lvl, 0, &mut s, &mut seen, Ghost(addr));
                }
                proof {
                    assert(seq![usage_base_spec(usage).spec_char()] =~= Seq::<char>::empty().push(usage_base_spec(usage).spec_char()));
                }
            },
            Usage::PatSkip => {
                let r = if addr < usize::MAX - 2 {
                    dump_num(&self.coverage, addr + 2, lvl)
                } else {
                    None
                };
                match r {
                    Some((num, used, _)) => {
                        proof {
                            lemma_used_keys(m, addr + 2, lvl, used@);
                        }
                        push_char(&mut s, '!');
                        push_decimal(&mut s, num);
                        proof {
                            assert(s@ =~= seq!['!'] + decimal(num as nat) + Seq::<char>::empty());
                        }
                        extend_seen(&mut seen, &used, Ghost(m), Ghost(addr), lvl);
                    },
                    None => push_text(&mut s, "skip"),
                }
            },
            Usage::PatSearch => {
                push_char(&mut s, '?');
                push_char(&mut s, '<');
                if addr < usize::MAX - 3 {
                    dump_run(&self.coverage, addr + 3, lvl, 1, &mut s, &mut seen, Ghost(addr));
                }
                push_char(&mut s, '>');
                proof {
                    if addr < usize::MAX - 3 {
                        assert(s@ =~= seq!['?', '<'] + run_text(m, addr + 3, lvl, 1, 0) + seq!['>']);
                    }
                }
            },
            Usage::PatOpen => {
                push_char(&mut s, '(');
            },
            Usage::PatClose => {
                push_char(&mut s, ')');
            },
            Usage::PatEnd => {
                push_text(&mut s, "endpat");
            },
            Usage::TplLen => {
                let r = if addr < usize::MAX - 3 {
                    dump_num(&self.coverage, addr + 3, lvl)
                } else {
                    None
                };
                match r {
                    Some((num, used, _)) => {
                        proof {
                            lemma_used_keys(m, addr + 3, lvl, used@);
                        }
                        push_char(&mut s, '|');
                        push_decimal(&mut s, num);
                        push_char(&mut s, '|');
                        proof {
                            assert(s@ =~= seq!['|'] + decimal(num as nat) + seq!['|']);
                        }
                        extend_seen(&mut seen, &used, Ghost(m), Ghost(addr), lvl);
                    },
                    None => push_text(&mut s, "len"),
                }
            },
            Usage::TplRef => {
                let r1 = if addr < usize::MAX - 2 {
                    dump_num(&self.coverage, addr + 2, lvl)
                } else {
                    None
                };
                match r1 {
                    Some((esc, used1, a)) => {
                        let r2 = if a < usize::MAX {
                            dump_num(&self.coverage, a, lvl)
                        } else {
                            None
                        };
                        match r2 {
                            Some((grp, used2, _)) => {
                                proof {
                                    lemma_used_keys(m, addr + 2, lvl, used1@);
                                    lemma_used_keys(m, a as int, lvl, used2@);
                                }
                                push_char(&mut s, '$');
                                if esc < 5 {
                                    let mut k: usize = 0;
                                    proof {
                                        assert(s@ =~= seq!['$'] + backslashes(0));
                                    }
                                    while k < esc
                                        invariant
                                            k <= esc,
                                            s@ == seq!['$'] + backslashes(k as nat),
                                        decreases esc - k,
                                    {
                                        push_char(&mut s, '\\');
                                        k = k + 1;
                                        proof {
                                            assert(backslashes(k as nat) =~= backslashes((k - 1) as nat).push('\\'));
                                        }
                                    }
                                    push_decimal(&mut s, grp);
                                } else {
                                    push_decimal(&mut s, esc);
                                    push_char(&mut s, '\\');
                                    push_decimal(&mut s, grp);
                                }
                                extend_seen(&mut seen, &used1, Ghost(m), Ghost(addr), lvl);
                                extend_seen(&mut seen, &used2, Ghost(m), Ghost(addr), lvl);
                            },
                            None => push_text(&mut s, "ref"),
                        }
                    },
                    None => push_text(&mut s, "ref"),
                }
            },
            Usage::TplEnd => {
                push_text(&mut s, "endtpl");
            },
            Usage::Num0 | Usage::Num1 | Usage::NumP => {
                let r = if addr < usize::MAX {
                    dump_num(&self.coverage, addr, lvl)
                } else {
                    None
                };
                match r {
                    Some((num, used, _)) => {
                        proof {
                            lemma_used_keys(m, addr as int, lvl, used@);
                        }
                        push_decimal(&mut s, num);
                        proof {
                            assert(s@ =~= Seq::<char>::empty() + decimal(num as nat) + Seq::<char>::empty());
                        }
                        extend_seen(&mut seen, &used, Ghost(m), Ghost(addr), lvl);
                    },
                    None => push_text(&mut s, "num"),
                }
            },
            Usage::SearchBaseI | Usage::SearchBaseC | Usage::SearchBaseF | Usage::SearchBaseP => {
                push_text(&mut s, "search base");
            },
            Usage::RnaBaseI | Usage::RnaBaseC | Usage::RnaBaseF | Usage::RnaBaseP => {
                push_text(&mut s, "rna base");
            },
            Usage::Rna => {
                push_text(&mut s, "rna ");
                if addr < usize::MAX - 3 {
                    dump_run(&self.coverage, addr + 3, lvl, 2, &mut s, &mut seen, Ghost(addr));
                }
            },
        }
        (s, seen)
    }
}

proof fn lemma_used_keys(m: Map<(usize, i8), Stat>, a: int, lvl: i8, used: Seq<(usize, i8)>)
    requires
        num_run_end(m, a, lvl) matches Some(e) && used == Seq::new(
            (e - a + 1) as nat,
            |k: int| ((a + k) as usize, lvl),
        ),
    ensures
        forall|k: int| 0 <= k < used.len() ==> (#[trigger] used[k]).1 == lvl && m.contains_key(used[k]),
{
    lemma_num_run_keys(m, a, lvl);
    let e = num_run_end(m, a, lvl).unwrap();
    assert forall|k: int| 0 <= k < used.len() implies (#[trigger] used[k]).1 == lvl && m.contains_key(
        used[k],
    ) by {
        assert(has_key(m, a + k, lvl));
    }
}

/// Appends the keys that a decoded number covers.
fn extend_seen(
    seen: &mut Vec<(usize, i8)>,
    used: &Vec<(usize, i8)>,
    Ghost(m): Ghost<Map<(usize, i8), Stat>>,
    Ghost(addr): Ghost<usize>,
    lvl: i8,
)
    requires
        seen_ok(m, old(seen)@, addr, lvl),
        forall|k: int| 0 <= k < used@.len() ==> (#[trigger] used@[k]).1 == lvl && m.contains_key(used@[k]),
    ensures
        seen_ok(m, final(seen)@, addr, lvl),
{
    let mut j: usize = 0;
    while j < used.len()
        invariant
            j <= used@.len(),
            seen_ok(m, seen@, addr, lvl),
            forall|k: int| 0 <= k < used@.len() ==> (#[trigger] used@[k]).1 == lvl && m.contains_key(used@[k]),
        decreases used@.len() - j,
    {
        let ghost seen0 = seen@;
        seen.push(used[j]);
        proof {
            assert forall|k: int| 1 <= k < seen@.len() implies (#[trigger] seen@[k]).1 == lvl
                && m.contains_key(seen@[k]) by {
                if k < seen0.len() {
                    assert(seen@[k] == seen0[k]);
                } else {
                    assert(seen@[k] == used@[j as int]);
                }
            }
        }
        j = j + 1;
    }
}

} // verus!
