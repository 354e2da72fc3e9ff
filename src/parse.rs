//! Parsing patterns and templates from the head of the DNA: opcodes, numbers,
//! quoted bases, and the spec-level model of what a parse yields.
use vstd::prelude::*;
use vstd::arithmetic::power2::{pow2, lemma2_to64, lemma_pow2_unfold, lemma_pow2_strictly_increases, lemma_pow2_pos};
use crate::base::{Base, BaseLike, syms, unquote, unquote_t, lemma_syms};
use crate::rope::{RopeCursor};
use crate::coverage::{Usage, Stat, RunKind, record_run, record_source, record_num_spec};
use crate::dna::{DnaState};

verus! {


/// The opcode at the head of the unparsed DNA, read from its first one to three bases.
#[derive(Clone, Copy, Debug, PartialEq, Eq, Structural)]
pub enum OpCode {
    C,
    F,
    P,
    IC,
    IF,
    IP,
    IIC,
    IIF,
    IIP,
    III,
    Invalid,
}

/// The opcode that starts at position `i` of `s`; `Invalid` where `s` ends first.
pub open spec fn op_at(s: Seq<Base>, i: int) -> OpCode {
    if i < 0 || i >= s.len() {
        OpCode::Invalid
    } else if s[i] == Base::C {
        OpCode::C
    } else if s[i] == Base::F {
        OpCode::F
    } else if s[i] == Base::P {
        OpCode::P
    } else if i + 1 >= s.len() {
        OpCode::Invalid
    } else if s[i + 1] == Base::C {
        OpCode::IC
    } else if s[i + 1] == Base::F {
        OpCode::IF
    } else if s[i + 1] == Base::P {
        OpCode::IP
    } else if i + 2 >= s.len() {
        OpCode::Invalid
    } else if s[i + 2] == Base::C {
        OpCode::IIC
    } else if s[i + 2] == Base::F {
        OpCode::IIF
    } else if s[i + 2] == Base::P {
        OpCode::IIP
    } else {
        OpCode::III
    }
}

/// The symbols of what a cursor reads.
pub open spec fn cur_syms<T: BaseLike>(c: &RopeCursor<T>) -> Seq<Base> {
    syms(c.data())
}

pub fn next_op<T: BaseLike>(cursor: &mut RopeCursor<T>) -> (r: OpCode)
    requires
        old(cursor).wf(),
    ensures
        final(cursor).wf(),
        final(cursor).data() == old(cursor).data(),
        final(cursor).spec_pos() == old(cursor).spec_pos(),
        r == op_at(cur_syms(old(cursor)), old(cursor).spec_pos()),
{
    let i = cursor.pos();
    let n = cursor.full_len();
    if i >= n {
        return OpCode::Invalid;
    }
    let b0 = cursor.at(i).to_base();
    match b0 {
        Base::C => OpCode::C,
        Base::F => OpCode::F,
        Base::P => OpCode::P,
        Base::I => {
            if i + 1 >= n {
                return OpCode::Invalid;
            }
            let b1 = cursor.at(i + 1).to_base();
            match b1 {
                Base::C => OpCode::IC,
                Base::F => OpCode::IF,
                Base::P => OpCode::IP,
                Base::I => {
                    if i + 2 >= n {
                        return OpCode::Invalid;
                    }
                    let b2 = cursor.at(i + 2).to_base();
                    match b2 {
                        Base::C => OpCode::IIC,
                        Base::F => OpCode::IIF,
                        Base::P => OpCode::IIP,
                        Base::I => OpCode::III,
                    }
                },
            }
        },
    }
}

/// The position of the first `P` at or after `i`, if any: where a number ends.
pub open spec fn num_end(s: Seq<Base>, i: int) -> Option<int>
    decreases s.len() - i,
{
    if i < 0 || i >= s.len() {
        None
    } else if s[i] == Base::P {
        Some(i)
    } else {
        num_end(s, i + 1)
    }
}

pub open spec fn bit(b: Base) -> nat {
    if b == Base::C {
        1
    } else {
        0
    }
}

/// The value of a little-endian bit string in which `C` is 1 and any other base 0.
pub open spec fn bits_value(s: Seq<Base>) -> nat
    decreases s.len(),
{
    if s.len() == 0 {
        0
    } else {
        bits_value(s.drop_last()) + bit(s.last()) * pow2((s.len() - 1) as nat)
    }
}

/// The number of bits of a machine word.
pub open spec fn word_bits() -> nat {
    if usize::MAX == 0xffff_ffff {
        32
    } else {
        64
    }
}

/// The number that the bases from `i` to the terminating `P` encode, as a machine
/// word: bits past the word's width are lost.
pub open spec fn num_value(s: Seq<Base>, i: int, end: int) -> nat {
    let bits = s.subrange(i, end);
    bits_value(if bits.len() > word_bits() {
        bits.take(word_bits() as int)
    } else {
        bits
    })
}

pub(crate) proof fn lemma_bits_value_bound(s: Seq<Base>)
    ensures
        bits_value(s) < pow2(s.len()),
    decreases s.len(),
{
    if s.len() == 0 {
        lemma2_to64();
    } else {
        let d = s.drop_last();
        lemma_bits_value_bound(d);
        lemma_pow2_unfold(s.len());
        assert(d.len() == s.len() - 1);
        assert(bits_value(d) < pow2((s.len() - 1) as nat));
        assert(pow2(s.len()) == 2 * pow2((s.len() - 1) as nat));
        if bit(s.last()) == 1 {
            assert(bits_value(s) == bits_value(s.drop_last()) + pow2((s.len() - 1) as nat));
        } else {
            assert(bits_value(s) == bits_value(s.drop_last()));
        }
    }
}

pub(crate) proof fn lemma_num_value_fits(s: Seq<Base>, i: int, e: int)
    requires
        0 <= i <= e <= s.len(),
    ensures
        num_value(s, i, e) <= usize::MAX,
{
    let bits = s.subrange(i, e);
    let b = if bits.len() > word_bits() {
        bits.take(word_bits() as int)
    } else {
        bits
    };
    lemma_bits_value_bound(b);
    lemma2_to64();
    assert(usize::MAX == 0xffff_ffff || usize::MAX == 0xffff_ffff_ffff_ffff);
    if b.len() < word_bits() {
        lemma_pow2_strictly_increases(b.len(), word_bits());
    }
}

/// Reads a number: bases up to and including the next `P`. `None` if the DNA ends
/// first, the cursor then at the end.
pub fn parse_num<T: BaseLike>(cursor: &mut RopeCursor<T>) -> (r: Option<usize>)
    requires
        old(cursor).wf(),
    ensures
        final(cursor).wf(),
        final(cursor).data() == old(cursor).data(),
        match num_end(cur_syms(old(cursor)), old(cursor).spec_pos()) {
            None => r.is_none() && final(cursor).spec_pos() == if old(cursor).spec_pos() < old(
                cursor,
            ).data().len() {
                old(cursor).data().len() as int
            } else {
                old(cursor).spec_pos()
            },
            Some(e) => r == Some(
                num_value(cur_syms(old(cursor)), old(cursor).spec_pos(), e) as usize,
            ) && final(cursor).spec_pos() == e + 1,
        },
{
    let ghost s = cur_syms(cursor);
    let ghost p0 = cursor.spec_pos();
    proof {
        lemma_syms(cursor.data());
        cursor.lemma_pos();
    }
    let mut v: usize = 0;
    let mut mask: usize = 1;
    let n = cursor.full_len();
    let mut k: usize = 0;
    if cursor.pos() >= n {
        return None;
    }
    proof {
        lemma2_to64();
        assert(usize::MAX == 0xffff_ffff || usize::MAX == 0xffff_ffff_ffff_ffff);
        assert(s.subrange(p0, p0) =~= Seq::<Base>::empty());
    }
    while cursor.pos() < n
        invariant
            cursor.wf(),
            cursor.data() == old(cursor).data(),
            s == cur_syms(cursor),
            n == cursor.data().len(),
            s.len() == n,
            p0 == old(cursor).spec_pos(),
            0 <= p0 <= cursor.spec_pos() <= n,
            k == cursor.spec_pos() - p0,
            num_end(s, p0) == num_end(s, cursor.spec_pos()),
            k < word_bits() ==> mask == pow2(k as nat) && v == bits_value(
                s.subrange(p0, cursor.spec_pos()),
            ),
            k >= word_bits() ==> mask == 0 && v == bits_value(
                s.subrange(p0, cursor.spec_pos()).take(word_bits() as int),
            ),
        decreases n - cursor.spec_pos(),
    {
        let ghost i = cursor.spec_pos();
        proof {
            lemma_syms(cursor.data());
            cursor.lemma_pos();
        }
        let b = cursor.at(cursor.pos()).to_base();
        proof {
            lemma_syms(cursor.data());
            assert(s[i] == cursor.data()[i].sym());
        }
        let j = cursor.pos();
        cursor.seek(j + 1);
        if b == Base::P {
            proof {
                assert(num_end(s, i) == Some(i));
                let sub = s.subrange(p0, i);
                assert(sub.len() == k);
                if k == word_bits() {
                    assert(sub.take(word_bits() as int) =~= sub);
                }
            }
            return Some(v);
        }
        let ghost pre = s.subrange(p0, i);
        proof {
            assert(i < s.len());
            assert(0 <= p0 <= i);
            assert(pre.len() == i - p0);
            assert(s.subrange(p0, i + 1).len() == pre.push(s[i]).len());
            assert(s.subrange(p0, i + 1) =~= pre.push(s[i]));
            assert(pre.push(s[i]).drop_last() =~= pre);
            assert(bits_value(pre.push(s[i])) == bits_value(pre) + bit(s[i]) * pow2(k as nat));
        }
        proof {
            lemma2_to64();
            assert(usize::MAX == 0xffff_ffff || usize::MAX == 0xffff_ffff_ffff_ffff);
        }
        if mask != 0 {
            proof {
                lemma_bits_value_bound(pre);
                lemma_pow2_unfold((k + 1) as nat);
                if k + 1 < word_bits() {
                    lemma_pow2_strictly_increases((k + 1) as nat, word_bits());
                }
                assert(pow2(word_bits()) == usize::MAX + 1);
            }
            if b == Base::C {
                v = v + mask;
                proof {
                    assert(bit(s[i]) == 1);
                    assert(v == bits_value(pre.push(s[i])));
                }
            } else {
                proof {
                    assert(bit(s[i]) == 0);
                    assert(v == bits_value(pre.push(s[i])));
                }
            }
            if mask > usize::MAX / 2 {
                mask = 0;
                proof {
                    if k + 1 < word_bits() {
                        lemma_pow2_strictly_increases(k as nat, (word_bits() - 1) as nat);
                    }
                    assert(k + 1 == word_bits());
                    assert(pre.push(s[i]).take(word_bits() as int) =~= pre.push(s[i]));
                }
            } else {
                mask = mask * 2;
            }
        } else {
            proof {
                if k < word_bits() {
                    lemma_pow2_pos(k as nat);
                }
                assert(pre.push(s[i]).take(word_bits() as int) =~= pre.take(word_bits() as int));
            }
        }
        k = k + 1;
    }
    None
}

/// How many bases a run of quoted symbols takes: see `unquote`.
pub open spec fn quoted_len(s: Seq<Base>) -> nat
    decreases s.len(),
{
    if s.len() == 0 {
        0
    } else if s[0] == Base::I {
        if s.len() >= 2 && s[1] == Base::C {
            2 + quoted_len(s.skip(2))
        } else {
            0
        }
    } else {
        1 + quoted_len(s.skip(1))
    }
}

pub(crate) proof fn lemma_quoted_len(t: Seq<Base>)
    ensures
        quoted_len(t) <= t.len(),
        t.len() > 0 && t[0] != Base::I ==> quoted_len(t) >= 1,
        t.len() > 1 && t[0] == Base::I && t[1] == Base::C ==> quoted_len(t) >= 2,
    decreases t.len(),
{
    if t.len() > 0 {
        if t[0] == Base::I {
            if t.len() >= 2 && t[1] == Base::C {
                lemma_quoted_len(t.skip(2));
            }
        } else {
            lemma_quoted_len(t.skip(1));
        }
    }
}

pub(crate) proof fn lemma_num_end(s: Seq<Base>, i: int)
    ensures
        num_end(s, i) matches Some(e) ==> 0 <= i <= e < s.len() && s[e] == Base::P,
    decreases s.len() - i,
{
    if 0 <= i < s.len() && s[i] != Base::P {
        lemma_num_end(s, i + 1);
    }
}

/// Reads a run of quoted bases: each base other than `I` stands for its unprotected
/// self, `IC` for an unprotected `I` (a `P`); stops before any other `I` and at the end.
pub fn parse_bases<T: BaseLike>(cursor: &mut RopeCursor<T>) -> (r: Vec<T>)
    requires
        old(cursor).wf(),
    ensures
        final(cursor).wf(),
        final(cursor).data() == old(cursor).data(),
        old(cursor).spec_pos() >= old(cursor).data().len() ==> r@.len() == 0 && final(cursor).spec_pos()
            == old(cursor).spec_pos(),
        old(cursor).spec_pos() <= old(cursor).data().len() ==> ({
            &&& syms(r@) == unquote(cur_syms(old(cursor)).skip(old(cursor).spec_pos()))
            &&& r@ == unquote_t(old(cursor).data().skip(old(cursor).spec_pos()))
            &&& final(cursor).spec_pos() == old(cursor).spec_pos() + quoted_len(
                cur_syms(old(cursor)).skip(old(cursor).spec_pos()),
            )
        }),
{
    let ghost s = cur_syms(cursor);
    let ghost p0 = cursor.spec_pos();
    let ghost d = cursor.data();
    proof {
        lemma_syms(cursor.data());
        cursor.lemma_pos();
    }
    let mut v: Vec<T> = Vec::new();
    proof {
        cursor.lemma_len();
    }
    if cursor.pos() >= cursor.full_len() {
        return v;
    }
    loop
        invariant
            cursor.wf(),
            cursor.data() == old(cursor).data(),
            s == cur_syms(cursor),
            p0 == old(cursor).spec_pos(),
            p0 <= cursor.spec_pos() <= s.len(),
            s.len() <= usize::MAX,
            syms(v@) + unquote(s.skip(cursor.spec_pos())) == unquote(s.skip(p0)),
            d == cursor.data(),
            v@ + unquote_t(d.skip(cursor.spec_pos())) == unquote_t(d.skip(p0)),
            cursor.spec_pos() + quoted_len(s.skip(cursor.spec_pos())) == p0 + quoted_len(
                s.skip(p0),
            ),
        decreases s.len() - cursor.spec_pos(),
    {
        let ghost i = cursor.spec_pos();
        proof {
            lemma_syms(cursor.data());
            cursor.lemma_pos();
        }
        let ghost t = s.skip(i);
        let ghost dt = d.skip(i);
        let ghost v0 = v@;
        let p = cursor.peek();
        match p {
            None => {
                proof {
                    assert(t.len() == 0);
                    assert(syms(v@) =~= syms(v@) + unquote(t));
                    assert(v@ =~= v@ + unquote_t(dt));
                }
                return v;
            },
            Some(b) => {
                proof {
                    lemma_syms(cursor.data());
                    assert(s[i] == cursor.data()[i].sym());
                    assert(t[0] == b.sym());
                }
                if b.to_base() == Base::I {
                    let j = cursor.pos();
                    let next = cursor.try_at(j + 1);
                    let is_c = match next {
                        Some(x) => x.to_base() == Base::C,
                        None => false,
                    };
                    if is_c {
                        proof {
                            assert(t[1] == cursor.data()[i + 1].sym());
                            b.lemma_unprotect_sym();
                            assert(t.skip(2) =~= s.skip(i + 2));
                        }
                        v.push(b.unprotect());
                        cursor.seek(j + 2);
                        proof {
                            assert(syms(v@) =~= syms(v0).push(Base::P)) by {
                                assert(v@.drop_last() =~= v0);
                            }
                            assert(syms(v@) + unquote(s.skip(i + 2)) =~= syms(v0) + unquote(t));
                            assert(dt[0] == b && dt[1].sym() == t[1]);
                            assert(dt.skip(2) =~= d.skip(i + 2));
                            assert(v@ + unquote_t(d.skip(i + 2)) =~= v0 + unquote_t(dt));
                        }
                    } else {
                        proof {
                            if t.len() >= 2 {
                                assert(t[1] == cursor.data()[i + 1].sym());
                            }
                            assert(syms(v@) =~= syms(v@) + unquote(t));
                            assert(dt[0] == b);
                            if t.len() >= 2 {
                                assert(dt[1].sym() == t[1]);
                            }
                            assert(v@ =~= v@ + unquote_t(dt));
                        }
                        return v;
                    }
                } else {
                    proof {
                        b.lemma_unprotect_sym();
                        assert(t.skip(1) =~= s.skip(i + 1));
                    }
                    v.push(b.unprotect());
                    let j = cursor.pos();
                    cursor.seek(j + 1);
                    proof {
                        assert(syms(v@) =~= syms(v0).push(t[0].prev())) by {
                            assert(v@.drop_last() =~= v0);
                        }
                        assert(syms(v@) + unquote(s.skip(i + 1)) =~= syms(v0) + unquote(t));
                        assert(dt[0] == b);
                        assert(dt.skip(1) =~= d.skip(i + 1));
                        assert(v@ + unquote_t(d.skip(i + 1)) =~= v0 + unquote_t(dt));
                    }
                }
            },
        }
    }
}



/// A seven-base fragment of RNA.
pub type Rna<T> = [T; 7];

/// An item of a pattern, as a value.
pub enum PSpec<T> {
    Bases(Seq<T>),
    Skip(nat),
    Search(Seq<T>),
    Open,
    Close,
}

/// An item of a template, as a value.
pub enum TSpec<T> {
    Bases(Seq<T>),
    Len(nat),
    Ref { group: nat, level: nat },
}

/// What parsing from some position yields: the items, where the cursor ends, whether
/// the DNA ran out (the engine then stops), and the RNA fragments emitted on the way.
pub struct Parsed<I, B> {
    pub items: Seq<I>,
    pub end: int,
    pub finished: bool,
    pub rna: Seq<Seq<B>>,
}

pub open spec fn min_pos(a: int, b: int) -> int {
    if a <= b {
        a
    } else {
        b
    }
}

/// The fragment that the `III` at `i` emits: the seven bases after the opcode, if the
/// DNA holds all seven.
pub open spec fn rna_at<B>(s: Seq<B>, i: int) -> Seq<Seq<B>> {
    if i + 10 <= s.len() {
        seq![s.subrange(i + 3, i + 10)]
    } else {
        Seq::empty()
    }
}

pub open spec fn prepend_item<I, B>(x: I, r: Parsed<I, B>) -> Parsed<I, B> {
    Parsed { items: seq![x] + r.items, ..r }
}

pub open spec fn stop<I, B>(i: int, finished: bool) -> Parsed<I, B> {
    Parsed { items: Seq::empty(), end: i, finished, rna: Seq::empty() }
}

/// The pattern that the DNA `s` spells from position `i`, inside `depth` open groups.
pub open spec fn pattern_from<T: BaseLike>(d: Seq<T>, i: int, depth: nat) -> Parsed<PSpec<T>, T>
    decreases d.len() - i,
{
    let s = syms(d);
    if i < 0 || i >= d.len() {
        stop(i, true)
    } else {
        let n = d.len() as int;
        match op_at(s, i) {
            OpCode::Invalid => stop(i, true),
            OpCode::C | OpCode::F | OpCode::P | OpCode::IC => {
                let j = i + quoted_len(s.skip(i));
                if j <= i || j > n {
                    stop(i, true)
                } else {
                    prepend_item(PSpec::Bases(unquote_t(d.skip(i))), pattern_from(d, j, depth))
                }
            },
            OpCode::IF => {
                let k = min_pos(i + 3, n);
                let j = k + quoted_len(s.skip(k));
                if j > n {
                    stop(i, true)
                } else {
                    prepend_item(PSpec::Search(unquote_t(d.skip(k))), pattern_from(d, j, depth))
                }
            },
            OpCode::IP => match num_end(s, i + 2) {
                None => stop(n, true),
                Some(e) => if e < i || e >= n {
                    stop(i, true)
                } else {
                    prepend_item(PSpec::Skip(num_value(s, i + 2, e)), pattern_from(d, e + 1, depth))
                },
            },
            OpCode::IIC | OpCode::IIF => if depth == 0 {
                stop(i + 3, false)
            } else {
                prepend_item(PSpec::Close, pattern_from(d, i + 3, (depth - 1) as nat))
            },
            OpCode::IIP => prepend_item(PSpec::Open, pattern_from(d, i + 3, depth + 1)),
            OpCode::III => if i + 10 <= n {
                let r = pattern_from(d, i + 10, depth);
                Parsed { rna: rna_at(d, i) + r.rna, ..r }
            } else {
                stop(i + 10, true)
            },
        }
    }
}

/// The template that the DNA `s` spells from position `i`.
pub open spec fn template_from<T: BaseLike>(d: Seq<T>, i: int) -> Parsed<TSpec<T>, T>
    decreases d.len() - i,
{
    let s = syms(d);
    if i < 0 || i >= d.len() {
        stop(i, true)
    } else {
        let n = d.len() as int;
        match op_at(s, i) {
            OpCode::Invalid => stop(i, true),
            OpCode::C | OpCode::F | OpCode::P | OpCode::IC => {
                let j = i + quoted_len(s.skip(i));
                if j <= i || j > n {
                    stop(i, true)
                } else {
                    prepend_item(TSpec::Bases(unquote_t(d.skip(i))), template_from(d, j))
                }
            },
            OpCode::IF | OpCode::IP => match num_end(s, i + 2) {
                None => stop(n, true),
                Some(e) => match num_end(s, e + 1) {
                    None => stop(n, true),
                    Some(e2) => if e2 < i || e2 >= n {
                        stop(i, true)
                    } else {
                        prepend_item(
                            TSpec::Ref {
                                group: num_value(s, e + 1, e2),
                                level: num_value(s, i + 2, e),
                            },
                            template_from(d, e2 + 1),
                        )
                    },
                },
            },
            OpCode::IIC | OpCode::IIF => stop(i + 3, false),
            OpCode::IIP => match num_end(s, i + 3) {
                None => stop(n, true),
                Some(e) => if e < i || e >= n {
                    stop(i, true)
                } else {
                    prepend_item(TSpec::Len(num_value(s, i + 3, e)), template_from(d, e + 1))
                },
            },
            OpCode::III => if i + 10 <= n {
                let r = template_from(d, i + 10);
                Parsed { rna: rna_at(d, i) + r.rna, ..r }
            } else {
                stop(i + 10, true)
            },
        }
    }
}

/// The coverage after the use of the base at `i` (if any) is recorded.
pub open spec fn mark_at<T: BaseLike>(m: Map<(usize, i8), Stat>, d: Seq<T>, i: int, it: u32, u: Usage) -> Map<
    (usize, i8),
    Stat,
> {
    if 0 <= i < d.len() {
        record_source(m, d[i].spec_source(), it, u)
    } else {
        m
    }
}

/// The coverage after the bases of the `III` at `i` are recorded: the opcode, then
/// the fragment's seven bases where the DNA holds them.
pub open spec fn rna_marks<T: BaseLike>(m: Map<(usize, i8), Stat>, d: Seq<T>, i: int, it: u32) -> Map<
    (usize, i8),
    Stat,
> {
    let m1 = mark_at(m, d, i, it, Usage::Rna);
    if i + 10 <= d.len() {
        record_run(m1, d.subrange(i + 3, i + 10), it, RunKind::Rna)
    } else {
        m1
    }
}

/// What parsing a pattern from `i` records in the coverage, in iteration `it`: the
/// leading base of each opcode with its usage, every base of a literal or a search
/// needle, every base of a number, and the bases of RNA fragments.
pub open spec fn pattern_marks<T: BaseLike>(
    m: Map<(usize, i8), Stat>,
    d: Seq<T>,
    i: int,
    depth: nat,
    it: u32,
) -> Map<(usize, i8), Stat>
    decreases d.len() - i,
{
    let s = syms(d);
    if i < 0 || i >= d.len() {
        m
    } else {
        let n = d.len() as int;
        match op_at(s, i) {
            OpCode::Invalid => m,
            OpCode::C | OpCode::F | OpCode::P | OpCode::IC => {
                let j = i + quoted_len(s.skip(i));
                if j <= i || j > n {
                    m
                } else {
                    pattern_marks(record_run(m, unquote_t(d.skip(i)), it, RunKind::Pat), d, j, depth, it)
                }
            },
            OpCode::IF => {
                let m1 = mark_at(m, d, i, it, Usage::PatSearch);
                let k = min_pos(i + 3, n);
                let j = k + quoted_len(s.skip(k));
                if j > n {
                    m1
                } else {
                    pattern_marks(record_run(m1, unquote_t(d.skip(k)), it, RunKind::Search), d, j, depth, it)
                }
            },
            OpCode::IP => {
                let m2 = record_num_spec(mark_at(m, d, i, it, Usage::PatSkip), d, i + 2, it);
                match num_end(s, i + 2) {
                    None => m2,
                    Some(e) => if e < i || e >= n {
                        m2
                    } else {
                        pattern_marks(m2, d, e + 1, depth, it)
                    },
                }
            },
            OpCode::IIC | OpCode::IIF => if depth == 0 {
                mark_at(m, d, i, it, Usage::PatEnd)
            } else {
                pattern_marks(mark_at(m, d, i, it, Usage::PatClose), d, i + 3, (depth - 1) as nat, it)
            },
            OpCode::IIP => pattern_marks(mark_at(m, d, i, it, Usage::PatOpen), d, i + 3, depth + 1, it),
            OpCode::III => if i + 10 <= n {
                pattern_marks(rna_marks(m, d, i, it), d, i + 10, depth, it)
            } else {
                rna_marks(m, d, i, it)
            },
        }
    }
}

/// What parsing a template from `i` records in the coverage, in iteration `it`: the
/// leading base of each opcode with its usage, every base of a number, and the bases
/// of RNA fragments.
pub open spec fn template_marks<T: BaseLike>(m: Map<(usize, i8), Stat>, d: Seq<T>, i: int, it: u32) -> Map<
    (usize, i8),
    Stat,
>
    decreases d.len() - i,
{
    let s = syms(d);
    if i < 0 || i >= d.len() {
        m
    } else {
        let n = d.len() as int;
        match op_at(s, i) {
            OpCode::Invalid => m,
            OpCode::C | OpCode::F | OpCode::P | OpCode::IC => {
                let j = i + quoted_len(s.skip(i));
                if j <= i || j > n {
                    m
                } else {
                    template_marks(m, d, j, it)
                }
            },
            OpCode::IF | OpCode::IP => {
                let m2 = record_num_spec(mark_at(m, d, i, it, Usage::TplRef), d, i + 2, it);
                match num_end(s, i + 2) {
                    None => m2,
                    Some(e) => {
                        let m3 = record_num_spec(m2, d, e + 1, it);
                        match num_end(s, e + 1) {
                            None => m3,
                            Some(e2) => if e2 < i || e2 >= n {
                                m3
                            } else {
                                template_marks(m3, d, e2 + 1, it)
                            },
                        }
                    },
                }
            },
            OpCode::IIC | OpCode::IIF => mark_at(m, d, i, it, Usage::TplEnd),
            OpCode::IIP => {
                let m2 = record_num_spec(mark_at(m, d, i, it, Usage::TplLen), d, i + 3, it);
                match num_end(s, i + 3) {
                    None => m2,
                    Some(e) => if e < i || e >= n {
                        m2
                    } else {
                        template_marks(m2, d, e + 1, it)
                    },
                }
            },
            OpCode::III => if i + 10 <= n {
                template_marks(rna_marks(m, d, i, it), d, i + 10, it)
            } else {
                rna_marks(m, d, i, it)
            },
        }
    }
}

/// An item of a pattern.
#[derive(Clone, Debug, PartialEq)]
pub enum PItem<T> {
    Bases(Vec<T>),
    Skip(usize),
    Search(Vec<T>),
    OpenGroup,
    CloseGroup,
}

/// An item of a template.
#[derive(Clone, Debug, PartialEq)]
pub enum TItem<T> {
    Bases(Vec<T>),
    Len(usize),
    Ref { group: usize, level: usize },
}

impl<T: BaseLike> PItem<T> {
    pub open spec fn spec_item(&self) -> PSpec<T> {
        match self {
            PItem::Bases(v) => PSpec::Bases(v@),
            PItem::Skip(n) => PSpec::Skip(*n as nat),
            PItem::Search(v) => PSpec::Search(v@),
            PItem::OpenGroup => PSpec::Open,
            PItem::CloseGroup => PSpec::Close,
        }
    }
}

impl<T: BaseLike> TItem<T> {
    pub open spec fn spec_item(&self) -> TSpec<T> {
        match self {
            TItem::Bases(v) => TSpec::Bases(v@),
            TItem::Len(n) => TSpec::Len(*n as nat),
            TItem::Ref { group, level } => TSpec::Ref { group: *group as nat, level: *level as nat },
        }
    }
}

pub open spec fn pat_specs<T: BaseLike>(v: Seq<PItem<T>>) -> Seq<PSpec<T>> {
    v.map_values(|x: PItem<T>| x.spec_item())
}

pub open spec fn tpl_specs<T: BaseLike>(v: Seq<TItem<T>>) -> Seq<TSpec<T>> {
    v.map_values(|x: TItem<T>| x.spec_item())
}

pub open spec fn rna_specs<T: BaseLike>(v: Seq<Rna<T>>) -> Seq<Seq<T>> {
    v.map_values(|r: Rna<T>| r@)
}



pub(crate) proof fn lemma_push_spec<T: BaseLike>(v: Seq<PItem<T>>, x: PItem<T>)
    ensures
        pat_specs(v.push(x)) == pat_specs(v).push(x.spec_item()),
{
    assert(pat_specs(v.push(x)) =~= pat_specs(v).push(x.spec_item()));
}

pub(crate) proof fn lemma_push_tspec<T: BaseLike>(v: Seq<TItem<T>>, x: TItem<T>)
    ensures
        tpl_specs(v.push(x)) == tpl_specs(v).push(x.spec_item()),
{
    assert(tpl_specs(v.push(x)) =~= tpl_specs(v).push(x.spec_item()));
}

pub(crate) proof fn lemma_cat_push<I>(a: Seq<I>, x: I, b: Seq<I>)
    ensures
        a.push(x) + b == a + (seq![x] + b),
{
    assert(a.push(x) + b =~= a + (seq![x] + b));
}

pub(crate) proof fn lemma_cat_assoc<I>(a: Seq<I>, b: Seq<I>, c: Seq<I>)
    ensures
        (a + b) + c == a + (b + c),
{
    assert((a + b) + c =~= a + (b + c));
}

impl<T: BaseLike> PItem<T> {
    /// Parses a pattern at the cursor, up to and including the `IIC` or `IIF` that
    /// closes it at depth 0, emitting RNA for each `III` on the way. Where the DNA
    /// runs out first the state is marked finished.
    pub fn parse(cursor: &mut RopeCursor<T>, state: &mut DnaState<T>) -> (v: Vec<PItem<T>>)
        requires
            old(cursor).wf(),
            old(cursor).spec_pos() <= old(cursor).data().len(),
            old(cursor).data().len() + 10 <= usize::MAX,
        ensures
            ({
                let r = pattern_from(old(cursor).data(), old(cursor).spec_pos(), 0);
                &&& final(cursor).wf()
                &&& final(cursor).data() == old(cursor).data()
                &&& pat_specs(v@) == r.items
                &&& final(state).finished == (old(state).finished || r.finished)
                &&& rna_specs(final(state).rna@) == rna_specs(old(state).rna@) + r.rna
                &&& !r.finished ==> final(cursor).spec_pos() == r.end
                &&& final(state).iters == old(state).iters
                &&& final(state).coverage@ == pattern_marks(
                    old(state).coverage@,
                    old(cursor).data(),
                    old(cursor).spec_pos(),
                    0,
                    old(state).iters,
                )
            }),
    {
        let ghost s = cur_syms(cursor);
        let ghost dd = cursor.data();
        let ghost p0 = cursor.spec_pos();
        let ghost r0 = pattern_from(dd, p0, 0);
        let ghost rna0 = rna_specs(state.rna@);
        let mut v: Vec<PItem<T>> = Vec::new();
        let mut depth: usize = 0;
        let n = cursor.full_len();
        proof {
            cursor.lemma_len();
            cursor.lemma_pos();
            lemma_syms(cursor.data());
            assert(pat_specs(v@) =~= Seq::<PSpec<T>>::empty());
            assert(rna0 + r0.rna == rna_specs(state.rna@) + r0.rna);
        }
        loop
            invariant
                cursor.wf(),
                cursor.data() == old(cursor).data(),
                s == cur_syms(cursor),
                dd == cursor.data(),
                s.len() == n,
                n == cursor.data().len(),
                0 <= cursor.spec_pos() <= n + 10,
                n + 10 <= usize::MAX,
                depth <= cursor.spec_pos(),
                r0 == pattern_from(dd, p0, 0),
                r0 == pattern_from(old(cursor).data(), old(cursor).spec_pos(), 0),
                rna0 == rna_specs(old(state).rna@),
                pat_specs(v@) + pattern_from(dd, cursor.spec_pos(), depth as nat).items == r0.items,
                pattern_from(dd, cursor.spec_pos(), depth as nat).end == r0.end,
                pattern_from(dd, cursor.spec_pos(), depth as nat).finished == r0.finished,
                rna_specs(state.rna@) + pattern_from(dd, cursor.spec_pos(), depth as nat).rna == rna0
                    + r0.rna,
                state.finished == old(state).finished,
                state.iters == old(state).iters,
                p0 == old(cursor).spec_pos(),
                pattern_marks(state.coverage@, dd, cursor.spec_pos(), depth as nat, state.iters)
                    == pattern_marks(old(state).coverage@, dd, p0, 0, old(state).iters),
            decreases n + 10 - cursor.spec_pos(),
        {
            let ghost i = cursor.spec_pos();
            let ghost mc = state.coverage@;
            let ghost dep0 = depth as nat;
            let ghost rc = pattern_from(dd, i, depth as nat);
            let ghost v0 = v@;
            let ghost st0 = rna_specs(state.rna@);
            proof {
                lemma_syms(cursor.data());
                lemma_quoted_len(s.skip(i));
            }
            let op = next_op(cursor);
            let pos = cursor.pos();
            match op {
                OpCode::Invalid => {
                    state.finished = true;
                    proof {
                        assert(rc.items =~= Seq::<PSpec<T>>::empty());
                        assert(pat_specs(v@) =~= pat_specs(v@) + rc.items);
                        assert(rna_specs(state.rna@) =~= rna_specs(state.rna@) + rc.rna);
                    }
                    return v;
                },
                OpCode::C | OpCode::F | OpCode::P | OpCode::IC => {
                    let b = parse_bases(cursor);
                    state.record_pat_bases(&b);
                    let item = PItem::Bases(b);
                    proof {
                        lemma_push_spec(v@, item);
                    }
                    v.push(item);
                    proof {
                        assert(rc == prepend_item(item.spec_item(), pattern_from(dd, cursor.spec_pos(), depth as nat)));
                        lemma_cat_push(pat_specs(v0), item.spec_item(), pattern_from(dd, cursor.spec_pos(), depth as nat).items);
                    }
                },
                OpCode::IF => {
                    state.record_usage(cursor, pos, Usage::PatSearch);
                    let k = if n - pos >= 3 {
                        pos + 3
                    } else {
                        n
                    };
                    cursor.seek(k);
                    proof {
                        lemma_quoted_len(s.skip(k as int));
                    }
                    let b = parse_bases(cursor);
                    state.record_search_bases(&b);
                    let item = PItem::Search(b);
                    proof {
                        lemma_push_spec(v@, item);
                    }
                    v.push(item);
                    proof {
                        assert(rc == prepend_item(item.spec_item(), pattern_from(dd, cursor.spec_pos(), depth as nat)));
                        lemma_cat_push(pat_specs(v0), item.spec_item(), pattern_from(dd, cursor.spec_pos(), depth as nat).items);
                    }
                },
                OpCode::IP => {
                    state.record_usage(cursor, pos, Usage::PatSkip);
                    cursor.seek(pos + 2);
                    state.record_num(cursor);
                    proof {
                        lemma_num_end(s, i + 2);
                    }
                    match parse_num(cursor) {
                        Some(k) => {
                            proof {
                                lemma_num_value_fits(s, i + 2, cursor.spec_pos() - 1);
                            }
                            let item = PItem::Skip(k);
                            proof {
                                lemma_push_spec(v@, item);
                            }
                            v.push(item);
                            proof {
                                assert(rc == prepend_item(item.spec_item(), pattern_from(dd, cursor.spec_pos(), depth as nat)));
                                lemma_cat_push(pat_specs(v0), item.spec_item(), pattern_from(dd, cursor.spec_pos(), depth as nat).items);
                            }
                        },
                        None => {
                            state.finished = true;
                            proof {
                                assert(pat_specs(v@) =~= pat_specs(v@) + rc.items);
                                assert(rna_specs(state.rna@) =~= rna_specs(state.rna@) + rc.rna);
                            }
                            return v;
                        },
                    }
                },
                OpCode::IIC | OpCode::IIF => {
                    if depth == 0 {
                        state.record_usage(cursor, pos, Usage::PatEnd);
                    } else {
                        state.record_usage(cursor, pos, Usage::PatClose);
                    }
                    cursor.seek(pos + 3);
                    if depth == 0 {
                        proof {
                            assert(pat_specs(v@) =~= pat_specs(v@) + rc.items);
                            assert(rna_specs(state.rna@) =~= rna_specs(state.rna@) + rc.rna);
                        }
                        return v;
                    }
                    depth = depth - 1;
                    let item = PItem::CloseGroup;
                    proof {
                        lemma_push_spec(v@, item);
                    }
                    v.push(item);
                    proof {
                        assert(rc == prepend_item(item.spec_item(), pattern_from(dd, cursor.spec_pos(), depth as nat)));
                        lemma_cat_push(pat_specs(v0), item.spec_item(), pattern_from(dd, cursor.spec_pos(), depth as nat).items);
                    }
                },
                OpCode::IIP => {
                    state.record_usage(cursor, pos, Usage::PatOpen);
                    cursor.seek(pos + 3);
                    depth = depth + 1;
                    let item = PItem::OpenGroup;
                    proof {
                        lemma_push_spec(v@, item);
                    }
                    v.push(item);
                    proof {
                        assert(rc == prepend_item(item.spec_item(), pattern_from(dd, cursor.spec_pos(), depth as nat)));
                        lemma_cat_push(pat_specs(v0), item.spec_item(), pattern_from(dd, cursor.spec_pos(), depth as nat).items);
                    }
                },
                OpCode::III => {
                    state.record_usage(cursor, pos, Usage::Rna);
                    state.emit(cursor);
                    proof {
                        lemma_cat_assoc(st0, rna_at(dd, i), pattern_from(dd, cursor.spec_pos(), depth as nat).rna);
                    }
                },
            }
        }
    }
}

impl<T: BaseLike> TItem<T> {
    /// Parses a template at the cursor, up to and including the `IIC` or `IIF` that
    /// closes it, emitting RNA for each `III` on the way. Where the DNA runs out first
    /// the state is marked finished.
    pub fn parse(cursor: &mut RopeCursor<T>, state: &mut DnaState<T>) -> (v: Vec<TItem<T>>)
        requires
            old(cursor).wf(),
            old(cursor).spec_pos() <= old(cursor).data().len(),
            old(cursor).data().len() + 10 <= usize::MAX,
        ensures
            ({
                let r = template_from(old(cursor).data(), old(cursor).spec_pos());
                &&& final(cursor).wf()
                &&& final(cursor).data() == old(cursor).data()
                &&& tpl_specs(v@) == r.items
                &&& final(state).finished == (old(state).finished || r.finished)
                &&& rna_specs(final(state).rna@) == rna_specs(old(state).rna@) + r.rna
                &&& !r.finished ==> final(cursor).spec_pos() == r.end
                &&& final(state).iters == old(state).iters
                &&& final(state).coverage@ == template_marks(
                    old(state).coverage@,
                    old(cursor).data(),
                    old(cursor).spec_pos(),
                    old(state).iters,
                )
            }),
    {
        let ghost s = cur_syms(cursor);
        let ghost dd = cursor.data();
        let ghost p0 = cursor.spec_pos();
        let ghost r0 = template_from(dd, p0);
        let ghost rna0 = rna_specs(state.rna@);
        let mut v: Vec<TItem<T>> = Vec::new();
        let n = cursor.full_len();
        proof {
            cursor.lemma_len();
            cursor.lemma_pos();
            lemma_syms(cursor.data());
            assert(tpl_specs(v@) =~= Seq::<TSpec<T>>::empty());
        }
        loop
            invariant
                cursor.wf(),
                cursor.data() == old(cursor).data(),
                s == cur_syms(cursor),
                dd == cursor.data(),
                s.len() == n,
                n == cursor.data().len(),
                0 <= cursor.spec_pos() <= n + 10,
                n + 10 <= usize::MAX,
                r0 == template_from(dd, p0),
                r0 == template_from(old(cursor).data(), old(cursor).spec_pos()),
                rna0 == rna_specs(old(state).rna@),
                tpl_specs(v@) + template_from(dd, cursor.spec_pos()).items == r0.items,
                template_from(dd, cursor.spec_pos()).end == r0.end,
                template_from(dd, cursor.spec_pos()).finished == r0.finished,
                rna_specs(state.rna@) + template_from(dd, cursor.spec_pos()).rna == rna0 + r0.rna,
                state.finished == old(state).finished,
                state.iters == old(state).iters,
                p0 == old(cursor).spec_pos(),
                template_marks(state.coverage@, dd, cursor.spec_pos(), state.iters) == template_marks(
                    old(state).coverage@,
                    dd,
                    p0,
                    old(state).iters,
                ),
            decreases n + 10 - cursor.spec_pos(),
        {
            let ghost i = cursor.spec_pos();
            let ghost rc = template_from(dd, i);
            let ghost v0 = v@;
            let ghost st0 = rna_specs(state.rna@);
            proof {
                lemma_syms(cursor.data());
                lemma_quoted_len(s.skip(i));
            }
            let op = next_op(cursor);
            let pos = cursor.pos();
            match op {
                OpCode::Invalid => {
                    state.finished = true;
                    proof {
                        assert(tpl_specs(v@) =~= tpl_specs(v@) + rc.items);
                        assert(rna_specs(state.rna@) =~= rna_specs(state.rna@) + rc.rna);
                    }
                    return v;
                },
                OpCode::C | OpCode::F | OpCode::P | OpCode::IC => {
                    let b = parse_bases(cursor);
                    let item = TItem::Bases(b);
                    proof {
                        lemma_push_tspec(v@, item);
                    }
                    v.push(item);
                    proof {
                        assert(rc == prepend_item(item.spec_item(), template_from(dd, cursor.spec_pos())));
                        lemma_cat_push(tpl_specs(v0), item.spec_item(), template_from(dd, cursor.spec_pos()).items);
                    }
                },
                OpCode::IF | OpCode::IP => {
                    state.record_usage(cursor, pos, Usage::TplRef);
                    cursor.seek(pos + 2);
                    state.record_num(cursor);
                    proof {
                        lemma_num_end(s, i + 2);
                    }
                    match parse_num(cursor) {
                        Some(level) => {
                            let ghost e = cursor.spec_pos() - 1;
                            state.record_num(cursor);
                            proof {
                                lemma_num_end(s, e + 1);
                            }
                            match parse_num(cursor) {
                                Some(group) => {
                                    proof {
                                        lemma_num_value_fits(s, i + 2, e);
                                        lemma_num_value_fits(s, e + 1, cursor.spec_pos() - 1);
                                    }
                                    let item = TItem::Ref { group, level };
                                    proof {
                                        lemma_push_tspec(v@, item);
                                    }
                                    v.push(item);
                                    proof {
                                        assert(rc == prepend_item(item.spec_item(), template_from(dd, cursor.spec_pos())));
                                        lemma_cat_push(tpl_specs(v0), item.spec_item(), template_from(dd, cursor.spec_pos()).items);
                                    }
                                },
                                None => {
                                    state.finished = true;
                                    proof {
                                        assert(tpl_specs(v@) =~= tpl_specs(v@) + rc.items);
                                        assert(rna_specs(state.rna@) =~= rna_specs(state.rna@) + rc.rna);
                                    }
                                    return v;
                                },
                            }
                        },
                        None => {
                            state.finished = true;
                            proof {
                                assert(tpl_specs(v@) =~= tpl_specs(v@) + rc.items);
                                assert(rna_specs(state.rna@) =~= rna_specs(state.rna@) + rc.rna);
                            }
                            return v;
                        },
                    }
                },
                OpCode::IIC | OpCode::IIF => {
                    state.record_usage(cursor, pos, Usage::TplEnd);
                    cursor.seek(pos + 3);
                    proof {
                        assert(tpl_specs(v@) =~= tpl_specs(v@) + rc.items);
                        assert(rna_specs(state.rna@) =~= rna_specs(state.rna@) + rc.rna);
                    }
                    return v;
                },
                OpCode::IIP => {
                    state.record_usage(cursor, pos, Usage::TplLen);
                    cursor.seek(pos + 3);
                    state.record_num(cursor);
                    proof {
                        lemma_num_end(s, i + 3);
                    }
                    match parse_num(cursor) {
                        Some(g) => {
                            proof {
                                lemma_num_value_fits(s, i + 3, cursor.spec_pos() - 1);
                            }
                            let item = TItem::Len(g);
                            proof {
                                lemma_push_tspec(v@, item);
                            }
                            v.push(item);
                            proof {
                                assert(rc == prepend_item(item.spec_item(), template_from(dd, cursor.spec_pos())));
                                lemma_cat_push(tpl_specs(v0), item.spec_item(), template_from(dd, cursor.spec_pos()).items);
                            }
                        },
                        None => {
                            state.finished = true;
                            proof {
                                assert(tpl_specs(v@) =~= tpl_specs(v@) + rc.items);
                                assert(rna_specs(state.rna@) =~= rna_specs(state.rna@) + rc.rna);
                            }
                            return v;
                        },
                    }
                },
                OpCode::III => {
                    state.record_usage(cursor, pos, Usage::Rna);
                    state.emit(cursor);
                    proof {
                        lemma_cat_assoc(st0, rna_at(dd, i), template_from(dd, cursor.spec_pos()).rna);
                    }
                },
            }
        }
    }
}


} // verus!
