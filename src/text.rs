//! Text forms: decimal numbers, bases as letters, and pattern and template items.
use vstd::prelude::*;
use crate::base::{Base, BaseLike, syms, lemma_syms, byte_base, text_byte_ok, text_bases, text_values, bases_from_bytes};
use vstd::string::StringSliceAdditionalSpecFns;
use crate::dna::push_char;
use crate::parse::{PItem, PSpec, TItem, TSpec};

verus! {

pub open spec fn digit_char(d: nat) -> char {
    if d == 0 {
        '0'
    } else if d == 1 {
        '1'
    } else if d == 2 {
        '2'
    } else if d == 3 {
        '3'
    } else if d == 4 {
        '4'
    } else if d == 5 {
        '5'
    } else if d == 6 {
        '6'
    } else if d == 7 {
        '7'
    } else if d == 8 {
        '8'
    } else {
        '9'
    }
}

/// The decimal digits of `n`.
pub open spec fn decimal(n: nat) -> Seq<char>
    decreases n,
{
    if n < 10 {
        seq![digit_char(n)]
    } else {
        decimal(n / 10).push(digit_char(n % 10))
    }
}

fn digit(d: usize) -> (c: char)
    requires
        d < 10,
    ensures
        c == digit_char(d as nat),
{
    if d == 0 {
        '0'
    } else if d == 1 {
        '1'
    } else if d == 2 {
        '2'
    } else if d == 3 {
        '3'
    } else if d == 4 {
        '4'
    } else if d == 5 {
        '5'
    } else if d == 6 {
        '6'
    } else if d == 7 {
        '7'
    } else if d == 8 {
        '8'
    } else {
        '9'
    }
}

/// Appends `n` in decimal.
pub fn push_decimal(s: &mut String, n: usize)
    ensures
        final(s)@ == old(s)@ + decimal(n as nat),
{
    let mut digits: Vec<char> = Vec::new();
    let mut k = n;
    proof {
        assert(decimal(n as nat) =~= decimal(k as nat) + digits@.reverse());
    }
    while k >= 10
        invariant
            decimal(n as nat) == decimal(k as nat) + digits@.reverse(),
        decreases k,
    {
        let ghost d0 = digits@;
        digits.push(digit(k % 10));
        proof {
            assert(digits@.reverse() =~= seq![digit_char((k % 10) as nat)] + d0.reverse());
            assert(decimal(k as nat) == decimal((k / 10) as nat).push(digit_char((k % 10) as nat)));
            assert(decimal((k / 10) as nat).push(digit_char((k % 10) as nat)) + d0.reverse() =~= decimal(
                (k / 10) as nat,
            ) + digits@.reverse());
        }
        k = k / 10;
    }
    let ghost s0 = s@;
    push_char(s, digit(k));
    let mut j = digits.len();
    proof {
        assert(digits@.reverse().take(0) =~= Seq::<char>::empty());
    }
    while j > 0
        invariant
            j <= digits@.len(),
            s@ == s0 + decimal(k as nat) + digits@.reverse().take(digits@.len() - j),
            decimal(n as nat) == decimal(k as nat) + digits@.reverse(),
        decreases j,
    {
        j = j - 1;
        push_char(s, digits[j]);
        proof {
            let r = digits@.reverse();
            assert(r[digits@.len() - 1 - j] == digits@[j as int]);
            assert(r.take(digits@.len() - j) =~= r.take(digits@.len() - 1 - j).push(digits@[j as int]));
        }
    }
    proof {
        assert(digits@.reverse().take(digits@.len() as int) =~= digits@.reverse());
        assert(s@ =~= s0 + decimal(n as nat));
    }
}

/// The letters of a sequence of bases.
pub open spec fn bases_text<T: BaseLike>(v: Seq<T>) -> Seq<char> {
    syms(v).map_values(|b: Base| b.spec_char())
}

/// Appends the letters of the bases.
pub fn push_bases<T: BaseLike>(s: &mut String, v: &Vec<T>)
    ensures
        final(s)@ == old(s)@ + bases_text(v@),
{
    let ghost s0 = s@;
    let mut i: usize = 0;
    proof {
        lemma_syms(v@);
        assert(bases_text(v@).take(0) =~= Seq::<char>::empty());
    }
    while i < v.len()
        invariant
            i <= v@.len(),
            syms(v@).len() == v@.len(),
            forall|k: int| 0 <= k < v@.len() ==> #[trigger] syms(v@)[k] == v@[k].sym(),
            s@ == s0 + bases_text(v@).take(i as int),
        decreases v@.len() - i,
    {
        push_char(s, v[i].to_base().char());
        proof {
            assert(bases_text(v@).take(i + 1) =~= bases_text(v@).take(i as int).push(
                v@[i as int].sym().spec_char(),
            ));
        }
        i = i + 1;
    }
    proof {
        assert(bases_text(v@).take(i as int) =~= bases_text(v@));
    }
}

impl<T: BaseLike> PItem<T> {
    /// The item in text: its bases, `!n` for a skip, `?<bases>` for a search, and
    /// parentheses for groups.
    pub fn to_string(&self) -> (r: String)
        ensures
            r@ == match self {
                PItem::Bases(v) => bases_text(v@),
                PItem::Skip(n) => seq!['!'] + decimal(*n as nat),
                PItem::Search(v) => seq!['?', '<'] + bases_text(v@) + seq!['>'],
                PItem::OpenGroup => seq!['('],
                PItem::CloseGroup => seq![')'],
            },
    {
        let mut s = String::new();
        match self {
            PItem::Bases(v) => push_bases(&mut s, v),
            PItem::Skip(n) => {
                push_char(&mut s, '!');
                push_decimal(&mut s, *n);
            },
            PItem::Search(v) => {
                push_char(&mut s, '?');
                push_char(&mut s, '<');
                push_bases(&mut s, v);
                push_char(&mut s, '>');
            },
            PItem::OpenGroup => push_char(&mut s, '('),
            PItem::CloseGroup => push_char(&mut s, ')'),
        }
        proof {
            assert(s@ =~= match self {
                PItem::Bases(v) => bases_text(v@),
                PItem::Skip(n) => seq!['!'] + decimal(*n as nat),
                PItem::Search(v) => seq!['?', '<'] + bases_text(v@) + seq!['>'],
                PItem::OpenGroup => seq!['('],
                PItem::CloseGroup => seq![')'],
            });
        }
        s
    }
}

/// `k` backslashes.
pub open spec fn backslashes(k: nat) -> Seq<char> {
    Seq::new(k, |i: int| '\\')
}

impl<T: BaseLike> TItem<T> {
    /// The item in text: its bases, `|n|` for a length, and `$` then the level as that
    /// many backslashes (or as a number and one backslash from 5 on) then the group for a
    /// reference.
    pub fn to_string(&self) -> (r: String)
        ensures
            r@ == match self {
                TItem::Bases(v) => bases_text(v@),
                TItem::Len(n) => seq!['|'] + decimal(*n as nat) + seq!['|'],
                TItem::Ref { group, level } => if *level < 5 {
                    seq!['$'] + backslashes(*level as nat) + decimal(*group as nat)
                } else {
                    seq!['$'] + decimal(*level as nat) + seq!['\\'] + decimal(*group as nat)
                },
            },
    {
        let mut s = String::new();
        match self {
            TItem::Bases(v) => push_bases(&mut s, v),
            TItem::Len(n) => {
                push_char(&mut s, '|');
                push_decimal(&mut s, *n);
                push_char(&mut s, '|');
            },
            TItem::Ref { group, level } => {
                push_char(&mut s, '$');
                if *level < 5 {
                    let mut k: usize = 0;
                    while k < *level
                        invariant
                            k <= *level,
                            s@ == seq!['$'] + backslashes(k as nat),
                        decreases *level - k,
                    {
                        push_char(&mut s, '\\');
                        k = k + 1;
                        proof {
                            assert(backslashes(k as nat) =~= backslashes((k - 1) as nat).push('\\'));
                        }
                    }
                    push_decimal(&mut s, *group);
                } else {
                    push_decimal(&mut s, *level);
                    push_char(&mut s, '\\');
                    push_decimal(&mut s, *group);
                }
            },
        }
        proof {
            assert(s@ =~= match self {
                TItem::Bases(v) => bases_text(v@),
                TItem::Len(n) => seq!['|'] + decimal(*n as nat) + seq!['|'],
                TItem::Ref { group, level } => if *level < 5 {
                    seq!['$'] + backslashes(*level as nat) + decimal(*group as nat)
                } else {
                    seq!['$'] + decimal(*level as nat) + seq!['\\'] + decimal(*group as nat)
                },
            });
        }
        s
    }
}

} // verus!

verus! {

pub open spec fn is_digit(c: u8) -> bool {
    48u8 <= c <= 57u8
}

/// The value of a string of decimal digits.
pub open spec fn dec_value(d: Seq<u8>) -> nat
    decreases d.len(),
{
    if d.len() == 0 {
        0
    } else {
        dec_value(d.drop_last()) * 10 + (d.last() - 48u8) as nat
    }
}

/// The number that a non-empty string of decimal digits spells, if it fits a word.
pub open spec fn number_text(d: Seq<u8>) -> Option<nat> {
    if d.len() > 0 && (forall|i: int| 0 <= i < d.len() ==> is_digit(#[trigger] d[i])) && dec_value(d)
        <= usize::MAX {
        Some(dec_value(d))
    } else {
        None
    }
}

pub open spec fn bases_text_ok(t: Seq<u8>) -> bool {
    forall|i: int| 0 <= i < t.len() ==> text_byte_ok(#[trigger] t[i])
}

/// The pattern item that a text form spells: `(`, `)`, bases, `!n` or `?<bases>`.
pub open spec fn pitem_of_text<T: BaseLike>(t: Seq<u8>) -> Option<PSpec<T>> {
    if t.len() == 0 {
        None
    } else if t.len() == 1 && t[0] == 40u8 {
        Some(PSpec::Open)
    } else if t.len() == 1 && t[0] == 41u8 {
        Some(PSpec::Close)
    } else if byte_base(t[0]).is_some() {
        if bases_text_ok(t) {
            Some(PSpec::Bases(text_values::<T>(t)))
        } else {
            None
        }
    } else if t[0] == 33u8 {
        match number_text(t.skip(1)) {
            Some(n) => Some(PSpec::Skip(n)),
            None => None,
        }
    } else if t[0] == 63u8 && t.len() >= 3 && t[1] == 60u8 && t.last() == 62u8 {
        let inner = t.subrange(2, t.len() - 1);
        if bases_text_ok(inner) {
            Some(PSpec::Search(text_values::<T>(inner)))
        } else {
            None
        }
    } else {
        None
    }
}

/// How many backslashes run from position `i`.
pub open spec fn backslash_run(t: Seq<u8>, i: int) -> nat
    decreases t.len() - i,
{
    if 0 <= i < t.len() && t[i] == 92u8 {
        1 + backslash_run(t, i + 1)
    } else {
        0
    }
}

/// The template item that a text form spells: bases, `|n|`, or `$` then as many
/// backslashes as the level then the group.
pub open spec fn titem_of_text<T: BaseLike>(t: Seq<u8>) -> Option<TSpec<T>> {
    if t.len() == 0 {
        None
    } else if byte_base(t[0]).is_some() {
        if bases_text_ok(t) {
            Some(TSpec::Bases(text_values::<T>(t)))
        } else {
            None
        }
    } else if t[0] == 124u8 && t.len() >= 2 && t.last() == 124u8 {
        match number_text(t.subrange(1, t.len() - 1)) {
            Some(n) => Some(TSpec::Len(n)),
            None => None,
        }
    } else if t[0] == 36u8 {
        let k = backslash_run(t, 1);
        match number_text(t.skip(1 + k as int)) {
            Some(g) => Some(TSpec::Ref { group: g, level: k }),
            None => None,
        }
    } else {
        None
    }
}

proof fn lemma_dec_value_grows(x: Seq<u8>, y: Seq<u8>)
    requires
        forall|i: int| 0 <= i < y.len() ==> is_digit(#[trigger] y[i]),
    ensures
        dec_value(x + y) >= dec_value(x),
    decreases y.len(),
{
    if y.len() == 0 {
        assert(x + y =~= x);
    } else {
        assert((x + y).drop_last() =~= x + y.drop_last());
        lemma_dec_value_grows(x, y.drop_last());
    }
}

/// Reads the decimal number in `b[lo..hi]`: `None` unless it is non-empty, all digits,
/// and fits a word.
pub fn parse_number(b: &[u8], lo: usize, hi: usize) -> (r: Option<usize>)
    requires
        lo <= hi <= b@.len(),
    ensures
        match number_text(b@.subrange(lo as int, hi as int)) {
            Some(n) => r == Some(n as usize),
            None => r is None,
        },
{
    let ghost t = b@.subrange(lo as int, hi as int);
    if lo == hi {
        return None;
    }
    let mut v: usize = 0;
    let mut i = lo;
    proof {
        assert(t.take(0) =~= Seq::<u8>::empty());
    }
    while i < hi
        invariant
            lo <= i <= hi,
            hi <= b@.len(),
            lo < hi,
            t == b@.subrange(lo as int, hi as int),
            forall|j: int| 0 <= j < i - lo ==> is_digit(#[trigger] t[j]),
            v == dec_value(t.take(i - lo)),
        decreases hi - i,
    {
        let c = b[i];
        proof {
            assert(t[i - lo] == c);
            assert(t.take(i - lo + 1).drop_last() =~= t.take(i - lo));
            assert(t.take(i - lo + 1).last() == c);
        }
        if c < 48 || c > 57 {
            proof {
                assert(!is_digit(t[i - lo]));
            }
            return None;
        }
        let d = (c - 48) as usize;
        if v > (usize::MAX - d) / 10 {
            proof {
                assert(v * 10 + d > usize::MAX) by (nonlinear_arith)
                    requires
                        v > (usize::MAX - d) / 10,
                        d < 10,
                ;
                if forall|j: int| 0 <= j < t.len() ==> is_digit(#[trigger] t[j]) {
                    let rest = t.subrange(i - lo + 1, t.len() as int);
                    assert(t =~= t.take(i - lo + 1) + rest);
                    lemma_dec_value_grows(t.take(i - lo + 1), rest);
                }
            }
            return None;
        }
        proof {
            assert(v * 10 + d <= usize::MAX) by (nonlinear_arith)
                requires
                    v <= (usize::MAX - d) / 10,
                    d < 10,
            ;
        }
        v = v * 10 + d;
        i = i + 1;
    }
    proof {
        assert(t.take(hi - lo) =~= t);
    }
    Some(v)
}

fn is_base_byte(c: u8) -> (r: bool)
    ensures
        r == byte_base(c).is_some(),
{
    c == 73u8 || c == 67u8 || c == 70u8 || c == 80u8
}

impl<T: BaseLike> PItem<T> {
    /// Reads the text form that `to_string` writes.
    pub fn from_text(s: &str) -> (r: Option<PItem<T>>)
        ensures
            match pitem_of_text::<T>(s.spec_bytes()) {
                Some(x) => r matches Some(item) && item.spec_item() == x,
                None => r is None,
            },
    {
        let b = s.as_bytes();
        let n = b.len();
        if n == 0 {
            return None;
        }
        let c0 = b[0];
        if n == 1 && c0 == 40u8 {
            return Some(PItem::OpenGroup);
        }
        if n == 1 && c0 == 41u8 {
            return Some(PItem::CloseGroup);
        }
        if is_base_byte(c0) {
            proof {
                assert(b@.subrange(0, n as int) =~= b@);
            }
            return match bases_from_bytes(b, 0, n) {
                Ok(v) => Some(PItem::Bases(v)),
                Err(_) => None,
            };
        }
        if c0 == 33u8 {
            proof {
                assert(b@.subrange(1, n as int) =~= b@.skip(1));
            }
            return match parse_number(b, 1, n) {
                Some(k) => Some(PItem::Skip(k)),
                None => None,
            };
        }
        if c0 == 63u8 && n >= 3 && b[1] == 60u8 && b[n - 1] == 62u8 {
            proof {
                let inner = b@.subrange(2, n - 1);
                assert(bases_text_ok(inner) <==> (forall|i: int| 2 <= i < n - 1 ==> text_byte_ok(#[trigger] b@[i]))) by {
                    if bases_text_ok(inner) {
                        assert forall|i: int| 2 <= i < n - 1 implies text_byte_ok(#[trigger] b@[i]) by {
                            assert(inner[i - 2] == b@[i]);
                        }
                    }
                    if forall|i: int| 2 <= i < n - 1 ==> text_byte_ok(#[trigger] b@[i]) {
                        assert forall|i: int| 0 <= i < inner.len() implies text_byte_ok(#[trigger] inner[i]) by {
                            assert(inner[i] == b@[i + 2]);
                        }
                    }
                }
            }
            return match bases_from_bytes(b, 2, n - 1) {
                Ok(v) => Some(PItem::Search(v)),
                Err(_) => None,
            };
        }
        None
    }
}

impl<T: BaseLike> TItem<T> {
    /// Reads a text form: bases, `|n|`, or `$` then as many backslashes as the level
    /// then the group.
    pub fn from_text(s: &str) -> (r: Option<TItem<T>>)
        ensures
            match titem_of_text::<T>(s.spec_bytes()) {
                Some(x) => r matches Some(item) && item.spec_item() == x,
                None => r is None,
            },
    {
        let b = s.as_bytes();
        let n = b.len();
        if n == 0 {
            return None;
        }
        let c0 = b[0];
        if is_base_byte(c0) {
            proof {
                assert(b@.subrange(0, n as int) =~= b@);
            }
            return match bases_from_bytes(b, 0, n) {
                Ok(v) => Some(TItem::Bases(v)),
                Err(_) => None,
            };
        }
        if c0 == 124u8 && n >= 2 && b[n - 1] == 124u8 {
            return match parse_number(b, 1, n - 1) {
                Some(k) => Some(TItem::Len(k)),
                None => None,
            };
        }
        if c0 == 36u8 {
            let mut i: usize = 1;
            while i < n && b[i] == 92u8
                invariant
                    1 <= i <= n,
                    n == b@.len(),
                    backslash_run(b@, 1) == (i - 1) + backslash_run(b@, i as int),
                decreases n - i,
            {
                i = i + 1;
            }
            proof {
                assert(backslash_run(b@, i as int) == 0);
                assert(b@.subrange(i as int, n as int) =~= b@.skip(i as int));
            }
            return match parse_number(b, i, n) {
                Some(g) => Some(TItem::Ref { group: g, level: i - 1 }),
                None => None,
            };
        }
        None
    }
}

impl<T: BaseLike> std::str::FromStr for PItem<T> {
    type Err = ();

    fn from_str(s: &str) -> Result<PItem<T>, ()> {
        match PItem::from_text(s) {
            Some(x) => Ok(x),
            None => Err(()),
        }
    }
}

impl<T: BaseLike> std::str::FromStr for TItem<T> {
    type Err = ();

    fn from_str(s: &str) -> Result<TItem<T>, ()> {
        match TItem::from_text(s) {
            Some(x) => Ok(x),
            None => Err(()),
        }
    }
}

} // verus!
