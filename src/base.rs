use vstd::prelude::*;
use vstd::string::StringSliceAdditionalSpecFns;

verus! {

/// One of the four symbols of the DNA alphabet.
#[derive(Clone, Copy, Debug, PartialEq, Eq, Structural)]
pub enum Base {
    I,
    C,
    F,
    P,
}

impl Base {
    /// The two-bit code of the symbol: I = 0, C = 1, F = 2, P = 3.
    pub open spec fn index(self) -> nat {
        match self {
            Base::I => 0,
            Base::C => 1,
            Base::F => 2,
            Base::P => 3,
        }
    }

    /// The symbol whose code is `i` modulo 4.
    pub open spec fn of_index(i: nat) -> Base {
        let k = i % 4;
        if k == 0 {
            Base::I
        } else if k == 1 {
            Base::C
        } else if k == 2 {
            Base::F
        } else {
            Base::P
        }
    }

    /// The symbol that unprotecting turns this one into: code minus one, modulo 4.
    pub open spec fn prev(self) -> Base {
        Base::of_index(self.index() + 3)
    }

    pub open spec fn spec_char(self) -> char {
        match self {
            Base::I => 'I',
            Base::C => 'C',
            Base::F => 'F',
            Base::P => 'P',
        }
    }

    pub fn from_u8(i: u8) -> (r: Base)
        ensures
            r == Base::of_index(i as nat),
    {
        let k = i % 4;
        if k == 0 {
            Base::I
        } else if k == 1 {
            Base::C
        } else if k == 2 {
            Base::F
        } else {
            Base::P
        }
    }

    pub fn as_u8(&self) -> (r: u8)
        ensures
            r as nat == self.index(),
    {
        match self {
            Base::I => 0,
            Base::C => 1,
            Base::F => 2,
            Base::P => 3,
        }
    }

    pub fn char(&self) -> (r: char)
        ensures
            r == self.spec_char(),
    {
        match self {
            Base::I => 'I',
            Base::C => 'C',
            Base::F => 'F',
            Base::P => 'P',
        }
    }
}

/// What protecting a symbol of code `n` writes: code `n` itself while it is below 4,
/// else the expansion of `n - 4` followed by that of `n - 3`.
pub open spec fn expand(n: nat) -> Seq<Base>
    decreases n,
{
    if n < 4 {
        seq![Base::of_index(n)]
    } else {
        expand((n - 4) as nat) + expand((n - 3) as nat)
    }
}

/// The symbols of a sequence of bases.
pub open spec fn syms<T: BaseLike>(s: Seq<T>) -> Seq<Base> {
    s.map_values(|b: T| b.sym())
}

pub proof fn lemma_syms<T: BaseLike>(s: Seq<T>)
    ensures
        syms(s).len() == s.len(),
        forall|i: int| 0 <= i < s.len() ==> #[trigger] syms(s)[i] == s[i].sym(),
{
}

pub proof fn lemma_syms_concat<T: BaseLike>(a: Seq<T>, b: Seq<T>)
    ensures
        syms(a + b) == syms(a) + syms(b),
{
    assert(syms(a + b) =~= syms(a) + syms(b));
}

/// Decoding of a run of quoted symbols: each symbol other than `I` stands for its
/// predecessor, the pair `IC` stands for `P`, and the run stops at any other `I`.
pub open spec fn unquote(s: Seq<Base>) -> Seq<Base>
    decreases s.len(),
{
    if s.len() == 0 {
        Seq::empty()
    } else if s[0] == Base::I {
        if s.len() >= 2 && s[1] == Base::C {
            seq![Base::P] + unquote(s.skip(2))
        } else {
            Seq::empty()
        }
    } else {
        seq![s[0].prev()] + unquote(s.skip(1))
    }
}

/// The bases that a run of quoted bases stands for: each base other than `I`
/// unprotected, the `I` of a pair `IC` unprotected (the `C` dropped); the run stops at
/// any other `I`.
pub open spec fn unquote_t<T: BaseLike>(d: Seq<T>) -> Seq<T>
    decreases d.len(),
{
    if d.len() == 0 {
        Seq::empty()
    } else if d[0].sym() == Base::I {
        if d.len() >= 2 && d[1].sym() == Base::C {
            seq![d[0].unprotect_spec()] + unquote_t(d.skip(2))
        } else {
            Seq::empty()
        }
    } else {
        seq![d[0].unprotect_spec()] + unquote_t(d.skip(1))
    }
}

/// `unquote` applied `k` times.
pub open spec fn unquote_n(s: Seq<Base>, k: nat) -> Seq<Base>
    decreases k,
{
    if k == 0 {
        s
    } else {
        unquote_n(unquote(s), (k - 1) as nat)
    }
}

/// The common contract of plain and tracked bases.
pub trait BaseLike: Copy + Sized {
    /// The symbol carried.
    spec fn sym(&self) -> Base;

    /// What `protect` appends.
    spec fn protect_spec(&self, level: nat) -> Seq<Self>;

    /// What `unprotect` returns.
    spec fn unprotect_spec(&self) -> Self;

    /// A synthetic base: one with no provenance.
    spec fn spec_synthetic(b: Base) -> Self;

    /// The base with symbol `b` read at position `pos` of the starting DNA.
    spec fn spec_from_base_pos(b: Base, pos: nat) -> Self;

    /// The base with the given symbol, address and level (the last two where tracked).
    spec fn spec_from_parts(b: Base, addr: u32, level: i8) -> Self;

    spec fn spec_has_source() -> bool;

    /// The address and escape level carried, where bases carry a source.
    spec fn spec_source(&self) -> Option<(u32, i8)>;

    proof fn lemma_source(&self)
        ensures
            self.spec_source().is_some() == Self::spec_has_source(),
    ;

    proof fn lemma_protect_syms(&self, level: nat)
        ensures
            self.protect_spec(level).len() == expand(self.sym().index() + level).len(),
            forall|i: int|
                0 <= i < self.protect_spec(level).len() ==> #[trigger] self.protect_spec(
                    level,
                )[i].sym() == expand(self.sym().index() + level)[i],
    ;

    proof fn lemma_unprotect_sym(&self)
        ensures
            self.unprotect_spec().sym() == self.sym().prev(),
    ;

    proof fn lemma_synthetic_sym(b: Base)
        ensures
            Self::spec_synthetic(b).sym() == b,
    ;

    /// Protecting by level 0 gives back the base itself.
    proof fn lemma_protect_zero(&self)
        ensures
            self.protect_spec(0) == seq![*self],
    ;

    /// Whether the base carries an address and an escape level.
    fn has_source() -> (r: bool)
        ensures
            r == Self::spec_has_source(),
    ;

    fn to_base(self) -> (r: Base)
        ensures
            r == self.sym(),
    ;

    fn to_u2(self) -> (r: u8)
        ensures
            r as nat == self.sym().index(),
    ;

    fn from_base(b: Base) -> (r: Self)
        ensures
            r.sym() == b,
            r == Self::spec_from_base_pos(b, 0),
    ;

    fn from_base_pos(b: Base, pos: usize) -> (r: Self)
        ensures
            r.sym() == b,
            r == Self::spec_from_base_pos(b, pos as nat),
    ;

    /// A base with the given symbol, address and level (the last two where tracked).
    fn from_parts(b: Base, addr: u32, level: i8) -> (r: Self)
        ensures
            r.sym() == b,
            r == Self::spec_from_parts(b, addr, level),
            addr == 0 && level == -32 ==> r == Self::spec_synthetic(b),
    ;

    fn source_addr(self) -> (r: Option<u32>)
        ensures
            r.is_some() == Self::spec_has_source(),
            r == match self.spec_source() {
                Some(p) => Some(p.0),
                None => None::<u32>,
            },
    ;

    fn source_level(self) -> (r: Option<i8>)
        ensures
            r.is_some() == Self::spec_has_source(),
            r == match self.spec_source() {
                Some(p) => Some(p.1),
                None => None::<i8>,
            },
    ;

    /// Appends the protected form of this base at the given level.
    fn protect(self, level: u8, out: &mut Vec<Self>)
        ensures
            final(out)@ == old(out)@ + self.protect_spec(level as nat),
    ;

    fn unprotect(self) -> (r: Self)
        ensures
            r == self.unprotect_spec(),
    ;
}

/// Appends `expand(n)` as plain bases.
fn push_plain(n: usize, out: &mut Vec<Base>)
    ensures
        final(out)@ == old(out)@ + expand(n as nat),
    decreases n,
{
    if n < 4 {
        out.push(Base::from_u8(n as u8));
    } else {
        push_plain(n - 4, out);
        push_plain(n - 3, out);
    }
}

impl BaseLike for Base {
    open spec fn sym(&self) -> Base {
        *self
    }

    open spec fn protect_spec(&self, level: nat) -> Seq<Base> {
        expand(self.index() + level)
    }

    open spec fn unprotect_spec(&self) -> Base {
        self.prev()
    }

    open spec fn spec_synthetic(b: Base) -> Base {
        b
    }

    open spec fn spec_from_base_pos(b: Base, pos: nat) -> Base {
        b
    }

    open spec fn spec_from_parts(b: Base, addr: u32, level: i8) -> Base {
        b
    }

    open spec fn spec_has_source() -> bool {
        false
    }

    open spec fn spec_source(&self) -> Option<(u32, i8)> {
        None
    }

    proof fn lemma_source(&self) {
    }

    proof fn lemma_protect_syms(&self, level: nat) {
    }

    proof fn lemma_unprotect_sym(&self) {
    }

    proof fn lemma_synthetic_sym(b: Base) {
    }

    proof fn lemma_protect_zero(&self) {
        assert(expand(self.index()) == seq![Base::of_index(self.index())]);
    }

    fn has_source() -> (r: bool) {
        false
    }

    fn to_base(self) -> (r: Base) {
        self
    }

    fn to_u2(self) -> (r: u8) {
        self.as_u8()
    }

    fn from_base(b: Base) -> (r: Base) {
        b
    }

    fn from_base_pos(b: Base, pos: usize) -> (r: Base) {
        b
    }

    fn from_parts(b: Base, addr: u32, level: i8) -> (r: Base) {
        b
    }

    fn source_addr(self) -> (r: Option<u32>) {
        None
    }

    fn source_level(self) -> (r: Option<i8>) {
        None
    }

    fn protect(self, level: u8, out: &mut Vec<Base>) {
        push_plain(self.as_u8() as usize + level as usize, out);
    }

    fn unprotect(self) -> (r: Base) {
        Base::from_u8(self.as_u8() + 3)
    }
}

/// The six-bit field that holds an escape level: the level modulo 64.
pub open spec fn level_field(level: int) -> nat {
    ((level + 128) % 64) as nat
}

/// The level that a six-bit field holds, read as a signed number.
pub open spec fn signed_level(f: nat) -> int {
    if f >= 32 {
        f - 64
    } else {
        f as int
    }
}

/// The level after protecting by `by`: raised and held within [-31, 31], while the
/// level -32 (synthetic) stays as it is.
pub open spec fn protected_level(level: int, by: nat) -> int {
    if level == -32 {
        level
    } else {
        clamp(level + by, -31, 31)
    }
}

/// The level after unprotecting: lowered by one, while -32, -31 and 31 stay.
pub open spec fn unprotected_level(level: int) -> int {
    if -31 < level < 31 {
        level - 1
    } else {
        level
    }
}

/// A base that carries where it came from, packed in 32 bits: bits 0-1 hold the
/// symbol, bits 2-25 the source address (modulo 2^24), bits 26-31 the signed
/// escape level; level -32 marks a synthetic base.
#[derive(Clone, Copy, Debug, PartialEq, Eq, Structural)]
pub struct SourceBase(pub u32);

impl SourceBase {
    pub open spec fn spec_bits(self) -> u32 {
        self.0
    }

    pub open spec fn spec_sym(self) -> Base {
        Base::of_index((self.0 & 3u32) as nat)
    }

    pub open spec fn spec_addr(self) -> nat {
        ((self.0 >> 2u32) & 0xffffffu32) as nat
    }

    pub open spec fn spec_level(self) -> int {
        signed_level((self.0 >> 26u32) as nat)
    }

    pub open spec fn spec_make(b: Base, addr: nat, level: int) -> SourceBase {
        SourceBase(
            (b.index() as u32) | (((addr % 0x1000000) as u32) << 2u32) | ((level_field(
                level,
            ) as u32) << 26u32),
        )
    }

    pub proof fn lemma_make(b: Base, addr: nat, level: int)
        ensures
            Self::spec_make(b, addr, level).spec_sym() == b,
            Self::spec_make(b, addr, level).spec_addr() == addr % 0x1000000,
            -32 <= level <= 31 ==> Self::spec_make(b, addr, level).spec_level() == level,
    {
        let bb = b.index() as u32;
        let a = (addr % 0x1000000) as u32;
        let l = level_field(level) as u32;
        assert(((bb | (a << 2u32) | (l << 26u32)) & 3u32) == bb && (((bb | (a << 2u32) | (l
            << 26u32)) >> 2u32) & 0xffffffu32) == a && ((bb | (a << 2u32) | (l << 26u32))
            >> 26u32) == l) by (bit_vector)
            requires
                bb < 4,
                a < 0x1000000,
                l < 64,
        ;
    }

    pub fn from_bits(x: u32) -> (r: SourceBase)
        ensures
            r.spec_bits() == x,
    {
        SourceBase(x)
    }

    pub fn bits(self) -> (r: u32)
        ensures
            r == self.spec_bits(),
    {
        self.0
    }

    pub fn addr(self) -> (r: u32)
        ensures
            r as nat == self.spec_addr(),
    {
        (self.0 >> 2) & 0xffffff
    }

    pub fn level(self) -> (r: i8)
        ensures
            r as int == self.spec_level(),
    {
        let x = self.0;
        assert(x >> 26u32 < 64) by (bit_vector);
        let e: u32 = x >> 26;
        if e >= 32 {
            (e as i32 - 64) as i8
        } else {
            e as i8
        }
    }

    pub fn from_parts(base: Base, addr: u32, level: i8) -> (r: SourceBase)
        ensures
            r == Self::spec_make(base, addr as nat, level as int),
            r.spec_sym() == base,
            r.spec_addr() == addr as nat % 0x1000000,
            -32 <= level <= 31 ==> r.spec_level() == level as int,
    {
        proof {
            Self::lemma_make(base, addr as nat, level as int);
        }
        let f: u32 = ((level as i32 + 128) as u32) % 64;
        let a: u32 = addr % 0x1000000;
        SourceBase((base.as_u8() as u32) | (a << 2) | (f << 26))
    }
}

/// Appends `expand(n)` as tracked bases with the given address and level.
fn push_source(n: usize, addr: u32, level: i8, out: &mut Vec<SourceBase>)
    ensures
        final(out)@ == old(out)@ + expand(n as nat).map_values(
            |s: Base| SourceBase::spec_make(s, addr as nat, level as int),
        ),
    decreases n,
{
    if n < 4 {
        out.push(SourceBase::from_parts(Base::from_u8(n as u8), addr, level));
        proof {
            assert(expand(n as nat).map_values(
                |s: Base| SourceBase::spec_make(s, addr as nat, level as int),
            ) =~= seq![SourceBase::spec_make(Base::of_index(n as nat), addr as nat, level as int)]);
        }
    } else {
        push_source(n - 4, addr, level, out);
        push_source(n - 3, addr, level, out);
        proof {
            let f = |s: Base| SourceBase::spec_make(s, addr as nat, level as int);
            assert(expand(n as nat).map_values(f) =~= expand((n - 4) as nat).map_values(f)
                + expand((n - 3) as nat).map_values(f));
        }
    }
}

impl BaseLike for SourceBase {
    open spec fn sym(&self) -> Base {
        self.spec_sym()
    }

    open spec fn protect_spec(&self, level: nat) -> Seq<SourceBase> {
        expand(self.spec_sym().index() + level).map_values(
            |s: Base|
                SourceBase::spec_make(
                    s,
                    self.spec_addr(),
                    protected_level(self.spec_level(), level),
                ),
        )
    }

    open spec fn unprotect_spec(&self) -> SourceBase {
        SourceBase::spec_make(
            self.spec_sym().prev(),
            self.spec_addr(),
            unprotected_level(self.spec_level()),
        )
    }

    open spec fn spec_synthetic(b: Base) -> SourceBase {
        SourceBase::spec_make(b, 0, -32)
    }

    /// Address `pos` (modulo 2^24), level 0.
    open spec fn spec_from_base_pos(b: Base, pos: nat) -> SourceBase {
        SourceBase::spec_make(b, pos, 0)
    }

    open spec fn spec_from_parts(b: Base, addr: u32, level: i8) -> SourceBase {
        SourceBase::spec_make(b, addr as nat, level as int)
    }

    open spec fn spec_has_source() -> bool {
        true
    }

    open spec fn spec_source(&self) -> Option<(u32, i8)> {
        Some((self.spec_addr() as u32, self.spec_level() as i8))
    }

    proof fn lemma_source(&self) {
    }

    proof fn lemma_protect_syms(&self, level: nat) {
        let e = expand(self.spec_sym().index() + level);
        assert forall|i: int| 0 <= i < e.len() implies #[trigger] self.protect_spec(level)[i].sym()
            == e[i] by {
            SourceBase::lemma_make(
                e[i],
                self.spec_addr(),
                protected_level(self.spec_level(), level),
            );
        }
    }

    proof fn lemma_unprotect_sym(&self) {
        SourceBase::lemma_make(
            self.spec_sym().prev(),
            self.spec_addr(),
            unprotected_level(self.spec_level()),
        );
    }

    proof fn lemma_synthetic_sym(b: Base) {
        SourceBase::lemma_make(b, 0, -32);
    }

    proof fn lemma_protect_zero(&self) {
        let x = self.0;
        let f = (x >> 26u32) as nat;
        assert(x >> 26u32 < 64) by (bit_vector);
        assert(level_field(signed_level(f)) == f);
        assert(self.spec_level() >= -32 && self.spec_level() <= 31);
        assert(protected_level(self.spec_level(), 0) == self.spec_level());
        let b = (x & 3u32);
        let a = (x >> 2u32) & 0xffffffu32;
        assert((x & 3u32) < 4 && ((x >> 2u32) & 0xffffffu32) < 0x1000000) by (bit_vector);
        assert(self.spec_sym().index() == b as nat);
        assert(x == (x & 3u32) | (((x >> 2u32) & 0xffffffu32) << 2u32) | ((x >> 26u32) << 26u32))
            by (bit_vector);
        let e = expand(self.spec_sym().index());
        assert(e == seq![self.spec_sym()]);
        assert(SourceBase::spec_make(self.spec_sym(), self.spec_addr(), self.spec_level()) == *self);
        assert(self.protect_spec(0) =~= seq![*self]);
    }

    fn has_source() -> (r: bool) {
        true
    }

    fn to_base(self) -> (r: Base) {
        Base::from_u8(self.to_u2())
    }

    fn to_u2(self) -> (r: u8) {
        let x = self.0;
        assert(x & 3u32 < 4) by (bit_vector);
        (x & 3) as u8
    }

    fn from_base(b: Base) -> (r: SourceBase) {
        SourceBase::from_parts(b, 0, 0)
    }

    fn from_base_pos(b: Base, pos: usize) -> (r: SourceBase) {
        SourceBase::from_parts(b, (pos % 0x1000000) as u32, 0)
    }

    fn from_parts(b: Base, addr: u32, level: i8) -> (r: SourceBase) {
        SourceBase::from_parts(b, addr, level)
    }

    fn source_addr(self) -> (r: Option<u32>) {
        Some(self.addr())
    }

    fn source_level(self) -> (r: Option<i8>) {
        Some(self.level())
    }

    fn protect(self, level: u8, out: &mut Vec<SourceBase>) {
        let old_level = self.level();
        let mut esc: i32 = old_level as i32;
        if esc != -32 {
            esc = esc + level as i32;
            if esc > 31 {
                esc = 31;
            }
            if esc < -31 {
                esc = -31;
            }
        }
        push_source(self.to_u2() as usize + level as usize, self.addr(), esc as i8, out);
    }

    fn unprotect(self) -> (r: SourceBase) {
        let esc = self.level();
        let new_level = if -31 < esc && esc < 31 {
            esc - 1
        } else {
            esc
        };
        SourceBase::from_parts(self.to_base().unprotect(), self.addr(), new_level)
    }
}

/// The symbol that a character of DNA text stands for; `None` for anything else.
pub open spec fn byte_base(c: u8) -> Option<Base> {
    if c == 73u8 {
        Some(Base::I)
    } else if c == 67u8 {
        Some(Base::C)
    } else if c == 70u8 {
        Some(Base::F)
    } else if c == 80u8 {
        Some(Base::P)
    } else {
        None
    }
}

/// A character that DNA text may hold: a symbol, a space or a newline.
pub open spec fn text_byte_ok(c: u8) -> bool {
    byte_base(c).is_some() || c == 32u8 || c == 10u8
}

/// The symbols of DNA text, spaces and newlines left out.
pub open spec fn text_bases(t: Seq<u8>) -> Seq<Base>
    decreases t.len(),
{
    if t.len() == 0 {
        Seq::empty()
    } else {
        match byte_base(t.last()) {
            Some(b) => text_bases(t.drop_last()).push(b),
            None => text_bases(t.drop_last()),
        }
    }
}

/// The bases of DNA text, each numbered by its place among the bases; spaces and
/// newlines left out.
pub open spec fn text_values<T: BaseLike>(t: Seq<u8>) -> Seq<T>
    decreases t.len(),
{
    if t.len() == 0 {
        Seq::empty()
    } else {
        match byte_base(t.last()) {
            Some(b) => text_values::<T>(t.drop_last()).push(
                T::spec_from_base_pos(b, text_bases(t.drop_last()).len()),
            ),
            None => text_values::<T>(t.drop_last()),
        }
    }
}

proof fn lemma_text_values_len<T: BaseLike>(t: Seq<u8>)
    ensures
        text_values::<T>(t).len() == text_bases(t).len(),
    decreases t.len(),
{
    if t.len() > 0 {
        lemma_text_values_len::<T>(t.drop_last());
    }
}

/// Reads the DNA text in `b[lo..hi]` into bases, each numbered by its place among the
/// bases. Fails with the first character that is neither a symbol, a space nor a
/// newline.
pub fn bases_from_bytes<T: BaseLike>(b: &[u8], lo: usize, hi: usize) -> (r: Result<Vec<T>, u8>)
    requires
        lo <= hi <= b@.len(),
    ensures
        r.is_ok() == (forall|i: int| lo <= i < hi ==> text_byte_ok(#[trigger] b@[i])),
        r matches Ok(v) ==> syms(v@) == text_bases(b@.subrange(lo as int, hi as int)),
        r matches Ok(v) ==> v@ == text_values::<T>(b@.subrange(lo as int, hi as int)),
        r matches Err(c) ==> exists|i: int|
            lo <= i < hi && b@[i] == c && !text_byte_ok(c) && forall|j: int|
                lo <= j < i ==> text_byte_ok(#[trigger] b@[j]),
{
    let ghost t = b@.subrange(lo as int, hi as int);
    let mut v: Vec<T> = Vec::new();
    let mut i: usize = lo;
    let mut pos: usize = 0;
    proof {
        assert(t.take(0) =~= Seq::<u8>::empty());
    }
    while i < hi
        invariant
            lo <= i <= hi,
            hi <= b@.len(),
            t == b@.subrange(lo as int, hi as int),
            pos <= i - lo,
            pos == text_bases(t.take(i - lo)).len(),
            syms(v@) == text_bases(t.take(i - lo)),
            v@ == text_values::<T>(t.take(i - lo)),
            forall|j: int| lo <= j < i ==> text_byte_ok(#[trigger] b@[j]),
        decreases hi - i,
    {
        let c = b[i];
        let ghost v0 = v@;
        proof {
            assert(t.take(i - lo + 1).drop_last() =~= t.take(i - lo));
            assert(t.take(i - lo + 1).last() == c);
            lemma_text_values_len::<T>(t.take(i - lo));
        }
        let base = if c == 73u8 {
            Some(Base::I)
        } else if c == 67u8 {
            Some(Base::C)
        } else if c == 70u8 {
            Some(Base::F)
        } else if c == 80u8 {
            Some(Base::P)
        } else {
            None
        };
        match base {
            Some(x) => {
                v.push(T::from_base_pos(x, pos));
                pos = pos + 1;
                proof {
                    let ov = v@.drop_last();
                    assert(ov =~= v0);
                    assert(syms(v@) =~= syms(ov).push(x));
                }
            },
            None => {
                if c != 32u8 && c != 10u8 {
                    return Err(c);
                }
            },
        }
        i = i + 1;
    }
    proof {
        assert(t.take(hi - lo) =~= t);
    }
    Ok(v)
}

/// Reads DNA text into bases, each numbered by its place among the bases. Fails
/// with the first character that is neither a symbol, a space nor a newline.
pub fn from_str<T: BaseLike>(s: &str) -> (r: Result<Vec<T>, u8>)
    ensures
        r.is_ok() == (forall|i: int| 0 <= i < s.spec_bytes().len() ==> text_byte_ok(#[trigger] s.spec_bytes()[i])),
        r matches Ok(v) ==> syms(v@) == text_bases(s.spec_bytes()),
        r matches Ok(v) ==> v@ == text_values::<T>(s.spec_bytes()),
        r matches Err(c) ==> exists|i: int|
            0 <= i < s.spec_bytes().len() && s.spec_bytes()[i] == c && !text_byte_ok(c) && forall|
                j: int,
            |
                0 <= j < i ==> text_byte_ok(#[trigger] s.spec_bytes()[j]),
{
    let b = s.as_bytes();
    proof {
        assert(b@.subrange(0, b@.len() as int) =~= b@);
    }
    bases_from_bytes(b, 0, b.len())
}

/// Every `I` is followed by a `C` within the sequence.
#[verifier::opaque]
pub open spec fn closed(s: Seq<Base>) -> bool {
    forall|i: int| 0 <= i < s.len() && #[trigger] s[i] == Base::I ==> i + 1 < s.len() && s[i + 1] == Base::C
}

proof fn lemma_closed_skip(a: Seq<Base>, k: int)
    requires
        closed(a),
        0 <= k <= a.len(),
        k > 0 ==> a[k - 1] != Base::I,
    ensures
        closed(a.skip(k)),
{
    reveal(closed);
    assert forall|i: int| 0 <= i < a.skip(k).len() && #[trigger] a.skip(k)[i] == Base::I implies i + 1
        < a.skip(k).len() && a.skip(k)[i + 1] == Base::C by {
        assert(a[i + k] == Base::I);
    }
}

proof fn lemma_closed_head(a: Seq<Base>)
    requires
        closed(a),
        a.len() > 0,
        a[0] == Base::I,
    ensures
        a.len() >= 2,
        a[1] == Base::C,
{
    reveal(closed);
}

proof fn lemma_closed_concat(a: Seq<Base>, b: Seq<Base>)
    requires
        closed(a),
        closed(b),
    ensures
        closed(a + b),
{
    reveal(closed);
    assert forall|i: int| 0 <= i < (a + b).len() && #[trigger] (a + b)[i] == Base::I implies i + 1 < (a
        + b).len() && (a + b)[i + 1] == Base::C by {
        if i < a.len() {
            assert(a[i] == Base::I);
        } else {
            assert(b[i - a.len()] == Base::I);
        }
    }
}

proof fn lemma_unquote_concat(a: Seq<Base>, b: Seq<Base>)
    requires
        closed(a),
    ensures
        unquote(a + b) == unquote(a) + unquote(b),
    decreases a.len(),
{
    if a.len() == 0 {
        assert(a + b =~= b);
    } else {
        let ab = a + b;
        assert(ab[0] == a[0]);
        if a[0] == Base::I {
            lemma_closed_head(a);
            assert(ab[1] == a[1]);
            assert(ab.skip(2) =~= a.skip(2) + b);
            lemma_closed_skip(a, 2);
            lemma_unquote_concat(a.skip(2), b);
            assert(unquote(ab) == seq![Base::P] + unquote(ab.skip(2)));
            assert(unquote(a) == seq![Base::P] + unquote(a.skip(2)));
            assert(unquote(ab) =~= unquote(a) + unquote(b));
        } else {
            assert(ab.skip(1) =~= a.skip(1) + b);
            lemma_closed_skip(a, 1);
            lemma_unquote_concat(a.skip(1), b);
            assert(unquote(ab) == seq![a[0].prev()] + unquote(ab.skip(1)));
            assert(unquote(a) == seq![a[0].prev()] + unquote(a.skip(1)));
            assert(unquote(ab) =~= unquote(a) + unquote(b));
        }
    }
}

proof fn lemma_expand_small(n: nat)
    requires
        n < 4,
    ensures
        expand(n) == seq![Base::of_index(n)],
{
}

proof fn lemma_expand_closed(n: nat)
    requires
        n >= 1,
    ensures
        closed(expand(n)),
    decreases n,
{
    if n < 4 {
        reveal(closed);
        lemma_expand_small(n);
    } else if n == 4 {
        reveal(closed);
        lemma_expand_small(0);
        lemma_expand_small(1);
        assert(expand(4) =~= seq![Base::I, Base::C]);
    } else {
        lemma_expand_closed((n - 4) as nat);
        lemma_expand_closed((n - 3) as nat);
        lemma_closed_concat(expand((n - 4) as nat), expand((n - 3) as nat));
    }
}

proof fn lemma_unquote_single(x: Base)
    requires
        x != Base::I,
    ensures
        unquote(seq![x]) == seq![x.prev()],
{
    let s = seq![x];
    assert(s.skip(1) =~= Seq::<Base>::empty());
    assert(s[0] == x);
    assert(unquote(s.skip(1)) == Seq::<Base>::empty());
    assert(unquote(s) == seq![s[0].prev()] + unquote(s.skip(1)));
    assert(unquote(s) =~= seq![x.prev()]);
}

proof fn lemma_unquote_expand(n: nat)
    requires
        n >= 1,
    ensures
        unquote(expand(n)) == expand((n - 1) as nat),
    decreases n,
{
    if n < 4 {
        lemma_expand_small(n);
        lemma_expand_small((n - 1) as nat);
        lemma_unquote_single(Base::of_index(n));
    } else if n == 4 {
        lemma_expand_small(0);
        lemma_expand_small(1);
        lemma_expand_small(3);
        let e = seq![Base::I, Base::C];
        assert(expand(4) =~= e);
        assert(e.skip(2) =~= Seq::<Base>::empty());
        assert(unquote(e) == seq![Base::P] + unquote(e.skip(2)));
        assert(unquote(e) =~= expand(3));
    } else {
        lemma_expand_closed((n - 4) as nat);
        lemma_unquote_concat(expand((n - 4) as nat), expand((n - 3) as nat));
        lemma_unquote_expand((n - 4) as nat);
        lemma_unquote_expand((n - 3) as nat);
    }
}

proof fn lemma_unquote_n_expand(s: nat, k: nat)
    ensures
        unquote_n(expand(s + k), k) == expand(s),
    decreases k,
{
    if k > 0 {
        lemma_unquote_expand(s + k);
        assert((s + k - 1) as nat == s + (k - 1) as nat);
        lemma_unquote_n_expand(s, (k - 1) as nat);
    }
}

/// Protecting a base by `level` and then unquoting the result `level` times gives
/// back that one base's symbol.
pub proof fn lemma_protect_round_trip<T: BaseLike>(b: T, level: nat)
    ensures
        unquote_n(syms(b.protect_spec(level)), level) == seq![b.sym()],
{
    b.lemma_protect_syms(level);
    let e = expand(b.sym().index() + level);
    assert(syms(b.protect_spec(level)) =~= e);
    lemma_unquote_n_expand(b.sym().index(), level);
    assert(expand(b.sym().index()) =~= seq![b.sym()]);
}

pub open spec fn clamp(x: int, lo: int, hi: int) -> int {
    if x < lo {
        lo
    } else if x > hi {
        hi
    } else {
        x
    }
}

/// Protecting a tracked base whose level is not -32 gives bases that keep its address
/// and carry its level raised by `level` and held within [-31, 31].
pub proof fn lemma_protect_levels(b: SourceBase, level: nat)
    requires
        b.spec_level() != -32,
    ensures
        forall|i: int|
            0 <= i < b.protect_spec(level).len() ==> (#[trigger] b.protect_spec(level)[i]).spec_level()
                == clamp(b.spec_level() + level, -31, 31) && b.protect_spec(level)[i].spec_addr()
                == b.spec_addr(),
{
    let x = b.0;
    assert(x >> 26u32 < 64 && (x >> 2u32) & 0xffffffu32 < 0x1000000) by (bit_vector);
    let e = expand(b.spec_sym().index() + level);
    let pl = protected_level(b.spec_level(), level);
    assert forall|i: int| 0 <= i < b.protect_spec(level).len() implies (#[trigger] b.protect_spec(
        level,
    )[i]).spec_level() == clamp(b.spec_level() + level, -31, 31) && b.protect_spec(level)[i].spec_addr()
        == b.spec_addr() by {
        SourceBase::lemma_make(e[i], b.spec_addr(), pl);
    }
}

} // verus!

verus! {

/// `unquote_t` applied `k` times.
pub open spec fn unquote_t_n<T: BaseLike>(d: Seq<T>, k: nat) -> Seq<T>
    decreases k,
{
    if k == 0 {
        d
    } else {
        unquote_t_n(unquote_t(d), (k - 1) as nat)
    }
}

/// `unprotected_level` applied `k` times.
pub open spec fn unprotected_level_n(l: int, k: nat) -> int
    decreases k,
{
    if k == 0 {
        l
    } else {
        unprotected_level_n(unprotected_level(l), (k - 1) as nat)
    }
}

/// The symbols made tracked bases with one address and level.
pub open spec fn made(s: Seq<Base>, a: nat, l: int) -> Seq<SourceBase> {
    s.map_values(|x: Base| SourceBase::spec_make(x, a, l))
}

proof fn lemma_unquote_made(s: Seq<Base>, a: nat, l: int)
    requires
        a < 0x1000000,
        -32 <= l <= 31,
    ensures
        unquote_t(made(s, a, l)) == made(unquote(s), a, unprotected_level(l)),
    decreases s.len(),
{
    let m = made(s, a, l);
    if s.len() == 0 {
        assert(made(unquote(s), a, unprotected_level(l)) =~= Seq::<SourceBase>::empty());
    } else {
        SourceBase::lemma_make(s[0], a, l);
        assert(m[0].sym() == s[0]);
        assert(m[0].unprotect_spec() == SourceBase::spec_make(s[0].prev(), a, unprotected_level(l)));
        if s[0] == Base::I {
            if s.len() >= 2 && s[1] == Base::C {
                SourceBase::lemma_make(s[1], a, l);
                assert(m.skip(2) =~= made(s.skip(2), a, l));
                lemma_unquote_made(s.skip(2), a, l);
                assert(s[0].prev() == Base::P);
                assert(unquote_t(m) =~= made(unquote(s), a, unprotected_level(l)));
            } else {
                if s.len() >= 2 {
                    SourceBase::lemma_make(s[1], a, l);
                }
                assert(made(unquote(s), a, unprotected_level(l)) =~= Seq::<SourceBase>::empty());
            }
        } else {
            assert(m.skip(1) =~= made(s.skip(1), a, l));
            lemma_unquote_made(s.skip(1), a, l);
            assert(unquote_t(m) =~= made(unquote(s), a, unprotected_level(l)));
        }
    }
}

proof fn lemma_unquote_n_made(s: Seq<Base>, a: nat, l: int, k: nat)
    requires
        a < 0x1000000,
        -32 <= l <= 31,
    ensures
        unquote_t_n(made(s, a, l), k) == made(unquote_n(s, k), a, unprotected_level_n(l, k)),
    decreases k,
{
    if k > 0 {
        lemma_unquote_made(s, a, l);
        lemma_unquote_n_made(unquote(s), a, unprotected_level(l), (k - 1) as nat);
    }
}

proof fn lemma_unprotected_level_n(x: int, k: nat)
    requires
        -31 < x,
        x + k < 31,
    ensures
        unprotected_level_n(x + k, k) == x,
    decreases k,
{
    if k > 0 {
        assert(unprotected_level(x + k) == x + (k - 1));
        lemma_unprotected_level_n(x, (k - 1) as nat);
    }
}

proof fn lemma_unprotected_level_n_top(k: nat)
    ensures
        unprotected_level_n(31, k) == 31,
    decreases k,
{
    if k > 0 {
        lemma_unprotected_level_n_top((k - 1) as nat);
    }
}

/// Protecting a tracked base whose level is above -31 by `level`, then unquoting the
/// result `level` times, gives back one base with its symbol and address, and its
/// level, unless protecting raised the level to the cap 31, where it stays.
pub proof fn lemma_protect_round_trip_source(b: SourceBase, level: nat)
    requires
        b.spec_level() > -31,
    ensures
        unquote_t_n(b.protect_spec(level), level) == seq![
            SourceBase::spec_make(
                b.spec_sym(),
                b.spec_addr(),
                if b.spec_level() + level >= 31 {
                    31
                } else {
                    b.spec_level()
                },
            ),
        ],
        unquote_t_n(b.protect_spec(level), level).len() == 1,
        unquote_t_n(b.protect_spec(level), level)[0].spec_sym() == b.spec_sym(),
        unquote_t_n(b.protect_spec(level), level)[0].spec_addr() == b.spec_addr(),
        unquote_t_n(b.protect_spec(level), level)[0].spec_level() == if b.spec_level() + level >= 31 {
            31
        } else {
            b.spec_level()
        },
{
    let x = b.0;
    assert(x >> 26u32 < 64 && (x >> 2u32) & 0xffffffu32 < 0x1000000) by (bit_vector);
    let a = b.spec_addr();
    let lv = b.spec_level();
    let pl = protected_level(lv, level);
    let n = b.spec_sym().index() + level;
    assert(b.protect_spec(level) =~= made(expand(n), a, pl));
    lemma_unquote_n_made(expand(n), a, pl, level);
    lemma_unquote_n_expand(b.spec_sym().index(), level);
    assert(expand(b.spec_sym().index()) =~= seq![b.spec_sym()]);
    let want = if lv + level >= 31 {
        31
    } else {
        lv
    };
    if lv + level >= 31 {
        assert(pl == 31);
        lemma_unprotected_level_n_top(level);
    } else {
        assert(pl == lv + level);
        lemma_unprotected_level_n(lv, level);
    }
    assert(made(seq![b.spec_sym()], a, want) =~= seq![SourceBase::spec_make(b.spec_sym(), a, want)]);
    SourceBase::lemma_make(b.spec_sym(), a, want);
}

} // verus!
