use vstd::prelude::*;
use crate::base::{Base, BaseLike, syms, lemma_syms};
use crate::rope::RopeCursor;

verus! {

/// `n` occurs in `h` at position `b`.
pub open spec fn occurs_at(h: Seq<Base>, n: Seq<Base>, b: int) -> bool {
    0 <= b && b + n.len() <= h.len() && h.subrange(b, b + n.len()) == n
}

/// The first position at or after `i` where `n` occurs in `h`, found by trying each
/// position in turn.
pub open spec fn first_occ(h: Seq<Base>, n: Seq<Base>, i: int) -> Option<int>
    decreases h.len() + 1 - i,
{
    if i < 0 || i + n.len() > h.len() {
        None
    } else if h.subrange(i, i + n.len()) == n {
        Some(i)
    } else {
        first_occ(h, n, i + 1)
    }
}

proof fn lemma_first_occ_some(h: Seq<Base>, n: Seq<Base>, i: int, a: int)
    requires
        0 <= i <= a,
        occurs_at(h, n, a),
        forall|b: int| i <= b < a ==> !occurs_at(h, n, b),
    ensures
        first_occ(h, n, i) == Some(a),
    decreases a - i,
{
    if i < a {
        assert(!occurs_at(h, n, i));
        lemma_first_occ_some(h, n, i + 1, a);
    }
}

proof fn lemma_first_occ_none(h: Seq<Base>, n: Seq<Base>, i: int)
    requires
        0 <= i,
        forall|b: int| i <= b ==> !occurs_at(h, n, b),
    ensures
        first_occ(h, n, i) == None::<int>,
    decreases h.len() + 1 - i,
{
    if i + n.len() <= h.len() {
        assert(!occurs_at(h, n, i));
        lemma_first_occ_none(h, n, i + 1);
    }
}

pub proof fn lemma_first_occ_bound(h: Seq<Base>, n: Seq<Base>, i: int)
    ensures
        first_occ(h, n, i) matches Some(k) ==> i <= k && k + n.len() <= h.len(),
        i >= 0 && i + n.len() > h.len() ==> first_occ(h, n, i) is None,
    decreases h.len() + 1 - i,
{
    if i >= 0 && i + n.len() <= h.len() && h.subrange(i, i + n.len()) != n {
        lemma_first_occ_bound(h, n, i + 1);
    }
}

/// The bad-symbol table is sound: entry `c` is between 1 and `m`, and `c` does not
/// occur in the needle between position `m - 1 - t[c]` (excluded) and `m - 2`.
pub open spec fn char_table_ok(n: Seq<Base>, t: Seq<usize>) -> bool {
    &&& t.len() == 4
    &&& forall|c: int|
        0 <= c < 4 ==> 1 <= #[trigger] t[c] <= n.len() && forall|x: int|
            n.len() - 1 - t[c] < x <= n.len() - 2 ==> n[x].index() != c
}

/// After `s` symbols matched and a mismatch just before them, shifting the needle by
/// `d` agrees with what was read.
pub open spec fn consistent(n: Seq<Base>, s: int, d: int) -> bool {
    let m = n.len() as int;
    let j = m - 1 - s;
    &&& forall|q: int| j + 1 <= q < m && d <= q ==> #[trigger] n[q - d] == n[q]
    &&& d <= j ==> n[j - d] != n[j]
}

/// The needle's suffix that starts at `p` is also its prefix.
pub open spec fn is_prefix(n: Seq<Base>, p: int) -> bool {
    forall|x: int| 0 <= x < n.len() - p ==> #[trigger] n[p + x] == n[x]
}

/// The good-suffix table: entry `s` exceeds `s`, its shift `t[s] - s` agrees with `s`
/// matched symbols and the mismatch before them, and no smaller shift does.
pub open spec fn offset_table_ok(n: Seq<Base>, t: Seq<usize>) -> bool {
    &&& t.len() == n.len()
    &&& forall|s: int| 0 <= s < n.len() ==> s + 1 <= #[trigger] t[s] <= s + n.len()
    &&& forall|s: int| 0 <= s < n.len() ==> #[trigger] consistent(n, s, t[s] - s)
    &&& forall|s: int, d: int|
        0 <= s < n.len() && 1 <= d && #[trigger] consistent(n, s, d) ==> t[s] - s <= d
}

fn build_char_table<S: BaseLike>(needle: &[S]) -> (r: Vec<usize>)
    requires
        needle@.len() >= 1,
    ensures
        char_table_ok(syms(needle@), r@),
{
    let ghost n = syms(needle@);
    proof {
        lemma_syms(needle@);
    }
    let len = needle.len();
    let mut table: Vec<usize> = vec![len, len, len, len];
    let mut i: usize = 0;
    while i < len - 1
        invariant
            n == syms(needle@),
            n.len() == len,
            len >= 1,
            0 <= i <= len - 1,
            table@.len() == 4,
            forall|c: int|
                0 <= c < 4 ==> 1 <= #[trigger] table@[c] <= len && forall|x: int|
                    len - 1 - table@[c] < x < i ==> n[x].index() != c,
        decreases len - 1 - i,
    {
        let c = needle[i].to_u2() as usize;
        proof {
            assert(n[i as int] == needle@[i as int].sym());
        }
        table.set(c, len - 1 - i);
        i = i + 1;
    }
    table
}

fn is_prefix_at<S: BaseLike>(needle: &[S], p: usize) -> (r: bool)
    requires
        1 <= p <= needle@.len(),
    ensures
        r == is_prefix(syms(needle@), p as int),
{
    let ghost n = syms(needle@);
    proof {
        lemma_syms(needle@);
    }
    let len = needle.len();
    let mut j: usize = 0;
    while j < len - p
        invariant
            n == syms(needle@),
            n.len() == len,
            1 <= p <= len,
            0 <= j <= len - p,
            forall|x: int| 0 <= x < j ==> #[trigger] n[p + x] == n[x],
        decreases len - p - j,
    {
        proof {
            assert(n[p + j] == needle@[p + j].sym());
            assert(n[j as int] == needle@[j as int].sym());
        }
        if needle[p + j].to_u2() != needle[j].to_u2() {
            return false;
        }
        j = j + 1;
    }
    true
}

/// The length of the longest common suffix of `needle[..=i]` and `needle`.
fn common_suffix<S: BaseLike>(needle: &[S], i: usize) -> (r: usize)
    requires
        i + 1 < needle@.len(),
    ensures
        r <= i + 1,
        forall|x: int| 0 <= x < r ==> #[trigger] syms(needle@)[i - x] == syms(needle@)[needle@.len()
            - 1 - x],
        r <= i ==> syms(needle@)[i - r] != syms(needle@)[needle@.len() - 1 - r],
{
    let ghost n = syms(needle@);
    proof {
        lemma_syms(needle@);
    }
    let len = needle.len();
    let mut slen: usize = 0;
    while slen <= i
        invariant
            n == syms(needle@),
            n.len() == len,
            i + 1 < len,
            slen <= i + 1,
            forall|x: int| 0 <= x < slen ==> #[trigger] n[i - x] == n[len - 1 - x],
        decreases i + 1 - slen,
    {
        proof {
            assert(n[i - slen] == needle@[i - slen].sym());
            assert(n[len - 1 - slen] == needle@[len - 1 - slen].sym());
        }
        if needle[i - slen].to_u2() != needle[len - 1 - slen].to_u2() {
            return slen;
        }
        slen = slen + 1;
    }
    slen
}

proof fn lemma_consistent_prefix(n: Seq<Base>, s: int, d: int)
    requires
        0 <= s < n.len(),
        d > n.len() - s,
        d < n.len(),
        consistent(n, s, d),
    ensures
        is_prefix(n, d),
{
    assert forall|x: int| 0 <= x < n.len() - d implies #[trigger] n[d + x] == n[x] by {
        let q = d + x;
        assert(n[q - d] == n[q]);
    }
}

proof fn lemma_consistent_suffix(n: Seq<Base>, s: int, d: int, i: int, r: int)
    requires
        0 <= s < n.len(),
        1 <= d <= n.len() - s,
        i == n.len() - 1 - d,
        consistent(n, s, d),
        0 <= r <= i + 1,
        forall|x: int| 0 <= x < r ==> #[trigger] n[i - x] == n[n.len() - 1 - x],
        r <= i ==> n[i - r] != n[n.len() - 1 - r],
    ensures
        r == s,
{
    let m = n.len() as int;
    let j = m - 1 - s;
    if r < s {
        let q = m - 1 - r;
        assert(j + 1 <= q < m && d <= q);
        assert(n[q - d] == n[q]);
        assert(i - r == q - d);
    }
    if r > s {
        assert(n[i - s] == n[m - 1 - s]);
        if d <= j {
            assert(n[j - d] != n[j]);
            assert(i - s == j - d);
        }
    }
}

fn build_offset_table<S: BaseLike>(needle: &[S]) -> (r: Vec<usize>)
    requires
        1 <= needle@.len(),
        2 * needle@.len() <= usize::MAX,
    ensures
        offset_table_ok(syms(needle@), r@),
{
    let ghost n = syms(needle@);
    proof {
        lemma_syms(needle@);
    }
    let len = needle.len();
    let mut table: Vec<usize> = Vec::new();
    let mut k: usize = 0;
    while k < len
        invariant
            table@.len() == k,
            k <= len,
        decreases len - k,
    {
        table.push(0);
        k = k + 1;
    }
    let mut last_prefix_pos: usize = len;
    let mut t: usize = 0;
    // Entry `t` comes from the suffix that starts at `p = len - t`.
    while t < len
        invariant
            n == syms(needle@),
            n.len() == len,
            len >= 1,
            2 * len <= usize::MAX,
            table@.len() == len,
            0 <= t <= len,
            len - t + 1 <= last_prefix_pos + 1,
            last_prefix_pos <= len,
            t > 0 ==> len - t + 1 <= last_prefix_pos,
            is_prefix(n, last_prefix_pos as int),
            forall|u: int| 0 <= u < t ==> #[trigger] consistent(n, u, table@[u] - u),
            forall|d: int| len - t < d < last_prefix_pos ==> !is_prefix(n, d),
            forall|u: int|
                0 <= u < t ==> len - u <= #[trigger] table@[u] - u <= len && table@[u] >= u + 1
                    && forall|d: int| len - u < d < table@[u] - u ==> !is_prefix(n, d),
        decreases len - t,
    {
        let p = len - t;
        if is_prefix_at(needle, p) {
            last_prefix_pos = p;
        }
        let ghost old_t = table@;
        table.set(t, last_prefix_pos - p + len);
        proof {
            let lpp = last_prefix_pos as int;
            assert(consistent(n, t as int, lpp)) by {
                assert forall|q: int| len - t <= q < len && lpp <= q implies #[trigger] n[q - lpp] == n[q] by {
                    assert(n[lpp + (q - lpp)] == n[q - lpp]);
                }
            }
            assert forall|u: int| 0 <= u < t + 1 implies #[trigger] consistent(n, u, table@[u] - u) by {
                if u < t {
                    assert(table@[u] == old_t[u]);
                }
            }
        }
        t = t + 1;
    }
    proof {
        assert forall|s: int, d: int|
            0 <= s < len && 1 <= d && #[trigger] consistent(n, s, d) && d > len - s implies table@[s]
            - s <= d by {
            if d < len {
                lemma_consistent_prefix(n, s, d);
            }
        }
    }
    let mut i: usize = 0;
    while i < len - 1
        invariant
            n == syms(needle@),
            n.len() == len,
            len >= 1,
            2 * len <= usize::MAX,
            table@.len() == len,
            0 <= i <= len - 1,
            forall|s: int| 0 <= s < len ==> s + 1 <= #[trigger] table@[s] <= s + len,
            forall|s: int, d: int|
                0 <= s < len && 1 <= d && #[trigger] consistent(n, s, d) && (d > len - s || len - 1
                    - d < i) ==> table@[s] - s <= d,
            forall|s: int| 0 <= s < len ==> #[trigger] consistent(n, s, table@[s] - s),
        decreases len - 1 - i,
    {
        let slen = common_suffix(needle, i);
        let ghost old_table = table@;
        table.set(slen, len - 1 - i + slen);
        proof {
            assert forall|s: int, d: int|
                0 <= s < len && 1 <= d && #[trigger] consistent(n, s, d) && (d > len - s || len
                    - 1 - d < i + 1) implies table@[s] - s <= d by {
                if len - 1 - d == i && d <= len - s {
                    lemma_consistent_suffix(n, s, d, i as int, slen as int);
                } else if s != slen {
                    assert(old_table[s] == table@[s]);
                }
            }
            let d = (len - 1 - i) as int;
            let sl = slen as int;
            assert(table@[sl] - sl == d);
            assert(consistent(n, sl, d)) by {
                assert forall|q: int| len - sl <= q < len && d <= q implies #[trigger] n[q - d] == n[q] by {
                    let x = len - 1 - q;
                    assert(n[i - x] == n[len - 1 - x]);
                }
            }
            assert forall|s: int| 0 <= s < len implies #[trigger] consistent(n, s, table@[s] - s) by {
                if s != sl {
                    assert(table@[s] == old_table[s]);
                }
            }
        }
        i = i + 1;
    }
    table
}

/// Boyer-Moore search: the first position at or after `start` where `needle` occurs
/// among the symbols that the cursor reads.
pub fn find<T: BaseLike, S: BaseLike>(haystack: &mut RopeCursor<T>, needle: &[S], start: usize) -> (r:
    Option<usize>)
    requires
        old(haystack).wf(),
        start <= old(haystack).data().len(),
        2 * needle@.len() <= usize::MAX,
    ensures
        final(haystack).wf(),
        final(haystack).data() == old(haystack).data(),
        final(haystack).spec_pos() == old(haystack).spec_pos(),
        r matches Some(i) ==> first_occ(syms(old(haystack).data()), syms(needle@), start as int)
            == Some(i as int),
        r is None ==> first_occ(syms(old(haystack).data()), syms(needle@), start as int) is None,
{
    let ghost h = syms(haystack.data());
    let ghost n = syms(needle@);
    proof {
        lemma_syms(haystack.data());
        lemma_syms(needle@);
        haystack.lemma_len();
    }
    let m = needle.len();
    if m == 0 {
        proof {
            assert(h.subrange(start as int, start as int) =~= n);
        }
        return Some(start);
    }
    let hl = haystack.full_len();
    if hl - start < m {
        proof {
            lemma_first_occ_none(h, n, start as int);
        }
        return None;
    }
    let char_table = build_char_table(needle);
    let offset_table = build_offset_table(needle);
    let mut i: usize = start + m - 1;
    while i < hl
        invariant
            haystack.wf(),
            haystack.data() == old(haystack).data(),
            haystack.spec_pos() == old(haystack).spec_pos(),
            h == syms(haystack.data()),
            n == syms(needle@),
            h.len() == hl,
            n.len() == m,
            m >= 1,
            start + m - 1 <= i,
            char_table_ok(n, char_table@),
            offset_table_ok(n, offset_table@),
            forall|b: int| start <= b < i - (m - 1) ==> !occurs_at(h, n, b),
        decreases hl + m - i,
    {
        let ghost a = i - (m - 1);
        let mut j: usize = m - 1;
        loop
            invariant_except_break
                0 <= j < m,
                i == a + j,
                forall|b: int| start <= b < a ==> !occurs_at(h, n, b),
                forall|k: int| j < k < m ==> #[trigger] h[a + k] == n[k],
            invariant
                haystack.wf(),
                haystack.data() == old(haystack).data(),
                haystack.spec_pos() == old(haystack).spec_pos(),
                h == syms(haystack.data()),
                n == syms(needle@),
                h.len() == hl,
                n.len() == m,
                m >= 1,
                a + m - 1 < hl,
                start <= a,
                char_table_ok(n, char_table@),
                offset_table_ok(n, offset_table@),
            ensures
                start + m - 1 <= i,
                i >= a + m,
                i < hl,
                forall|b: int| start <= b < i - (m - 1) ==> !occurs_at(h, n, b),
            decreases j,
        {
            proof {
                lemma_syms(haystack.data());
                lemma_syms(needle@);
            }
            let c = haystack.at(i).to_u2();
            if needle[j].to_u2() == c {
                proof {
                    assert(h[a + j] == n[j as int]);
                }
                if j == 0 {
                    proof {
                        assert forall|k: int| 0 <= k < m implies h.subrange(a, a + m)[k] == n[k] by {
                            assert(h.subrange(a, a + m)[k] == h[a + k]);
                        }
                        assert(h.subrange(a, a + m) =~= n);
                        lemma_first_occ_some(h, n, start as int, a);
                    }
                    return Some(i);
                }
                i = i - 1;
                j = j - 1;
            } else {
                let s = m - 1 - j;
                let shift = if offset_table[s] >= char_table[c as usize] {
                    offset_table[s]
                } else {
                    char_table[c as usize]
                };
                proof {
                    assert(offset_table@[s as int] >= s + 1);
                    assert(i + shift >= a + m);
                    let ct = char_table@[c as int];
                    assert forall|b: int| start <= b < i + shift - (m - 1) implies !occurs_at(h, n, b) by {
                        if b >= a && occurs_at(h, n, b) {
                            let d = b - a;
                            if d == 0 {
                                assert(h.subrange(b, b + m)[j as int] == h[a + j]);
                            } else {
                                assert(consistent(n, s as int, d)) by {
                                    assert forall|q: int|
                                        j + 1 <= q < m && d <= q implies #[trigger] n[q - d] == n[q] by {
                                        assert(h.subrange(b, b + m)[q - d] == h[b + q - d]);
                                        assert(h[a + q] == n[q]);
                                    }
                                    if d <= j {
                                        assert(h.subrange(b, b + m)[j - d] == h[a + j]);
                                    }
                                }
                                if d < ct - s {
                                    assert(h.subrange(b, b + m)[j - d] == h[a + j]);
                                    assert(n[j - d].index() == c);
                                }
                            }
                        }
                    }
                }
                if shift >= hl - i {
                    proof {
                        assert forall|b: int| start <= b implies !occurs_at(h, n, b) by {
                        }
                        lemma_first_occ_none(h, n, start as int);
                    }
                    return None;
                }
                i = i + shift;
                break ;
            }
        }
    }
    proof {
        assert forall|b: int| start <= b implies !occurs_at(h, n, b) by {
        }
        lemma_first_occ_none(h, n, start as int);
    }
    None
}

} // verus!
