use endo::rope::Rope;

fn cycle(s: &[i32], n: usize) -> Vec<i32> {
    s.iter().cycle().take(n).copied().collect::<Vec<_>>()
}

#[test]
fn new_rope() {
    let rope = Rope::<u8>::new();
    assert!(rope.leaf_lens().is_empty());
    assert_eq!(rope.len(), 0);
}

#[test]
fn from_slice() {
    let rope = Rope::from_slice(&[1, 3, 2, 4, 8]);
    assert_eq!(rope.leaf_lens(), vec![5]);
    assert_eq!(rope.to_vec(), vec![1, 3, 2, 4, 8]);
    assert_eq!(rope.len(), 5);
}

#[test]
fn append_rope_short() {
    // Short ropes are merged into one leaf.
    let s1 = &[2, 5, 4, 1, 6];
    let s2 = &[3, 7, 9, 8, 0];
    let mut left = Rope::from_slice(s1);
    let right = Rope::from_slice(s2);
    left.append_rope(right);
    let mut out = s1.iter().map(|x| *x).collect::<Vec<_>>();
    out.extend_from_slice(s2);
    assert_eq!(left.leaf_lens(), vec![out.len()]);
    assert_eq!(left.to_vec(), out);
}

#[test]
fn append_rope() {
    let s1 = &cycle(&[2, 5, 4, 1, 6], 300);
    let s2 = &cycle(&[3, 7, 9, 8, 0], 300);
    let mut left = Rope::from_slice(s1);
    let right = Rope::from_slice(s2);
    left.append_rope(right);
    assert_eq!(left.leaf_lens(), vec![300, 300]);
    assert_eq!(left.len(), 600);
    assert_eq!(left.dep(), 1);
    let mut out = s1.clone();
    out.extend_from_slice(s2);
    assert_eq!(left.to_vec(), out);
}

#[test]
fn append_slice_short() {
    let s1 = &[2, 5, 4, 1, 6];
    let s2 = &[3, 7, 9, 8, 0];
    let mut rope = Rope::from_slice(s1);
    rope.append_slice(s2);
    let mut out = s1.iter().map(|x| *x).collect::<Vec<_>>();
    out.extend_from_slice(s2);
    assert_eq!(rope.leaf_lens(), vec![out.len()]);
    assert_eq!(rope.to_vec(), out);
}

#[test]
fn append_slice() {
    let s1 = &cycle(&[2, 5, 4, 1, 6], 300);
    let s2 = &cycle(&[3, 7, 9, 8, 0], 300);
    let mut rope = Rope::from_slice(s1);
    rope.append_slice(s2);
    assert_eq!(rope.leaf_lens(), vec![300, 300]);
    assert_eq!(rope.len(), 600);
    assert_eq!(rope.dep(), 1);
    let mut out = s1.clone();
    out.extend_from_slice(s2);
    assert_eq!(rope.to_vec(), out);
}

#[test]
fn prepend_slice_short() {
    let s1 = &[2, 5, 4, 1, 6];
    let s2 = &[3, 7, 9, 8, 0];
    let mut rope = Rope::from_slice(s1);
    rope.prepend_slice(s2);
    let mut out = s2.iter().map(|x| *x).collect::<Vec<_>>();
    out.extend_from_slice(s1);
    assert_eq!(rope.leaf_lens(), vec![out.len()]);
    assert_eq!(rope.to_vec(), out);
}

#[test]
fn prepend_slice() {
    let s1 = &cycle(&[2, 5, 4, 1, 6], 300);
    let s2 = &cycle(&[3, 7, 9, 8, 0], 300);
    let mut rope = Rope::from_slice(s1);
    rope.prepend_slice(s2);
    assert_eq!(rope.leaf_lens(), vec![300, 300]);
    assert_eq!(rope.len(), 600);
    assert_eq!(rope.dep(), 1);
    let mut out = s2.clone();
    out.extend_from_slice(s1);
    assert_eq!(rope.to_vec(), out);
}

#[test]
fn cursor() {
    let rope = Rope::from_slice(&[1, 3, 5, 7, 9]);
    let mut cursor = rope.cursor();
    assert_eq!(cursor.pos(), 0);
    assert_eq!(cursor.next(), Some(1));
    assert_eq!(cursor.pos(), 1);
    assert_eq!(cursor.next(), Some(3));
    assert_eq!(cursor.pos(), 2);
    assert_eq!(cursor.next(), Some(5));
    assert_eq!(cursor.pos(), 3);
    assert_eq!(cursor.next(), Some(7));
    assert_eq!(cursor.pos(), 4);
    assert_eq!(cursor.at(1), 3); // at() doesn't move pos
    assert_eq!(cursor.pos(), 4);
    assert_eq!(cursor.next(), Some(9));
    assert_eq!(cursor.pos(), 5);
    assert_eq!(cursor.next(), None);
    assert_eq!(cursor.pos(), 5);
    assert_eq!(cursor.next(), None);
    cursor.seek(2); // seek() does move pos
    assert_eq!(cursor.pos(), 2);
    assert_eq!(cursor.next(), Some(5));
}

/// A small deterministic generator, so that the edit sequences are reproducible.
fn next_rand(state: &mut u64) -> u64 {
    *state = state.wrapping_mul(6364136223846793005).wrapping_add(1442695040888963407);
    *state >> 33
}

#[test]
fn splice_matches_vector_model() {
    let mut seed: u64 = 12345;
    let mut v: Vec<u32> = vec![];
    let mut r: Rope<u32> = Rope::new();
    let mut counter: u32 = 0;
    for _ in 0..400 {
        let start = if v.is_empty() { 0 } else { (next_rand(&mut seed) as usize) % (v.len() + 1) };
        let max_len = v.len() - start;
        let length = if max_len == 0 { 0 } else { (next_rand(&mut seed) as usize) % (max_len / 3 + 1) };
        let insert = match next_rand(&mut seed) % 3 {
            0 => None,
            1 => Some((next_rand(&mut seed) % 2000) as u32),
            _ => Some((next_rand(&mut seed) % 64) as u32),
        };
        let ins: Option<Vec<u32>> = insert.map(|n| {
            counter += n;
            (counter - n..counter).collect()
        });
        let replace_with = ins.clone().unwrap_or_default();
        v.splice(start..start + length, replace_with);
        r.splice(start, length, ins);
        assert_eq!(r.to_vec(), v);
        assert_eq!(r.len(), v.len());
        assert!(r.check_invariants());
        let mut c = r.cursor();
        let mut seen = vec![];
        while let Some(x) = c.next() {
            seen.push(x);
        }
        assert_eq!(seen, v);
    }
}

#[test]
fn splice_edges() {
    // Splicing into the empty rope makes a leaf; removing everything empties it.
    let mut r: Rope<u8> = Rope::new();
    r.splice(0, 0, Some(vec![1, 2, 3]));
    assert_eq!(r.to_vec(), vec![1, 2, 3]);
    r.splice(0, 3, None);
    assert_eq!(r.len(), 0);
    assert!(r.leaf_lens().is_empty());
    // A large leaf cut in the middle is split, not copied.
    let big: Vec<u16> = (0..2000).collect();
    let mut r = Rope::from_vec(big.clone());
    r.splice(700, 10, Some(vec![9, 9]));
    let mut want = big.clone();
    want.splice(700..710, vec![9, 9]);
    assert_eq!(r.to_vec(), want);
    assert!(r.leaf_lens().len() > 1);
    assert_eq!(r.at(701), 9);
    assert_eq!(r.at(1500), want[1500]);
}

#[test]
fn join_keeps_balance_on_many_appends() {
    let mut r: Rope<u32> = Rope::new();
    let mut v = vec![];
    for i in 0..200u32 {
        let chunk: Vec<u32> = (i * 600..i * 600 + 600).collect();
        r.append_slice(&chunk);
        v.extend_from_slice(&chunk);
    }
    assert_eq!(r.to_vec(), v);
    // 200 leaves: an AVL tree over them is at most about 1.44 log2(200) high.
    assert!(r.dep() <= 11);
    let joined = Rope::join(Rope::from_vec(vec![1u8; 600]), Rope::from_vec(vec![2u8; 600]));
    assert_eq!(joined.dep(), 1);
}

#[test]
fn cursor_reads_across_leaves() {
    let a: Vec<u32> = (0..700).collect();
    let b: Vec<u32> = (700..1400).collect();
    let rope = Rope::join(Rope::from_vec(a), Rope::from_vec(b));
    assert!(rope.check_invariants());
    let mut c = rope.cursor();
    assert_eq!(c.full_len(), 1400);
    assert_eq!(c.at(699), 699);
    assert_eq!(c.at(700), 700);
    assert_eq!(c.at(3), 3);
    assert_eq!(c.try_at(1399), Some(1399));
    assert_eq!(c.try_at(1400), None);
    c.seek(1398);
    assert_eq!(c.peek(), Some(1398));
    c.skip(1);
    assert_eq!(c.next(), Some(1399));
    assert!(c.at_end());
    assert_eq!(c.peek(), None);
    c.skip(-1400);
    assert_eq!(c.pos(), 0);
    assert_eq!(c.root().len(), 1400);
    assert_eq!(rope.at(1000), 1000);
}
