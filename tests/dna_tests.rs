use endo::base::{from_str, Base, SourceBase};
use endo::coverage::{dump_num, Stat, Usage};
use endo::text::push_decimal;
use endo::dna::{crc, make_crc_table, str, DnaState};
use endo::expand::as_nat;
use endo::parse::{PItem, TItem};
use endo::plan::find_splice;
use endo::rope::Rope;
use endo::search::find;

fn rope_of<T: endo::base::BaseLike>(s: &str) -> Rope<T> {
    Rope::from_vec(from_str::<T>(s).unwrap())
}

#[test]
fn find_simple() {
    let dna = rope_of::<SourceBase>("ICFPIICFCPFIICICFC");
    let mut haystack = dna.cursor();
    let needle: Vec<SourceBase> = from_str("IIC").unwrap();
    assert_eq!(find(&mut haystack, &needle, 0), Some(4));
    assert_eq!(find(&mut haystack, &needle, 1), Some(4));
    assert_eq!(find(&mut haystack, &needle, 3), Some(4));
    assert_eq!(find(&mut haystack, &needle, 4), Some(4));
    assert_eq!(find(&mut haystack, &needle, 5), Some(11));
    assert_eq!(find(&mut haystack, &needle, 8), Some(11));
    assert_eq!(find(&mut haystack, &needle, 11), Some(11));
    assert_eq!(find(&mut haystack, &needle, 12), None);
    assert_eq!(find(&mut haystack, &needle, 14), None);
}

fn naive_find(h: &[Base], n: &[Base], start: usize) -> Option<usize> {
    if n.is_empty() {
        return Some(start);
    }
    (start..h.len()).find(|&i| i + n.len() <= h.len() && &h[i..i + n.len()] == n)
}

#[test]
fn find_agrees_with_naive_search() {
    let mut seed: u64 = 99;
    let mut next = || {
        seed = seed.wrapping_mul(6364136223846793005).wrapping_add(1442695040888963407);
        (seed >> 33) as usize
    };
    for _ in 0..300 {
        let len = 1 + next() % 40;
        let h: Vec<Base> = (0..len).map(|_| Base::from_u8((next() % 3) as u8)).collect();
        let rope = Rope::from_vec(h.clone());
        let start = next() % len;
        let nlen = 1 + next() % 5;
        let needle: Vec<Base> = if next() % 2 == 0 && start + nlen <= len {
            h[start..start + nlen].to_vec()
        } else {
            (0..nlen).map(|_| Base::from_u8((next() % 3) as u8)).collect()
        };
        let from = next() % (len + 1);
        let mut c = rope.cursor();
        assert_eq!(find(&mut c, &needle, from), naive_find(&h, &needle, from));
    }
}

#[test]
fn parse_pattern_1() {
    let dna = rope_of::<SourceBase>("CIIC");
    let mut state = DnaState::<SourceBase>::new();
    let mut c = dna.cursor();
    let pat = PItem::parse(&mut c, &mut state);
    assert_eq!(pat, vec![PItem::Bases(vec![SourceBase::from_parts(Base::I, 0, -1)])]);
    assert_eq!(c.pos(), c.full_len());
    assert_eq!(state.finished, false);
    assert_eq!(state.rna, Vec::<[SourceBase; 7]>::new());
}

#[test]
fn parse_pattern_2() {
    let dna = rope_of::<Base>("IIPIPICPIICICIIF");
    let mut state = DnaState::<Base>::new();
    let mut c = dna.cursor();
    let pat = PItem::parse(&mut c, &mut state);
    assert_eq!(
        pat,
        "( !2 ) P"
            .split(' ')
            .map(|s| s.parse::<PItem<Base>>().unwrap())
            .collect::<Vec<_>>()
    );
    assert_eq!(
        pat,
        vec![PItem::OpenGroup, PItem::Skip(2), PItem::CloseGroup, PItem::Bases(vec![Base::P])]
    );
    assert_eq!(c.pos(), c.full_len());
    assert_eq!(state.finished, false);
    assert_eq!(state.rna, Vec::<[Base; 7]>::new());
}

#[test]
fn parse_emits_rna_and_finishes_at_the_end() {
    // III then seven bases of RNA, then a pattern that the DNA ends inside.
    let dna = rope_of::<Base>("IIIPIIPIIPCIIC");
    let mut state = DnaState::<Base>::new();
    let mut c = dna.cursor();
    let pat = PItem::parse(&mut c, &mut state);
    assert_eq!(pat, vec![PItem::Bases(vec![Base::I])]);
    assert_eq!(state.rna, vec![[Base::P, Base::I, Base::I, Base::P, Base::I, Base::I, Base::P]]);
    assert!(!state.finished);
    // A pattern cut short: the state is marked finished.
    let dna = rope_of::<Base>("CFI");
    let mut state = DnaState::<Base>::new();
    let mut c = dna.cursor();
    let _ = PItem::parse(&mut c, &mut state);
    assert!(state.finished);
}

#[test]
fn parse_template_items() {
    // IIP ICP: Len(1); IF P CP: Ref level 0 group 1; C: base I; IIC ends.
    let dna = rope_of::<Base>("IIPCPIFPCPCIIC");
    let mut state = DnaState::<Base>::new();
    let mut c = dna.cursor();
    let tpl = TItem::parse(&mut c, &mut state);
    assert_eq!(
        tpl,
        vec![TItem::Len(1), TItem::Ref { group: 1, level: 0 }, TItem::Bases(vec![Base::I])]
    );
    assert_eq!(c.pos(), 14);
    assert!(!state.finished);
}

#[test]
fn as_nat_encodes_little_endian() {
    let v: Vec<Base> = as_nat(6);
    assert_eq!(v, vec![Base::I, Base::C, Base::C, Base::P]);
    let v: Vec<Base> = as_nat(0);
    assert_eq!(v, vec![Base::P]);
    let w: Vec<SourceBase> = as_nat(1);
    assert_eq!(w.iter().map(|b| b.level()).collect::<Vec<_>>(), vec![-32, -32]);
}

#[test]
fn splice_plan_keeps_unprotected_groups() {
    let tpl: Vec<TItem<Base>> = vec![
        TItem::Bases(vec![Base::C]),
        TItem::Ref { group: 0, level: 0 },
        TItem::Bases(vec![Base::F]),
        TItem::Ref { group: 1, level: 0 },
    ];
    let env = vec![(2, 5), (6, 7)];
    let plan = find_splice(&tpl, &env, (0, 9));
    // Right to left: after group 1, between the groups, before group 0.
    assert_eq!(plan, vec![((7, 9), (4, 4)), ((5, 6), (2, 3)), ((0, 2), (0, 1))]);
    // A protected reference is not kept.
    let tpl: Vec<TItem<Base>> = vec![TItem::Ref { group: 0, level: 1 }];
    assert_eq!(find_splice(&tpl, &env, (0, 9)), vec![((0, 9), (0, 1))]);
}

#[test]
fn full_iteration_1() {
    let mut dna = rope_of::<Base>("IIPIPICPIICICIIFICCIFPPIICCFPC");
    let mut state = DnaState::new();
    state.iterate(&mut dna);
    assert_eq!(&str(&dna), "PICFC");
}

#[test]
fn full_iteration_2() {
    let mut dna = rope_of::<Base>("IIPIPICPIICICIIFICCIFCCCPPIICCFPC");
    let mut state = DnaState::new();
    state.iterate(&mut dna);
    assert_eq!(&str(&dna), "PIICCFCFFPC");
}

#[test]
fn full_iteration_3() {
    let mut dna = rope_of::<Base>("IIPIPIICPIICIICCIICFCFC");
    let mut state = DnaState::new();
    state.iterate(&mut dna);
    assert_eq!(&str(&dna), "I");
}

#[test]
fn full_iteration_source_bases() {
    let mut dna = rope_of::<SourceBase>("IIPIPICPIICICIIFICCIFPPIICCFPC");
    let mut state = DnaState::new();
    state.iterate(&mut dna);
    assert_eq!(&str(&dna), "PICFC");
    assert_eq!(state.iters, 1);
}

#[test]
fn failed_match_drops_the_parsed_prefix() {
    // Pattern "I" (C) then template "" ; the DNA after is "FF": no match, so the
    // pattern and template are dropped.
    let mut dna = rope_of::<Base>("CIICIICFF");
    let mut state = DnaState::new();
    state.iterate(&mut dna);
    assert_eq!(&str(&dna), "FF");
    assert!(!state.finished);
}

#[test]
fn iteration_on_short_dna_finishes() {
    let mut dna = rope_of::<Base>("IIP");
    let mut state = DnaState::new();
    state.iterate(&mut dna);
    assert!(state.finished);
    assert_eq!(&str(&dna), "IIP");
}

#[test]
fn coverage_records_pattern_usage() {
    let dna = rope_of::<SourceBase>("CIIC");
    let mut state = DnaState::<SourceBase>::new();
    let mut c = dna.cursor();
    let _ = PItem::parse(&mut c, &mut state);
    // The literal C at address 0 stands for an I one level down.
    let lit = state.coverage.get(&(0, -1)).unwrap();
    assert_eq!(lit.usage, Some(Usage::PatBaseI));
    assert_eq!(lit.count, 1);
    // The IIC that ends the pattern starts at address 1.
    let end = state.coverage.get(&(1, 0)).unwrap();
    assert_eq!(end.usage, Some(Usage::PatEnd));
    assert!(!end.splice);
    // Plain bases record nothing.
    let dna = rope_of::<Base>("CIIC");
    let mut state = DnaState::<Base>::new();
    let mut c = dna.cursor();
    let _ = PItem::parse(&mut c, &mut state);
    assert!(state.coverage.is_empty());
}

#[test]
fn coverage_records_splice_seams() {
    let mut dna = rope_of::<SourceBase>("IIPIPICPIICICIIFICCIFPPIICCFPC");
    let mut state = DnaState::new();
    state.iterate(&mut dna);
    assert!(state.coverage.values().any(|s| s.splice));
    // Every recorded key has a level other than the synthetic one.
    assert!(state.coverage.keys().all(|(_, lvl)| *lvl != -32));
}

#[test]
fn stat_counts_uses() {
    let mut st = Stat::new();
    st.record_usage(5, Usage::Num0);
    st.record_usage(9, Usage::NumP);
    assert_eq!(st.first, 5);
    assert_eq!(st.last, 9);
    assert_eq!(st.count, 2);
    assert_eq!(st.usage, Some(Usage::NumP));
    st.record_splice();
    assert!(st.splice);
}

#[test]
fn crc_of_dna() {
    assert_eq!(crc(&rope_of::<Base>("")), 0);
    assert_eq!(crc(&rope_of::<Base>("ICFP")), 0x8bb98613);
    assert_eq!(crc(&rope_of::<SourceBase>("PPI")), 0xd62a3488);
    let t = make_crc_table();
    assert_eq!(t[1], 0x77073096);
    assert_eq!(t[255], 0x2d02ef8d);
}

fn stat_with(usage: Usage) -> Stat {
    let mut st = Stat::new();
    st.record_usage(1, usage);
    st
}

#[test]
fn source_dump_decodes_numbers_and_runs() {
    let mut state = DnaState::<SourceBase>::new();
    state.coverage.insert((10, 0), stat_with(Usage::PatSkip));
    state.coverage.insert((12, 0), stat_with(Usage::Num1));
    state.coverage.insert((13, 0), stat_with(Usage::Num0));
    state.coverage.insert((14, 0), stat_with(Usage::Num1));
    state.coverage.insert((15, 0), stat_with(Usage::NumP));
    assert_eq!(
        dump_num(&state.coverage, 12, 0),
        Some((5, vec![(12, 0), (13, 0), (14, 0), (15, 0)], 16))
    );
    assert_eq!(dump_num(&state.coverage, 11, 0), None);
    let (text, seen) = state.source_dump(10, 0);
    assert_eq!(text, "!5");
    assert_eq!(seen, vec![(10, 0), (12, 0), (13, 0), (14, 0), (15, 0)]);
    let (text, _) = state.source_dump(13, 0);
    assert_eq!(text, "2");

    state.coverage.insert((20, 1), stat_with(Usage::PatBaseI));
    state.coverage.insert((21, 1), stat_with(Usage::PatBaseC));
    state.coverage.insert((23, 1), stat_with(Usage::PatBaseP));
    let (text, seen) = state.source_dump(20, 1);
    assert_eq!(text, "ICP");
    assert_eq!(seen, vec![(20, 1), (21, 1), (23, 1)]);

    state.coverage.insert((30, 0), stat_with(Usage::PatOpen));
    assert_eq!(state.source_dump(30, 0).0, "(");
    assert_eq!(state.source_dump(31, 0), (String::new(), vec![(31, 0)]));
}

#[test]
fn decimal_text() {
    let mut s = String::from("x");
    push_decimal(&mut s, 1234567);
    assert_eq!(s, "x1234567");
    let mut s = String::new();
    push_decimal(&mut s, 0);
    assert_eq!(s, "0");
}

#[test]
fn items_as_text() {
    let p: Vec<PItem<Base>> = vec![
        PItem::OpenGroup,
        PItem::Skip(2),
        PItem::CloseGroup,
        PItem::Bases(vec![Base::P]),
        PItem::Search(vec![Base::I, Base::C]),
    ];
    let shown: Vec<String> = p.iter().map(|x| x.to_string()).collect();
    assert_eq!(shown.join(" "), "( !2 ) P ?<IC>");
    let t: Vec<TItem<Base>> = vec![
        TItem::Bases(vec![Base::F, Base::C]),
        TItem::Len(12),
        TItem::Ref { group: 3, level: 2 },
        TItem::Ref { group: 0, level: 7 },
    ];
    let shown: Vec<String> = t.iter().map(|x| x.to_string()).collect();
    assert_eq!(shown.join(" "), "FC |12| $\\\\3 $7\\0");
}

#[test]
fn items_from_text() {
    assert_eq!("?<ICF>".parse::<PItem<Base>>(), Ok(PItem::Search(vec![Base::I, Base::C, Base::F])));
    assert_eq!("?<>".parse::<PItem<Base>>(), Ok(PItem::Search(vec![])));
    assert_eq!("!18446".parse::<PItem<Base>>(), Ok(PItem::Skip(18446)));
    assert_eq!("".parse::<PItem<Base>>(), Err(()));
    assert_eq!("!".parse::<PItem<Base>>(), Err(()));
    assert_eq!("!1x".parse::<PItem<Base>>(), Err(()));
    assert_eq!("?<".parse::<PItem<Base>>(), Err(()));
    assert_eq!("!99999999999999999999999".parse::<PItem<Base>>(), Err(()));
    assert_eq!("$\\\\3".parse::<TItem<Base>>(), Ok(TItem::Ref { group: 3, level: 2 }));
    assert_eq!("$0".parse::<TItem<Base>>(), Ok(TItem::Ref { group: 0, level: 0 }));
    assert_eq!("|12|".parse::<TItem<Base>>(), Ok(TItem::Len(12)));
    assert_eq!("FC".parse::<TItem<Base>>(), Ok(TItem::Bases(vec![Base::F, Base::C])));
    assert_eq!("$\\".parse::<TItem<Base>>(), Err(()));
    assert_eq!("|1".parse::<TItem<Base>>(), Err(()));
    // The text form written by `to_string` reads back.
    for item in [TItem::Len(7), TItem::Ref { group: 4, level: 3 }, TItem::Bases(vec![Base::P])] {
        assert_eq!(item.to_string().parse::<TItem<Base>>(), Ok(item.clone()));
    }
}

#[test]
fn rna_fragment_ending_at_the_end_is_emitted() {
    // III and exactly seven bases: the fragment is read, then the DNA runs out.
    let dna = rope_of::<Base>("IIICCCCCCC");
    let mut state = DnaState::<Base>::new();
    let mut c = dna.cursor();
    let _ = PItem::parse(&mut c, &mut state);
    assert_eq!(state.rna, vec![[Base::C; 7]]);
    assert!(state.finished);
    // One base short: nothing is emitted.
    let dna = rope_of::<Base>("IIICCCCCC");
    let mut state = DnaState::<Base>::new();
    let mut c = dna.cursor();
    let _ = PItem::parse(&mut c, &mut state);
    assert!(state.rna.is_empty());
}

#[test]
fn source_dump_decodes_references() {
    let mut state = DnaState::<SourceBase>::new();
    // Ref at 40: level number at 42..44 (C, P = 1), group number at 44..46 (I, C, P = 2).
    state.coverage.insert((40, 0), stat_with(Usage::TplRef));
    state.coverage.insert((42, 0), stat_with(Usage::Num1));
    state.coverage.insert((43, 0), stat_with(Usage::NumP));
    state.coverage.insert((44, 0), stat_with(Usage::Num0));
    state.coverage.insert((45, 0), stat_with(Usage::Num1));
    state.coverage.insert((46, 0), stat_with(Usage::NumP));
    let (text, seen) = state.source_dump(40, 0);
    assert_eq!(text, "$\\2");
    assert_eq!(seen.len(), 6);
}

#[test]
fn splice_plan_prefers_first_of_longest() {
    // Two unprotected references to groups of equal length: the first is kept whole and
    // the second is planned inside the stretch right of it.
    let tpl: Vec<TItem<Base>> = vec![
        TItem::Ref { group: 0, level: 0 },
        TItem::Ref { group: 1, level: 0 },
    ];
    let env = vec![(0, 2), (4, 6)];
    let plan = find_splice(&tpl, &env, (0, 8));
    assert_eq!(plan, vec![((6, 8), (2, 2)), ((2, 4), (1, 1)), ((0, 0), (0, 0))]);
}

#[test]
fn emit_moves_ten_bases_on() {
    let dna = rope_of::<SourceBase>("IIICC");
    let mut state = DnaState::<SourceBase>::new();
    let mut c = dna.cursor();
    state.emit(&mut c);
    assert_eq!(c.pos(), 10);
    assert!(state.rna.is_empty());
    // The fragment keeps the bases themselves: their addresses are their places.
    let dna = rope_of::<SourceBase>("IIIPIIPIIPCIIC");
    let mut state = DnaState::<SourceBase>::new();
    let mut c = dna.cursor();
    state.emit(&mut c);
    assert_eq!(c.pos(), 10);
    assert_eq!(state.rna.len(), 1);
    assert_eq!(state.rna[0].iter().map(|b| b.addr()).collect::<Vec<_>>(), vec![3, 4, 5, 6, 7, 8, 9]);
}
