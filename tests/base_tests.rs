use endo::base::{from_str, Base, BaseLike, SourceBase};

fn protect<T: BaseLike>(b: T, i: u8) -> Vec<T> {
    let mut v: Vec<T> = vec![];
    b.protect(i, &mut v);
    v
}

fn unprotect<T: BaseLike>(b: &[T]) -> Vec<T> {
    let mut v: Vec<T> = vec![];
    let mut i = 0;
    while i < b.len() {
        let base = b[i];
        if base.to_base() == Base::I {
            assert_eq!(b[i + 1].to_base(), Base::C);
            i += 1;
        }
        v.push(base.unprotect());
        i += 1;
    }
    v
}

#[test]
fn from_u8_base() {
    assert_eq!(Base::from_u8(0), Base::I);
    assert_eq!(Base::from_u8(1), Base::C);
    assert_eq!(Base::from_u8(2), Base::F);
    assert_eq!(Base::from_u8(3), Base::P);
}

#[test]
fn from_str_base() {
    let s = "ICFPIIC";
    let v: Vec<Base> = from_str(s).unwrap();
    assert_eq!(v, vec![Base::I, Base::C, Base::F, Base::P, Base::I, Base::I, Base::C]);
}

#[test]
fn from_str_sourcebase() {
    let s = "ICFPIIC";
    let v: Vec<SourceBase> = from_str(s).unwrap();
    assert_eq!(
        v,
        vec![
            SourceBase(0 << 2 | 0),
            SourceBase(1 << 2 | 1),
            SourceBase(2 << 2 | 2),
            SourceBase(3 << 2 | 3),
            SourceBase(4 << 2 | 0),
            SourceBase(5 << 2 | 0),
            SourceBase(6 << 2 | 1),
        ]
    );
}

#[test]
fn from_str_skips_blanks_and_rejects_other_characters() {
    let v: Vec<Base> = from_str("IC F\nP").unwrap();
    assert_eq!(v, vec![Base::I, Base::C, Base::F, Base::P]);
    assert_eq!(from_str::<Base>("ICX P"), Err(b'X'));
    assert_eq!(from_str::<Base>(""), Ok(vec![]));
}

#[test]
fn protect_base() {
    assert_eq!(protect(Base::I, 0), vec![Base::I]);
    assert_eq!(protect(Base::C, 0), vec![Base::C]);
    assert_eq!(protect(Base::F, 0), vec![Base::F]);
    assert_eq!(protect(Base::P, 0), vec![Base::P]);

    assert_eq!(protect(Base::I, 1), vec![Base::C]);
    assert_eq!(protect(Base::C, 1), vec![Base::F]);
    assert_eq!(protect(Base::F, 1), vec![Base::P]);
    assert_eq!(protect(Base::P, 1), vec![Base::I, Base::C]);

    assert_eq!(protect(Base::I, 2), vec![Base::F]);
    assert_eq!(protect(Base::C, 2), vec![Base::P]);
    assert_eq!(protect(Base::F, 2), vec![Base::I, Base::C]);
    assert_eq!(protect(Base::P, 2), vec![Base::C, Base::F]);

    assert_eq!(protect(Base::P, 5), vec![Base::I, Base::C, Base::C, Base::F]);
}

#[test]
fn sourcebase_addr() {
    assert_eq!(SourceBase(0x123456 << 2).addr(), 0x123456);
}

#[test]
fn sourcebase_level() {
    assert_eq!(SourceBase((15 << 26) | 0x123456 << 2).level(), 15);
    assert_eq!(SourceBase((-15i32 << 26) as u32 | 0x123456 << 2).level(), -15);
    assert_eq!(SourceBase((31 << 26) | 0x123456 << 2).level(), 31);
    assert_eq!(SourceBase((-31i32 << 26) as u32 | 0x123456 << 2).level(), -31);
    assert_eq!(SourceBase((-32i32 << 26) as u32 | 0x123456 << 2).level(), -32);
}

#[test]
fn sourcebase_from_parts_round_trip() {
    for x in [0u32, 1, 0xffff_ffff, 0x8000_0003, 0x1234_5678, (-32i32 << 26) as u32 | 7] {
        let orig = SourceBase(x);
        let rebuilt = SourceBase::from_parts(orig.to_base(), orig.addr(), orig.level());
        assert_eq!(rebuilt, orig);
    }
}

#[test]
fn protect_sourcebase() {
    assert_eq!(
        protect(SourceBase::from_parts(Base::F, 42, 3), 2),
        vec![SourceBase::from_parts(Base::I, 42, 5), SourceBase::from_parts(Base::C, 42, 5)]
    );
}

#[test]
fn unprotect_sourcebase() {
    assert_eq!(
        unprotect(&[SourceBase::from_parts(Base::F, 23, -4)]),
        vec![SourceBase::from_parts(Base::C, 23, -5)]
    );
}

#[test]
fn protect_levels_saturate_and_stick() {
    // Raised and held at 31.
    let v = protect(SourceBase::from_parts(Base::C, 9, 30), 3);
    assert!(v.iter().all(|b| b.level() == 31 && b.addr() == 9));
    // -32 (synthetic) does not move; -31 rises like any other level.
    let v = protect(SourceBase::from_parts(Base::C, 9, -32), 3);
    assert!(v.iter().all(|b| b.level() == -32));
    let v = protect(SourceBase::from_parts(Base::C, 9, -31), 3);
    assert!(v.iter().all(|b| b.level() == -28));
    let v = protect(SourceBase::from_parts(Base::P, 9, -31), 1);
    assert!(v.iter().all(|b| b.level() == -30));
    // Unprotecting leaves -32, -31 and 31 where they are.
    assert_eq!(SourceBase::from_parts(Base::C, 1, 31).unprotect().level(), 31);
    assert_eq!(SourceBase::from_parts(Base::C, 1, -31).unprotect().level(), -31);
    assert_eq!(SourceBase::from_parts(Base::C, 1, -32).unprotect().level(), -32);
}

#[test]
fn protect_then_unprotect_round_trip() {
    for sym in [Base::I, Base::C, Base::F, Base::P] {
        for level in 0u8..12 {
            let mut v = protect(sym, level);
            for _ in 0..level {
                v = unprotect(&v);
            }
            assert_eq!(v, vec![sym]);
            let with_source = SourceBase::from_parts(sym, 77, 0);
            let mut w = protect(with_source, level);
            for _ in 0..level {
                w = unprotect(&w);
            }
            assert_eq!(w.len(), 1);
            assert_eq!(w[0].to_base(), sym);
            assert_eq!(w[0].addr(), 77);
        }
    }
}

#[test]
fn protect_round_trip_keeps_address_and_level() {
    // (starting level, protect level, level after unquoting as often)
    for (lv, l, want) in [(3i8, 4u8, 3i8), (29, 5, 31), (-30, 2, -30), (0, 0, 0), (31, 3, 31)] {
        let b = SourceBase::from_parts(Base::F, 1234, lv);
        let mut v = protect(b, l);
        for _ in 0..l {
            v = unprotect(&v);
        }
        assert_eq!(v, vec![SourceBase::from_parts(Base::F, 1234, want)]);
    }
}
