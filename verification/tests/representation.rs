use std::cmp::Ordering;
use symbolica::representations::default::{
    AtomView, FunctionView, ListIterator, NumberView, OwnedAtom, OwnedFunction, OwnedNumber,
    OwnedTerm, OwnedVar, TermView, VarView, DIRTY_FLAG, FN_ID, NUM_ID, TERM_ID, VAR_ID,
};
use symbolica::representations::number::{
    get_frac_u64, is_one, skip_rational, write_frac, write_num,
};
use symbolica::representations::tree::{Atom, Number};
use symbolica::representations::Identifier;

#[test]
fn representation_size() {
    let a = Atom::Fn(
        Identifier::from(1),
        vec![
            Atom::Var(Identifier::from(2), Number::new(1, 1)),
            Atom::Fn(
                Identifier::from(3),
                vec![
                    Atom::Term(vec![
                        Atom::Number(Number::new(3, 1)),
                        Atom::Number(Number::new(13, 1)),
                    ]),
                    Atom::Term(vec![
                        Atom::Number(Number::new(3, 1)),
                        Atom::Number(Number::new(13, 1)),
                    ]),
                    Atom::Term(vec![
                        Atom::Number(Number::new(3, 1)),
                        Atom::Number(Number::new(13, 1)),
                    ]),
                    Atom::Term(vec![
                        Atom::Number(Number::new(3, 1)),
                        Atom::Number(Number::new(13, 1)),
                    ]),
                    Atom::Number(Number::new(4, 2)),
                    Atom::Number(Number::new(4, 2)),
                    Atom::Number(Number::new(4, 2)),
                    Atom::Number(Number::new(4, 2)),
                ],
            ),
            Atom::Var(Identifier::from(6), Number::new(1, 1)),
            Atom::Var(Identifier::from(2), Number::new(1, 1)),
            Atom::Var(Identifier::from(2), Number::new(1, 1)),
            Atom::Var(Identifier::from(2), Number::new(1, 1)),
            Atom::Var(Identifier::from(2), Number::new(1, 1)),
            Atom::Number(Number::new(2, 1)),
            Atom::Number(Number::new(2, 1)),
            Atom::Number(Number::new(2, 1)),
            Atom::Number(Number::new(2, 1)),
            Atom::Number(Number::new(2, 1)),
            Atom::Number(Number::new(2, 1)),
            Atom::Number(Number::new(2, 1)),
            Atom::Number(Number::new(2, 1)),
            Atom::Number(Number::new(2, 1)),
            Atom::Number(Number::new(2, 1)),
        ],
    );
    println!("expr={:?}", a);

    let b = OwnedAtom::from_tree(&a);

    println!("lin size: {:?} bytes", b.data.len());

    let c = b.to_tree();

    if a != c {
        panic!("in and out is different: {:?} vs {:?}", a, c);
    }

    assert!(matches!(b.to_view(), AtomView::Function(_)));
}

#[test]
fn bytes_of_a_number() {
    let b = OwnedAtom::from_tree(&Atom::Number(Number::new(3, 1)));
    assert_eq!(b.data, vec![NUM_ID, 0x11, 3, 1]);
    assert_eq!(b.len(), 4);
    let b = OwnedAtom::from_tree(&Atom::Number(Number::new(0x1234, 0x0102_0304_0506)));
    assert_eq!(
        b.data,
        vec![NUM_ID, 0x42, 0x34, 0x12, 0x06, 0x05, 0x04, 0x03, 0x02, 0x01, 0, 0]
    );
}

#[test]
fn bytes_of_a_variable() {
    let b = OwnedAtom::from_tree(&Atom::Var(Identifier::from(0x1_0000), Number::new(2, 3)));
    assert_eq!(
        b.data,
        vec![VAR_ID, 0x13, 0, 0, 1, 0, 1, NUM_ID, 0x11, 2, 3]
    );
    assert!(matches!(b.to_view(), AtomView::Var(_)));
}

#[test]
fn bytes_of_a_function_and_a_term() {
    let f = Atom::Fn(
        Identifier::from(1),
        vec![Atom::Number(Number::new(3, 1))],
    );
    let b = OwnedAtom::from_tree(&f);
    assert_eq!(
        b.data,
        vec![FN_ID, 7, 0, 0, 0, 0x11, 1, 1, NUM_ID, 0x11, 3, 1]
    );
    let t = Atom::Term(vec![
        Atom::Number(Number::new(3, 1)),
        Atom::Var(Identifier::from(5), Number::new(1, 1)),
    ]);
    let b = OwnedAtom::from_tree(&t);
    assert_eq!(
        b.data,
        vec![
            TERM_ID, 14, 0, 0, 0, 0x01, 2, NUM_ID, 0x11, 3, 1, VAR_ID, 0x11, 5, 1, NUM_ID, 0x11,
            1, 1
        ]
    );
    assert!(b.to_tree() == t);
    // an empty function and an empty term
    let e = Atom::Fn(Identifier::from(9), vec![]);
    let b = OwnedAtom::from_tree(&e);
    assert_eq!(b.data, vec![FN_ID, 3, 0, 0, 0, 0x11, 9, 0]);
    assert!(b.to_tree() == e);
    let e = Atom::Term(vec![]);
    let b = OwnedAtom::from_tree(&e);
    assert_eq!(b.data, vec![TERM_ID, 2, 0, 0, 0, 0x01, 0]);
    assert!(b.to_tree() == e);
}

#[test]
fn the_size_of_a_long_function_takes_more_than_one_byte() {
    let args: Vec<Atom> = (0..100)
        .map(|i| Atom::Number(Number::new(i, 1)))
        .collect();
    let f = Atom::Fn(Identifier::from(1), args);
    let b = OwnedAtom::from_tree(&f);
    // the name over the number of arguments, and four bytes for each argument
    assert_eq!(b.data.len(), 5 + 3 + 400);
    assert_eq!(&b.data[..8], &[FN_ID, 0x93, 0x01, 0, 0, 0x11, 1, 100]);
    assert!(b.to_tree() == f);
}

#[test]
fn reading_leaves_what_follows() {
    let mut b = OwnedAtom::new();
    b.write_tree(&Atom::Number(Number::new(7, 2)));
    b.linearize(&Atom::Var(Identifier::from(3), Number::new(1, 1)));
    let (first, rest) = OwnedAtom::write_to_tree(&b.data);
    assert!(first == Atom::Number(Number::new(7, 2)));
    assert_eq!(rest.len(), 8);
    let (second, rest) = OwnedAtom::write_to_tree(rest);
    assert!(second == Atom::Var(Identifier::from(3), Number::new(1, 1)));
    assert!(rest.is_empty());
    b.reset();
    assert_eq!(b.len(), 0);
}

#[test]
fn fractions_of_every_width() {
    let values: [u64; 8] = [
        0,
        1,
        0xff,
        0x100,
        0xffff,
        0x1_0000,
        0xffff_ffff,
        0x1_0000_0000,
    ];
    for &n in values.iter() {
        for &d in values.iter().chain([u64::MAX].iter()) {
            let mut bytes = Vec::new();
            write_frac(n, d, &mut bytes);
            bytes.push(0xee);
            let (num, den, rest) = get_frac_u64(&bytes);
            assert_eq!((num, den), (n, d));
            assert_eq!(rest, &[0xee]);
            assert_eq!(skip_rational(&bytes), &[0xee]);
            assert_eq!(is_one(&bytes), n == 1 && d == 1);
        }
    }
    let mut bytes = Vec::new();
    write_num(0x0102, &mut bytes);
    assert_eq!(bytes, vec![0x02, 0x02, 0x01]);
    assert_eq!(get_frac_u64(&bytes).0, 0x0102);
    assert_eq!(get_frac_u64(&bytes).1, 1);
    let mut bytes = Vec::new();
    write_frac(u64::MAX, 1, &mut bytes);
    assert_eq!(
        bytes,
        vec![0x14, 0xff, 0xff, 0xff, 0xff, 0xff, 0xff, 0xff, 0xff, 1]
    );
}

#[test]
fn views_of_a_function() {
    let f = Atom::Fn(
        Identifier::from(7),
        vec![
            Atom::Number(Number::new(3, 1)),
            Atom::Var(Identifier::from(5), Number::new(2, 1)),
            Atom::Term(vec![Atom::Number(Number::new(1, 1))]),
            Atom::Fn(Identifier::from(8), vec![]),
        ],
    );
    let b = OwnedAtom::from_tree(&f);
    let view = match b.to_view() {
        AtomView::Function(v) => v,
        _ => panic!("not a function"),
    };
    assert_eq!(view.get_name(), Identifier::from(7));
    assert_eq!(view.get_nargs(), 4);
    assert!(!view.is_dirty());
    let mut it = view.into_iter();
    assert_eq!(it.length, 4);

    let first = it.next().unwrap();
    match first {
        AtomView::Number(n) => {
            assert_eq!(n.get_numden(), (3, 1));
            assert!(!n.is_one());
        }
        _ => panic!("not a number"),
    }
    assert!(first.to_atom() == Atom::Number(Number::new(3, 1)));

    let second = it.next().unwrap();
    match second {
        AtomView::Var(v) => {
            assert_eq!(v.get_name(), Identifier::from(5));
            assert_eq!(v.get_pow().get_numden(), (2, 1));
        }
        _ => panic!("not a variable"),
    }
    assert_eq!(second.get_data().len(), 8);

    let third = it.next().unwrap();
    match third {
        AtomView::Term(t) => {
            assert_eq!(t.get_nargs(), 1);
            let mut inner = t.into_iter();
            match inner.next().unwrap() {
                AtomView::Number(n) => assert!(n.is_one()),
                _ => panic!("not a number"),
            }
            assert!(inner.next().is_none());
        }
        _ => panic!("not a term"),
    }

    let fourth = it.next().unwrap();
    match fourth {
        AtomView::Function(g) => {
            assert_eq!(g.get_name(), Identifier::from(8));
            assert_eq!(g.get_nargs(), 0);
            assert_eq!(view.cmp(&g), Ordering::Less);
            assert_eq!(g.cmp(&view), Ordering::Greater);
            assert_eq!(g.cmp(&g), Ordering::Equal);
            assert!(g.into_iter().next().is_none());
        }
        _ => panic!("not a function"),
    }
    assert!(it.next().is_none());
    assert_eq!(it.length, 0);
}

#[test]
fn list_iterator_stops_at_an_unknown_tag() {
    let bytes = [0u8, 1, 2];
    let mut it = ListIterator {
        data: &bytes,
        length: 2,
    };
    assert!(it.next().is_none());
    assert_eq!(it.length, 1);
    assert_eq!(it.data, &[1, 2]);
}

#[test]
fn atom_view_from_bytes() {
    let b = OwnedAtom::from_tree(&Atom::Term(vec![]));
    assert!(matches!(AtomView::from(&b.data), AtomView::Term(TermView { .. })));
    let b = OwnedAtom::from_tree(&Atom::Number(Number::new(1, 1)));
    assert!(matches!(AtomView::from(&b.data), AtomView::Number(NumberView { .. })));
    let b = OwnedAtom::from_tree(&Atom::Var(Identifier::from(1), Number::new(1, 1)));
    assert!(matches!(AtomView::from(&b.data), AtomView::Var(VarView { .. })));
    let b = OwnedAtom::from_tree(&Atom::Fn(Identifier::from(1), vec![]));
    let v = AtomView::from(&b.data);
    assert!(matches!(v, AtomView::Function(FunctionView { .. })));
    assert!(v.to_atom() == Atom::Fn(Identifier::from(1), vec![]));
    let mut copy = OwnedAtom::new();
    copy.write(&v);
    assert_eq!(copy.data, b.data);
}

#[test]
fn owned_number() {
    let mut n = OwnedNumber::new();
    assert_eq!(n.data, vec![NUM_ID, 0x01, 0]);
    assert_eq!(n.to_num_view().get_numden(), (0, 1));
    let six_fourths = OwnedAtom::from_tree(&Atom::Number(Number::new(6, 4)));
    let v = match six_fourths.to_view() {
        AtomView::Number(v) => v,
        _ => panic!("not a number"),
    };
    let mut m = OwnedNumber::from_view(v);
    assert_eq!(m.data, six_fourths.data);
    // 6/4 and 6/4 give 36/16 in lowest terms
    m.add(&v);
    assert_eq!(m.to_num_view().get_numden(), (9, 4));
    assert_eq!(m.data, vec![NUM_ID, 0x11, 9, 4]);
    let mut out = OwnedAtom::new();
    v.add(&m.to_num_view(), &mut out);
    assert_eq!(out.data, vec![NUM_ID, 0x11, 27, 8]);
    n.data.push(9);
    n.reset();
    assert_eq!(n.data, vec![NUM_ID, 0x01, 0]);
    let a = OwnedAtom::from_num(m);
    assert_eq!(a.data, vec![NUM_ID, 0x11, 9, 4]);
}

#[test]
fn owned_variable_function_and_term() {
    let mut pow = OwnedNumber::new();
    pow.data = vec![NUM_ID, 0x11, 2, 1];
    let mut v = OwnedVar::new();
    v.from_id_pow(Identifier::from(5), pow);
    assert_eq!(v.data, vec![VAR_ID, 0x11, 5, 1, NUM_ID, 0x11, 2, 1]);
    assert_eq!(v.to_var_view().get_name(), Identifier::from(5));
    assert_eq!(v.to_var_view().get_pow().get_numden(), (2, 1));
    let mut out = OwnedAtom::new();
    v.to_atom(&mut out);
    assert!(out.to_tree() == Atom::Var(Identifier::from(5), Number::new(2, 1)));
    v.reset();
    assert!(v.data.is_empty());

    let mut f = OwnedFunction::new();
    f.from_name(Identifier::from(0x0304));
    assert_eq!(f.data, vec![VAR_ID, 0x02, 0x04, 0x03]);
    // the mark is kept or taken away, never set
    f.set_dirty(false);
    assert_eq!(f.data[0], VAR_ID);
    assert!(!f.to_func_view().is_dirty());
    f.data[0] = VAR_ID | DIRTY_FLAG;
    assert!(f.to_func_view().is_dirty());
    f.set_dirty(true);
    assert_eq!(f.data[0], DIRTY_FLAG);
    assert!(f.to_func_view().is_dirty());
    f.set_dirty(false);
    assert_eq!(f.data[0], 0);
    assert!(!f.to_func_view().is_dirty());
    f.data[0] = VAR_ID;
    f.set_dirty(true);
    assert_eq!(f.data[0], 0);
    f.data[0] = VAR_ID;
    f.to_atom(&mut out);
    assert_eq!(out.data, f.data);
    f.reset();
    assert!(f.data.is_empty());

    let mut t = OwnedTerm::new();
    assert_eq!(t.data, vec![TERM_ID, 0, 0, 0, 0, 0x01, 0]);
    assert_eq!(t.to_term_view().get_nargs(), 0);
    assert!(t.to_term_view().into_iter().next().is_none());
    t.to_atom(&mut out);
    assert_eq!(out.data, t.data);
    t.data.push(1);
    t.reset();
    assert_eq!(t.data, vec![TERM_ID, 0, 0, 0, 0, 0x01, 0]);
}

#[test]
fn a_term_is_extended_in_place() {
    let mut t = OwnedTerm::new();
    let three = OwnedAtom::from_tree(&Atom::Number(Number::new(3, 1)));
    let x = OwnedAtom::from_tree(&Atom::Var(Identifier::from(5), Number::new(1, 1)));
    t.extend(three.to_view());
    assert_eq!(
        t.data,
        vec![TERM_ID, 6, 0, 0, 0, 0x01, 1, NUM_ID, 0x11, 3, 1]
    );
    t.extend(x.to_view());
    let expected = Atom::Term(vec![
        Atom::Number(Number::new(3, 1)),
        Atom::Var(Identifier::from(5), Number::new(1, 1)),
    ]);
    assert_eq!(t.data, OwnedAtom::from_tree(&expected).data);
    assert_eq!(t.to_term_view().get_nargs(), 2);
    let mut out = OwnedAtom::new();
    t.to_atom(&mut out);
    assert!(out.to_tree() == expected);
}
