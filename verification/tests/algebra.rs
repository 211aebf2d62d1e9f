use paralegal::algebra::{rebase_simplify, solve, Cancel, Either, Equality, Inspect, Piece, Term, TermS};
use paralegal::resolver::TargetInspector;

fn all_steps() -> Vec<TermS<u32>> {
    vec![
        TermS::RefOf,
        TermS::DerefOf,
        TermS::MemberOf(3),
        TermS::ContainsAt(3),
        TermS::Downcast(Some(7), 1),
        TermS::Upcast(None, 2),
        TermS::Unknown,
    ]
}

#[test]
fn flip_twice_gives_step_back() {
    for t in all_steps() {
        assert_eq!(t.flip().flip(), t);
    }
    assert_eq!(TermS::<u32>::RefOf.flip(), TermS::DerefOf);
    assert_eq!(TermS::MemberOf(4u32).flip(), TermS::ContainsAt(4));
    assert_eq!(TermS::<u32>::Downcast(None, 5).flip(), TermS::Upcast(None, 5));
    assert_eq!(TermS::<u32>::Unknown.flip(), TermS::Unknown);
}

#[test]
fn cancel_does_not_depend_on_order() {
    for a in all_steps() {
        for b in all_steps() {
            assert_eq!(a.cancel(b), b.cancel(a));
        }
    }
}

#[test]
fn cancel_cases() {
    assert_eq!(TermS::<u32>::RefOf.cancel(TermS::DerefOf), Cancel::Cancels);
    assert_eq!(TermS::MemberOf(1u32).cancel(TermS::ContainsAt(1)), Cancel::Cancels);
    assert_eq!(TermS::MemberOf(1u32).cancel(TermS::ContainsAt(2)), Cancel::NonOverlappingField(1, 2));
    assert_eq!(TermS::ContainsAt(2u32).cancel(TermS::MemberOf(1)), Cancel::NonOverlappingField(1, 2));
    assert_eq!(TermS::<u32>::Downcast(None, 1).cancel(TermS::Upcast(None, 2)), Cancel::NonOverlappingVariant(1, 2));
    assert_eq!(TermS::<u32>::Upcast(None, 2).cancel(TermS::Downcast(None, 1)), Cancel::NonOverlappingVariant(1, 2));
    assert_eq!(TermS::<u32>::Downcast(Some(1), 3).cancel(TermS::Upcast(Some(1), 3)), Cancel::Cancels);
    assert_eq!(TermS::<u32>::Downcast(Some(1), 3).cancel(TermS::Upcast(Some(2), 3)), Cancel::Remains);
    assert_eq!(TermS::<u32>::Unknown.cancel(TermS::Unknown), Cancel::Remains);
    assert_eq!(TermS::<u32>::RefOf.cancel(TermS::RefOf), Cancel::Remains);
    assert_eq!(TermS::MemberOf(1u32).cancel(TermS::MemberOf(2)), Cancel::Remains);
}

#[test]
fn every_known_step_cancels_with_its_flip() {
    for t in all_steps() {
        if t != TermS::Unknown {
            assert_eq!(t.cancel(t.flip()), Cancel::Cancels);
        }
    }
}

#[test]
fn map_field_rewrites_fields_only() {
    assert_eq!(TermS::MemberOf(2u32).map_field(|f: u32| f as u64 + 10), TermS::MemberOf(12u64));
    assert_eq!(TermS::ContainsAt(2u32).map_field(|f: u32| f as u64 * 3), TermS::ContainsAt(6u64));
    assert_eq!(TermS::<u32>::RefOf.map_field(|f: u32| f as u64), TermS::RefOf);
    assert_eq!(TermS::<u32>::Downcast(Some(1), 4).map_field(|f: u32| f as u64), TermS::Downcast(Some(1), 4));
}

#[test]
fn building_terms() {
    let t: Term<u32, u32> = Term::new_base(5);
    assert!(t.is_base());
    assert_eq!(*t.base(), 5);
    let t = t.add_member_of(1).add_deref_of();
    assert!(!t.is_base());
    assert_eq!(t.kind(), TermS::MemberOf(1));
    let u = Term::new_base(5u32)
        .add_member_of(1u32)
        .add_deref_of();
    assert_eq!(t, u);
    let all = Term::new_base(0u32)
        .add_ref_of()
        .add_deref_of()
        .add_member_of(1u32)
        .add_contains_at(2)
        .add_downcast(None, 3)
        .add_upcast(Some(4), 5)
        .add_unknown();
    assert_eq!(all.kind(), TermS::RefOf);
}

#[test]
fn simplify_cancels_reference_and_dereference() {
    let mut t: Term<u32, u32> = Term::new_base(1).add_ref_of().add_deref_of();
    assert!(t.simplify());
    assert_eq!(t, Term::new_base(1));
}

#[test]
fn simplify_reports_conflicting_fields() {
    let mut t: Term<u32, u32> = Term::new_base(1).add_member_of(0).add_contains_at(1);
    assert!(!t.simplify());
    assert_eq!(t, Term::new_base(1).add_member_of(0).add_contains_at(1));
    let mut v: Term<u32, u32> = Term::new_base(1).add_downcast(None, 0).add_upcast(None, 1);
    assert!(!v.simplify());
}

#[test]
fn simplify_is_one_pass() {
    let mut t: Term<u32, u32> = Term::new_base(1).add_ref_of().add_ref_of().add_deref_of().add_deref_of();
    assert!(t.simplify());
    assert_eq!(t, Term::new_base(1).add_ref_of().add_deref_of());
    assert!(t.simplify());
    assert_eq!(t, Term::new_base(1));
}

#[test]
fn simplify_keeps_short_terms() {
    let mut t: Term<u32, u32> = Term::new_base(1).add_unknown();
    assert!(t.simplify());
    assert_eq!(t, Term::new_base(1).add_unknown());
    let mut b: Term<u32, u32> = Term::new_base(2);
    assert!(b.simplify());
    assert_eq!(b, Term::new_base(2));
}

#[test]
fn sub_puts_other_term_underneath() {
    let mut t: Term<u32, u32> = Term::new_base(1).add_member_of(4);
    t.sub(Term::new_base(9).add_deref_of());
    assert_eq!(t, Term::new_base(9).add_deref_of().add_member_of(4));
    let mut s: Term<u32, u32> = Term::new_base(1).add_member_of(4);
    s.sub(Term::new_base(7));
    assert_eq!(s, Term::new_base(7).add_member_of(4));
}

#[test]
fn replace_base_and_fields() {
    let t: Term<u32, u32> = Term::new_base(1).add_member_of(4).add_ref_of();
    assert_eq!(t.replace_base("x"), Term::new_base("x").add_member_of(4).add_ref_of());
    assert_eq!(t.replace_fields(|f: u32| f + 1), Term::new_base(1).add_member_of(5).add_ref_of());
}

#[test]
fn rearranging_moves_left_steps_right() {
    let l: Term<u32, u32> = Term::new_base(1).add_member_of(2).add_deref_of();
    let r: Term<u32, u32> = Term::new_base(3).add_ref_of();
    let mut e = Equality::new(l, r);
    e.rearrange_left_to_right();
    let expected = Equality::new(
        Term::new_base(1),
        Term::new_base(3).add_ref_of().add_ref_of().add_contains_at(2),
    );
    assert!(e.same_as(&expected));
    let again = e.clone();
    e.rearrange_left_to_right();
    assert!(e.same_as(&again));
}

#[test]
fn swapping_and_sameness() {
    let l: Term<u32, u32> = Term::new_base(1).add_member_of(2);
    let r: Term<u32, u32> = Term::new_base(3);
    let mut e = Equality::new(l.clone(), r.clone());
    let original = e.clone();
    e.swap();
    assert!(e.same_as(&original));
    assert_eq!(*e.bases()[0], 3);
    assert_eq!(*e.bases()[1], 1);
    e.swap();
    assert_eq!(*e.bases()[0], 1);
    let other = Equality::new(l, Term::new_base(4));
    assert!(!other.same_as(&original));
}

#[test]
fn map_bases_rebases_both_sides() {
    let e: Equality<u32, u32> = Equality::new(Term::new_base(1).add_ref_of(), Term::new_base(2));
    let m = e.map_bases(|b: &u32| *b * 10);
    let expected = Equality::new(Term::new_base(10u32).add_ref_of(), Term::new_base(20));
    assert!(m.same_as(&expected));
}

#[test]
fn solve_follows_a_reference() {
    // _1 = &_0, asking for _1 in terms of _0.
    let eqs: Vec<Equality<u32, u32>> = vec![Equality::new(Term::new_base(1u32), Term::new_base(0u32).add_ref_of())];
    let sols = solve(&eqs, &1u32, TargetInspector { target: 0 });
    assert_eq!(sols, vec![Term::new_base(()).add_ref_of()]);
}

#[test]
fn solve_cancels_along_a_chain() {
    // _1 = &_0; _2 = *_1, so _2 is _0.
    let eqs: Vec<Equality<u32, u32>> = vec![
        Equality::new(Term::new_base(1u32), Term::new_base(0u32).add_ref_of()),
        Equality::new(Term::new_base(2u32), Term::new_base(1u32).add_deref_of()),
    ];
    let sols = solve(&eqs, &2u32, TargetInspector { target: 0 });
    assert_eq!(sols, vec![Term::new_base(())]);
}

#[test]
fn solve_with_no_equations_finds_nothing() {
    let eqs: Vec<Equality<u32, u32>> = Vec::new();
    assert!(solve(&eqs, &1u32, TargetInspector { target: 0 }).is_empty());
}

#[test]
fn solve_drops_contradictions() {
    // _1 = (_0,) at field 0, _2 = _1.1: no solution.
    let eqs = vec![
        Equality::new(Term::new_base(1u32), Term::new_base(0u32).add_contains_at(0u32)),
        Equality::new(Term::new_base(2u32), Term::new_base(1u32).add_member_of(1)),
    ];
    assert!(solve(&eqs, &2u32, TargetInspector { target: 0 }).is_empty());
}

struct Rebase;

impl Inspect<u32, Vec<u32>, u32> for Rebase {
    fn spec_inspect(&self, b: u32) -> Either<Vec<u32>, u32> {
        self.inspect(&b)
    }

    fn inspect(&self, b: &u32) -> Either<Vec<u32>, u32> {
        match *b {
            0 => Either::Left(vec![100]),
            5 => Either::Left(vec![500, 501]),
            v => Either::Right(v),
        }
    }
}

#[test]
fn rebase_simplify_pairs_final_bases() {
    let eqs: Vec<Equality<u32, u32>> = vec![Equality::new(Term::new_base(0u32).add_ref_of(), Term::new_base(5u32))];
    let finals = rebase_simplify(&eqs, Rebase);
    assert_eq!(finals.len(), 2);
    assert!(finals[0].same_as(&Equality::new(Term::new_base(100u32), Term::new_base(500u32).add_deref_of())));
    assert!(finals[1].same_as(&Equality::new(Term::new_base(100u32), Term::new_base(501u32).add_deref_of())));
}

#[test]
fn rebase_simplify_equates_terms_of_a_variable() {
    let eqs = vec![
        Equality::new(Term::new_base(1u32), Term::new_base(0u32).add_member_of(1u32)),
        Equality::new(Term::new_base(1u32), Term::new_base(5u32).add_member_of(1u32)),
    ];
    let finals = rebase_simplify(&eqs, Rebase);
    assert_eq!(finals.len(), 2);
    assert!(finals[0].same_as(&Equality::new(Term::new_base(100u32), Term::new_base(500u32))));
    assert!(finals[1].same_as(&Equality::new(Term::new_base(100u32), Term::new_base(501u32))));
    for f in &finals {
        assert!(f.bases().len() == 2);
    }
}

#[test]
fn rebase_simplify_drops_contradictions() {
    let eqs = vec![
        Equality::new(Term::new_base(1u32), Term::new_base(0u32).add_member_of(1u32)),
        Equality::new(Term::new_base(1u32), Term::new_base(5u32).add_member_of(2u32)),
    ];
    assert!(rebase_simplify(&eqs, Rebase).is_empty());
}

#[test]
fn pieces_of_a_term() {
    let t: Term<u32, u32> = Term::new_base(1).add_member_of(4).add_ref_of();
    assert_eq!(t.pieces(), vec![Piece::RefOpen, Piece::Open, Piece::Base, Piece::Close, Piece::MemberClose(4)]);
    let u: Term<u32, u32> = Term::new_base(1).add_contains_at(2).add_downcast(None, 3).add_upcast(Some(7), 5).add_unknown();
    assert_eq!(
        u.pieces(),
        vec![
            Piece::UnknownOpen,
            Piece::UpcastOpen(5),
            Piece::Open,
            Piece::ContainsOpen(2),
            Piece::Base,
            Piece::Close,
            Piece::Close,
            Piece::DowncastClose(3),
            Piece::ContainsClose,
        ]
    );
    let b: Term<u32, u32> = Term::new_base(1).add_deref_of();
    assert_eq!(b.pieces(), vec![Piece::DerefOpen, Piece::Base, Piece::Close]);
    assert_eq!(Term::<u32, u32>::new_base(1).pieces(), vec![Piece::Base]);
}
