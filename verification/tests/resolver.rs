use paralegal::algebra::{Equality, Term, TermS};
use paralegal::resolver::{
    mir_term, AggregateKind, Body, Operand, Place, PlaceElem, PlaceResolver, Rvalue, VariableGenerator,
};

fn place(local: u32, projection: Vec<PlaceElem>) -> Place {
    Place { local, projection }
}

#[test]
fn variable_generator_counts_up() {
    let mut g = VariableGenerator::new(7);
    assert_eq!(g.generate(), 7);
    assert_eq!(g.generate(), 8);
    let mut d = VariableGenerator::default();
    assert_eq!(d.generate(), 0);
}

#[test]
fn place_terms() {
    let p = place(3, vec![PlaceElem::Deref, PlaceElem::Field(2), PlaceElem::Downcast(None, 1)]);
    let t = mir_term(&p);
    assert_eq!(
        t,
        Term::new_base(3u32).add_deref_of().add_member_of(2).add_downcast(None, 1)
    );
    let w = Term::<u32, u32>::new_base(0).wrap_in_elem(PlaceElem::Field(4));
    assert_eq!(w.kind(), TermS::MemberOf(4));
}

fn chain_body() -> Body {
    Body {
        local_decls: 3,
        assignments: vec![
            (place(1, vec![]), Rvalue::Ref(place(0, vec![]))),
            (place(2, vec![]), Rvalue::Use(Operand::Copy(place(1, vec![PlaceElem::Deref])))),
        ],
    }
}

#[test]
fn construct_reads_assignments() {
    let r = PlaceResolver::construct(&chain_body());
    let eqs = r.equations();
    assert_eq!(eqs.len(), 2);
    assert!(eqs[0].same_as(&Equality::new(Term::new_base(1u32), Term::new_base(0u32).add_ref_of())));
    assert!(eqs[1].same_as(&Equality::new(Term::new_base(2u32), Term::new_base(1u32).add_deref_of())));
}

#[test]
fn construct_skips_repeated_equations() {
    let body = Body {
        local_decls: 2,
        assignments: vec![
            (place(1, vec![]), Rvalue::Use(Operand::Move(place(0, vec![])))),
            (place(0, vec![]), Rvalue::Use(Operand::Copy(place(1, vec![])))),
            (place(1, vec![]), Rvalue::Other),
        ],
    };
    let r = PlaceResolver::construct(&body);
    assert_eq!(r.equations().len(), 1);
}

#[test]
fn construct_reads_operands_and_aggregates() {
    let body = Body {
        local_decls: 6,
        assignments: vec![
            (
                place(3, vec![]),
                Rvalue::BinaryOp(Operand::Copy(place(1, vec![])), Operand::Constant),
            ),
            (
                place(4, vec![]),
                Rvalue::Aggregate(
                    AggregateKind::Tuple,
                    vec![Operand::Copy(place(1, vec![])), Operand::Constant, Operand::Move(place(2, vec![]))],
                ),
            ),
            (
                place(5, vec![]),
                Rvalue::Aggregate(AggregateKind::Adt(1), vec![Operand::Copy(place(0, vec![])), Operand::Copy(place(2, vec![]))]),
            ),
            (place(0, vec![]), Rvalue::Aggregate(AggregateKind::Other, vec![Operand::Copy(place(2, vec![]))])),
        ],
    };
    let r = PlaceResolver::construct(&body);
    let eqs = r.equations();
    assert_eq!(eqs.len(), 4);
    assert!(eqs[0].same_as(&Equality::new(Term::new_base(3u32), Term::new_base(1u32))));
    assert!(eqs[1].same_as(&Equality::new(Term::new_base(4u32), Term::new_base(1u32).add_contains_at(0))));
    assert!(eqs[2].same_as(&Equality::new(Term::new_base(4u32), Term::new_base(2u32).add_contains_at(2))));
    assert!(eqs[3].same_as(&Equality::new(Term::new_base(5u32), Term::new_base(0u32).add_contains_at(0))));
}

#[test]
fn resolve_through_reference_and_dereference() {
    let mut r = PlaceResolver::construct(&chain_body());
    let res = r.try_resolve(&place(2, vec![]), &place(0, vec![]));
    assert_eq!(res, Some(Term::new_base(())));
    let again = r.resolve(&place(2, vec![]), &place(0, vec![]));
    assert_eq!(again, Term::new_base(()));
}

#[test]
fn resolve_through_a_field() {
    let body = Body {
        local_decls: 3,
        assignments: vec![
            (place(1, vec![]), Rvalue::Aggregate(AggregateKind::Tuple, vec![Operand::Copy(place(0, vec![]))])),
            (place(2, vec![]), Rvalue::Use(Operand::Copy(place(1, vec![PlaceElem::Field(0)])))),
        ],
    };
    let mut r = PlaceResolver::construct(&body);
    assert_eq!(r.try_resolve(&place(2, vec![]), &place(0, vec![])), Some(Term::new_base(())));
}

#[test]
fn resolve_finds_nothing_across_different_fields() {
    let body = Body {
        local_decls: 3,
        assignments: vec![
            (place(1, vec![]), Rvalue::Aggregate(AggregateKind::Tuple, vec![Operand::Copy(place(0, vec![]))])),
            (place(2, vec![]), Rvalue::Use(Operand::Copy(place(1, vec![PlaceElem::Field(1)])))),
        ],
    };
    let mut r = PlaceResolver::construct(&body);
    assert_eq!(r.try_resolve(&place(2, vec![]), &place(0, vec![])), None);
}

#[test]
fn resolve_to_a_projection() {
    // _1 = &_0.3: _1 in terms of _0 is a reference to field 3.
    let body = Body {
        local_decls: 2,
        assignments: vec![(place(1, vec![]), Rvalue::Ref(place(0, vec![PlaceElem::Field(3)])))],
    };
    let mut r = PlaceResolver::construct(&body);
    assert_eq!(
        r.try_resolve(&place(1, vec![]), &place(0, vec![])),
        Some(Term::new_base(()).add_member_of(3).add_ref_of())
    );
}
