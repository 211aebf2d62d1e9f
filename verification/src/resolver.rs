use vstd::prelude::*;
use vstd::laws_eq::obeys_concrete_eq;

use crate::algebra::{solve,
    eqs_view, spec_solve, same_equation, terms_view, EqV, Either, Equality, Inspect, Symbol, Term,
    TermS, TermV, VariantIdx,
};

verus! {

/// A local variable of a function body, by index.
pub type Local = u32;

/// A field of a struct or a variant, by index.
pub type Field = u32;

/// The largest index a local or a field can have.
pub const INDEX_MAX: u32 = 0xFFFF_FF00;

/// One projection of a place.
#[derive(Clone, Copy, Debug, PartialEq, Eq, Hash)]
pub enum PlaceElem {
    Deref,
    Field(Field),
    Index(Local),
    ConstantIndex,
    Subslice,
    Downcast(Option<Symbol>, VariantIdx),
    OpaqueCast,
    Subtype,
}

/// A memory location: a local with projections applied to it, innermost first.
#[derive(Clone, Debug, PartialEq, Eq, Hash)]
pub struct Place {
    pub local: Local,
    pub projection: Vec<PlaceElem>,
}

/// An operand of an assignment.
#[derive(Clone, Debug, PartialEq, Eq)]
pub enum Operand {
    Copy(Place),
    Move(Place),
    Constant,
}

/// What kind of value an aggregate builds.
#[derive(Clone, Copy, Debug, PartialEq, Eq)]
pub enum AggregateKind {
    /// A struct or enum variant with this many fields.
    Adt(usize),
    Tuple,
    Other,
}

/// The right side of an assignment.
#[derive(Clone, Debug, PartialEq, Eq)]
pub enum Rvalue {
    Use(Operand),
    UnaryOp(Operand),
    Ref(Place),
    BinaryOp(Operand, Operand),
    CheckedBinaryOp(Operand, Operand),
    Aggregate(AggregateKind, Vec<Operand>),
    Other,
}

/// A function body: how many locals it declares, and its assignments.
#[derive(Clone, Debug)]
pub struct Body {
    pub local_decls: usize,
    pub assignments: Vec<(Place, Rvalue)>,
}

/// A term over locals.
pub type MirTerm = Term<Local, Field>;

/// An equation between terms over locals.
pub type MirEquation = Equality<Local, Field>;

/// The step a projection applies.
pub open spec fn elem_step(e: PlaceElem) -> TermS<Field> {
    match e {
        PlaceElem::Field(f) => TermS::MemberOf(f),
        PlaceElem::Deref => TermS::DerefOf,
        PlaceElem::Downcast(s, v) => TermS::Downcast(s, v),
        _ => TermS::Unknown,
    }
}

/// Projections that have a step: field, dereference and downcast.
pub open spec fn supported_elem(e: PlaceElem) -> bool {
    e is Field || e is Deref || e is Downcast
}

/// Every projection of the place has a step.
pub open spec fn supported_place(p: Place) -> bool {
    forall|i: int| 0 <= i < p.projection@.len() ==> supported_elem(#[trigger] p.projection@[i])
}

/// The term of a place: its local, with the step of each projection.
pub open spec fn place_term(p: Place) -> TermV<Local, Field> {
    (p.local, Seq::new(p.projection@.len(), |i: int| elem_step(p.projection@[i])))
}

/// The place an operand reads, if any.
pub open spec fn operand_place(op: Operand) -> Option<Place> {
    match op {
        Operand::Copy(p) => Some(p),
        Operand::Move(p) => Some(p),
        Operand::Constant => None,
    }
}

/// The terms an operand contributes.
pub open spec fn operand_terms(op: Operand) -> Seq<TermV<Local, Field>> {
    match operand_place(op) {
        Some(p) => seq![place_term(p)],
        None => Seq::empty(),
    }
}

/// For the first `k` operands of an aggregate, the term of each place
/// operand, built into the aggregate at the operand's position.
pub open spec fn aggregate_terms(ops: Seq<Operand>, k: nat) -> Seq<TermV<Local, Field>>
    decreases k,
{
    if k == 0 {
        Seq::empty()
    } else {
        aggregate_terms(ops, (k - 1) as nat) + match operand_place(ops[k - 1]) {
            Some(p) => seq![(place_term(p).0, place_term(p).1.push(TermS::ContainsAt((k - 1) as Field)))],
            None => Seq::empty(),
        }
    }
}

/// How many operands of an aggregate contribute terms.
pub open spec fn aggregate_count(kind: AggregateKind, n: nat) -> nat {
    match kind {
        AggregateKind::Adt(fields) => if fields < n { fields as nat } else { n },
        AggregateKind::Tuple => n,
        AggregateKind::Other => 0,
    }
}

/// The terms that the assigned place is equal to.
pub open spec fn rvalue_terms(rv: Rvalue) -> Seq<TermV<Local, Field>> {
    match rv {
        Rvalue::Use(op) => operand_terms(op),
        Rvalue::UnaryOp(op) => operand_terms(op),
        Rvalue::Ref(p) => seq![(place_term(p).0, place_term(p).1.push(TermS::RefOf))],
        Rvalue::BinaryOp(a, b) => operand_terms(a) + operand_terms(b),
        Rvalue::CheckedBinaryOp(a, b) => operand_terms(a) + operand_terms(b),
        Rvalue::Aggregate(kind, ops) => aggregate_terms(ops@, aggregate_count(kind, ops@.len())),
        Rvalue::Other => Seq::empty(),
    }
}

/// The operand reads a place whose projections all have steps, if any.
pub open spec fn supported_operand(op: Operand) -> bool {
    match operand_place(op) {
        Some(p) => supported_place(p),
        None => true,
    }
}

/// Every place of the right side has supported projections, and an aggregate
/// has no more contributing operands than there are field indices.
pub open spec fn supported_rvalue(rv: Rvalue) -> bool {
    match rv {
        Rvalue::Use(op) => supported_operand(op),
        Rvalue::UnaryOp(op) => supported_operand(op),
        Rvalue::Ref(p) => supported_place(p),
        Rvalue::BinaryOp(a, b) => supported_operand(a) && supported_operand(b),
        Rvalue::CheckedBinaryOp(a, b) => supported_operand(a) && supported_operand(b),
        Rvalue::Aggregate(kind, ops) => {
            &&& aggregate_count(kind, ops@.len()) <= INDEX_MAX + 1
            &&& forall|i: int| 0 <= i < aggregate_count(kind, ops@.len()) ==> supported_operand(#[trigger] ops@[i])
        },
        Rvalue::Other => true,
    }
}

/// `s` with `e` added unless the same equation is already there.
pub open spec fn eq_insert(s: Seq<EqV<Local, Field>>, e: EqV<Local, Field>) -> Seq<EqV<Local, Field>> {
    if exists|i: int| 0 <= i < s.len() && same_equation(#[trigger] s[i], e) { s } else { s.push(e) }
}

/// `s` with the equations between `lhs` and each of `rhs`, in order.
pub open spec fn extend_eqs(
    s: Seq<EqV<Local, Field>>,
    lhs: TermV<Local, Field>,
    rhs: Seq<TermV<Local, Field>>,
) -> Seq<EqV<Local, Field>>
    decreases rhs.len(),
{
    if rhs.len() == 0 {
        s
    } else {
        eq_insert(extend_eqs(s, lhs, rhs.drop_last()), (lhs, rhs.last()))
    }
}

/// The equations of a sequence of assignments, in order, without repeats.
pub open spec fn extracted(assignments: Seq<(Place, Rvalue)>) -> Seq<EqV<Local, Field>>
    decreases assignments.len(),
{
    if assignments.len() == 0 {
        Seq::empty()
    } else {
        let a = assignments.last();
        extend_eqs(extracted(assignments.drop_last()), place_term(a.0), rvalue_terms(a.1))
    }
}

/// Every assignment of the body can be read as equations.
pub open spec fn supported_body(body: Body) -> bool {
    forall|i: int| 0 <= i < body.assignments@.len() ==> {
        &&& supported_place(#[trigger] body.assignments@[i].0)
        &&& supported_rvalue(body.assignments@[i].1)
    }
}

impl<B> Term<B, Field> {
    /// Applies the step of a projection; only field, dereference and
    /// downcast projections have one.
    pub fn wrap_in_elem(self, elem: PlaceElem) -> (r: Self)
        requires
            supported_elem(elem),
        ensures
            r@ == (self@.0, self@.1.push(elem_step(elem))),
    {
        match elem {
            PlaceElem::Field(f) => self.add_member_of(f),
            PlaceElem::Deref => self.add_deref_of(),
            PlaceElem::Downcast(s, v) => self.add_downcast(s, v),
            _ => {
                proof {
                    assert(false);
                }
                self
            },
        }
    }
}

/// The term of a place.
pub fn mir_term(p: &Place) -> (r: MirTerm)
    requires
        supported_place(*p),
    ensures
        r@ == place_term(*p),
{
    let mut term: MirTerm = Term::new_base(p.local);
    let mut i: usize = 0;
    while i < p.projection.len()
        invariant
            supported_place(*p),
            i <= p.projection.len(),
            term@ == (p.local, place_term(*p).1.take(i as int)),
        decreases p.projection.len() - i,
    {
        term = term.wrap_in_elem(p.projection[i]);
        i = i + 1;
        assert(term@.1 =~= place_term(*p).1.take(i as int));
    }
    assert(place_term(*p).1.take(p.projection.len() as int) =~= place_term(*p).1);
    term
}

fn operand_term(op: &Operand) -> (r: Option<MirTerm>)
    requires
        supported_operand(*op),
    ensures
        match operand_place(*op) {
            Some(p) => r matches Some(t) && t@ == place_term(p),
            None => r is None,
        },
{
    match op {
        Operand::Copy(p) => Some(mir_term(p)),
        Operand::Move(p) => Some(mir_term(p)),
        Operand::Constant => None,
    }
}

fn push_operand(v: &mut Vec<MirTerm>, op: &Operand)
    requires
        supported_operand(*op),
    ensures
        terms_view(final(v)@) == terms_view(old(v)@) + operand_terms(*op),
{
    let ghost before = v@;
    match operand_term(op) {
        Some(t) => {
            v.push(t);
            assert(terms_view(v@) =~= terms_view(before) + operand_terms(*op));
        },
        None => {
            assert(terms_view(v@) =~= terms_view(before) + operand_terms(*op));
        },
    }
}

fn rvalue_terms_exec(rv: &Rvalue) -> (r: Vec<MirTerm>)
    requires
        supported_rvalue(*rv),
    ensures
        terms_view(r@) == rvalue_terms(*rv),
{
    let mut r: Vec<MirTerm> = Vec::new();
    assert(terms_view(r@) =~= Seq::empty());
    match rv {
        Rvalue::Use(op) => push_operand(&mut r, op),
        Rvalue::UnaryOp(op) => push_operand(&mut r, op),
        Rvalue::Ref(p) => {
            let t = mir_term(p).add_ref_of();
            r.push(t);
            assert(terms_view(r@) =~= rvalue_terms(*rv));
        },
        Rvalue::BinaryOp(a, b) | Rvalue::CheckedBinaryOp(a, b) => {
            push_operand(&mut r, a);
            push_operand(&mut r, b);
        },
        Rvalue::Aggregate(kind, ops) => {
            let n: usize = match kind {
                AggregateKind::Adt(fields) => if *fields < ops.len() { *fields } else { ops.len() },
                AggregateKind::Tuple => ops.len(),
                AggregateKind::Other => 0,
            };
            let mut i: usize = 0;
            while i < n
                invariant
                    supported_rvalue(*rv),
                    *rv == Rvalue::Aggregate(*kind, *ops),
                    n == aggregate_count(*kind, ops@.len()),
                    n <= ops.len(),
                    i <= n,
                    terms_view(r@) == aggregate_terms(ops@, i as nat),
                decreases n - i,
            {
                let ghost before = r@;
                assert(supported_operand(ops@[i as int]));
                match operand_term(&ops[i]) {
                    Some(t) => {
                        let t2 = t.add_contains_at(i as Field);
                        r.push(t2);
                        assert(terms_view(r@) =~= terms_view(before).push(t2@));
                    },
                    None => {},
                }
                i = i + 1;
                assert(terms_view(r@) =~= aggregate_terms(ops@, i as nat));
            }
        },
        Rvalue::Other => {},
    }
    r
}

/// `v` with `e` added unless the same equation is already there.
fn insert_equation(v: &mut Vec<MirEquation>, e: MirEquation)
    ensures
        eqs_view(final(v)@) == eq_insert(eqs_view(old(v)@), e@),
{
    proof {
        broadcast use vstd::laws_eq::group_laws_eq;
        assert(obeys_concrete_eq::<u32>());
    }
    let ghost ev = eqs_view(v@);
    let mut i: usize = 0;
    while i < v.len()
        invariant
            obeys_concrete_eq::<u32>(),
            ev == eqs_view(v@),
            v@ == old(v)@,
            i <= v.len(),
            forall|j: int| 0 <= j < i ==> !same_equation(#[trigger] ev[j], e@),
        decreases v.len() - i,
    {
        if v[i].same_as(&e) {
            assert(same_equation(ev[i as int], e@));
            return;
        }
        i = i + 1;
    }
    v.push(e);
    assert(eqs_view(v@) =~= ev.push(e@));
}

/// Collects the equations of a body's assignments.
struct Extractor {
    equations: Vec<MirEquation>,
}

impl Extractor {
    fn new() -> (r: Self)
        ensures
            eqs_view(r.equations@) == Seq::<EqV<Local, Field>>::empty(),
    {
        let r = Extractor { equations: Vec::new() };
        assert(eqs_view(r.equations@) =~= Seq::<EqV<Local, Field>>::empty());
        r
    }

    /// Records that the assigned place equals each place the right side
    /// is made of.
    fn visit_assign(&mut self, place: &Place, rvalue: &Rvalue)
        requires
            supported_place(*place),
            supported_rvalue(*rvalue),
        ensures
            eqs_view(final(self).equations@) == extend_eqs(
                eqs_view(old(self).equations@),
                place_term(*place),
                rvalue_terms(*rvalue),
            ),
    {
        let lhs = mir_term(place);
        let rhs_s = rvalue_terms_exec(rvalue);
        let ghost rv = terms_view(rhs_s@);
        let ghost start = eqs_view(self.equations@);
        let mut i: usize = 0;
        while i < rhs_s.len()
            invariant
                rv == terms_view(rhs_s@),
                lhs@ == place_term(*place),
                i <= rhs_s.len(),
                eqs_view(self.equations@) == extend_eqs(start, lhs@, rv.take(i as int)),
            decreases rhs_s.len() - i,
        {
            assert(rv.take(i + 1).drop_last() =~= rv.take(i as int));
            let e = Equality::new(lhs.duplicate(), rhs_s[i].duplicate());
            insert_equation(&mut self.equations, e);
            i = i + 1;
        }
        assert(rv.take(rhs_s.len() as int) =~= rv);
    }

    fn visit_body(&mut self, body: &Body)
        requires
            supported_body(*body),
            eqs_view(old(self).equations@) == Seq::<EqV<Local, Field>>::empty(),
        ensures
            eqs_view(final(self).equations@) == extracted(body.assignments@),
    {
        let mut i: usize = 0;
        while i < body.assignments.len()
            invariant
                supported_body(*body),
                i <= body.assignments.len(),
                eqs_view(self.equations@) == extracted(body.assignments@.take(i as int)),
            decreases body.assignments.len() - i,
        {
            assert(body.assignments@.take(i + 1).drop_last() =~= body.assignments@.take(i as int));
            assert(supported_place(body.assignments@[i as int].0));
            self.visit_assign(&body.assignments[i].0, &body.assignments[i].1);
            i = i + 1;
        }
        assert(body.assignments@.take(body.assignments.len() as int) =~= body.assignments@);
    }
}

/// Hands out fresh locals, counting up.
pub struct VariableGenerator(Local);

impl View for VariableGenerator {
    type V = Local;

    closed spec fn view(&self) -> Local {
        self.0
    }
}

impl VariableGenerator {
    /// A generator whose first local is `t`.
    pub fn new(t: Local) -> (r: Self)
        ensures
            r@ == t,
    {
        Self(t)
    }

    /// The next fresh local.
    pub fn generate(&mut self) -> (r: Local)
        requires
            old(self)@ < INDEX_MAX,
        ensures
            r == old(self)@,
            final(self)@ == old(self)@ + 1,
    {
        let t = self.0;
        self.0 = self.0 + 1;
        t
    }
}

impl Default for VariableGenerator {
    fn default() -> (r: Self)
        ensures
            r@ == 0,
    {
        Self::new(0)
    }
}

/// Tells the target local apart from every other local, which is a variable.
pub struct TargetInspector {
    pub target: Local,
}

impl Inspect<Local, (), Local> for TargetInspector {
    open spec fn spec_inspect(&self, b: Local) -> Either<(), Local> {
        if b == self.target { Either::Left(()) } else { Either::Right(b) }
    }

    fn inspect(&self, b: &Local) -> (r: Either<(), Local>) {
        if *b == self.target { Either::Left(()) } else { Either::Right(*b) }
    }
}

/// The equations used to resolve `from` to `to`, with `t` the fresh local
/// standing for `to` and `t + 1` the one standing for `from`.
pub open spec fn resolution_equations(
    eqs: Seq<EqV<Local, Field>>,
    from: Place,
    to: Place,
    t: Local,
) -> Seq<EqV<Local, Field>> {
    eqs + seq![
        (place_term(to), (t, Seq::<TermS<Field>>::empty())),
        (place_term(from), ((t + 1) as Local, Seq::<TermS<Field>>::empty())),
    ]
}

/// The ways of reaching `from` from `to` that solving finds.
pub open spec fn resolutions(eqs: Seq<EqV<Local, Field>>, from: Place, to: Place, t: Local) -> Seq<TermV<(), Field>> {
    spec_solve(TargetInspector { target: t }, resolution_equations(eqs, from, to, t), (t + 1) as Local)
}

/// Resolves places of one body in terms of one another, by the equations
/// its assignments give.
pub struct PlaceResolver {
    equations: Vec<MirEquation>,
    variable_generator: VariableGenerator,
}

impl View for PlaceResolver {
    /// The equations, and the next fresh local.
    type V = (Seq<EqV<Local, Field>>, Local);

    closed spec fn view(&self) -> (Seq<EqV<Local, Field>>, Local) {
        (eqs_view(self.equations@), self.variable_generator@)
    }
}

impl PlaceResolver {
    /// The equations of the body.
    pub fn equations(&self) -> (r: &[MirEquation])
        ensures
            eqs_view(r@) == self@.0,
    {
        self.equations.as_slice()
    }

    /// Reads the equations off the body's assignments; fresh locals start
    /// after the body's own.
    pub fn construct(body: &Body) -> (r: Self)
        requires
            supported_body(*body),
            body.local_decls <= INDEX_MAX,
        ensures
            r@ == (extracted(body.assignments@), body.local_decls as Local),
    {
        let mut extractor = Extractor::new();
        extractor.visit_body(body);
        let equations = extractor.equations;
        let variable_generator = VariableGenerator::new(body.local_decls as Local);
        Self { equations, variable_generator }
    }

    /// `from` as a term over `to`, if solving finds one.
    pub fn try_resolve(&mut self, from: &Place, to: &Place) -> (r: Option<Term<(), Field>>)
        requires
            supported_place(*from),
            supported_place(*to),
            old(self)@.1 + 2 <= INDEX_MAX,
            resolutions(old(self)@.0, *from, *to, old(self)@.1).len() <= 1,
        ensures
            final(self)@ == (old(self)@.0, (old(self)@.1 + 2) as Local),
            match r {
                Some(t) => resolutions(old(self)@.0, *from, *to, old(self)@.1) == seq![t@],
                None => resolutions(old(self)@.0, *from, *to, old(self)@.1).len() == 0,
            },
    {
        proof {
            broadcast use vstd::laws_eq::group_laws_eq;
        assert(obeys_concrete_eq::<u32>());
        }
        let target_term = mir_term(to);
        let target = self.variable_generator.generate();
        let source_term = mir_term(from);
        let source = self.variable_generator.generate();
        let mut equations: Vec<MirEquation> = Vec::new();
        let mut i: usize = 0;
        while i < self.equations.len()
            invariant
                i <= self.equations.len(),
                eqs_view(equations@) == eqs_view(self.equations@).take(i as int),
            decreases self.equations.len() - i,
        {
            let copy = self.equations[i].duplicate();
            let ghost before = equations@;
            equations.push(copy);
            assert(eqs_view(equations@) =~= eqs_view(before).push(copy@));
            i = i + 1;
            assert(eqs_view(equations@) =~= eqs_view(self.equations@).take(i as int));
        }
        assert(eqs_view(self.equations@).take(self.equations.len() as int) =~= eqs_view(self.equations@));
        let ghost base_eqs = eqs_view(equations@);
        equations.push(Equality::new(target_term, Term::new_base(target)));
        equations.push(Equality::new(source_term, Term::new_base(source)));
        assert(eqs_view(equations@) =~= resolution_equations(old(self)@.0, *from, *to, target));
        let inspector = TargetInspector { target };
        let mut results = solve(&equations, &source, inspector);
        let ret = results.pop();
        proof {
            let res = resolutions(old(self)@.0, *from, *to, target);
            if res.len() == 1 {
                assert(terms_view(results@) =~= res.drop_last());
            }
        }
        ret
    }

    /// `from` as a term over `to`; solving must find one.
    pub fn resolve(&mut self, from: &Place, to: &Place) -> (r: Term<(), Field>)
        requires
            supported_place(*from),
            supported_place(*to),
            old(self)@.1 + 2 <= INDEX_MAX,
            resolutions(old(self)@.0, *from, *to, old(self)@.1).len() == 1,
        ensures
            final(self)@ == (old(self)@.0, (old(self)@.1 + 2) as Local),
            resolutions(old(self)@.0, *from, *to, old(self)@.1) == seq![r@],
    {
        match self.try_resolve(from, to) {
            Some(t) => t,
            None => {
                proof {
                    assert(false);
                }
                Term::new_base(())
            },
        }
    }
}

/// `s` holds the equation `e`, whichever way round.
pub open spec fn has_eq(s: Seq<EqV<Local, Field>>, e: EqV<Local, Field>) -> bool {
    exists|i: int| 0 <= i < s.len() && same_equation(#[trigger] s[i], e)
}

/// `b` starts with `a`.
pub open spec fn starts_with<T>(a: Seq<T>, b: Seq<T>) -> bool {
    a.len() <= b.len() && forall|i: int| 0 <= i < a.len() ==> #[trigger] b[i] == a[i]
}

proof fn lemma_has_eq_kept(a: Seq<EqV<Local, Field>>, b: Seq<EqV<Local, Field>>, e: EqV<Local, Field>)
    requires
        starts_with(a, b),
        has_eq(a, e),
    ensures
        has_eq(b, e),
{
    let i = choose|i: int| 0 <= i < a.len() && same_equation(#[trigger] a[i], e);
    assert(b[i] == a[i]);
}

proof fn lemma_extend_eqs(s: Seq<EqV<Local, Field>>, lhs: TermV<Local, Field>, rhs: Seq<TermV<Local, Field>>)
    ensures
        starts_with(s, extend_eqs(s, lhs, rhs)),
        forall|j: int| 0 <= j < rhs.len() ==> has_eq(extend_eqs(s, lhs, rhs), (lhs, #[trigger] rhs[j])),
    decreases rhs.len(),
{
    if rhs.len() > 0 {
        let d = rhs.drop_last();
        let a = extend_eqs(s, lhs, d);
        lemma_extend_eqs(s, lhs, d);
        let e = (lhs, rhs.last());
        let r = eq_insert(a, e);
        assert(starts_with(a, r));
        assert(has_eq(r, e)) by {
            if !(exists|i: int| 0 <= i < a.len() && same_equation(#[trigger] a[i], e)) {
                assert(r[a.len() as int] == e);
                assert(same_equation(r[a.len() as int], e));
            }
        }
        assert forall|j: int| 0 <= j < rhs.len() implies has_eq(r, (lhs, #[trigger] rhs[j])) by {
            if j < d.len() {
                assert(d[j] == rhs[j]);
                lemma_has_eq_kept(a, r, (lhs, rhs[j]));
            }
        }
        assert forall|i: int| 0 <= i < s.len() implies #[trigger] r[i] == s[i] by {
            assert(a[i] == s[i]);
        }
    }
}

proof fn lemma_extracted_prefix(asg: Seq<(Place, Rvalue)>, k: int)
    requires
        0 <= k <= asg.len(),
    ensures
        starts_with(extracted(asg.take(k)), extracted(asg)),
    decreases asg.len() - k,
{
    if k < asg.len() {
        lemma_extracted_prefix(asg, k + 1);
        let t = asg.take(k + 1);
        assert(t.drop_last() =~= asg.take(k));
        lemma_extend_eqs(extracted(asg.take(k)), place_term(t.last().0), rvalue_terms(t.last().1));
        let a = extracted(asg.take(k));
        let b = extracted(t);
        let c = extracted(asg);
        assert forall|i: int| 0 <= i < a.len() implies #[trigger] c[i] == a[i] by {
            assert(b[i] == a[i]);
        }
    } else {
        assert(asg.take(k) =~= asg);
    }
}

proof fn lemma_extracted_has(asg: Seq<(Place, Rvalue)>, k: int, t: TermV<Local, Field>)
    requires
        0 <= k < asg.len(),
        rvalue_terms(asg[k].1).contains(t),
    ensures
        has_eq(extracted(asg), (place_term(asg[k].0), t)),
{
    let p = asg.take(k + 1);
    assert(p.drop_last() =~= asg.take(k));
    assert(p.last() == asg[k]);
    let rs = rvalue_terms(asg[k].1);
    lemma_extend_eqs(extracted(asg.take(k)), place_term(asg[k].0), rs);
    let j = choose|j: int| 0 <= j < rs.len() && rs[j] == t;
    assert(has_eq(extracted(p), (place_term(asg[k].0), rs[j])));
    lemma_extracted_prefix(asg, k + 1);
    lemma_has_eq_kept(extracted(p), extracted(asg), (place_term(asg[k].0), t));
}

proof fn lemma_aggregate_terms_has(ops: Seq<Operand>, k: nat, i: int, p: Place)
    requires
        0 <= i < k,
        operand_place(ops[i]) == Some(p),
    ensures
        aggregate_terms(ops, k).contains((p.local, place_term(p).1.push(TermS::ContainsAt(i as Field)))),
    decreases k,
{
    let x = (p.local, place_term(p).1.push(TermS::ContainsAt(i as Field)));
    let a = aggregate_terms(ops, (k - 1) as nat);
    if i == k - 1 {
        let t = aggregate_terms(ops, k);
        assert(t[a.len() as int] == x);
    } else {
        lemma_aggregate_terms_has(ops, (k - 1) as nat, i, p);
        let j = choose|j: int| 0 <= j < a.len() && a[j] == x;
        assert(aggregate_terms(ops, k)[j] == x);
    }
}

/// What each assignment `place = rvalue` of a body contributes: the
/// assigned place equals every place the right side reads (both operands of
/// a binary operation), a reference to the place it borrows, and every place
/// operand of an aggregate built in at that operand's position.
pub proof fn lemma_extracted_assignment(asg: Seq<(Place, Rvalue)>, k: int)
    requires
        0 <= k < asg.len(),
    ensures
        ({
            let lhs = place_term(asg[k].0);
            match asg[k].1 {
                Rvalue::Use(op) => forall|p: Place| operand_place(op) == Some(p) ==> has_eq(extracted(asg), (lhs, place_term(p))),
                Rvalue::UnaryOp(op) => forall|p: Place| operand_place(op) == Some(p) ==> has_eq(extracted(asg), (lhs, place_term(p))),
                Rvalue::Ref(p) => has_eq(extracted(asg), (lhs, (p.local, place_term(p).1.push(TermS::RefOf)))),
                Rvalue::BinaryOp(a, b) => {
                    &&& forall|p: Place| operand_place(a) == Some(p) ==> has_eq(extracted(asg), (lhs, place_term(p)))
                    &&& forall|p: Place| operand_place(b) == Some(p) ==> has_eq(extracted(asg), (lhs, place_term(p)))
                },
                Rvalue::CheckedBinaryOp(a, b) => {
                    &&& forall|p: Place| operand_place(a) == Some(p) ==> has_eq(extracted(asg), (lhs, place_term(p)))
                    &&& forall|p: Place| operand_place(b) == Some(p) ==> has_eq(extracted(asg), (lhs, place_term(p)))
                },
                Rvalue::Aggregate(kind, ops) => forall|i: int|
                    0 <= i < aggregate_count(kind, ops@.len()) && operand_place(#[trigger] ops@[i]) is Some
                        ==> has_eq(extracted(asg), (lhs, (
                            operand_place(ops@[i])->0.local,
                            place_term(operand_place(ops@[i])->0).1.push(TermS::ContainsAt(i as Field)),
                        ))),
                Rvalue::Other => true,
            }
        }),
{
    let rts = rvalue_terms(asg[k].1);
    match asg[k].1 {
        Rvalue::Use(op) => {
            assert forall|p: Place| operand_place(op) == Some(p) implies has_eq(extracted(asg), (place_term(asg[k].0), place_term(p))) by {
                assert(rts[0] == place_term(p));
                lemma_extracted_has(asg, k, place_term(p));
            }
        },
        Rvalue::UnaryOp(op) => {
            assert forall|p: Place| operand_place(op) == Some(p) implies has_eq(extracted(asg), (place_term(asg[k].0), place_term(p))) by {
                assert(rts[0] == place_term(p));
                lemma_extracted_has(asg, k, place_term(p));
            }
        },
        Rvalue::Ref(p) => {
            assert(rts[0] == (p.local, place_term(p).1.push(TermS::RefOf)));
            lemma_extracted_has(asg, k, (p.local, place_term(p).1.push(TermS::RefOf)));
        },
        Rvalue::BinaryOp(a, b) => {
            assert forall|p: Place| operand_place(a) == Some(p) implies has_eq(extracted(asg), (place_term(asg[k].0), place_term(p))) by {
                assert(rts[0] == place_term(p));
                lemma_extracted_has(asg, k, place_term(p));
            }
            assert forall|p: Place| operand_place(b) == Some(p) implies has_eq(extracted(asg), (place_term(asg[k].0), place_term(p))) by {
                assert(rts[rts.len() - 1] == place_term(p));
                lemma_extracted_has(asg, k, place_term(p));
            }
        },
        Rvalue::CheckedBinaryOp(a, b) => {
            assert forall|p: Place| operand_place(a) == Some(p) implies has_eq(extracted(asg), (place_term(asg[k].0), place_term(p))) by {
                assert(rts[0] == place_term(p));
                lemma_extracted_has(asg, k, place_term(p));
            }
            assert forall|p: Place| operand_place(b) == Some(p) implies has_eq(extracted(asg), (place_term(asg[k].0), place_term(p))) by {
                assert(rts[rts.len() - 1] == place_term(p));
                lemma_extracted_has(asg, k, place_term(p));
            }
        },
        Rvalue::Aggregate(kind, ops) => {
            assert forall|i: int|
                0 <= i < aggregate_count(kind, ops@.len()) && operand_place(#[trigger] ops@[i]) is Some
                implies has_eq(extracted(asg), (place_term(asg[k].0), (
                    operand_place(ops@[i])->0.local,
                    place_term(operand_place(ops@[i])->0).1.push(TermS::ContainsAt(i as Field)),
                ))) by {
                let p = operand_place(ops@[i])->0;
                lemma_aggregate_terms_has(ops@, aggregate_count(kind, ops@.len()), i, p);
                lemma_extracted_has(asg, k, (p.local, place_term(p).1.push(TermS::ContainsAt(i as Field))));
            }
        },
        Rvalue::Other => {},
    }
}

} // verus!
