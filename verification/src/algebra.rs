use vstd::prelude::*;
use vstd::laws_eq::obeys_concrete_eq;

verus! {

/// An interned name, as the compiler hands it out.
pub type Symbol = u32;

/// The index of an enum variant.
pub type VariantIdx = usize;

/// One step of a term: an operation applied to the term below it.
#[derive(Clone, Copy, Debug, PartialEq, Eq, Hash)]
pub enum TermS<F> {
    RefOf,
    DerefOf,
    MemberOf(F),
    ContainsAt(F),
    Downcast(Option<Symbol>, VariantIdx),
    Upcast(Option<Symbol>, VariantIdx),
    Unknown,
}

/// What happens when two adjacent steps meet.
#[derive(Clone, Copy, Debug, PartialEq, Eq, Hash)]
pub enum Cancel<F> {
    NonOverlappingField(F, F),
    NonOverlappingVariant(VariantIdx, VariantIdx),
    Cancels,
    Remains,
}

/// The inverse of a step.
pub open spec fn spec_flip<F>(t: TermS<F>) -> TermS<F> {
    match t {
        TermS::RefOf => TermS::DerefOf,
        TermS::DerefOf => TermS::RefOf,
        TermS::MemberOf(f) => TermS::ContainsAt(f),
        TermS::ContainsAt(f) => TermS::MemberOf(f),
        TermS::Downcast(s, v) => TermS::Upcast(s, v),
        TermS::Upcast(s, v) => TermS::Downcast(s, v),
        TermS::Unknown => TermS::Unknown,
    }
}

/// The outcome of meeting step `a` followed by step `b`.
pub open spec fn spec_cancel<F>(a: TermS<F>, b: TermS<F>) -> Cancel<F> {
    match (a, b) {
        (TermS::Unknown, _) => Cancel::Remains,
        (_, TermS::Unknown) => Cancel::Remains,
        (TermS::MemberOf(f), TermS::ContainsAt(g)) if f != g => Cancel::NonOverlappingField(f, g),
        (TermS::ContainsAt(g), TermS::MemberOf(f)) if f != g => Cancel::NonOverlappingField(f, g),
        (TermS::Downcast(_, v1), TermS::Upcast(_, v2)) if v1 != v2 => Cancel::NonOverlappingVariant(v1, v2),
        (TermS::Upcast(_, v2), TermS::Downcast(_, v1)) if v1 != v2 => Cancel::NonOverlappingVariant(v1, v2),
        _ => if a == spec_flip(b) { Cancel::Cancels } else { Cancel::Remains },
    }
}

fn eq_symbol(a: Option<Symbol>, b: Option<Symbol>) -> (r: bool)
    ensures
        r == (a == b),
{
    match (a, b) {
        (Some(x), Some(y)) => x == y,
        (None, None) => true,
        _ => false,
    }
}

fn eq_field<F: Copy + PartialEq>(a: F, b: F) -> (r: bool)
    requires
        obeys_concrete_eq::<F>(),
    ensures
        r == (a == b),
{
    proof {
        reveal(obeys_concrete_eq);
    }
    a == b
}

impl<F: Copy> TermS<F> {
    /// Whether two steps are the same step.
    pub fn same_as(&self, other: &Self) -> (r: bool)
        where F: PartialEq
        requires
            obeys_concrete_eq::<F>(),
        ensures
            r == (*self == *other),
    {
        match (*self, *other) {
            (TermS::RefOf, TermS::RefOf) => true,
            (TermS::DerefOf, TermS::DerefOf) => true,
            (TermS::MemberOf(f), TermS::MemberOf(g)) => eq_field(f, g),
            (TermS::ContainsAt(f), TermS::ContainsAt(g)) => eq_field(f, g),
            (TermS::Downcast(s, v), TermS::Downcast(t, w)) => eq_symbol(s, t) && v == w,
            (TermS::Upcast(s, v), TermS::Upcast(t, w)) => eq_symbol(s, t) && v == w,
            (TermS::Unknown, TermS::Unknown) => true,
            _ => false,
        }
    }

    /// The inverse step: a reference undoes a dereference, a field
    /// projection undoes building a value at that field, a downcast undoes
    /// an upcast; `Unknown` stays unknown.
    pub fn flip(self) -> (r: Self)
        ensures
            r == spec_flip(self),
    {
        match self {
            TermS::RefOf => TermS::DerefOf,
            TermS::DerefOf => TermS::RefOf,
            TermS::MemberOf(f) => TermS::ContainsAt(f),
            TermS::ContainsAt(f) => TermS::MemberOf(f),
            TermS::Downcast(s, v) => TermS::Upcast(s, v),
            TermS::Upcast(s, v) => TermS::Downcast(s, v),
            TermS::Unknown => TermS::Unknown,
        }
    }

    /// What happens when `self` is directly followed by `other`: the two
    /// cancel out, they contradict each other (different fields or
    /// different variants), or they remain.
    pub fn cancel(self, other: Self) -> (r: Cancel<F>)
        where F: PartialEq
        requires
            obeys_concrete_eq::<F>(),
        ensures
            r == spec_cancel(self, other),
    {
        match (self, other) {
            (TermS::Unknown, _) | (_, TermS::Unknown) => { return Cancel::Remains; }
            (TermS::MemberOf(f), TermS::ContainsAt(g)) | (TermS::ContainsAt(g), TermS::MemberOf(f)) => {
                if !eq_field(f, g) {
                    return Cancel::NonOverlappingField(f, g);
                }
            }
            (TermS::Downcast(_, v1), TermS::Upcast(_, v2)) | (TermS::Upcast(_, v2), TermS::Downcast(_, v1)) => {
                if v1 != v2 {
                    return Cancel::NonOverlappingVariant(v1, v2);
                }
            }
            _ => {}
        }
        if self.same_as(&other.flip()) {
            Cancel::Cancels
        } else {
            Cancel::Remains
        }
    }
}

/// Applies a map on fields to a single step; `g` relates each field to its image.
pub open spec fn step_mapped<F, F0, G: Fn(F) -> F0>(g: G, t: TermS<F>, r: TermS<F0>) -> bool {
    match (t, r) {
        (TermS::RefOf, TermS::RefOf) => true,
        (TermS::DerefOf, TermS::DerefOf) => true,
        (TermS::MemberOf(f), TermS::MemberOf(f0)) => g.ensures((f,), f0),
        (TermS::ContainsAt(f), TermS::ContainsAt(f0)) => g.ensures((f,), f0),
        (TermS::Downcast(s, v), TermS::Downcast(s0, v0)) => s == s0 && v == v0,
        (TermS::Upcast(s, v), TermS::Upcast(s0, v0)) => s == s0 && v == v0,
        (TermS::Unknown, TermS::Unknown) => true,
        _ => false,
    }
}

impl<F: Copy> TermS<F> {
    /// Rewrites the field of a field step with `g`; every other step keeps its form.
    pub fn map_field<F0: Copy, G: Fn(F) -> F0>(self, g: G) -> (r: TermS<F0>)
        requires
            forall|f: F| g.requires((f,)),
        ensures
            step_mapped(g, self, r),
    {
        match self {
            TermS::RefOf => TermS::RefOf,
            TermS::DerefOf => TermS::DerefOf,
            TermS::MemberOf(f) => TermS::MemberOf(g(f)),
            TermS::ContainsAt(f) => TermS::ContainsAt(g(f)),
            TermS::Upcast(s, v) => TermS::Upcast(s, v),
            TermS::Downcast(s, v) => TermS::Downcast(s, v),
            TermS::Unknown => TermS::Unknown,
        }
    }
}

/// A base with a stack of steps applied to it; the last step is the outermost.
#[derive(Clone, Debug, PartialEq, Eq, Hash)]
pub struct Term<B, F: Copy> {
    base: B,
    terms: Vec<TermS<F>>,
}

impl<B, F: Copy> View for Term<B, F> {
    /// The base and the steps, innermost first.
    type V = (B, Seq<TermS<F>>);

    closed spec fn view(&self) -> (B, Seq<TermS<F>>) {
        (self.base, self.terms@)
    }
}

/// One left-to-right pass over the steps: a step directly followed by its
/// inverse is dropped together with it, and the pass reports `false` when it
/// met a field projection next to a different field, or a downcast next to a
/// different variant.
pub open spec fn spec_simplify<F>(s: Seq<TermS<F>>) -> (Seq<TermS<F>>, bool)
    decreases s.len(),
{
    if s.len() < 2 {
        (s, true)
    } else {
        match spec_cancel(s[0], s[1]) {
            Cancel::Cancels => spec_simplify(s.skip(2)),
            Cancel::Remains => {
                let rest = spec_simplify(s.skip(1));
                (seq![s[0]] + rest.0, rest.1)
            },
            _ => {
                let rest = spec_simplify(s.skip(1));
                (seq![s[0]] + rest.0, false)
            },
        }
    }
}

/// Copies a stack of steps.
fn copy_steps<F: Copy>(v: &Vec<TermS<F>>) -> (r: Vec<TermS<F>>)
    ensures
        r@ == v@,
{
    let mut r: Vec<TermS<F>> = Vec::new();
    let mut i: usize = 0;
    while i < v.len()
        invariant
            i <= v.len(),
            r@ == v@.take(i as int),
        decreases v.len() - i,
    {
        r.push(v[i]);
        i = i + 1;
        assert(r@ =~= v@.take(i as int));
    }
    assert(v@.take(v.len() as int) =~= v@);
    r
}

impl<B, F: Copy> Term<B, F> {
    /// The first step applied to the base.
    pub fn kind(&self) -> (r: TermS<F>)
        requires
            self@.1.len() > 0,
        ensures
            r == self@.1[0],
    {
        self.terms[0]
    }

    /// Whether no step is applied to the base.
    pub fn is_base(&self) -> (r: bool)
        ensures
            r == (self@.1.len() == 0),
    {
        self.terms.len() == 0
    }

    /// The bare base.
    pub fn new_base(base: B) -> (r: Self)
        ensures
            r@ == (base, Seq::<TermS<F>>::empty()),
    {
        Term { base, terms: Vec::new() }
    }

    fn push_step(self, t: TermS<F>) -> (r: Self)
        ensures
            r@ == (self@.0, self@.1.push(t)),
    {
        let Term { base, terms } = self;
        let mut terms = terms;
        terms.push(t);
        Term { base, terms }
    }

    /// Dereferences the term.
    pub fn add_deref_of(self) -> (r: Self)
        ensures
            r@ == (self@.0, self@.1.push(TermS::DerefOf)),
    {
        self.push_step(TermS::DerefOf)
    }

    /// Takes a reference to the term.
    pub fn add_ref_of(self) -> (r: Self)
        ensures
            r@ == (self@.0, self@.1.push(TermS::RefOf)),
    {
        self.push_step(TermS::RefOf)
    }

    /// Projects the field `field` out of the term.
    pub fn add_member_of(self, field: F) -> (r: Self)
        ensures
            r@ == (self@.0, self@.1.push(TermS::MemberOf(field))),
    {
        self.push_step(TermS::MemberOf(field))
    }

    /// Builds a value that holds the term at field `field`.
    pub fn add_contains_at(self, field: F) -> (r: Self)
        ensures
            r@ == (self@.0, self@.1.push(TermS::ContainsAt(field))),
    {
        self.push_step(TermS::ContainsAt(field))
    }

    /// Downcasts the term to variant `idx`.
    pub fn add_downcast(self, symbol: Option<Symbol>, idx: VariantIdx) -> (r: Self)
        ensures
            r@ == (self@.0, self@.1.push(TermS::Downcast(symbol, idx))),
    {
        self.push_step(TermS::Downcast(symbol, idx))
    }

    /// Builds variant `idx` around the term.
    pub fn add_upcast(self, symbol: Option<Symbol>, idx: VariantIdx) -> (r: Self)
        ensures
            r@ == (self@.0, self@.1.push(TermS::Upcast(symbol, idx))),
    {
        self.push_step(TermS::Upcast(symbol, idx))
    }

    /// Applies a step nothing is known about.
    pub fn add_unknown(self) -> (r: Self)
        ensures
            r@ == (self@.0, self@.1.push(TermS::Unknown)),
    {
        self.push_step(TermS::Unknown)
    }

    /// The base of the term.
    pub fn base(&self) -> (r: &B)
        ensures
            *r == self@.0,
    {
        &self.base
    }

    /// Substitutes `other` for the base: the result has the base of `other`,
    /// and the steps of `other` followed by the steps of `self`.
    pub fn sub(&mut self, other: Self)
        ensures
            final(self)@ == (other@.0, other@.1 + old(self)@.1),
    {
        let Term { base, terms } = other;
        let mut terms = terms;
        self.base = base;
        terms.append(&mut self.terms);
        std::mem::swap(&mut self.terms, &mut terms);
    }

    /// One cancelling pass over the steps (see `spec_simplify`); returns
    /// `false` when the term was found to be contradictory.
    pub fn simplify(&mut self) -> (valid: bool)
        where F: PartialEq
        requires
            obeys_concrete_eq::<F>(),
        ensures
            final(self)@.0 == old(self)@.0,
            (final(self)@.1, valid) == spec_simplify(old(self)@.1),
    {
        let mut old_terms: Vec<TermS<F>> = Vec::new();
        std::mem::swap(&mut old_terms, &mut self.terms);
        let ghost s = old_terms@;
        let l = old_terms.len();
        let mut valid = true;
        let mut i: usize = 0;
        assert(s.skip(0) =~= s);
        while i < l
            invariant
                obeys_concrete_eq::<F>(),
                l == s.len(),
                old_terms@ == s,
                i <= l,
                self.base == old(self).base,
                spec_simplify(s) == (self.terms@ + spec_simplify(s.skip(i as int)).0,
                    valid && spec_simplify(s.skip(i as int)).1),
            decreases l - i,
        {
            let cur = old_terms[i];
            let ghost rest = s.skip(i as int);
            if i + 1 < l {
                let next = old_terms[i + 1];
                match cur.cancel(next) {
                    Cancel::Cancels => {
                        assert(rest.skip(2) =~= s.skip(i + 2));
                        i = i + 2;
                        continue;
                    }
                    Cancel::Remains => {}
                    _ => {
                        valid = false;
                    }
                }
            }
            assert(rest.skip(1) =~= s.skip(i + 1));
            self.terms.push(cur);
            i = i + 1;
        }
        assert(self.terms@ + s.skip(i as int) =~= self.terms@);
        valid
    }

    /// The same steps over another base.
    pub fn replace_base<B0>(&self, base: B0) -> (r: Term<B0, F>)
        ensures
            r@ == (base, self@.1),
    {
        Term { base, terms: copy_steps(&self.terms) }
    }

    /// The same base, with every field rewritten by `g`.
    pub fn replace_fields<F0: Copy, G: Fn(F) -> F0>(&self, g: G) -> (r: Term<B, F0>)
        where B: Copy
        requires
            forall|f: F| g.requires((f,)),
        ensures
            r@.0 == self@.0,
            r@.1.len() == self@.1.len(),
            forall|i: int| 0 <= i < self@.1.len() ==> step_mapped(g, self@.1[i], #[trigger] r@.1[i]),
    {
        let mut terms: Vec<TermS<F0>> = Vec::new();
        let mut i: usize = 0;
        while i < self.terms.len()
            invariant
                forall|f: F| g.requires((f,)),
                i <= self.terms.len(),
                terms.len() == i,
                forall|j: int| 0 <= j < i ==> step_mapped(g, self.terms@[j], #[trigger] terms@[j]),
            decreases self.terms.len() - i,
        {
            let t = self.terms[i].map_field(&g);
            terms.push(t);
            i = i + 1;
        }
        Term { base: self.base, terms }
    }
}

/// The steps of `l` undone in reverse order: the last step first, each one flipped.
pub open spec fn flipped_reverse<F>(l: Seq<TermS<F>>) -> Seq<TermS<F>> {
    Seq::new(l.len(), |j: int| spec_flip(l[l.len() - 1 - j]))
}

/// The equation with every step of its left side moved to its right side.
pub open spec fn spec_rearranged<B, F>(e: EqV<B, F>) -> EqV<B, F> {
    ((e.0.0, Seq::empty()), (e.1.0, e.1.1 + flipped_reverse(e.0.1)))
}

/// Two equations are the same when their sides agree, in order or swapped.
pub open spec fn same_equation<B, F>(a: EqV<B, F>, b: EqV<B, F>) -> bool {
    (a.0 == b.0 && a.1 == b.1) || (a.0 == b.1 && a.1 == b.0)
}

/// An equation between two terms.
#[derive(Clone, Debug)]
pub struct Equality<B, F: Copy> {
    lhs: Term<B, F>,
    rhs: Term<B, F>,
}

impl<B, F: Copy> View for Equality<B, F> {
    /// The left and the right side.
    type V = ((B, Seq<TermS<F>>), (B, Seq<TermS<F>>));

    closed spec fn view(&self) -> ((B, Seq<TermS<F>>), (B, Seq<TermS<F>>)) {
        (self.lhs@, self.rhs@)
    }
}

impl<B, F: Copy> Equality<B, F> {
    /// The equation `lhs = rhs`.
    pub fn new(lhs: Term<B, F>, rhs: Term<B, F>) -> (r: Self)
        ensures
            r@ == (lhs@, rhs@),
    {
        Self { lhs, rhs }
    }

    /// Moves every step of the left side to the right side, undone in
    /// reverse order, so that the left side becomes its bare base.
    pub fn rearrange_left_to_right(&mut self)
        ensures
            final(self)@ == spec_rearranged(old(self)@),
    {
        let ghost l = self.lhs.terms@;
        let ghost r = self.rhs.terms@;
        let ghost n = l.len();
        while self.lhs.terms.len() > 0
            invariant
                self.lhs.base == old(self).lhs.base,
                self.rhs.base == old(self).rhs.base,
                n == l.len(),
                self.lhs.terms.len() <= n,
                self.lhs.terms@ == l.take(self.lhs.terms.len() as int),
                self.rhs.terms@ == r + Seq::new((n - self.lhs.terms.len()) as nat,
                    |j: int| spec_flip(l[n - 1 - j])),
            decreases self.lhs.terms.len(),
        {
            let t = self.lhs.terms.pop().unwrap();
            self.rhs.terms.push(t.flip());
            assert(self.lhs.terms@ =~= l.take(self.lhs.terms.len() as int));
            assert(self.rhs.terms@ =~= r + Seq::new((n - self.lhs.terms.len()) as nat,
                |j: int| spec_flip(l[n - 1 - j])));
        }
        assert(self.lhs.terms@ =~= Seq::<TermS<F>>::empty());
        assert(self.rhs.terms@ =~= r + flipped_reverse(l));
    }

    /// Exchanges the two sides.
    pub fn swap(&mut self)
        ensures
            final(self)@ == (old(self)@.1, old(self)@.0),
    {
        std::mem::swap(&mut self.lhs, &mut self.rhs)
    }

    /// A copy of the equation.
    pub fn duplicate(&self) -> (r: Self)
        where B: Copy
        ensures
            r@ == self@,
    {
        Equality { lhs: self.lhs.duplicate(), rhs: self.rhs.duplicate() }
    }

    /// Whether two equations are the same, whichever way round each is written.
    pub fn same_as(&self, other: &Self) -> (r: bool)
        where B: PartialEq, F: PartialEq
        requires
            obeys_concrete_eq::<B>(),
            obeys_concrete_eq::<F>(),
        ensures
            r == same_equation(self@, other@),
    {
        (self.lhs.same_term(&other.lhs) && self.rhs.same_term(&other.rhs))
            || (self.lhs.same_term(&other.rhs) && self.rhs.same_term(&other.lhs))
    }

    /// The left side.
    pub fn lhs(&self) -> (r: &Term<B, F>)
        ensures
            r@ == self@.0,
    {
        &self.lhs
    }

    /// The right side.
    pub fn rhs(&self) -> (r: &Term<B, F>)
        ensures
            r@ == self@.1,
    {
        &self.rhs
    }

    /// The bases of the left and the right side.
    pub fn bases(&self) -> (r: [&B; 2])
        ensures
            *r[0] == self@.0.0,
            *r[1] == self@.1.0,
    {
        [self.lhs.base(), self.rhs.base()]
    }

    /// The same equation over the bases that `f` gives for the old ones.
    pub fn map_bases<B0, G: Fn(&B) -> B0>(&self, f: G) -> (r: Equality<B0, F>)
        requires
            forall|b: &B| f.requires((b,)),
        ensures
            f.ensures((&self@.0.0,), r@.0.0),
            f.ensures((&self@.1.0,), r@.1.0),
            r@.0.1 == self@.0.1,
            r@.1.1 == self@.1.1,
    {
        Equality {
            lhs: self.lhs.replace_base(f(self.lhs.base())),
            rhs: self.rhs.replace_base(f(self.rhs.base())),
        }
    }
}

impl<B, F: Copy> Term<B, F> {
    /// A copy of the term.
    pub fn duplicate(&self) -> (r: Self)
        where B: Copy
        ensures
            r@ == self@,
    {
        Term { base: self.base, terms: copy_steps(&self.terms) }
    }

    /// Whether two terms have the same base and the same steps.
    pub fn same_term(&self, other: &Self) -> (r: bool)
        where B: PartialEq, F: PartialEq
        requires
            obeys_concrete_eq::<B>(),
            obeys_concrete_eq::<F>(),
        ensures
            r == (self@ == other@),
    {
        proof {
            reveal(obeys_concrete_eq);
        }
        if !(self.base == other.base) {
            return false;
        }
        if self.terms.len() != other.terms.len() {
            return false;
        }
        let mut i: usize = 0;
        while i < self.terms.len()
            invariant
                obeys_concrete_eq::<F>(),
                i <= self.terms.len(),
                self.terms.len() == other.terms.len(),
                self.base == other.base,
                forall|j: int| 0 <= j < i ==> self.terms@[j] == other.terms@[j],
            decreases self.terms.len() - i,
        {
            if !self.terms[i].same_as(&other.terms[i]) {
                return false;
            }
            i = i + 1;
        }
        assert(self.terms@ =~= other.terms@);
        true
    }
}

/// A piece of the written form of a term.
#[derive(Clone, Copy, Debug, PartialEq, Eq)]
pub enum Piece<F> {
    /// `&(`
    RefOpen,
    /// `*(`
    DerefOpen,
    /// `(`
    Open,
    /// `{ .f = ` for the field `f`
    ContainsOpen(F),
    /// `(#i` for the variant `i`
    UpcastOpen(VariantIdx),
    /// `(?`
    UnknownOpen,
    /// The base.
    Base,
    /// `.f)` for the field `f`
    MemberClose(F),
    /// ` }`
    ContainsClose,
    /// ` #i)` for the variant `i`
    DowncastClose(VariantIdx),
    /// `)`
    Close,
}

/// What a step writes before the base.
pub open spec fn opener<F>(t: TermS<F>) -> Piece<F> {
    match t {
        TermS::RefOf => Piece::RefOpen,
        TermS::DerefOf => Piece::DerefOpen,
        TermS::MemberOf(_) => Piece::Open,
        TermS::ContainsAt(f) => Piece::ContainsOpen(f),
        TermS::Downcast(_, _) => Piece::Open,
        TermS::Upcast(_, i) => Piece::UpcastOpen(i),
        TermS::Unknown => Piece::UnknownOpen,
    }
}

/// What a step writes after the base.
pub open spec fn closer<F>(t: TermS<F>) -> Piece<F> {
    match t {
        TermS::MemberOf(f) => Piece::MemberClose(f),
        TermS::ContainsAt(_) => Piece::ContainsClose,
        TermS::Downcast(_, i) => Piece::DowncastClose(i),
        _ => Piece::Close,
    }
}

/// The written form of a term with steps `s`: the openers of the steps from
/// the last to the first, the base, then the closers, again from the last
/// step to the first.
pub open spec fn spec_pieces<F>(s: Seq<TermS<F>>) -> Seq<Piece<F>> {
    Seq::new(s.len(), |i: int| opener(s[s.len() - 1 - i])) + seq![Piece::Base]
        + Seq::new(s.len(), |i: int| closer(s[s.len() - 1 - i]))
}

fn opener_exec<F: Copy>(t: TermS<F>) -> (r: Piece<F>)
    ensures
        r == opener(t),
{
    match t {
        TermS::RefOf => Piece::RefOpen,
        TermS::DerefOf => Piece::DerefOpen,
        TermS::MemberOf(_) => Piece::Open,
        TermS::ContainsAt(f) => Piece::ContainsOpen(f),
        TermS::Downcast(_, _) => Piece::Open,
        TermS::Upcast(_, i) => Piece::UpcastOpen(i),
        TermS::Unknown => Piece::UnknownOpen,
    }
}

fn closer_exec<F: Copy>(t: TermS<F>) -> (r: Piece<F>)
    ensures
        r == closer(t),
{
    match t {
        TermS::MemberOf(f) => Piece::MemberClose(f),
        TermS::ContainsAt(_) => Piece::ContainsClose,
        TermS::Downcast(_, i) => Piece::DowncastClose(i),
        _ => Piece::Close,
    }
}

impl<B, F: Copy> Term<B, F> {
    /// The written form of the term, piece by piece (see `spec_pieces`).
    pub fn pieces(&self) -> (r: Vec<Piece<F>>)
        ensures
            r@ == spec_pieces(self@.1),
    {
        let ghost s = self@.1;
        let n = self.terms.len();
        let mut r: Vec<Piece<F>> = Vec::new();
        let mut i: usize = 0;
        while i < n
            invariant
                s == self@.1,
                n == s.len(),
                i <= n,
                r@ == Seq::new(i as nat, |k: int| opener(s[n - 1 - k])),
            decreases n - i,
        {
            r.push(opener_exec(self.terms[n - 1 - i]));
            i = i + 1;
            assert(r@ =~= Seq::new(i as nat, |k: int| opener(s[n - 1 - k])));
        }
        r.push(Piece::Base);
        let ghost head = r@;
        let mut j: usize = 0;
        while j < n
            invariant
                s == self@.1,
                n == s.len(),
                j <= n,
                head == Seq::new(n as nat, |k: int| opener(s[n - 1 - k])) + seq![Piece::Base],
                r@ == head + Seq::new(j as nat, |k: int| closer(s[n - 1 - k])),
            decreases n - j,
        {
            r.push(closer_exec(self.terms[n - 1 - j]));
            j = j + 1;
            assert(r@ =~= head + Seq::new(j as nat, |k: int| closer(s[n - 1 - k])));
        }
        r
    }
}

/// The result of inspecting a base: a final value (`Left`) or a variable to
/// be solved for (`Right`).
#[derive(Clone, Copy, Debug, PartialEq, Eq)]
pub enum Either<L, R> {
    Left(L),
    Right(R),
}

impl<L, R> Either<L, R> {
    /// Whether this is a `Left`.
    pub fn is_left(&self) -> (r: bool)
        ensures
            r == (self is Left),
    {
        match self {
            Either::Left(_) => true,
            Either::Right(_) => false,
        }
    }

    /// The `Left` value, if any.
    pub fn left(self) -> (r: Option<L>)
        ensures
            r == (match self { Either::Left(l) => Some(l), Either::Right(_) => None }),
    {
        match self {
            Either::Left(l) => Some(l),
            Either::Right(_) => None,
        }
    }

    /// The `Right` value, if any.
    pub fn right(self) -> (r: Option<R>)
        ensures
            r == (match self { Either::Left(_) => None, Either::Right(x) => Some(x) }),
    {
        match self {
            Either::Left(_) => None,
            Either::Right(x) => Some(x),
        }
    }
}

/// A term as a base and its steps.
pub type TermV<B, F> = (B, Seq<TermS<F>>);

/// An equation as its two sides.
pub type EqV<B, F> = (TermV<B, F>, TermV<B, F>);

/// Terms known to be equal to each variable, one entry per variable.
pub type Solved<V, B, F> = Seq<(V, Seq<TermV<B, F>>)>;

/// Tells, for a base, whether it is final (`Left`, with what it stands
/// for) or a variable to be solved for (`Right`).
pub trait Inspect<B, L, R> {
    /// The answer for `b`.
    spec fn spec_inspect(&self, b: B) -> Either<L, R>;

    /// Answers for `b`.
    fn inspect(&self, b: &B) -> (r: Either<L, R>)
        ensures
            r == self.spec_inspect(*b),
    ;
}

/// Every variable has at most one entry.
pub open spec fn unique_keys<K, T>(m: Seq<(K, T)>) -> bool {
    forall|i: int, j: int| 0 <= i < m.len() && 0 <= j < m.len() && m[i].0 == m[j].0 ==> i == j
}

/// Whether `k` has an entry.
pub open spec fn has_key<K, T>(m: Seq<(K, T)>, k: K) -> bool {
    exists|i: int| 0 <= i < m.len() && m[i].0 == k
}

/// The position of the entry of `k`.
pub open spec fn key_pos<K, T>(m: Seq<(K, T)>, k: K) -> int {
    choose|i: int| 0 <= i < m.len() && m[i].0 == k
}

/// The entry of `k`, if there is one.
pub open spec fn lookup<K, T>(m: Seq<(K, T)>, k: K) -> Option<T> {
    if has_key(m, k) { Some(m[key_pos(m, k)].1) } else { None }
}

/// `m` without the entry of `k`.
pub open spec fn remove_key<K, T>(m: Seq<(K, T)>, k: K) -> Seq<(K, T)> {
    if has_key(m, k) { m.remove(key_pos(m, k)) } else { m }
}

/// `s` with `t` added unless it is already there.
pub open spec fn set_insert<T>(s: Seq<T>, t: T) -> Seq<T> {
    if s.contains(t) { s } else { s.push(t) }
}

/// `m` with `t` added to the entry of `k`, which is created when missing.
pub open spec fn insert_under<K, T>(m: Seq<(K, Seq<T>)>, k: K, t: T) -> Seq<(K, Seq<T>)> {
    if has_key(m, k) {
        m.update(key_pos(m, k), (k, set_insert(m[key_pos(m, k)].1, t)))
    } else {
        m.push((k, seq![t]))
    }
}

/// `m` with `t` added to the entry of `k` if there is one; unchanged otherwise.
pub open spec fn insert_existing<K, T>(m: Seq<(K, Seq<T>)>, k: K, t: T) -> Seq<(K, Seq<T>)> {
    if has_key(m, k) {
        m.update(key_pos(m, k), (k, set_insert(m[key_pos(m, k)].1, t)))
    } else {
        m
    }
}

proof fn lemma_insert_keeps_unique<K, T>(m: Seq<(K, Seq<T>)>, k: K, t: T)
    requires
        unique_keys(m),
    ensures
        unique_keys(insert_under(m, k, t)),
        unique_keys(insert_existing(m, k, t)),
        forall|k2: K| has_key(insert_under(m, k, t), k2) <==> (has_key(m, k2) || k2 == k),
        forall|k2: K| has_key(insert_existing(m, k, t), k2) <==> has_key(m, k2),
        insert_existing(m, k, t).len() == m.len(),
{
    if has_key(m, k) {
        let p = key_pos(m, k);
        let m2 = insert_under(m, k, t);
        assert forall|k2: K| has_key(m2, k2) implies has_key(m, k2) || k2 == k by {
            let i = choose|i: int| 0 <= i < m2.len() && m2[i].0 == k2;
            if i != p {
                assert(m[i].0 == k2);
            }
        }
        assert forall|k2: K| has_key(m, k2) implies has_key(m2, k2) by {
            let i = choose|i: int| 0 <= i < m.len() && m[i].0 == k2;
            assert(m2[i].0 == k2);
        }
        assert(m2[p].0 == k);
    } else {
        let m2 = insert_under(m, k, t);
        assert forall|k2: K| has_key(m2, k2) implies has_key(m, k2) || k2 == k by {
            let i = choose|i: int| 0 <= i < m2.len() && m2[i].0 == k2;
            if i < m.len() {
                assert(m[i].0 == k2);
            }
        }
        assert forall|k2: K| has_key(m, k2) implies has_key(m2, k2) by {
            let i = choose|i: int| 0 <= i < m.len() && m[i].0 == k2;
            assert(m2[i].0 == k2);
        }
        assert(m2[m.len() as int].0 == k);
    }
}

proof fn lemma_remove_key<K, T>(m: Seq<(K, T)>, k: K)
    requires
        unique_keys(m),
    ensures
        unique_keys(remove_key(m, k)),
        has_key(m, k) ==> remove_key(m, k).len() == m.len() - 1,
        !has_key(m, k) ==> remove_key(m, k) == m,
{
    if has_key(m, k) {
        let p = key_pos(m, k);
        let m2 = m.remove(p);
        assert forall|i: int, j: int| 0 <= i < m2.len() && 0 <= j < m2.len() && m2[i].0 == m2[j].0
            implies i == j by {
            let i2 = if i < p { i } else { i + 1 };
            let j2 = if j < p { j } else { j + 1 };
            assert(m2[i] == m[i2]);
            assert(m2[j] == m[j2]);
        }
    }
}

/// The abstract value of a sequence of terms.
pub open spec fn terms_view<B, F: Copy>(s: Seq<Term<B, F>>) -> Seq<TermV<B, F>> {
    s.map_values(|t: Term<B, F>| t@)
}

/// The abstract value of a table of terms per variable.
pub open spec fn solved_view<V, B, F: Copy>(m: Seq<(V, Vec<Term<B, F>>)>) -> Solved<V, B, F> {
    m.map_values(|e: (V, Vec<Term<B, F>>)| (e.0, terms_view(e.1@)))
}

proof fn lemma_solved_view_keys<V, B, F: Copy>(m: Seq<(V, Vec<Term<B, F>>)>)
    ensures
        forall|k: V| has_key(solved_view(m), k) <==> #[trigger] has_key(m, k),
        unique_keys(m) <==> unique_keys(solved_view(m)),
{
    let sv = solved_view(m);
    assert forall|k: V| has_key(sv, k) <==> #[trigger] has_key(m, k) by {
        if has_key(sv, k) {
            let i = choose|i: int| 0 <= i < sv.len() && sv[i].0 == k;
            assert(m[i].0 == k);
        }
        if has_key(m, k) {
            let i = choose|i: int| 0 <= i < m.len() && m[i].0 == k;
            assert(sv[i].0 == k);
        }
    }
    if unique_keys(m) {
        assert forall|i: int, j: int| 0 <= i < sv.len() && 0 <= j < sv.len() && sv[i].0 == sv[j].0
            implies i == j by {
            assert(m[i].0 == sv[i].0);
            assert(m[j].0 == sv[j].0);
        }
    }
    if unique_keys(sv) {
        assert forall|i: int, j: int| 0 <= i < m.len() && 0 <= j < m.len() && m[i].0 == m[j].0
            implies i == j by {
            assert(m[i].0 == sv[i].0);
            assert(m[j].0 == sv[j].0);
        }
    }
}

/// The position of the entry of `k` in `m`, if any.
fn find_key<V: Copy + PartialEq, T>(m: &Vec<(V, T)>, k: V) -> (r: Option<usize>)
    requires
        obeys_concrete_eq::<V>(),
        unique_keys(m@),
    ensures
        r is None <==> !has_key(m@, k),
        r matches Some(i) ==> i < m.len() && i == key_pos(m@, k) && m@[i as int].0 == k,
{
    proof {
        reveal(obeys_concrete_eq);
    }
    let mut i: usize = 0;
    while i < m.len()
        invariant
            obeys_concrete_eq::<V>(),
            unique_keys(m@),
            i <= m.len(),
            forall|j: int| 0 <= j < i ==> m@[j].0 != k,
        decreases m.len() - i,
    {
        if eq_field(m[i].0, k) {
            proof {
                let p = key_pos(m@, k);
                assert(m@[i as int].0 == k);
                assert(has_key(m@, k));
                assert(m@[p].0 == k);
                assert(p == i as int);
            }
            return Some(i);
        }
        i = i + 1;
    }
    None
}

/// Whether `v` holds `t`.
fn has_var<V: Copy + PartialEq>(v: &Vec<V>, t: V) -> (r: bool)
    requires
        obeys_concrete_eq::<V>(),
    ensures
        r == v@.contains(t),
{
    proof {
        reveal(obeys_concrete_eq);
    }
    let mut i: usize = 0;
    while i < v.len()
        invariant
            obeys_concrete_eq::<V>(),
            i <= v.len(),
            forall|j: int| 0 <= j < i ==> v@[j] != t,
        decreases v.len() - i,
    {
        if eq_field(v[i], t) {
            assert(v@[i as int] == t);
            return true;
        }
        i = i + 1;
    }
    false
}

/// Adds `t` to `s` unless a term equal to it is already there.
fn set_insert_term<B: Copy + PartialEq, F: Copy + PartialEq>(s: &mut Vec<Term<B, F>>, t: Term<B, F>)
    requires
        obeys_concrete_eq::<B>(),
        obeys_concrete_eq::<F>(),
    ensures
        terms_view(final(s)@) == set_insert(terms_view(old(s)@), t@),
{
    let mut i: usize = 0;
    while i < s.len()
        invariant
            obeys_concrete_eq::<B>(),
            obeys_concrete_eq::<F>(),
            s@ == old(s)@,
            i <= s.len(),
            forall|j: int| 0 <= j < i ==> s@[j]@ != t@,
        decreases s.len() - i,
    {
        if s[i].same_term(&t) {
            assert(terms_view(s@)[i as int] == t@);
            return;
        }
        i = i + 1;
    }
    assert(!terms_view(s@).contains(t@));
    s.push(t);
    assert(terms_view(s@) =~= terms_view(old(s)@).push(t@));
}

/// Adds `t` to the entry of `k`; the entry is created when `create` holds and it is missing.
fn insert_term_under<V: Copy + PartialEq, B: Copy + PartialEq, F: Copy + PartialEq>(
    m: &mut Vec<(V, Vec<Term<B, F>>)>,
    k: V,
    t: Term<B, F>,
    create: bool,
)
    requires
        obeys_concrete_eq::<V>(),
        obeys_concrete_eq::<B>(),
        obeys_concrete_eq::<F>(),
        unique_keys(old(m)@),
    ensures
        unique_keys(final(m)@),
        create ==> solved_view(final(m)@) == insert_under(solved_view(old(m)@), k, t@),
        !create ==> solved_view(final(m)@) == insert_existing(solved_view(old(m)@), k, t@),
{
    let ghost sv = solved_view(m@);
    proof {
        lemma_solved_view_keys(m@);
        lemma_insert_keeps_unique(sv, k, t@);
    }
    match find_key(m, k) {
        Some(i) => {
            proof {
                assert(sv[i as int].0 == k);
                assert(key_pos(sv, k) == i) by {
                    let p = key_pos(sv, k);
                    assert(sv[p].0 == k);
                }
            }
            let ghost tv = t@;
            let mut entry = m.remove(i);
            set_insert_term(&mut entry.1, t);
            m.insert(i, entry);
            proof {
                let nv = solved_view(m@);
                assert(nv =~= sv.update(i as int, (k, set_insert(sv[i as int].1, tv))));
                lemma_solved_view_keys(m@);
            }
        }
        None => {
            if create {
                let ghost tv = t@;
                let mut entry: Vec<Term<B, F>> = Vec::new();
                entry.push(t);
                m.push((k, entry));
                proof {
                    assert(terms_view(entry@) =~= seq![tv]);
                    assert(solved_view(m@) =~= sv.push((k, seq![tv])));
                    lemma_solved_view_keys(m@);
                }
            }
        }
    }
}

/// The variables among the bases of an equation, left side first.
pub open spec fn vars_of<B, F, B0, V, I: Inspect<B, B0, V>>(f: I, e: EqV<B, F>) -> Seq<V> {
    (match f.spec_inspect(e.0.0) {
        Either::Right(v) => seq![v],
        Either::Left(_) => Seq::<V>::empty(),
    }) + (match f.spec_inspect(e.1.0) {
        Either::Right(v) => seq![v],
        Either::Left(_) => Seq::<V>::empty(),
    })
}

/// Equations not used yet: the variables of each and its position.
pub type Pending<V> = Seq<(Seq<V>, int)>;

/// The pending equations that mention `t`, and the others, each in order.
pub open spec fn split_by<V>(p: Pending<V>, t: V) -> (Pending<V>, Pending<V>)
    decreases p.len(),
{
    if p.len() == 0 {
        (Seq::empty(), Seq::empty())
    } else {
        let r = split_by(p.drop_last(), t);
        if p.last().0.contains(t) {
            (r.0.push(p.last()), r.1)
        } else {
            (r.0, r.1.push(p.last()))
        }
    }
}

/// Splitting the pending equations keeps each of them on exactly one side.
pub proof fn lemma_split_len<V>(p: Pending<V>, t: V)
    ensures
        split_by(p, t).0.len() + split_by(p, t).1.len() == p.len(),
    decreases p.len(),
{
    if p.len() > 0 {
        lemma_split_len(p.drop_last(), t);
    }
}

/// Equation `e` read as a term for `t`: turned around unless its left base
/// is the variable `t`, then rearranged so that the left side is bare; the
/// result is the right side.
pub open spec fn solved_for<B, F, B0, V, I: Inspect<B, B0, V>>(f: I, t: V, e: EqV<B, F>) -> TermV<B, F> {
    let e1 = if f.spec_inspect(e.0.0) == Either::<B0, V>::Right(t) { e } else { (e.1, e.0) };
    (e1.1.0, e1.1.1 + flipped_reverse(e1.0.1))
}

/// Records the pending equations `m` as terms for `t`, in order; each term
/// whose base is a variable puts that variable on the stack.
pub open spec fn absorb<B, F, B0, V, I: Inspect<B, B0, V>>(
    f: I,
    eqs: Seq<EqV<B, F>>,
    t: V,
    m: Pending<V>,
    stack: Seq<V>,
    solved: Solved<V, B, F>,
) -> (Seq<V>, Solved<V, B, F>)
    decreases m.len(),
{
    if m.len() == 0 {
        (stack, solved)
    } else {
        let r = absorb(f, eqs, t, m.drop_last(), stack, solved);
        let rhs = solved_for(f, t, eqs[m.last().1]);
        let s2 = match f.spec_inspect(rhs.0) {
            Either::Right(v) => r.0.push(v),
            Either::Left(_) => r.0,
        };
        (s2, insert_under(r.1, t, rhs))
    }
}

/// The terms known for each variable, found by working through the stack of
/// variables: a variable that has no entry yet takes every pending equation
/// that mentions it.
pub open spec fn collect<B, F, B0, V, I: Inspect<B, B0, V>>(
    f: I,
    eqs: Seq<EqV<B, F>>,
    pending: Pending<V>,
    stack: Seq<V>,
    solved: Solved<V, B, F>,
) -> Solved<V, B, F>
    decreases pending.len(), stack.len(),
{
    if stack.len() == 0 {
        solved
    } else {
        let t = stack.last();
        if has_key(solved, t) {
            collect(f, eqs, pending, stack.drop_last(), solved)
        } else {
            let sp = split_by(pending, t);
            proof {
                lemma_split_len(pending, t);
            }
            if sp.0.len() == 0 {
                collect(f, eqs, sp.1, stack.drop_last(), solved)
            } else {
                let a = absorb(f, eqs, t, sp.0, stack.drop_last(), solved);
                collect(f, eqs, sp.1, a.0, a.1)
            }
        }
    }
}

/// The term `it` with each of the terms `next` substituted for its base, in
/// order, keeping those whose simplification is valid.
pub open spec fn substituted<B, F>(it: TermV<B, F>, next: Seq<TermV<B, F>>) -> Seq<TermV<B, F>>
    decreases next.len(),
{
    if next.len() == 0 {
        Seq::empty()
    } else {
        let rest = substituted(it, next.drop_last());
        let term = next.last();
        let s = spec_simplify(term.1 + it.1);
        if s.1 { rest.push((term.0, s.0)) } else { rest }
    }
}

/// Works through the stack of candidate terms: a term over a final base is a
/// solution; a term over a variable whose terms are still available is
/// replaced by its substitutions with them, after which they are no longer
/// available.
pub open spec fn expand<B, F, B0, V, I: Inspect<B, B0, V>>(
    f: I,
    avail: Solved<V, B, F>,
    targets: Seq<TermV<B, F>>,
    sols: Seq<TermV<B0, F>>,
) -> Seq<TermV<B0, F>>
    decreases avail.len(), targets.len(),
{
    if targets.len() == 0 {
        sols
    } else {
        let it = targets.last();
        let ts = targets.drop_last();
        match f.spec_inspect(it.0) {
            Either::Left(b0) => expand(f, avail, ts, sols.push((b0, it.1))),
            Either::Right(v) => if has_key(avail, v) {
                let next = avail[key_pos(avail, v)].1;
                expand(f, remove_key(avail, v), ts + substituted(it, next), sols)
            } else {
                expand(f, avail, ts, sols)
            },
        }
    }
}

/// The abstract value of a sequence of equations.
pub open spec fn eqs_view<B, F: Copy>(s: Seq<Equality<B, F>>) -> Seq<EqV<B, F>> {
    s.map_values(|e: Equality<B, F>| e@)
}

/// The terms over final bases that `solve` finds for `target`.
pub open spec fn spec_solve<B, F, B0, V, I: Inspect<B, B0, V>>(
    f: I,
    eqs: Seq<EqV<B, F>>,
    target: V,
) -> Seq<TermV<B0, F>> {
    let pending = Seq::new(eqs.len(), |k: int| (vars_of(f, eqs[k]), k));
    let solved = collect(f, eqs, pending, seq![target], Seq::empty());
    let start = match lookup(solved, target) {
        Some(ts) => ts,
        None => Seq::empty(),
    };
    expand(f, solved, start, Seq::empty())
}

/// The abstract value of the pending equations.
pub open spec fn pending_view<V>(p: Seq<(Vec<V>, usize)>) -> Pending<V> {
    p.map_values(|e: (Vec<V>, usize)| (e.0@, e.1 as int))
}

fn vars_of_exec<B, F: Copy, B0, V, I: Inspect<B, B0, V>>(inspect: &I, e: &Equality<B, F>) -> (r: Vec<V>)
    ensures
        r@ == vars_of(*inspect, e@),
{
    let mut r: Vec<V> = Vec::new();
    match inspect.inspect(e.lhs.base()) {
        Either::Right(v) => r.push(v),
        Either::Left(_) => {}
    }
    match inspect.inspect(e.rhs.base()) {
        Either::Right(v) => r.push(v),
        Either::Left(_) => {}
    }
    proof {
        assert(r@ =~= vars_of(*inspect, e@));
    }
    r
}

fn copy_vars<V: Copy>(v: &Vec<V>) -> (r: Vec<V>)
    ensures
        r@ == v@,
{
    let mut r: Vec<V> = Vec::new();
    let mut i: usize = 0;
    while i < v.len()
        invariant
            i <= v.len(),
            r@ == v@.take(i as int),
        decreases v.len() - i,
    {
        r.push(v[i]);
        i = i + 1;
        assert(r@ =~= v@.take(i as int));
    }
    assert(v@.take(v.len() as int) =~= v@);
    r
}

fn split_pending<V: Copy + PartialEq>(p: &Vec<(Vec<V>, usize)>, t: V) -> (r: (
    Vec<(Vec<V>, usize)>,
    Vec<(Vec<V>, usize)>,
))
    requires
        obeys_concrete_eq::<V>(),
    ensures
        (pending_view(r.0@), pending_view(r.1@)) == split_by(pending_view(p@), t),
        forall|j: int| 0 <= j < r.0.len() ==> exists|k: int| 0 <= k < p.len() && #[trigger] r.0@[j].1 == p@[k].1,
        forall|j: int| 0 <= j < r.1.len() ==> exists|k: int| 0 <= k < p.len() && #[trigger] r.1@[j].1 == p@[k].1,
{
    let mut m: Vec<(Vec<V>, usize)> = Vec::new();
    let mut rest: Vec<(Vec<V>, usize)> = Vec::new();
    let ghost pv = pending_view(p@);
    let mut i: usize = 0;
    while i < p.len()
        invariant
            obeys_concrete_eq::<V>(),
            pv == pending_view(p@),
            i <= p.len(),
            (pending_view(m@), pending_view(rest@)) == split_by(pv.take(i as int), t),
            forall|j: int| 0 <= j < m.len() ==> exists|k: int| 0 <= k < p.len() && #[trigger] m@[j].1 == p@[k].1,
            forall|j: int| 0 <= j < rest.len() ==> exists|k: int| 0 <= k < p.len() && #[trigger] rest@[j].1 == p@[k].1,
        decreases p.len() - i,
    {
        assert(pv.take(i + 1).drop_last() =~= pv.take(i as int));
        assert(pv.take(i + 1).last() == pv[i as int]);
        let vars = copy_vars(&p[i].0);
        let k = p[i].1;
        if has_var(&vars, t) {
            m.push((vars, k));
            assert(pending_view(m@) =~= split_by(pv.take(i as int), t).0.push(pv[i as int]));
        } else {
            rest.push((vars, k));
            assert(pending_view(rest@) =~= split_by(pv.take(i as int), t).1.push(pv[i as int]));
        }
        i = i + 1;
    }
    assert(pv.take(p.len() as int) =~= pv);
    (m, rest)
}

fn solved_for_exec<B: Copy, F: Copy, B0, V: Copy + PartialEq, I: Inspect<B, B0, V>>(
    inspect: &I,
    t: V,
    e: &Equality<B, F>,
) -> (r: Term<B, F>)
    requires
        obeys_concrete_eq::<V>(),
    ensures
        r@ == solved_for(*inspect, t, e@),
{
    let mut m = Equality { lhs: e.lhs.duplicate(), rhs: e.rhs.duplicate() };
    let keep = match inspect.inspect(m.lhs.base()) {
        Either::Right(v) => eq_field(v, t),
        Either::Left(_) => false,
    };
    if !keep {
        m.swap();
    }
    m.rearrange_left_to_right();
    m.rhs
}

fn copy_terms<B: Copy, F: Copy>(v: &Vec<Term<B, F>>) -> (r: Vec<Term<B, F>>)
    ensures
        terms_view(r@) == terms_view(v@),
{
    let mut r: Vec<Term<B, F>> = Vec::new();
    let mut i: usize = 0;
    while i < v.len()
        invariant
            i <= v.len(),
            terms_view(r@) == terms_view(v@).take(i as int),
        decreases v.len() - i,
    {
        let t = v[i].duplicate();
        let ghost old_r = r@;
        r.push(t);
        proof {
            assert(terms_view(v@)[i as int] == v@[i as int]@);
            assert(r@ == old_r.push(t));
            assert(terms_view(r@) =~= terms_view(old_r).push(t@));
        }
        i = i + 1;
        assert(terms_view(r@) =~= terms_view(v@).take(i as int));
    }
    assert(terms_view(v@).take(v.len() as int) =~= terms_view(v@));
    r
}

/// Solves the equations for `target`: the terms over final bases (those
/// that `inspect` maps to `Left`) that `target` equals by the equations.
/// First every equation that mentions a variable is read as a term for it,
/// starting from `target` and following the variables those terms are over;
/// then the terms for `target` are substituted into until their base is final,
/// using the terms of each variable at most once and dropping every term that
/// simplifies to a contradiction. See `spec_solve`.
pub fn solve<B: Copy + PartialEq, F: Copy + PartialEq, V: Copy + PartialEq, B0, I: Inspect<B, B0, V>>(
    equations: &[Equality<B, F>],
    target: &V,
    inspect: I,
) -> (r: Vec<Term<B0, F>>)
    requires
        obeys_concrete_eq::<B>(),
        obeys_concrete_eq::<F>(),
        obeys_concrete_eq::<V>(),
    ensures
        terms_view(r@) == spec_solve(inspect, eqs_view(equations@), *target),
{
    let ghost f = inspect;
    let ghost eqs = eqs_view(equations@);
    let ghost pending0 = Seq::new(eqs.len(), |k: int| (vars_of(f, eqs[k]), k));
    let mut pending: Vec<(Vec<V>, usize)> = Vec::new();
    let mut k: usize = 0;
    while k < equations.len()
        invariant
            f == inspect,
            eqs == eqs_view(equations@),
            pending0 == Seq::new(eqs.len(), |k: int| (vars_of(f, eqs[k]), k)),
            k <= equations.len(),
            pending_view(pending@) == pending0.take(k as int),
            forall|j: int| 0 <= j < pending.len() ==> #[trigger] pending@[j].1 == j,
        decreases equations.len() - k,
    {
        let vars = vars_of_exec(&inspect, &equations[k]);
        assert(eqs[k as int] == equations@[k as int]@);
        let ghost vv = vars@;
        let ghost old_p = pending@;
        pending.push((vars, k));
        proof {
            assert(pending0[k as int] == (vars_of(f, eqs[k as int]), k as int));
            assert(pending@ == old_p.push((vars, k)));
            assert(pending_view(pending@) =~= pending_view(old_p).push((vv, k as int)));
        }
        k = k + 1;
        assert(pending_view(pending@) =~= pending0.take(k as int));
    }
    assert(pending0.take(equations.len() as int) =~= pending0);
    let mut solved: Vec<(V, Vec<Term<B, F>>)> = Vec::new();
    let mut stack: Vec<V> = Vec::new();
    stack.push(*target);
    let ghost goal = collect(f, eqs, pending0, seq![*target], Seq::empty());
    assert(solved_view(solved@) =~= Seq::empty());
    assert(stack@ =~= seq![*target]);
    while stack.len() > 0
        invariant
            obeys_concrete_eq::<B>(),
            obeys_concrete_eq::<F>(),
            obeys_concrete_eq::<V>(),
            f == inspect,
            eqs == eqs_view(equations@),
            unique_keys(solved@),
            forall|j: int| 0 <= j < pending.len() ==> #[trigger] pending@[j].1 < equations.len(),
            collect(f, eqs, pending_view(pending@), stack@, solved_view(solved@)) == goal,
        decreases pending.len(), stack.len(),
    {
        let ghost pv = pending_view(pending@);
        let ghost sv = solved_view(solved@);
        let ghost st = stack@;
        let t = stack.pop().unwrap();
        assert(stack@ == st.drop_last());
        proof {
            lemma_solved_view_keys(solved@);
        }
        if find_key(&solved, t).is_some() {
            continue;
        }
        let sp = split_pending(&pending, t);
        let matching = sp.0;
        let rest = sp.1;
        let ghost mv = pending_view(matching@);
        proof {
            lemma_split_len(pv, t);
            assert(pending_view(matching@).len() == matching.len());
        }
        let mut j: usize = 0;
        while j < matching.len()
            invariant
                obeys_concrete_eq::<B>(),
                obeys_concrete_eq::<F>(),
                obeys_concrete_eq::<V>(),
                f == inspect,
                eqs == eqs_view(equations@),
                mv == pending_view(matching@),
                j <= matching.len(),
                unique_keys(solved@),
                forall|i: int| 0 <= i < matching.len() ==> #[trigger] matching@[i].1 < equations.len(),
                (stack@, solved_view(solved@)) == absorb(f, eqs, t, mv.take(j as int), st.drop_last(), sv),
            decreases matching.len() - j,
        {
            assert(mv.take(j + 1).drop_last() =~= mv.take(j as int));
            let idx = matching[j].1;
            let rhs = solved_for_exec(&inspect, t, &equations[idx]);
            match inspect.inspect(rhs.base()) {
                Either::Right(v) => stack.push(v),
                Either::Left(_) => {}
            }
            insert_term_under(&mut solved, t, rhs, true);
            j = j + 1;
        }
        assert(mv.take(matching.len() as int) =~= mv);
        pending = rest;
    }
    assert(solved_view(solved@) == goal);
    let mut targets: Vec<Term<B, F>> = match find_key(&solved, *target) {
        Some(i) => copy_terms(&solved[i].1),
        None => Vec::new(),
    };
    proof {
        lemma_solved_view_keys(solved@);
    }
    let mut avail = solved;
    let mut solutions: Vec<Term<B0, F>> = Vec::new();
    let ghost result = spec_solve(f, eqs, *target);
    assert(terms_view(solutions@) =~= Seq::empty());
    while targets.len() > 0
        invariant
            obeys_concrete_eq::<B>(),
            obeys_concrete_eq::<F>(),
            obeys_concrete_eq::<V>(),
            f == inspect,
            unique_keys(avail@),
            expand(f, solved_view(avail@), terms_view(targets@), terms_view(solutions@)) == result,
        decreases avail.len(), targets.len(),
    {
        let ghost av = solved_view(avail@);
        let ghost tv = terms_view(targets@);
        let ghost sol = terms_view(solutions@);
        let it = targets.pop().unwrap();
        assert(terms_view(targets@) =~= tv.drop_last());
        proof {
            lemma_solved_view_keys(avail@);
        }
        match inspect.inspect(it.base()) {
            Either::Left(b0) => {
                solutions.push(it.replace_base(b0));
                assert(terms_view(solutions@) =~= sol.push((b0, tv.last().1)));
            }
            Either::Right(v) => {
                match find_key(&avail, v) {
                    Some(i) => {
                        proof {
                            assert(av[i as int].0 == v);
                            assert(key_pos(av, v) == i as int) by {
                                let p = key_pos(av, v);
                                assert(av[p].0 == v);
                            }
                        }
                        let entry = avail.remove(i);
                        let next = entry.1;
                        let ghost nv = terms_view(next@);
                        assert(nv == av[i as int].1);
                        proof {
                            assert(solved_view(avail@) =~= av.remove(i as int));
                            lemma_remove_key(av, v);
                            lemma_solved_view_keys(avail@);
                        }
                        let ghost ts = terms_view(targets@);
                        let mut j: usize = 0;
                        while j < next.len()
                            invariant
                                obeys_concrete_eq::<F>(),
                                nv == terms_view(next@),
                                j <= next.len(),
                                terms_view(targets@) == ts + substituted(it@, nv.take(j as int)),
                            decreases next.len() - j,
                        {
                            assert(nv.take(j + 1).drop_last() =~= nv.take(j as int));
                            let mut to_sub = it.duplicate();
                            to_sub.sub(next[j].duplicate());
                            assert(nv.take(j + 1).last() == nv[j as int]);
                            assert(nv[j as int] == next@[j as int]@);
                            let ghost before = targets@;
                            let ghost sub_steps = to_sub@.1;
                            if to_sub.simplify() {
                                proof {
                                    assert(sub_steps == nv[j as int].1 + it@.1);
                                    assert(to_sub@ == (nv[j as int].0, spec_simplify(nv[j as int].1 + it@.1).0));
                                }
                                targets.push(to_sub);
                                assert(terms_view(targets@) =~= terms_view(before).push(to_sub@));
                                assert(terms_view(targets@) =~= ts + substituted(it@, nv.take(j + 1)));
                            } else {
                                assert(terms_view(targets@) =~= ts + substituted(it@, nv.take(j + 1)));
                            }
                            j = j + 1;
                        }
                        assert(nv.take(next.len() as int) =~= nv);
                    }
                    None => {}
                }
            }
        }
    }
    solutions
}

/// Adds equation `e`, rearranged to a bare left side and simplified, to
/// `finals` unless its simplification is a contradiction.
pub open spec fn add_final<N, F>(finals: Seq<EqV<N, F>>, e: EqV<N, F>) -> Seq<EqV<N, F>> {
    let s = spec_simplify(e.1.1 + flipped_reverse(e.0.1));
    if s.1 { finals.push(((e.0.0, Seq::empty()), (e.1.0, s.0))) } else { finals }
}

/// `add_final` for the equations between `l` and each of `rs`, in order,
/// with the steps `steps` on the two sides.
pub open spec fn add_row<N, F>(
    finals: Seq<EqV<N, F>>,
    l: N,
    rs: Seq<N>,
    steps: (Seq<TermS<F>>, Seq<TermS<F>>),
) -> Seq<EqV<N, F>>
    decreases rs.len(),
{
    if rs.len() == 0 {
        finals
    } else {
        add_final(add_row(finals, l, rs.drop_last(), steps), ((l, steps.0), (rs.last(), steps.1)))
    }
}

/// `add_row` for each of `ls`, in order.
pub open spec fn add_grid<N, F>(
    finals: Seq<EqV<N, F>>,
    ls: Seq<N>,
    rs: Seq<N>,
    steps: (Seq<TermS<F>>, Seq<TermS<F>>),
) -> Seq<EqV<N, F>>
    decreases ls.len(),
{
    if ls.len() == 0 {
        finals
    } else {
        add_row(add_grid(finals, ls.drop_last(), rs, steps), ls.last(), rs, steps)
    }
}

/// Records term `t` for variable `v`: simplified, and only if valid, when the
/// entry may be created; otherwise as it is, and only into an existing entry.
pub open spec fn note_term<V, B, F>(solved: Solved<V, B, F>, v: V, t: TermV<B, F>, create: bool) -> Solved<V, B, F> {
    if create {
        let s = spec_simplify(t.1);
        if s.1 { insert_under(solved, v, (t.0, s.0)) } else { solved }
    } else {
        insert_existing(solved, v, t)
    }
}

/// One equation: between final bases it yields the final equations for every
/// pair of rebased bases; otherwise it is read as a term for the variable of
/// each side that has one.
pub open spec fn handle<B, F, N, V, I: Inspect<B, Vec<N>, V>>(
    f: I,
    e: EqV<B, F>,
    st: (Seq<EqV<N, F>>, Solved<V, B, F>),
    create: bool,
) -> (Seq<EqV<N, F>>, Solved<V, B, F>) {
    let il = f.spec_inspect(e.0.0);
    let ir = f.spec_inspect(e.1.0);
    if il is Left && ir is Left {
        (add_grid(st.0, il->Left_0@, ir->Left_0@, (e.0.1, e.1.1)), st.1)
    } else {
        let s1 = match il {
            Either::Right(v) => note_term(st.1, v, (e.1.0, e.1.1 + flipped_reverse(e.0.1)), create),
            Either::Left(_) => st.1,
        };
        let s2 = match ir {
            Either::Right(v) => note_term(s1, v, (e.0.0, e.0.1 + flipped_reverse(e.1.1)), create),
            Either::Left(_) => s1,
        };
        (st.0, s2)
    }
}

/// Handles every equation, in order, creating entries.
pub open spec fn handle_all<B, F, N, V, I: Inspect<B, Vec<N>, V>>(
    f: I,
    eqs: Seq<EqV<B, F>>,
) -> (Seq<EqV<N, F>>, Solved<V, B, F>)
    decreases eqs.len(),
{
    if eqs.len() == 0 {
        (Seq::empty(), Seq::empty())
    } else {
        handle(f, eqs.last(), handle_all(f, eqs.drop_last()), true)
    }
}

/// Handles the equations between term `i` and each of the `c` terms after it.
pub open spec fn pair_row<B, F, N, V, I: Inspect<B, Vec<N>, V>>(
    f: I,
    ts: Seq<TermV<B, F>>,
    i: int,
    c: nat,
    st: (Seq<EqV<N, F>>, Solved<V, B, F>),
) -> (Seq<EqV<N, F>>, Solved<V, B, F>)
    decreases c,
{
    if c == 0 {
        st
    } else {
        handle(f, (ts[i], ts[i + c]), pair_row(f, ts, i, (c - 1) as nat, st), false)
    }
}

/// Handles the equations between every two of the terms, pairs with an
/// earlier first term first.
pub open spec fn pair_rows<B, F, N, V, I: Inspect<B, Vec<N>, V>>(
    f: I,
    ts: Seq<TermV<B, F>>,
    k: nat,
    st: (Seq<EqV<N, F>>, Solved<V, B, F>),
) -> (Seq<EqV<N, F>>, Solved<V, B, F>)
    decreases k,
{
    if k == 0 {
        st
    } else {
        let st1 = pair_rows(f, ts, (k - 1) as nat, st);
        if ts.len() >= k { pair_row(f, ts, k - 1, (ts.len() - k) as nat, st1) } else { st1 }
    }
}

proof fn lemma_handle_len<B, F, N, V, I: Inspect<B, Vec<N>, V>>(
    f: I,
    e: EqV<B, F>,
    st: (Seq<EqV<N, F>>, Solved<V, B, F>),
)
    ensures
        handle(f, e, st, false).1.len() == st.1.len(),
{
}

proof fn lemma_pair_row_len<B, F, N, V, I: Inspect<B, Vec<N>, V>>(
    f: I,
    ts: Seq<TermV<B, F>>,
    i: int,
    c: nat,
    st: (Seq<EqV<N, F>>, Solved<V, B, F>),
)
    ensures
        pair_row(f, ts, i, c, st).1.len() == st.1.len(),
    decreases c,
{
    if c > 0 {
        lemma_pair_row_len(f, ts, i, (c - 1) as nat, st);
        lemma_handle_len(f, (ts[i], ts[i + c]), pair_row(f, ts, i, (c - 1) as nat, st));
    }
}

/// Pairing the terms of each variable leaves the entries for the variables as many as they were.
pub proof fn lemma_pair_rows_len<B, F, N, V, I: Inspect<B, Vec<N>, V>>(
    f: I,
    ts: Seq<TermV<B, F>>,
    k: nat,
    st: (Seq<EqV<N, F>>, Solved<V, B, F>),
)
    ensures
        pair_rows(f, ts, k, st).1.len() == st.1.len(),
    decreases k,
{
    if k > 0 {
        lemma_pair_rows_len(f, ts, (k - 1) as nat, st);
        if ts.len() >= k {
            lemma_pair_row_len(f, ts, k - 1, (ts.len() - k) as nat, pair_rows(f, ts, (k - 1) as nat, st));
        }
    }
}

/// Takes the entries one by one, first entry first, and handles the
/// equations between every two terms of the entry taken, recording new terms
/// only into entries that are still there.
pub open spec fn drain<B, F, N, V, I: Inspect<B, Vec<N>, V>>(
    f: I,
    st: (Seq<EqV<N, F>>, Solved<V, B, F>),
) -> Seq<EqV<N, F>>
    decreases st.1.len(),
{
    if st.1.len() == 0 {
        st.0
    } else {
        let ts = st.1[0].1;
        let next = pair_rows(f, ts, ts.len(), (st.0, st.1.skip(1)));
        proof {
            lemma_pair_rows_len(f, ts, ts.len(), (st.0, st.1.skip(1)));
        }
        drain(f, next)
    }
}

/// The equations between final bases that `rebase_simplify` derives.
pub open spec fn spec_rebase_simplify<B, F, N, V, I: Inspect<B, Vec<N>, V>>(
    f: I,
    eqs: Seq<EqV<B, F>>,
) -> Seq<EqV<N, F>> {
    drain(f, handle_all(f, eqs))
}

fn add_final_exec<N, F: Copy + PartialEq>(finals: &mut Vec<Equality<N, F>>, eq: Equality<N, F>)
    requires
        obeys_concrete_eq::<F>(),
    ensures
        eqs_view(final(finals)@) == add_final(eqs_view(old(finals)@), eq@),
{
    let ghost ev = eq@;
    let mut eq = eq;
    eq.rearrange_left_to_right();
    if eq.rhs.simplify() {
        let ghost before = finals@;
        finals.push(eq);
        assert(eqs_view(finals@) =~= eqs_view(before).push(eq@));
    }
}

fn note_exec<V: Copy + PartialEq, B: Copy + PartialEq, F: Copy + PartialEq>(
    solved: &mut Vec<(V, Vec<Term<B, F>>)>,
    v: V,
    t: Term<B, F>,
    create: bool,
)
    requires
        obeys_concrete_eq::<V>(),
        obeys_concrete_eq::<B>(),
        obeys_concrete_eq::<F>(),
        unique_keys(old(solved)@),
    ensures
        unique_keys(final(solved)@),
        solved_view(final(solved)@) == note_term(solved_view(old(solved)@), v, t@, create),
{
    if create {
        let mut t = t;
        if t.simplify() {
            insert_term_under(solved, v, t, true);
        }
    } else {
        insert_term_under(solved, v, t, false);
    }
}

fn handle_exec<B: Copy + PartialEq, F: Copy + PartialEq, N: Copy, V: Copy + PartialEq, I: Inspect<B, Vec<N>, V>>(
    inspect: &I,
    e: &Equality<B, F>,
    finals: &mut Vec<Equality<N, F>>,
    solved: &mut Vec<(V, Vec<Term<B, F>>)>,
    create: bool,
)
    requires
        obeys_concrete_eq::<V>(),
        obeys_concrete_eq::<B>(),
        obeys_concrete_eq::<F>(),
        unique_keys(old(solved)@),
    ensures
        unique_keys(final(solved)@),
        (eqs_view(final(finals)@), solved_view(final(solved)@)) == handle(
            *inspect,
            e@,
            (eqs_view(old(finals)@), solved_view(old(solved)@)),
            create,
        ),
{
    let il = inspect.inspect(e.lhs.base());
    let ir = inspect.inspect(e.rhs.base());
    if il.is_left() && ir.is_left() {
        let nl = il.left().unwrap();
        let nr = ir.left().unwrap();
        let ghost f0 = eqs_view(finals@);
        let ghost steps = (e@.0.1, e@.1.1);
        let mut a: usize = 0;
        while a < nl.len()
            invariant
                obeys_concrete_eq::<F>(),
                a <= nl.len(),
                steps == (e@.0.1, e@.1.1),
                eqs_view(finals@) == add_grid(f0, nl@.take(a as int), nr@, steps),
                solved@ == old(solved)@,
            decreases nl.len() - a,
        {
            let mut b: usize = 0;
            let ghost row0 = eqs_view(finals@);
            while b < nr.len()
                invariant
                    obeys_concrete_eq::<F>(),
                    a < nl.len(),
                    b <= nr.len(),
                    steps == (e@.0.1, e@.1.1),
                    eqs_view(finals@) == add_row(row0, nl@[a as int], nr@.take(b as int), steps),
                    solved@ == old(solved)@,
                decreases nr.len() - b,
            {
                assert(nr@.take(b + 1).drop_last() =~= nr@.take(b as int));
                let eq = Equality { lhs: e.lhs.replace_base(nl[a]), rhs: e.rhs.replace_base(nr[b]) };
                add_final_exec(finals, eq);
                b = b + 1;
            }
            assert(nr@.take(nr.len() as int) =~= nr@);
            assert(nl@.take(a + 1).drop_last() =~= nl@.take(a as int));
            a = a + 1;
        }
        assert(nl@.take(nl.len() as int) =~= nl@);
    } else {
        match il {
            Either::Right(v) => {
                let mut c = Equality { lhs: e.lhs.duplicate(), rhs: e.rhs.duplicate() };
                c.rearrange_left_to_right();
                note_exec(solved, v, c.rhs, create);
            }
            Either::Left(_) => {}
        }
        match ir {
            Either::Right(v) => {
                let mut c = Equality { lhs: e.lhs.duplicate(), rhs: e.rhs.duplicate() };
                c.swap();
                c.rearrange_left_to_right();
                note_exec(solved, v, c.rhs, create);
            }
            Either::Left(_) => {}
        }
    }
}

/// Rebases every equation onto final bases: `inspect` maps each base either
/// to the final bases it stands for (`Left`) or to a variable (`Right`). An
/// equation between final bases yields one final equation per pair of
/// rebased bases; any other is recorded as a term for each of its variables.
/// Afterwards, each variable's terms are equated pairwise to derive more.
/// Every final equation is rearranged to a bare left side and simplified, and
/// dropped if it is a contradiction. See `spec_rebase_simplify`.
pub fn rebase_simplify<B: Copy + PartialEq, F: Copy + PartialEq, N: Copy, V: Copy + PartialEq, I: Inspect<B, Vec<N>, V>>(
    equations: &[Equality<B, F>],
    inspect: I,
) -> (r: Vec<Equality<N, F>>)
    requires
        obeys_concrete_eq::<B>(),
        obeys_concrete_eq::<F>(),
        obeys_concrete_eq::<V>(),
    ensures
        eqs_view(r@) == spec_rebase_simplify(inspect, eqs_view(equations@)),
{
    let ghost f = inspect;
    let ghost eqs = eqs_view(equations@);
    let mut finals: Vec<Equality<N, F>> = Vec::new();
    let mut solved: Vec<(V, Vec<Term<B, F>>)> = Vec::new();
    let mut k: usize = 0;
    assert(eqs.take(0) =~= Seq::<EqV<B, F>>::empty());
    assert(eqs_view(finals@) =~= Seq::empty());
    assert(solved_view(solved@) =~= Seq::empty());
    while k < equations.len()
        invariant
            obeys_concrete_eq::<B>(),
            obeys_concrete_eq::<F>(),
            obeys_concrete_eq::<V>(),
            f == inspect,
            eqs == eqs_view(equations@),
            k <= equations.len(),
            unique_keys(solved@),
            (eqs_view(finals@), solved_view(solved@)) == handle_all(f, eqs.take(k as int)),
        decreases equations.len() - k,
    {
        assert(eqs.take(k + 1).drop_last() =~= eqs.take(k as int));
        assert(eqs.take(k + 1).last() == equations@[k as int]@);
        handle_exec(&inspect, &equations[k], &mut finals, &mut solved, true);
        k = k + 1;
    }
    assert(eqs.take(equations.len() as int) =~= eqs);
    let ghost goal = spec_rebase_simplify(f, eqs);
    while solved.len() > 0
        invariant
            obeys_concrete_eq::<B>(),
            obeys_concrete_eq::<F>(),
            obeys_concrete_eq::<V>(),
            f == inspect,
            unique_keys(solved@),
            drain(f, (eqs_view(finals@), solved_view(solved@))) == goal,
        decreases solved.len(),
    {
        let ghost sv = solved_view(solved@);
        let ghost before = solved@;
        let entry = solved.remove(0);
        let terms = entry.1;
        let ghost ts = terms_view(terms@);
        proof {
            assert(solved_view(solved@) =~= sv.skip(1));
            assert(ts == sv[0].1);
            assert forall|i: int, j: int| 0 <= i < solved@.len() && 0 <= j < solved@.len()
                && solved@[i].0 == solved@[j].0 implies i == j by {
                assert(solved@[i] == before[i + 1]);
                assert(solved@[j] == before[j + 1]);
            }
        }
        let ghost st0 = (eqs_view(finals@), solved_view(solved@));
        let n = terms.len();
        let mut i: usize = 0;
        while i < n
            invariant
                obeys_concrete_eq::<B>(),
                obeys_concrete_eq::<F>(),
                obeys_concrete_eq::<V>(),
                f == inspect,
                n == terms.len(),
                ts == terms_view(terms@),
                i <= n,
                unique_keys(solved@),
                (eqs_view(finals@), solved_view(solved@)) == pair_rows(f, ts, i as nat, st0),
            decreases n - i,
        {
            let ghost st1 = (eqs_view(finals@), solved_view(solved@));
            let mut j: usize = i + 1;
            while j < n
                invariant
                    obeys_concrete_eq::<B>(),
                    obeys_concrete_eq::<F>(),
                    obeys_concrete_eq::<V>(),
                    f == inspect,
                    n == terms.len(),
                    ts == terms_view(terms@),
                    i < j <= n,
                    unique_keys(solved@),
                    (eqs_view(finals@), solved_view(solved@)) == pair_row(f, ts, i as int, (j - i - 1) as nat, st1),
                decreases n - j,
            {
                let eq = Equality { lhs: terms[i].duplicate(), rhs: terms[j].duplicate() };
                assert(eq@ == (ts[i as int], ts[i + ((j + 1 - i - 1) as nat)]));
                handle_exec(&inspect, &eq, &mut finals, &mut solved, false);
                j = j + 1;
            }
            i = i + 1;
        }
        proof {
            lemma_pair_rows_len(f, ts, n as nat, st0);
        }
    }
    finals
}

/// Flipping a step twice gives the step back.
pub proof fn lemma_flip_involution<F>(t: TermS<F>)
    ensures
        spec_flip(spec_flip(t)) == t,
{
}

/// Meeting two steps does not depend on their order.
pub proof fn lemma_cancel_symmetric<F>(a: TermS<F>, b: TermS<F>)
    ensures
        spec_cancel(a, b) == spec_cancel(b, a),
{
}

/// A step directly followed by its inverse cancels, unless nothing is known
/// about the step.
pub proof fn lemma_cancel_with_flip<F>(t: TermS<F>)
    requires
        !(t is Unknown),
    ensures
        spec_cancel(t, spec_flip(t)) == Cancel::<F>::Cancels,
{
}

/// Undoing the undoing of a stack of steps gives the steps back.
pub proof fn lemma_flipped_reverse_involution<F>(l: Seq<TermS<F>>)
    ensures
        flipped_reverse(flipped_reverse(l)) == l,
{
    assert(flipped_reverse(flipped_reverse(l)) =~= l);
}

/// Rearranging an equation that is already rearranged changes nothing.
pub proof fn lemma_rearranged_idempotent<B, F>(e: EqV<B, F>)
    ensures
        spec_rearranged(spec_rearranged(e)) == spec_rearranged(e),
{
    assert(flipped_reverse(Seq::<TermS<F>>::empty()) =~= Seq::empty());
    assert(e.1.1 + flipped_reverse(e.0.1) + Seq::<TermS<F>>::empty() =~= e.1.1 + flipped_reverse(e.0.1));
}

/// Simplifying never adds steps, and leaves a term of fewer than two steps
/// as it is and valid.
pub proof fn lemma_simplify_shrinks<F>(s: Seq<TermS<F>>)
    ensures
        spec_simplify(s).0.len() <= s.len(),
        s.len() < 2 ==> spec_simplify(s) == (s, true),
    decreases s.len(),
{
    if s.len() >= 2 {
        lemma_simplify_shrinks(s.skip(1));
        lemma_simplify_shrinks(s.skip(2));
    }
}

/// A step followed by its inverse simplifies to no step at all.
pub proof fn lemma_simplify_step_and_flip<F>(t: TermS<F>)
    requires
        !(t is Unknown),
    ensures
        spec_simplify(seq![t, spec_flip(t)]) == (Seq::<TermS<F>>::empty(), true),
{
    let s = seq![t, spec_flip(t)];
    lemma_cancel_with_flip(t);
    assert(s[0] == t);
    assert(s[1] == spec_flip(t));
    assert(s.skip(2) =~= Seq::<TermS<F>>::empty());
    assert(spec_simplify(s.skip(2)) == (s.skip(2), true));
}

/// With no equations there is nothing to solve for.
pub proof fn lemma_solve_no_equations<B, F, B0, V, I: Inspect<B, B0, V>>(f: I, target: V)
    ensures
        spec_solve(f, Seq::<EqV<B, F>>::empty(), target) == Seq::<TermV<B0, F>>::empty(),
{
    let eqs = Seq::<EqV<B, F>>::empty();
    let pending = Seq::new(eqs.len(), |k: int| (vars_of(f, eqs[k]), k));
    assert(pending =~= Seq::empty());
    let st = seq![target];
    assert(st.drop_last() =~= Seq::<V>::empty());
    assert(!has_key(Solved::<V, B, F>::empty(), target));
    reveal_with_fuel(split_by, 2);
    assert(split_by(pending, target).0.len() == 0);
    assert(split_by(pending, target).1 =~= pending);
    let solved = collect(f, eqs, pending, st, Seq::empty());
    assert(collect(f, eqs, pending, Seq::<V>::empty(), Seq::empty()) == Solved::<V, B, F>::empty());
    assert(solved == Solved::<V, B, F>::empty());
}

/// `b0` is what some base stands for.
pub open spec fn is_final<B, B0, V, I: Inspect<B, B0, V>>(f: I, b0: B0) -> bool {
    exists|b: B| f.spec_inspect(b) == Either::<B0, V>::Left(b0)
}

/// Every term of `s` is over a final base.
pub open spec fn all_final<B, B0, V, F, I: Inspect<B, B0, V>>(f: I, s: Seq<TermV<B0, F>>) -> bool {
    forall|i: int| 0 <= i < s.len() ==> #[trigger] is_final(f, s[i].0)
}

proof fn lemma_expand_final<B, F, B0, V, I: Inspect<B, B0, V>>(
    f: I,
    avail: Solved<V, B, F>,
    targets: Seq<TermV<B, F>>,
    sols: Seq<TermV<B0, F>>,
)
    requires
        all_final(f, sols),
    ensures
        all_final(f, expand(f, avail, targets, sols)),
    decreases avail.len(), targets.len(),
{
    if targets.len() > 0 {
        let it = targets.last();
        let ts = targets.drop_last();
        match f.spec_inspect(it.0) {
            Either::Left(b0) => {
                let s2 = sols.push((b0, it.1));
                assert forall|i: int| 0 <= i < s2.len() implies #[trigger] is_final(f, s2[i].0) by {
                    if i == sols.len() {
                        assert(f.spec_inspect(it.0) == Either::<B0, V>::Left(s2[i].0));
                    } else {
                        assert(s2[i] == sols[i]);
                    }
                }
                lemma_expand_final(f, avail, ts, s2);
            },
            Either::Right(v) => {
                if has_key(avail, v) {
                    let next = avail[key_pos(avail, v)].1;
                    lemma_expand_final(f, remove_key(avail, v), ts + substituted(it, next), sols);
                } else {
                    lemma_expand_final(f, avail, ts, sols);
                }
            },
        }
    }
}

/// Every term `solve` finds is over a final base: one that the inspection
/// maps to `Left`.
pub proof fn lemma_solve_final_bases<B, F, B0, V, I: Inspect<B, B0, V>>(
    f: I,
    eqs: Seq<EqV<B, F>>,
    target: V,
)
    ensures
        all_final(f, spec_solve(f, eqs, target)),
{
    let pending = Seq::new(eqs.len(), |k: int| (vars_of(f, eqs[k]), k));
    let solved = collect(f, eqs, pending, seq![target], Seq::empty());
    let start = match lookup(solved, target) {
        Some(ts) => ts,
        None => Seq::empty(),
    };
    lemma_expand_final(f, solved, start, Seq::empty());
}

/// Every equation of `s` has a bare left side.
pub open spec fn all_bare<N, F>(s: Seq<EqV<N, F>>) -> bool {
    forall|i: int| 0 <= i < s.len() ==> (#[trigger] s[i]).0.1.len() == 0
}

proof fn lemma_add_final_bare<N, F>(finals: Seq<EqV<N, F>>, e: EqV<N, F>)
    requires
        all_bare(finals),
    ensures
        all_bare(add_final(finals, e)),
{
    let r = add_final(finals, e);
    assert forall|i: int| 0 <= i < r.len() implies (#[trigger] r[i]).0.1.len() == 0 by {
        if i < finals.len() {
            assert(r[i] == finals[i]);
        }
    }
}

proof fn lemma_add_grid_bare<N, F>(finals: Seq<EqV<N, F>>, ls: Seq<N>, rs: Seq<N>, steps: (Seq<TermS<F>>, Seq<TermS<F>>))
    requires
        all_bare(finals),
    ensures
        all_bare(add_grid(finals, ls, rs, steps)),
    decreases ls.len(),
{
    if ls.len() > 0 {
        lemma_add_grid_bare(finals, ls.drop_last(), rs, steps);
        lemma_add_row_bare(add_grid(finals, ls.drop_last(), rs, steps), ls.last(), rs, steps);
    }
}

proof fn lemma_add_row_bare<N, F>(finals: Seq<EqV<N, F>>, l: N, rs: Seq<N>, steps: (Seq<TermS<F>>, Seq<TermS<F>>))
    requires
        all_bare(finals),
    ensures
        all_bare(add_row(finals, l, rs, steps)),
    decreases rs.len(),
{
    if rs.len() > 0 {
        lemma_add_row_bare(finals, l, rs.drop_last(), steps);
        lemma_add_final_bare(add_row(finals, l, rs.drop_last(), steps), ((l, steps.0), (rs.last(), steps.1)));
    }
}

proof fn lemma_handle_bare<B, F, N, V, I: Inspect<B, Vec<N>, V>>(
    f: I,
    e: EqV<B, F>,
    st: (Seq<EqV<N, F>>, Solved<V, B, F>),
    create: bool,
)
    requires
        all_bare(st.0),
    ensures
        all_bare(handle(f, e, st, create).0),
{
    let il = f.spec_inspect(e.0.0);
    let ir = f.spec_inspect(e.1.0);
    if il is Left && ir is Left {
        lemma_add_grid_bare(st.0, il->Left_0@, ir->Left_0@, (e.0.1, e.1.1));
    }
}

proof fn lemma_handle_all_bare<B, F, N, V, I: Inspect<B, Vec<N>, V>>(f: I, eqs: Seq<EqV<B, F>>)
    ensures
        all_bare(handle_all(f, eqs).0),
    decreases eqs.len(),
{
    if eqs.len() > 0 {
        lemma_handle_all_bare(f, eqs.drop_last());
        lemma_handle_bare(f, eqs.last(), handle_all(f, eqs.drop_last()), true);
    }
}

proof fn lemma_pair_row_bare<B, F, N, V, I: Inspect<B, Vec<N>, V>>(
    f: I,
    ts: Seq<TermV<B, F>>,
    i: int,
    c: nat,
    st: (Seq<EqV<N, F>>, Solved<V, B, F>),
)
    requires
        all_bare(st.0),
    ensures
        all_bare(pair_row(f, ts, i, c, st).0),
    decreases c,
{
    if c > 0 {
        lemma_pair_row_bare(f, ts, i, (c - 1) as nat, st);
        lemma_handle_bare(f, (ts[i], ts[i + c]), pair_row(f, ts, i, (c - 1) as nat, st), false);
    }
}

proof fn lemma_pair_rows_bare<B, F, N, V, I: Inspect<B, Vec<N>, V>>(
    f: I,
    ts: Seq<TermV<B, F>>,
    k: nat,
    st: (Seq<EqV<N, F>>, Solved<V, B, F>),
)
    requires
        all_bare(st.0),
    ensures
        all_bare(pair_rows(f, ts, k, st).0),
    decreases k,
{
    if k > 0 {
        lemma_pair_rows_bare(f, ts, (k - 1) as nat, st);
        if ts.len() >= k {
            lemma_pair_row_bare(f, ts, k - 1, (ts.len() - k) as nat, pair_rows(f, ts, (k - 1) as nat, st));
        }
    }
}

proof fn lemma_drain_bare<B, F, N, V, I: Inspect<B, Vec<N>, V>>(f: I, st: (Seq<EqV<N, F>>, Solved<V, B, F>))
    requires
        all_bare(st.0),
    ensures
        all_bare(drain(f, st)),
    decreases st.1.len(),
{
    if st.1.len() > 0 {
        let ts = st.1[0].1;
        lemma_pair_rows_len(f, ts, ts.len(), (st.0, st.1.skip(1)));
        lemma_pair_rows_bare(f, ts, ts.len(), (st.0, st.1.skip(1)));
        lemma_drain_bare(f, pair_rows(f, ts, ts.len(), (st.0, st.1.skip(1))));
    }
}

/// Every equation that `rebase_simplify` derives has a bare left side: all
/// steps are on the right.
pub proof fn lemma_rebase_simplify_bare_left<B, F, N, V, I: Inspect<B, Vec<N>, V>>(f: I, eqs: Seq<EqV<B, F>>)
    ensures
        all_bare(spec_rebase_simplify(f, eqs)),
{
    lemma_handle_all_bare(f, eqs);
    lemma_drain_bare(f, handle_all(f, eqs));
}

/// An equation is the same as itself written the other way round, and
/// sameness does not depend on which equation comes first.
pub proof fn lemma_same_equation_swap<B, F>(a: EqV<B, F>, b: EqV<B, F>)
    ensures
        same_equation(a, (a.1, a.0)),
        same_equation(a, b) == same_equation(b, a),
{
}

/// A contradiction is never lost: if the pass reaches step `a` (no two
/// adjacent steps of `p` followed by `a` cancel, so nothing before `a` is
/// dropped) and `a` is followed by a step `b` that projects a different
/// field or variant than `a` built, simplification reports an invalid term,
/// whatever follows.
pub proof fn lemma_simplify_detects_contradiction<F>(p: Seq<TermS<F>>, a: TermS<F>, b: TermS<F>, q: Seq<TermS<F>>)
    requires
        forall|k: int| 0 <= k < p.len() ==> !(#[trigger] spec_cancel(p.push(a)[k], p.push(a)[k + 1]) is Cancels),
        spec_cancel(a, b) is NonOverlappingField || spec_cancel(a, b) is NonOverlappingVariant,
    ensures
        !spec_simplify(p + seq![a, b] + q).1,
    decreases p.len(),
{
    let s = p + seq![a, b] + q;
    if p.len() == 0 {
        assert(s[0] == a);
        assert(s[1] == b);
    } else {
        let p1 = p.skip(1);
        assert forall|k: int| 0 <= k < p1.len() implies !(#[trigger] spec_cancel(p1.push(a)[k], p1.push(a)[k + 1]) is Cancels) by {
            assert(p1.push(a)[k] == p.push(a)[k + 1]);
            assert(p1.push(a)[k + 1] == p.push(a)[k + 2]);
            assert(!(spec_cancel(p.push(a)[k + 1], p.push(a)[k + 2]) is Cancels));
        }
        lemma_simplify_detects_contradiction(p1, a, b, q);
        assert(s.skip(1) =~= p1 + seq![a, b] + q);
        assert(s[0] == p.push(a)[0]);
        assert(s[1] == p.push(a)[1]);
        assert(!(spec_cancel(p.push(a)[0], p.push(a)[1]) is Cancels));
    }
}

/// Everything in `a` is also in `b`.
pub open spec fn grows<T>(a: Seq<T>, b: Seq<T>) -> bool {
    forall|x: T| a.contains(x) ==> #[trigger] b.contains(x)
}

proof fn lemma_push_grows<T>(a: Seq<T>, x: T)
    ensures
        grows(a, a.push(x)),
        a.push(x).contains(x),
{
    assert forall|y: T| a.contains(y) implies #[trigger] a.push(x).contains(y) by {
        let k = choose|k: int| 0 <= k < a.len() && a[k] == y;
        assert(a.push(x)[k] == y);
    }
    assert(a.push(x)[a.len() as int] == x);
}

proof fn lemma_add_final_grows<N, F>(finals: Seq<EqV<N, F>>, e: EqV<N, F>)
    ensures
        grows(finals, add_final(finals, e)),
{
    let s = spec_simplify(e.1.1 + flipped_reverse(e.0.1));
    if s.1 {
        lemma_push_grows(finals, ((e.0.0, Seq::empty()), (e.1.0, s.0)));
    }
}

proof fn lemma_add_row_grows<N, F>(finals: Seq<EqV<N, F>>, l: N, rs: Seq<N>, steps: (Seq<TermS<F>>, Seq<TermS<F>>))
    ensures
        grows(finals, add_row(finals, l, rs, steps)),
    decreases rs.len(),
{
    if rs.len() > 0 {
        let a = add_row(finals, l, rs.drop_last(), steps);
        lemma_add_row_grows(finals, l, rs.drop_last(), steps);
        lemma_add_final_grows(a, ((l, steps.0), (rs.last(), steps.1)));
    }
}

proof fn lemma_add_grid_grows<N, F>(finals: Seq<EqV<N, F>>, ls: Seq<N>, rs: Seq<N>, steps: (Seq<TermS<F>>, Seq<TermS<F>>))
    ensures
        grows(finals, add_grid(finals, ls, rs, steps)),
    decreases ls.len(),
{
    if ls.len() > 0 {
        let a = add_grid(finals, ls.drop_last(), rs, steps);
        lemma_add_grid_grows(finals, ls.drop_last(), rs, steps);
        lemma_add_row_grows(a, ls.last(), rs, steps);
    }
}

proof fn lemma_add_row_has<N, F>(finals: Seq<EqV<N, F>>, l: N, rs: Seq<N>, steps: (Seq<TermS<F>>, Seq<TermS<F>>), j: int)
    requires
        0 <= j < rs.len(),
        spec_simplify(steps.1 + flipped_reverse(steps.0)).1,
    ensures
        add_row(finals, l, rs, steps).contains(
            ((l, Seq::<TermS<F>>::empty()), (rs[j], spec_simplify(steps.1 + flipped_reverse(steps.0)).0)),
        ),
    decreases rs.len(),
{
    let a = add_row(finals, l, rs.drop_last(), steps);
    let e = ((l, steps.0), (rs.last(), steps.1));
    lemma_add_final_grows(a, e);
    if j == rs.len() - 1 {
        let s = spec_simplify(steps.1 + flipped_reverse(steps.0));
        lemma_push_grows(a, ((l, Seq::<TermS<F>>::empty()), (rs.last(), s.0)));
    } else {
        lemma_add_row_has(finals, l, rs.drop_last(), steps, j);
        assert(rs.drop_last()[j] == rs[j]);
    }
}

proof fn lemma_add_grid_has<N, F>(
    finals: Seq<EqV<N, F>>,
    ls: Seq<N>,
    rs: Seq<N>,
    steps: (Seq<TermS<F>>, Seq<TermS<F>>),
    i: int,
    j: int,
)
    requires
        0 <= i < ls.len(),
        0 <= j < rs.len(),
        spec_simplify(steps.1 + flipped_reverse(steps.0)).1,
    ensures
        add_grid(finals, ls, rs, steps).contains(
            ((ls[i], Seq::<TermS<F>>::empty()), (rs[j], spec_simplify(steps.1 + flipped_reverse(steps.0)).0)),
        ),
    decreases ls.len(),
{
    let a = add_grid(finals, ls.drop_last(), rs, steps);
    if i == ls.len() - 1 {
        lemma_add_row_has(a, ls.last(), rs, steps, j);
    } else {
        lemma_add_grid_has(finals, ls.drop_last(), rs, steps, i, j);
        assert(ls.drop_last()[i] == ls[i]);
        lemma_add_row_grows(a, ls.last(), rs, steps);
    }
}

proof fn lemma_handle_grows<B, F, N, V, I: Inspect<B, Vec<N>, V>>(
    f: I,
    e: EqV<B, F>,
    st: (Seq<EqV<N, F>>, Solved<V, B, F>),
    create: bool,
)
    ensures
        grows(st.0, handle(f, e, st, create).0),
{
    let il = f.spec_inspect(e.0.0);
    let ir = f.spec_inspect(e.1.0);
    if il is Left && ir is Left {
        lemma_add_grid_grows(st.0, il->Left_0@, ir->Left_0@, (e.0.1, e.1.1));
    }
}

proof fn lemma_handle_all_has<B, F, N, V, I: Inspect<B, Vec<N>, V>>(
    f: I,
    eqs: Seq<EqV<B, F>>,
    k: int,
    x: EqV<N, F>,
)
    requires
        0 <= k < eqs.len(),
        handle(f, eqs[k], handle_all(f, eqs.take(k)), true).0.contains(x),
    ensures
        handle_all(f, eqs).0.contains(x),
    decreases eqs.len(),
{
    if k == eqs.len() - 1 {
        assert(eqs.take(k) =~= eqs.drop_last());
    } else {
        let d = eqs.drop_last();
        assert(d.take(k) =~= eqs.take(k));
        assert(d[k] == eqs[k]);
        lemma_handle_all_has(f, d, k, x);
        lemma_handle_grows(f, eqs.last(), handle_all(f, d), true);
    }
}

proof fn lemma_pair_row_grows<B, F, N, V, I: Inspect<B, Vec<N>, V>>(
    f: I,
    ts: Seq<TermV<B, F>>,
    i: int,
    c: nat,
    st: (Seq<EqV<N, F>>, Solved<V, B, F>),
)
    ensures
        grows(st.0, pair_row(f, ts, i, c, st).0),
    decreases c,
{
    if c > 0 {
        let a = pair_row(f, ts, i, (c - 1) as nat, st);
        lemma_pair_row_grows(f, ts, i, (c - 1) as nat, st);
        lemma_handle_grows(f, (ts[i], ts[i + c]), a, false);
    }
}

proof fn lemma_pair_rows_grows<B, F, N, V, I: Inspect<B, Vec<N>, V>>(
    f: I,
    ts: Seq<TermV<B, F>>,
    k: nat,
    st: (Seq<EqV<N, F>>, Solved<V, B, F>),
)
    ensures
        grows(st.0, pair_rows(f, ts, k, st).0),
    decreases k,
{
    if k > 0 {
        let st1 = pair_rows(f, ts, (k - 1) as nat, st);
        lemma_pair_rows_grows(f, ts, (k - 1) as nat, st);
        if ts.len() >= k {
            lemma_pair_row_grows(f, ts, k - 1, (ts.len() - k) as nat, st1);
        }
    }
}

proof fn lemma_drain_grows<B, F, N, V, I: Inspect<B, Vec<N>, V>>(f: I, st: (Seq<EqV<N, F>>, Solved<V, B, F>))
    ensures
        grows(st.0, drain(f, st)),
    decreases st.1.len(),
{
    if st.1.len() > 0 {
        let ts = st.1[0].1;
        let next = pair_rows(f, ts, ts.len(), (st.0, st.1.skip(1)));
        lemma_pair_rows_len(f, ts, ts.len(), (st.0, st.1.skip(1)));
        lemma_pair_rows_grows(f, ts, ts.len(), (st.0, st.1.skip(1)));
        lemma_drain_grows(f, next);
    }
}

/// Every equation between two final bases is rebased onto every pair of what
/// they stand for: for each base `l` that the left base is rebased to and
/// each base `r` that the right base is rebased to, the result holds the
/// equation `l = r` with all steps moved to the right and simplified, unless
/// that simplification finds a contradiction.
pub proof fn lemma_rebase_simplify_pairs_all<B, F, N, V, I: Inspect<B, Vec<N>, V>>(
    f: I,
    eqs: Seq<EqV<B, F>>,
    k: int,
    i: int,
    j: int,
)
    requires
        0 <= k < eqs.len(),
        f.spec_inspect(eqs[k].0.0) is Left,
        f.spec_inspect(eqs[k].1.0) is Left,
        0 <= i < f.spec_inspect(eqs[k].0.0)->Left_0@.len(),
        0 <= j < f.spec_inspect(eqs[k].1.0)->Left_0@.len(),
        spec_simplify(eqs[k].1.1 + flipped_reverse(eqs[k].0.1)).1,
    ensures
        spec_rebase_simplify(f, eqs).contains(
            (
                (f.spec_inspect(eqs[k].0.0)->Left_0@[i], Seq::<TermS<F>>::empty()),
                (f.spec_inspect(eqs[k].1.0)->Left_0@[j], spec_simplify(eqs[k].1.1 + flipped_reverse(eqs[k].0.1)).0),
            ),
        ),
{
    let e = eqs[k];
    let ls = f.spec_inspect(e.0.0)->Left_0@;
    let rs = f.spec_inspect(e.1.0)->Left_0@;
    let st = handle_all(f, eqs.take(k));
    let x = ((ls[i], Seq::<TermS<F>>::empty()), (rs[j], spec_simplify(e.1.1 + flipped_reverse(e.0.1)).0));
    lemma_add_grid_has(st.0, ls, rs, (e.0.1, e.1.1), i, j);
    lemma_handle_all_has(f, eqs, k, x);
    lemma_drain_grows(f, handle_all(f, eqs));
}

proof fn lemma_add_grid_len<N, F>(finals: Seq<EqV<N, F>>, ls: Seq<N>, rs: Seq<N>, steps: (Seq<TermS<F>>, Seq<TermS<F>>))
    requires
        spec_simplify(steps.1 + flipped_reverse(steps.0)).1,
    ensures
        add_grid(finals, ls, rs, steps).len() == finals.len() + ls.len() * rs.len(),
        forall|l: N, a: Seq<EqV<N, F>>| #[trigger] add_row(a, l, rs, steps).len() == a.len() + rs.len(),
    decreases ls.len(),
{
    assert forall|l: N, a: Seq<EqV<N, F>>| #[trigger] add_row(a, l, rs, steps).len() == a.len() + rs.len() by {
        lemma_add_row_len(a, l, rs, steps);
    }
    if ls.len() > 0 {
        lemma_add_grid_len(finals, ls.drop_last(), rs, steps);
        let n = ls.len();
        let m = rs.len();
        assert((n - 1) * m + m == n * m) by (nonlinear_arith);
    }
}

proof fn lemma_add_row_len<N, F>(finals: Seq<EqV<N, F>>, l: N, rs: Seq<N>, steps: (Seq<TermS<F>>, Seq<TermS<F>>))
    requires
        spec_simplify(steps.1 + flipped_reverse(steps.0)).1,
    ensures
        add_row(finals, l, rs, steps).len() == finals.len() + rs.len(),
    decreases rs.len(),
{
    if rs.len() > 0 {
        lemma_add_row_len(finals, l, rs.drop_last(), steps);
    }
}

/// A single equation between two final bases, one rebased to the bases `ls`
/// and the other to `rs`, gives one equation per pair of them, `ls.len() *
/// rs.len()` in all, when moving its steps to one side is no contradiction.
pub proof fn lemma_rebase_simplify_grid_size<B, F, N, V, I: Inspect<B, Vec<N>, V>>(f: I, e: EqV<B, F>)
    requires
        f.spec_inspect(e.0.0) is Left,
        f.spec_inspect(e.1.0) is Left,
        spec_simplify(e.1.1 + flipped_reverse(e.0.1)).1,
    ensures
        spec_rebase_simplify(f, seq![e]).len()
            == f.spec_inspect(e.0.0)->Left_0@.len() * f.spec_inspect(e.1.0)->Left_0@.len(),
{
    let eqs = seq![e];
    assert(eqs.drop_last() =~= Seq::<EqV<B, F>>::empty());
    assert(eqs.last() == e);
    let st0: (Seq<EqV<N, F>>, Solved<V, B, F>) = (Seq::empty(), Seq::empty());
    assert(handle_all(f, eqs.drop_last()) == st0);
    let ls = f.spec_inspect(e.0.0)->Left_0@;
    let rs = f.spec_inspect(e.1.0)->Left_0@;
    lemma_add_grid_len(Seq::<EqV<N, F>>::empty(), ls, rs, (e.0.1, e.1.1));
    assert(handle_all(f, eqs).1.len() == 0);
}

/// Solving composes substitutions innermost first: from `x = t(y)` and
/// `z = s(x)`, with `y` final and `x`, `z` variables, the one solution for
/// `z` is `y` under the steps of `t` followed by those of `s`, simplified
/// (none if that is a contradiction). So from `x = &y` and `z = (*x).f`
/// solving gives `z = y.f`.
pub proof fn lemma_solve_composes<B, F, B0, V, I: Inspect<B, B0, V>>(
    f: I,
    x: B,
    y: B,
    z: B,
    t: Seq<TermS<F>>,
    s: Seq<TermS<F>>,
    vx: V,
    vz: V,
    b0: B0,
)
    requires
        f.spec_inspect(x) == Either::<B0, V>::Right(vx),
        f.spec_inspect(z) == Either::<B0, V>::Right(vz),
        f.spec_inspect(y) == Either::<B0, V>::Left(b0),
        vx != vz,
    ensures
        spec_solve(f, seq![((x, Seq::<TermS<F>>::empty()), (y, t)), ((z, Seq::<TermS<F>>::empty()), (x, s))], vz)
            == if spec_simplify(t + s).1 {
                seq![(b0, spec_simplify(t + s).0)]
            } else {
                Seq::<TermV<B0, F>>::empty()
            },
{
    let empty = Seq::<TermS<F>>::empty();
    let e0 = ((x, empty), (y, t));
    let e1 = ((z, empty), (x, s));
    let eqs = seq![e0, e1];
    assert(flipped_reverse(empty) =~= empty);
    assert(t + empty =~= t);
    assert(s + empty =~= s);
    assert(vars_of(f, e0) =~= seq![vx]);
    assert(vars_of(f, e1) =~= seq![vz, vx]);
    let pending = Seq::new(eqs.len(), |k: int| (vars_of(f, eqs[k]), k));
    let p0 = (seq![vx], 0int);
    let p1 = (seq![vz, vx], 1int);
    assert(pending =~= seq![p0, p1]);
    // Splitting by `vz`.
    assert(seq![p0, p1].drop_last() =~= seq![p0]);
    assert(seq![p0].drop_last() =~= Seq::<(Seq<V>, int)>::empty());
    assert(!p0.0.contains(vz)) by {
        if p0.0.contains(vz) {
            let i = choose|i: int| 0 <= i < p0.0.len() && p0.0[i] == vz;
            assert(p0.0[i] == vx);
        }
    }
    assert(p1.0[0] == vz);
    assert(p1.0.contains(vz));
    let e_p: Pending<V> = Seq::empty();
    assert(split_by(e_p, vz) == (e_p, e_p));
    assert(split_by(seq![p0], vz) == (e_p, seq![p0])) by {
        assert(e_p.push(p0) =~= seq![p0]);
    }
    assert(split_by(pending, vz) == (seq![p1], seq![p0])) by {
        assert(e_p.push(p1) =~= seq![p1]);
    }
    let none: Solved<V, B, F> = Seq::empty();
    let stack0 = Seq::<V>::empty();
    // Absorbing `z = s(x)` as a term for `vz`.
    assert(solved_for(f, vz, eqs[1]) == (x, s));
    assert(!has_key(none, vz));
    let s1 = insert_under(none, vz, (x, s));
    assert(s1 =~= seq![(vz, seq![(x, s)])]);
    assert(seq![p1].drop_last() =~= e_p);
    assert(absorb(f, eqs, vz, e_p, stack0, none) == (stack0, none));
    assert(absorb(f, eqs, vz, seq![p1], stack0, none) == (stack0.push(vx), s1));
    assert(stack0.push(vx) =~= seq![vx]);
    // Then `x = t(y)` as a term for `vx`.
    assert(!has_key(s1, vx)) by {
        if has_key(s1, vx) {
            let i = choose|i: int| 0 <= i < s1.len() && s1[i].0 == vx;
            assert(s1[i].0 == vz);
        }
    }
    assert(p0.0[0] == vx);
    assert(p0.0.contains(vx));
    assert(split_by(seq![p0], vx) == (seq![p0], e_p)) by {
        assert(split_by(e_p, vx) == (e_p, e_p));
        assert(e_p.push(p0) =~= seq![p0]);
    }
    assert(solved_for(f, vx, eqs[0]) == (y, t));
    let s2 = insert_under(s1, vx, (y, t));
    assert(s2 =~= seq![(vz, seq![(x, s)]), (vx, seq![(y, t)])]);
    assert(absorb(f, eqs, vx, e_p, stack0, s1) == (stack0, s1));
    assert(absorb(f, eqs, vx, seq![p0], stack0, s1) == (stack0, s2));
    assert(seq![vx].drop_last() =~= stack0);
    assert(seq![vz].drop_last() =~= stack0);
    assert(collect(f, eqs, e_p, stack0, s2) == s2);
    assert(collect(f, eqs, seq![p0], seq![vx], s1) == s2);
    assert(collect(f, eqs, pending, seq![vz], none) == s2);
    // The terms for `vz`, then for `vx`.
    assert(has_key(s2, vz)) by {
        assert(s2[0].0 == vz);
    }
    assert(key_pos(s2, vz) == 0) by {
        let i = key_pos(s2, vz);
        assert(0 <= i < s2.len() && s2[i].0 == vz);
        if i == 1 {
            assert(s2[1].0 == vx);
        }
    }
    assert(lookup(s2, vz) == Some(seq![(x, s)]));
    assert(has_key(s2, vx)) by {
        assert(s2[1].0 == vx);
    }
    assert(key_pos(s2, vx) == 1) by {
        let i = key_pos(s2, vx);
        assert(0 <= i < s2.len() && s2[i].0 == vx);
        if i == 0 {
            assert(s2[0].0 == vz);
        }
    }
    let avail = remove_key(s2, vx);
    let targets = seq![(x, s)];
    assert(targets.last() == (x, s));
    assert(targets.drop_last() =~= Seq::<TermV<B, F>>::empty());
    let sub = substituted((x, s), seq![(y, t)]);
    assert(seq![(y, t)].drop_last() =~= Seq::<TermV<B, F>>::empty());
    let ss = spec_simplify(t + s);
    assert(seq![(y, t)].last() == (y, t));
    assert(substituted((x, s), Seq::<TermV<B, F>>::empty()) == Seq::<TermV<B, F>>::empty());
    assert(Seq::<TermV<B, F>>::empty().push((y, ss.0)) =~= seq![(y, ss.0)]);
    let sols = Seq::<TermV<B0, F>>::empty();
    assert(Seq::<TermV<B, F>>::empty() + sub =~= sub);
    assert(expand(f, s2, targets, sols) == expand(f, avail, sub, sols));
    if ss.1 {
        assert(sub =~= seq![(y, ss.0)]);
        assert(sub.drop_last() =~= Seq::<TermV<B, F>>::empty());
        assert(expand(f, avail, Seq::<TermV<B, F>>::empty(), sols.push((b0, ss.0))) == sols.push((b0, ss.0)));
        assert(sols.push((b0, ss.0)) =~= seq![(b0, ss.0)]);
    } else {
        assert(sub =~= Seq::<TermV<B, F>>::empty());
    }
}

} // verus!
