//! Identifiers of the machine and the bookkeeping that hands out generators.
use vstd::prelude::*;
use crate::algebra::GeneratorId;

verus! {

/// What kind of source token a generator was made for.
#[derive(Clone, Copy, Debug, PartialEq, Eq, Structural)]
pub enum TokenKind {
    Unknown,
    Letter,
    Digit,
    Delimiter,
    Operator,
    Keyword,
    Identifier,
    Literal,
}

/// The number of each kind, in the order above.
pub open spec fn kind_code(k: TokenKind) -> u8 {
    match k {
        TokenKind::Unknown => 0,
        TokenKind::Letter => 1,
        TokenKind::Digit => 2,
        TokenKind::Delimiter => 3,
        TokenKind::Operator => 4,
        TokenKind::Keyword => 5,
        TokenKind::Identifier => 6,
        TokenKind::Literal => 7,
    }
}

impl TokenKind {
    /// The number of this kind: `Unknown` 0, `Letter` 1, `Digit` 2,
    /// `Delimiter` 3, `Operator` 4, `Keyword` 5, `Identifier` 6, `Literal` 7.
    pub fn code(&self) -> (c: u8)
        ensures
            c == kind_code(*self),
    {
        match self {
            TokenKind::Unknown => 0,
            TokenKind::Letter => 1,
            TokenKind::Digit => 2,
            TokenKind::Delimiter => 3,
            TokenKind::Operator => 4,
            TokenKind::Keyword => 5,
            TokenKind::Identifier => 6,
            TokenKind::Literal => 7,
        }
    }
}

/// A constraint of the ideal.
#[derive(Clone, Copy, Debug, Hash, PartialEq, Eq, PartialOrd, Ord, Structural)]
pub struct ConstraintId(pub u64);

/// A causal event.
#[derive(Clone, Copy, Debug, Hash, PartialEq, Eq, PartialOrd, Ord, Structural)]
pub struct EventId(pub u64);

/// The counters by which generators are handed out: the next generator
/// number, how many pathways (generators) are registered, and the dimension
/// of the representation space.  When the pathways fill the basis,
/// registering one more first extends the basis by one, so the pathways
/// never outnumber the basis dimension.
#[derive(Clone, Copy, Debug)]
pub struct Pathways {
    pub next_gen: u64,
    pub count: usize,
    pub basis_dim: usize,
}

/// One registration, from `before` to `after`, handing out `r`: the next
/// generator number, and whether the basis had to grow because the
/// pathways filled it.
pub open spec fn register_step(before: Pathways, after: Pathways, r: (GeneratorId, bool)) -> bool {
    &&& r.0 == GeneratorId(before.next_gen)
    &&& r.1 == (before.count >= before.basis_dim)
    &&& after.next_gen == before.next_gen + 1
    &&& after.count == before.count + 1
    &&& after.basis_dim == if r.1 {
        before.basis_dim + 1
    } else {
        before.basis_dim as int
    }
}

impl Pathways {
    /// Fresh counters over a basis of `basis_dim`: generator numbers start
    /// at 1, no pathway is registered.
    pub fn new(basis_dim: usize) -> (p: Pathways)
        ensures
            p.next_gen == 1,
            p.count == 0,
            p.basis_dim == basis_dim,
    {
        Pathways { next_gen: 1, count: 0, basis_dim }
    }

    /// Registers one generator: the basis grows by one first where the
    /// pathways fill it.  Returns the new generator and whether the basis
    /// grew.
    pub fn register(&mut self) -> (r: (GeneratorId, bool))
        requires
            old(self).next_gen < u64::MAX,
            old(self).count < usize::MAX,
            old(self).basis_dim < usize::MAX,
        ensures
            register_step(*old(self), *final(self), r),
    {
        let extend = self.count >= self.basis_dim;
        if extend {
            self.basis_dim = self.basis_dim + 1;
        }
        let g = GeneratorId(self.next_gen);
        self.next_gen = self.next_gen + 1;
        self.count = self.count + 1;
        (g, extend)
    }
}

/// Whether the pathways fit in the basis: no more of them than the basis
/// dimension.
pub open spec fn within_basis(p: Pathways) -> bool {
    p.count <= p.basis_dim
}

/// Fresh counters have their pathways within the basis.
pub proof fn lemma_new_within_basis(p: Pathways, d: usize)
    requires
        p.next_gen == 1,
        p.count == 0,
        p.basis_dim == d,
    ensures
        within_basis(p),
{
}

/// Registration keeps the pathways within the basis, and grows the basis by
/// at most one.  With `lemma_new_within_basis` this holds in every state
/// reached from fresh counters.
pub proof fn lemma_register_keeps_within_basis(before: Pathways, after: Pathways, r: (GeneratorId, bool))
    requires
        register_step(before, after, r),
        within_basis(before),
    ensures
        within_basis(after),
        after.basis_dim <= before.basis_dim + 1,
{
}

/// Two registrations in a row hand out distinct, increasing generators.
pub proof fn lemma_register_fresh(
    p0: Pathways,
    p1: Pathways,
    p2: Pathways,
    r1: (GeneratorId, bool),
    r2: (GeneratorId, bool),
)
    requires
        register_step(p0, p1, r1),
        register_step(p1, p2, r2),
    ensures
        r1.0.0 < r2.0.0,
        p2.next_gen == p0.next_gen + 2,
{
}

} // verus!
