//! Generators and monomials: words over generators, composed by
//! concatenation.
use vstd::prelude::*;

verus! {

/// A generator of the algebra.
#[derive(Clone, Copy, Debug, Hash, PartialEq, Eq, PartialOrd, Ord, Structural)]
pub struct GeneratorId(pub u64);

/// A word over generators; the empty word is the unit.
#[derive(Clone, Debug, Hash, PartialEq, Eq, PartialOrd, Ord)]
pub struct Monomial {
    pub word: Vec<GeneratorId>,
}

impl View for Monomial {
    type V = Seq<GeneratorId>;

    open spec fn view(&self) -> Seq<GeneratorId> {
        self.word@
    }
}

/// The product of two monomials: the first word, then the second.
pub open spec fn compose_words(a: Seq<GeneratorId>, b: Seq<GeneratorId>) -> Seq<GeneratorId> {
    a + b
}

impl Monomial {
    /// The unit: the empty word.
    pub fn unit() -> (m: Monomial)
        ensures
            m@ == Seq::<GeneratorId>::empty(),
    {
        Monomial { word: Vec::new() }
    }

    /// The word of one generator.
    pub fn atom(g: GeneratorId) -> (m: Monomial)
        ensures
            m@ == seq![g],
    {
        let mut word = Vec::new();
        word.push(g);
        Monomial { word }
    }

    /// The product of `self` and `o`: `self`'s word followed by `o`'s.
    pub fn compose(&self, o: &Monomial) -> (m: Monomial)
        ensures
            m@ == compose_words(self@, o@),
    {
        let mut word: Vec<GeneratorId> = Vec::new();
        let mut i: usize = 0;
        while i < self.word.len()
            invariant
                i <= self.word@.len(),
                word@ == self.word@.take(i as int),
            decreases self.word.len() - i,
        {
            word.push(self.word[i]);
            assert(self.word@.take(i + 1) =~= self.word@.take(i as int).push(self.word@[i as int]));
            i += 1;
        }
        let mut j: usize = 0;
        while j < o.word.len()
            invariant
                j <= o.word@.len(),
                word@ == self.word@ + o.word@.take(j as int),
            decreases o.word.len() - j,
        {
            word.push(o.word[j]);
            assert(o.word@.take(j + 1) =~= o.word@.take(j as int).push(o.word@[j as int]));
            j += 1;
        }
        assert(self.word@.take(self.word.len() as int) =~= self.word@);
        assert(o.word@.take(o.word.len() as int) =~= o.word@);
        Monomial { word }
    }

    /// Whether this is the unit.
    pub fn is_unit(&self) -> (b: bool)
        ensures
            b == (self@.len() == 0),
    {
        self.word.len() == 0
    }
}

/// Composition of monomials is associative.
pub proof fn lemma_compose_associative(a: Seq<GeneratorId>, b: Seq<GeneratorId>, c: Seq<GeneratorId>)
    ensures
        compose_words(compose_words(a, b), c) == compose_words(a, compose_words(b, c)),
{
    assert(compose_words(compose_words(a, b), c) =~= compose_words(a, compose_words(b, c)));
}

/// The unit is neutral for composition on both sides.
pub proof fn lemma_compose_unit(a: Seq<GeneratorId>)
    ensures
        compose_words(Seq::empty(), a) == a,
        compose_words(a, Seq::empty()) == a,
{
    assert(compose_words(Seq::empty(), a) =~= a);
    assert(compose_words(a, Seq::empty()) =~= a);
}

/// Composing two words gives a word as long as both together; a product is
/// the unit only when both factors are.
pub proof fn lemma_compose_length(a: Seq<GeneratorId>, b: Seq<GeneratorId>)
    ensures
        compose_words(a, b).len() == a.len() + b.len(),
        (compose_words(a, b).len() == 0) == (a.len() == 0 && b.len() == 0),
{
}

} // verus!
