use vstd::prelude::*;
use crate::errors::{ZiaError, ZiaResult};

verus! {

/// The three kinds of concept.
#[derive(PartialEq, Eq, Structural, Clone, Copy)]
pub enum ConceptKind {
    Abstract,
    Concrete,
    Text,
}

/// What a concept holds, as mathematical values.
pub struct ConceptView {
    pub kind: ConceptKind,
    /// The pair of concepts that compose it, if it is defined.
    pub definition: Option<(usize, usize)>,
    /// The concept it reduces to, if it has a reduction rule.
    pub reduction: Option<usize>,
    /// The concepts whose definition has it on the lefthand side.
    pub lefthand_of: Seq<usize>,
    /// The concepts whose definition has it on the righthand side.
    pub righthand_of: Seq<usize>,
    /// The concepts that reduce to it.
    pub reduces_from: Seq<usize>,
    /// The text of a string concept (empty for other concepts).
    pub string: Seq<char>,
}

impl ConceptView {
    pub open spec fn with_definition(self, d: Option<(usize, usize)>) -> ConceptView {
        ConceptView { definition: d, ..self }
    }

    pub open spec fn with_reduction(self, r: Option<usize>) -> ConceptView {
        ConceptView { reduction: r, ..self }
    }

    pub open spec fn with_lefthand_of(self, s: Seq<usize>) -> ConceptView {
        ConceptView { lefthand_of: s, ..self }
    }

    pub open spec fn with_righthand_of(self, s: Seq<usize>) -> ConceptView {
        ConceptView { righthand_of: s, ..self }
    }

    pub open spec fn with_reduces_from(self, s: Seq<usize>) -> ConceptView {
        ConceptView { reduces_from: s, ..self }
    }
}

/// The set of `s` with `x` added (no element twice when there was none before).
pub open spec fn seq_insert(s: Seq<usize>, x: usize) -> Seq<usize> {
    if s.contains(x) {
        s
    } else {
        s.push(x)
    }
}

/// What a sequence holds after an insertion.
pub proof fn lemma_seq_insert_contains(s: Seq<usize>, x: usize)
    ensures
        forall|y: usize| #[trigger] seq_insert(s, x).contains(y) <==> (s.contains(y) || y == x),
        s.no_duplicates() ==> seq_insert(s, x).no_duplicates(),
{
    if !s.contains(x) {
        assert forall|y: usize| #[trigger] s.push(x).contains(y) <==> (s.contains(y) || y == x) by {
            if s.push(x).contains(y) {
                let p = choose|p: int| 0 <= p < s.push(x).len() && s.push(x)[p] == y;
                if p < s.len() {
                    assert(s[p] == y);
                }
            }
            if s.contains(y) {
                let p = choose|p: int| 0 <= p < s.len() && s[p] == y;
                assert(s.push(x)[p] == y);
            }
            if y == x {
                assert(s.push(x)[s.len() as int] == y);
            }
        }
        if s.no_duplicates() {
            assert forall|a: int, b: int| 0 <= a < b < s.push(x).len() implies s.push(x)[a] != s.push(x)[b] by {
                if b == s.len() {
                    assert(s[a] == s.push(x)[a]);
                }
            }
        }
    }
}

/// Two sequences hold the same elements, with `x` left out of the second.
pub open spec fn removed_from(old_s: Seq<usize>, new_s: Seq<usize>, x: usize) -> bool {
    &&& forall|y: usize| #[trigger] new_s.contains(y) <==> (old_s.contains(y) && y != x)
    &&& old_s.no_duplicates() ==> new_s.no_duplicates()
}

/// Adds `x` to a vector that is used as a set.
pub fn vec_insert(v: &mut Vec<usize>, x: usize)
    ensures
        final(v)@ == seq_insert(old(v)@, x),
{
    let mut i: usize = 0;
    while i < v.len()
        invariant
            i <= v.len(),
            forall|j: int| 0 <= j < i ==> v@[j] != x,
        decreases v.len() - i,
    {
        if v[i] == x {
            return;
        }
        i = i + 1;
    }
    v.push(x);
}

/// Removes `x` from a vector that is used as a set.
pub fn vec_remove(v: &mut Vec<usize>, x: usize)
    ensures
        removed_from(old(v)@, final(v)@, x),
{
    let ghost s0 = v@;
    let mut i: usize = 0;
    while i < v.len()
        invariant
            i <= v.len(),
            forall|y: usize| #[trigger] v@.contains(y) ==> s0.contains(y),
            forall|y: usize| s0.contains(y) && y != x ==> #[trigger] v@.contains(y),
            forall|j: int| 0 <= j < i ==> v@[j] != x,
            s0.no_duplicates() ==> v@.no_duplicates(),
        decreases v.len() - i,
    {
        if v[i] == x {
            let ghost before = v@;
            v.remove(i);
            proof {
                assert forall|y: usize| #[trigger] v@.contains(y) implies before.contains(y) by {
                    let k = choose|k: int| 0 <= k < v@.len() && v@[k] == y;
                    if k < i {
                        assert(before[k] == y);
                    } else {
                        assert(before[k + 1] == y);
                    }
                }
                assert forall|y: usize| before.contains(y) && y != x implies #[trigger] v@.contains(y) by {
                    let k = choose|k: int| 0 <= k < before.len() && before[k] == y;
                    if k < i {
                        assert(v@[k] == y);
                    } else {
                        assert(k != i);
                        assert(v@[k - 1] == y);
                    }
                }
                if before.no_duplicates() {
                    assert forall|a: int, b: int| 0 <= a < b < v@.len() implies v@[a] != v@[b] by {
                        let a2 = if a < i { a } else { a + 1 };
                        let b2 = if b < i { b } else { b + 1 };
                        assert(before[a2] == v@[a]);
                        assert(before[b2] == v@[b]);
                    }
                }
            }
        } else {
            i = i + 1;
        }
    }
    proof {
        assert forall|y: usize| #[trigger] v@.contains(y) implies y != x by {
            let k = choose|k: int| 0 <= k < v@.len() && v@[k] == y;
        }
    }
}

/// The part of a concept that records which concepts it composes and which
/// concepts reduce to it.
pub struct ConcreteConcept {
    pub lefthand_of: Vec<usize>,
    pub righthand_of: Vec<usize>,
    pub reduces_from: Vec<usize>,
}

/// A concept that can reduce to another concept and be defined as the
/// composition of two concepts.
pub struct AbstractConcept {
    pub concrete_concept: ConcreteConcept,
    pub definition: Option<(usize, usize)>,
    pub reduces_to: Option<usize>,
}

/// A concrete concept that is associated with a `String` value.
pub struct StringConcept {
    pub concrete_concept: ConcreteConcept,
    pub string: String,
}

/// All the different types of concepts.
pub enum Concept {
    /// An abstract concept can reduce to any other concept (whose normal form isn't the former
    /// concept) and can be defined as the composition of any two concepts.
    Abstract(AbstractConcept),
    /// A concrete concept cannot be further reduced or defined as a composition.
    Concrete(ConcreteConcept),
    /// A string concept is concrete and is associated with a `String` value.
    String(StringConcept),
}

impl ConcreteConcept {
    pub open spec fn parts(&self) -> (Seq<usize>, Seq<usize>, Seq<usize>) {
        (self.lefthand_of@, self.righthand_of@, self.reduces_from@)
    }

    /// A concrete part that nothing refers to.
    pub fn new() -> (c: ConcreteConcept)
        ensures
            c.parts() == (Seq::<usize>::empty(), Seq::<usize>::empty(), Seq::<usize>::empty()),
    {
        ConcreteConcept { lefthand_of: Vec::new(), righthand_of: Vec::new(), reduces_from: Vec::new() }
    }
}

impl AbstractConcept {
    /// An abstract concept that has no definition, reduces to nothing and is
    /// part of nothing.
    pub fn new_ref() -> (c: AbstractConcept)
        ensures
            c.definition is None,
            c.reduces_to is None,
            c.concrete_concept.parts() == (Seq::<usize>::empty(), Seq::<usize>::empty(), Seq::<usize>::empty()),
    {
        AbstractConcept { concrete_concept: ConcreteConcept::new(), definition: None, reduces_to: None }
    }
}

impl StringConcept {
    /// A string concept of the text that is part of nothing.
    pub fn new_ref(string: &str) -> (c: StringConcept)
        ensures
            c.string@ == string@,
            c.concrete_concept.parts() == (Seq::<usize>::empty(), Seq::<usize>::empty(), Seq::<usize>::empty()),
    {
        StringConcept { concrete_concept: ConcreteConcept::new(), string: String::from_str(string) }
    }

    /// The text of the string concept.
    pub fn get_string(&self) -> (s: String)
        ensures
            s@ == self.string@,
    {
        self.string.clone()
    }
}

impl View for Concept {
    type V = ConceptView;

    open spec fn view(&self) -> ConceptView {
        match self {
            Concept::Abstract(a) => ConceptView {
                kind: ConceptKind::Abstract,
                definition: a.definition,
                reduction: a.reduces_to,
                lefthand_of: a.concrete_concept.lefthand_of@,
                righthand_of: a.concrete_concept.righthand_of@,
                reduces_from: a.concrete_concept.reduces_from@,
                string: Seq::empty(),
            },
            Concept::Concrete(c) => ConceptView {
                kind: ConceptKind::Concrete,
                definition: None,
                reduction: None,
                lefthand_of: c.lefthand_of@,
                righthand_of: c.righthand_of@,
                reduces_from: c.reduces_from@,
                string: Seq::empty(),
            },
            Concept::String(s) => ConceptView {
                kind: ConceptKind::Text,
                definition: None,
                reduction: None,
                lefthand_of: s.concrete_concept.lefthand_of@,
                righthand_of: s.concrete_concept.righthand_of@,
                reduces_from: s.concrete_concept.reduces_from@,
                string: s.string@,
            },
        }
    }
}

impl Concept {
    /// The concrete part of the concept.
    pub fn read_concrete(&self) -> (c: &ConcreteConcept)
        ensures
            c.parts() == (self@.lefthand_of, self@.righthand_of, self@.reduces_from),
    {
        match self {
            Concept::Abstract(c) => &c.concrete_concept,
            Concept::Concrete(c) => c,
            Concept::String(c) => &c.concrete_concept,
        }
    }
}

/// Reading the definition of a concept.
pub trait GetDefinition {
    spec fn spec_definition(&self) -> Option<(usize, usize)>;

    /// The lefthand and righthand concepts that compose it, if it is defined.
    fn get_definition(&self) -> (r: Option<(usize, usize)>)
        ensures
            r == self.spec_definition(),
    ;
}

/// Reading the reduction rule of a concept.
pub trait GetReduction {
    spec fn spec_reduction(&self) -> Option<usize>;

    /// The concept it reduces to, if any.
    fn get_reduction(&self) -> (r: Option<usize>)
        ensures
            r == self.spec_reduction(),
    ;
}

/// Reading which concepts reduce to a concept.
pub trait FindWhatReducesToIt {
    spec fn spec_reduces_from(&self) -> Seq<usize>;

    fn find_what_reduces_to_it(&self) -> (r: Vec<usize>)
        ensures
            r@ == self.spec_reduces_from(),
    ;
}

/// Reading which definitions a concept is a part of.
pub trait GetDefinitionOf {
    spec fn spec_lefthand_of(&self) -> Seq<usize>;

    spec fn spec_righthand_of(&self) -> Seq<usize>;

    fn get_lefthand_of(&self) -> (r: Vec<usize>)
        ensures
            r@ == self.spec_lefthand_of(),
    ;

    fn get_righthand_of(&self) -> (r: Vec<usize>)
        ensures
            r@ == self.spec_righthand_of(),
    ;
}

/// Reading the text of a string concept.
pub trait MaybeString {
    spec fn spec_string(&self) -> Option<Seq<char>>;

    fn get_string(&self) -> (r: Option<String>)
        ensures
            r matches Some(s) ==> self.spec_string() == Some(s@),
            r is None ==> self.spec_string() is None,
    ;
}

/// Making a concept unreduced, and forgetting a concept that reduced to it.
pub trait RemoveReduction {
    spec fn spec_reducible(&self) -> bool;

    fn make_reduce_to_none(&mut self)
        requires
            old(self).spec_reducible(),
    ;

    fn no_longer_reduces_from(&mut self, index: usize);
}

/// Defining a concept, and recording definitions a concept is part of.
pub trait SetDefinition {
    spec fn spec_definable(&self) -> bool;

    fn set_definition(&mut self, lefthand: usize, righthand: usize) -> (r: ZiaResult<()>)
        ensures
            r is Ok <==> old(self).spec_definable(),
    ;

    fn add_as_lefthand_of(&mut self, index: usize);

    fn add_as_righthand_of(&mut self, index: usize);
}

/// Giving a concept a reduction rule, and recording a concept that reduces to it.
pub trait SetReduction {
    spec fn spec_may_reduce(&self) -> bool;

    fn make_reduce_to(&mut self, concept: usize) -> (r: ZiaResult<()>)
        ensures
            r is Ok <==> old(self).spec_may_reduce(),
    ;

    fn make_reduce_from(&mut self, index: usize);
}

/// Removing the definition of a concept, and forgetting definitions it was part of.
pub trait RemoveDefinition {
    spec fn spec_has_definition_slot(&self) -> bool;

    fn remove_definition(&mut self)
        requires
            old(self).spec_has_definition_slot(),
    ;

    fn remove_as_lefthand_of(&mut self, index: usize);

    fn remove_as_righthand_of(&mut self, index: usize);
}

/// Making a new abstract concept.
pub trait AbstractFactory: Sized {
    spec fn spec_fresh_abstract(c: Self) -> bool;

    fn new_abstract() -> (c: Self)
        ensures
            Self::spec_fresh_abstract(c),
    ;
}

/// Making a new string concept.
pub trait StringFactory: Sized {
    spec fn spec_fresh_string(c: Self, s: Seq<char>) -> bool;

    fn new_string(string: &str) -> (c: Self)
        ensures
            Self::spec_fresh_string(c, string@),
    ;
}

impl GetDefinition for Concept {
    open spec fn spec_definition(&self) -> Option<(usize, usize)> {
        self@.definition
    }

    /// If concept is abstract and has a definition returns the indices of the left and right
    /// concepts that compose it as `Some((left, right))`. Otherwise returns `None`.
    fn get_definition(&self) -> (r: Option<(usize, usize)>) {
        match self {
            Concept::Abstract(c) => c.definition,
            Concept::String(_) => None,
            Concept::Concrete(_) => None,
        }
    }
}

impl GetReduction for Concept {
    open spec fn spec_reduction(&self) -> Option<usize> {
        self@.reduction
    }

    /// Gets the index of the concept that `self` may reduce to.
    fn get_reduction(&self) -> (r: Option<usize>) {
        match self {
            Concept::Abstract(c) => c.reduces_to,
            Concept::String(_) => None,
            Concept::Concrete(_) => None,
        }
    }
}

impl FindWhatReducesToIt for Concept {
    open spec fn spec_reduces_from(&self) -> Seq<usize> {
        self@.reduces_from
    }

    fn find_what_reduces_to_it(&self) -> (r: Vec<usize>) {
        self.read_concrete().reduces_from.clone()
    }
}

impl GetDefinitionOf for Concept {
    open spec fn spec_lefthand_of(&self) -> Seq<usize> {
        self@.lefthand_of
    }

    open spec fn spec_righthand_of(&self) -> Seq<usize> {
        self@.righthand_of
    }

    fn get_lefthand_of(&self) -> (r: Vec<usize>) {
        self.read_concrete().lefthand_of.clone()
    }

    fn get_righthand_of(&self) -> (r: Vec<usize>) {
        self.read_concrete().righthand_of.clone()
    }
}

impl MaybeString for Concept {
    open spec fn spec_string(&self) -> Option<Seq<char>> {
        if self@.kind == ConceptKind::Text {
            Some(self@.string)
        } else {
            None
        }
    }

    /// Gets the `String` value associated with `self` if it is a string concept.
    fn get_string(&self) -> (r: Option<String>) {
        match self {
            Concept::String(s) => Some(s.get_string()),
            _ => None,
        }
    }
}

impl RemoveReduction for Concept {
    open spec fn spec_reducible(&self) -> bool {
        self@.kind == ConceptKind::Abstract
    }

    /// Removes the reduction rule of the concept.
    fn make_reduce_to_none(&mut self)
        ensures
            final(self)@ == old(self)@.with_reduction(None),
    {
        match self {
            Concept::Abstract(c) => {
                c.reduces_to = None;
            },
            _ => {},
        }
    }

    fn no_longer_reduces_from(&mut self, index: usize)
        ensures
            removed_from(old(self)@.reduces_from, final(self)@.reduces_from, index),
            final(self)@ == old(self)@.with_reduces_from(final(self)@.reduces_from),
    {
        match self {
            Concept::Abstract(c) => vec_remove(&mut c.concrete_concept.reduces_from, index),
            Concept::Concrete(c) => vec_remove(&mut c.reduces_from, index),
            Concept::String(c) => vec_remove(&mut c.concrete_concept.reduces_from, index),
        }
    }
}

impl SetDefinition for Concept {
    open spec fn spec_definable(&self) -> bool {
        self@.kind == ConceptKind::Abstract
    }

    /// Sets the definition of an abstract concept; a concept of another kind
    /// cannot be defined and stays as it is.
    fn set_definition(&mut self, lefthand: usize, righthand: usize) -> (r: ZiaResult<()>)
        ensures
            old(self)@.kind == ConceptKind::Abstract ==> r == Ok::<(), ZiaError>(()) && final(self)@ == old(self)@.with_definition(
                Some((lefthand, righthand)),
            ),
            old(self)@.kind != ConceptKind::Abstract ==> r == Err::<(), ZiaError>(ZiaError::SettingDefinitionOfConcrete)
                && *final(self) == *old(self),
    {
        match self {
            Concept::Abstract(c) => {
                c.definition = Some((lefthand, righthand));
                Ok(())
            },
            _ => Err(ZiaError::SettingDefinitionOfConcrete),
        }
    }

    fn add_as_lefthand_of(&mut self, index: usize)
        ensures
            final(self)@ == old(self)@.with_lefthand_of(seq_insert(old(self)@.lefthand_of, index)),
    {
        match self {
            Concept::Abstract(c) => vec_insert(&mut c.concrete_concept.lefthand_of, index),
            Concept::Concrete(c) => vec_insert(&mut c.lefthand_of, index),
            Concept::String(c) => vec_insert(&mut c.concrete_concept.lefthand_of, index),
        }
    }

    fn add_as_righthand_of(&mut self, index: usize)
        ensures
            final(self)@ == old(self)@.with_righthand_of(seq_insert(old(self)@.righthand_of, index)),
    {
        match self {
            Concept::Abstract(c) => vec_insert(&mut c.concrete_concept.righthand_of, index),
            Concept::Concrete(c) => vec_insert(&mut c.righthand_of, index),
            Concept::String(c) => vec_insert(&mut c.concrete_concept.righthand_of, index),
        }
    }
}

impl SetReduction for Concept {
    open spec fn spec_may_reduce(&self) -> bool {
        self@.kind == ConceptKind::Abstract
    }

    /// Sets the index of the concept that an abstract concept reduces to; a
    /// concept of another kind cannot reduce and stays as it is.
    fn make_reduce_to(&mut self, concept: usize) -> (r: ZiaResult<()>)
        ensures
            old(self)@.kind == ConceptKind::Abstract ==> r == Ok::<(), ZiaError>(()) && final(self)@ == old(self)@.with_reduction(
                Some(concept),
            ),
            old(self)@.kind != ConceptKind::Abstract ==> r == Err::<(), ZiaError>(ZiaError::ConcreteReduction) && *final(self)
                == *old(self),
    {
        match self {
            Concept::Abstract(c) => {
                c.reduces_to = Some(concept);
                Ok(())
            },
            _ => Err(ZiaError::ConcreteReduction),
        }
    }

    fn make_reduce_from(&mut self, index: usize)
        ensures
            final(self)@ == old(self)@.with_reduces_from(seq_insert(old(self)@.reduces_from, index)),
    {
        match self {
            Concept::Abstract(c) => vec_insert(&mut c.concrete_concept.reduces_from, index),
            Concept::Concrete(c) => vec_insert(&mut c.reduces_from, index),
            Concept::String(c) => vec_insert(&mut c.concrete_concept.reduces_from, index),
        }
    }
}

impl RemoveDefinition for Concept {
    open spec fn spec_has_definition_slot(&self) -> bool {
        self@.kind == ConceptKind::Abstract
    }

    /// Removes the definition of an abstract concept.
    fn remove_definition(&mut self)
        ensures
            final(self)@ == old(self)@.with_definition(None),
    {
        match self {
            Concept::Abstract(c) => {
                c.definition = None;
            },
            _ => {},
        }
    }

    fn remove_as_lefthand_of(&mut self, index: usize)
        ensures
            removed_from(old(self)@.lefthand_of, final(self)@.lefthand_of, index),
            final(self)@ == old(self)@.with_lefthand_of(final(self)@.lefthand_of),
    {
        match self {
            Concept::Abstract(c) => vec_remove(&mut c.concrete_concept.lefthand_of, index),
            Concept::Concrete(c) => vec_remove(&mut c.lefthand_of, index),
            Concept::String(c) => vec_remove(&mut c.concrete_concept.lefthand_of, index),
        }
    }

    fn remove_as_righthand_of(&mut self, index: usize)
        ensures
            removed_from(old(self)@.righthand_of, final(self)@.righthand_of, index),
            final(self)@ == old(self)@.with_righthand_of(final(self)@.righthand_of),
    {
        match self {
            Concept::Abstract(c) => vec_remove(&mut c.concrete_concept.righthand_of, index),
            Concept::Concrete(c) => vec_remove(&mut c.righthand_of, index),
            Concept::String(c) => vec_remove(&mut c.concrete_concept.righthand_of, index),
        }
    }
}

/// A concept that nothing refers to and that refers to nothing.
pub open spec fn detached(v: ConceptView) -> bool {
    &&& v.definition is None
    &&& v.reduction is None
    &&& v.lefthand_of.len() == 0
    &&& v.righthand_of.len() == 0
    &&& v.reduces_from.len() == 0
}

/// A concept of the given kind and text that holds nothing and that nothing refers to.
pub open spec fn empty_view(kind: ConceptKind, string: Seq<char>) -> ConceptView {
    ConceptView {
        kind,
        definition: None,
        reduction: None,
        lefthand_of: Seq::empty(),
        righthand_of: Seq::empty(),
        reduces_from: Seq::empty(),
        string,
    }
}

impl AbstractFactory for Concept {
    open spec fn spec_fresh_abstract(c: Concept) -> bool {
        c@ == empty_view(ConceptKind::Abstract, Seq::empty())
    }

    /// The default concept doesn't have a definition and doesn't further reduce.
    fn new_abstract() -> (c: Concept) {
        Concept::Abstract(AbstractConcept::new_ref())
    }
}

impl StringFactory for Concept {
    open spec fn spec_fresh_string(c: Concept, s: Seq<char>) -> bool {
        c@ == empty_view(ConceptKind::Text, s)
    }

    fn new_string(string: &str) -> (c: Concept) {
        Concept::String(StringConcept::new_ref(string))
    }
}

} // verus!
