use vstd::prelude::*;
use vstd::hash_map::StringHashMap;
use crate::concepts::{
    Concept, ConceptView, RemoveDefinition, RemoveReduction, SetDefinition, SetReduction, removed_from,
    seq_insert,
};
use crate::model::Model;

verus! {

/// A container for reading and writing concepts.
pub struct Context {
    string_map: StringHashMap<usize>,
    concepts: Vec<Concept>,
    red_rank: Ghost<Seq<nat>>,
    def_rank: Ghost<Seq<nat>>,
    red_bound: Ghost<nat>,
}

/// Reading the concepts of a context by their index.
pub trait ConceptReader {
    /// The concepts, strings and ranks that the container holds.
    spec fn model(&self) -> Model;

    fn read_concept(&self, id: usize) -> (c: &Concept)
        requires
            self.model().has(id),
        ensures
            c@ == self.model().view(id),
    ;

    /// The concepts are counted by a `usize`.
    proof fn lemma_len_fits(&self)
        ensures
            self.model().len() <= usize::MAX,
    ;
}

/// Counting the concepts of a context.
pub trait ConceptNumber: ConceptReader {
    fn number_of_concepts(&self) -> (n: usize)
        ensures
            n == self.model().len(),
    ;
}

/// Finding the string concept of a text.
pub trait StringConcept: ConceptReader {
    fn get_string_concept(&self, s: &str) -> (r: Option<usize>)
        ensures
            r == (if self.model().strings.contains_key(s@) {
                Some(self.model().strings[s@])
            } else {
                None
            }),
    ;
}

/// Recording the string concept of a text.
pub trait StringAdder: ConceptReader {
    fn add_string(&mut self, string_ref: usize, string: &str)
        ensures
            final(self).model() == (Model { strings: old(self).model().strings.insert(string@, string_ref), ..old(self).model() }),
    ;
}

/// Adding a concept without any other bookkeeping.
pub trait BlindConceptAdder: ConceptReader {
    fn blindly_add_concept(&mut self, concept: Concept)
        ensures
            final(self).model() == old(self).model().appended(concept@),
    ;
}

/// Adding a concept and returning its index.
pub trait ConceptAdder: ConceptReader {
    fn add_concept(&mut self, concept: Concept) -> (index: usize)
        ensures
            index == old(self).model().len(),
            final(self).model() == old(self).model().appended(concept@),
    ;
}

impl Model {
    /// The model with one more concept, of rank zero.
    pub open spec fn appended(self, v: ConceptView) -> Model {
        Model {
            concepts: self.concepts.push(v),
            red_rank: self.red_rank.push(0),
            def_rank: self.def_rank.push(0),
            ..self
        }
    }
}

impl Context {
    /// Sets the ranks, which only proofs read.
    pub(crate) fn set_ranks(&mut self, red_rank: Ghost<Seq<nat>>, def_rank: Ghost<Seq<nat>>, red_bound: Ghost<nat>)
        ensures
            final(self).model() == (Model { red_rank: red_rank@, def_rank: def_rank@, red_bound: red_bound@, ..old(self).model() }),
    {
        self.red_rank = red_rank;
        self.def_rank = def_rank;
        self.red_bound = red_bound;
    }

    pub(crate) fn write_definition(&mut self, c: usize, lefthand: usize, righthand: usize)
        requires
            old(self).model().is_abstract(c),
        ensures
            final(self).model() == old(self).model().with_view(c, old(self).model().view(c).with_definition(Some((lefthand, righthand)))),
    {
        let _ = self.concepts[c].set_definition(lefthand, righthand);
        proof { assert(self.model().concepts =~= old(self).model().concepts.update(c as int, self.concepts@[c as int]@)); }
    }

    pub(crate) fn erase_definition(&mut self, c: usize)
        requires
            old(self).model().is_abstract(c),
        ensures
            final(self).model() == old(self).model().with_view(c, old(self).model().view(c).with_definition(None)),
    {
        self.concepts[c].remove_definition();
        proof { assert(self.model().concepts =~= old(self).model().concepts.update(c as int, self.concepts@[c as int]@)); }
    }

    pub(crate) fn write_reduction(&mut self, c: usize, n: usize)
        requires
            old(self).model().is_abstract(c),
        ensures
            final(self).model() == old(self).model().with_view(c, old(self).model().view(c).with_reduction(Some(n))),
    {
        let _ = self.concepts[c].make_reduce_to(n);
        proof { assert(self.model().concepts =~= old(self).model().concepts.update(c as int, self.concepts@[c as int]@)); }
    }

    pub(crate) fn erase_reduction(&mut self, c: usize)
        requires
            old(self).model().is_abstract(c),
        ensures
            final(self).model() == old(self).model().with_view(c, old(self).model().view(c).with_reduction(None)),
    {
        self.concepts[c].make_reduce_to_none();
        proof { assert(self.model().concepts =~= old(self).model().concepts.update(c as int, self.concepts@[c as int]@)); }
    }

    pub(crate) fn link_lefthand(&mut self, c: usize, x: usize)
        requires
            old(self).model().has(c),
        ensures
            final(self).model() == old(self).model().with_view(c, old(self).model().view(c).with_lefthand_of(seq_insert(old(self).model().view(c).lefthand_of, x))),
    {
        self.concepts[c].add_as_lefthand_of(x);
        proof { assert(self.model().concepts =~= old(self).model().concepts.update(c as int, self.concepts@[c as int]@)); }
    }

    pub(crate) fn link_righthand(&mut self, c: usize, x: usize)
        requires
            old(self).model().has(c),
        ensures
            final(self).model() == old(self).model().with_view(c, old(self).model().view(c).with_righthand_of(seq_insert(old(self).model().view(c).righthand_of, x))),
    {
        self.concepts[c].add_as_righthand_of(x);
        proof { assert(self.model().concepts =~= old(self).model().concepts.update(c as int, self.concepts@[c as int]@)); }
    }

    pub(crate) fn link_reduces_from(&mut self, c: usize, x: usize)
        requires
            old(self).model().has(c),
        ensures
            final(self).model() == old(self).model().with_view(c, old(self).model().view(c).with_reduces_from(seq_insert(old(self).model().view(c).reduces_from, x))),
    {
        self.concepts[c].make_reduce_from(x);
        proof { assert(self.model().concepts =~= old(self).model().concepts.update(c as int, self.concepts@[c as int]@)); }
    }

    pub(crate) fn unlink_lefthand(&mut self, c: usize, x: usize)
        requires
            old(self).model().has(c),
        ensures
            ({
                let s = final(self).model().view(c).lefthand_of;
                &&& removed_from(old(self).model().view(c).lefthand_of, s, x)
                &&& final(self).model() == old(self).model().with_view(c, old(self).model().view(c).with_lefthand_of(s))
            }),
    {
        self.concepts[c].remove_as_lefthand_of(x);
        proof { assert(self.model().concepts =~= old(self).model().concepts.update(c as int, self.concepts@[c as int]@)); }
    }

    pub(crate) fn unlink_righthand(&mut self, c: usize, x: usize)
        requires
            old(self).model().has(c),
        ensures
            ({
                let s = final(self).model().view(c).righthand_of;
                &&& removed_from(old(self).model().view(c).righthand_of, s, x)
                &&& final(self).model() == old(self).model().with_view(c, old(self).model().view(c).with_righthand_of(s))
            }),
    {
        self.concepts[c].remove_as_righthand_of(x);
        proof { assert(self.model().concepts =~= old(self).model().concepts.update(c as int, self.concepts@[c as int]@)); }
    }

    pub(crate) fn unlink_reduces_from(&mut self, c: usize, x: usize)
        requires
            old(self).model().has(c),
        ensures
            ({
                let s = final(self).model().view(c).reduces_from;
                &&& removed_from(old(self).model().view(c).reduces_from, s, x)
                &&& final(self).model() == old(self).model().with_view(c, old(self).model().view(c).with_reduces_from(s))
            }),
    {
        self.concepts[c].no_longer_reduces_from(x);
        proof { assert(self.model().concepts =~= old(self).model().concepts.update(c as int, self.concepts@[c as int]@)); }
    }
}

impl Default for Context {
    /// A context that holds nothing.
    fn default() -> (c: Context)
        ensures
            c.model().len() == 0,
            c.model().strings == Map::<Seq<char>, usize>::empty(),
            c.model().red_rank.len() == 0,
            c.model().def_rank.len() == 0,
            c.model().red_bound == 0,
    {
        Context {
            string_map: StringHashMap::new(),
            concepts: Vec::new(),
            red_rank: Ghost(Seq::empty()),
            def_rank: Ghost(Seq::empty()),
            red_bound: Ghost(0),
        }
    }
}

impl ConceptReader for Context {
    closed spec fn model(&self) -> Model {
        Model {
            concepts: self.concepts@.map_values(|c: Concept| c@),
            strings: self.string_map@,
            red_rank: self.red_rank@,
            def_rank: self.def_rank@,
            red_bound: self.red_bound@,
        }
    }

    fn read_concept(&self, id: usize) -> (c: &Concept) {
        &self.concepts[id]
    }

    proof fn lemma_len_fits(&self) {
        assert(self.model().len() == self.concepts@.len());
        assert(self.concepts.len() == self.concepts@.len());
    }
}

impl ConceptNumber for Context {
    fn number_of_concepts(&self) -> (n: usize) {
        self.concepts.len()
    }
}

impl StringConcept for Context {
    fn get_string_concept(&self, s: &str) -> (r: Option<usize>) {
        match self.string_map.get(s) {
            None => None,
            Some(sr) => Some(*sr),
        }
    }
}

impl StringAdder for Context {
    fn add_string(&mut self, string_ref: usize, string: &str) {
        self.string_map.insert(String::from_str(string), string_ref);
    }
}

impl BlindConceptAdder for Context {
    fn blindly_add_concept(&mut self, concept: Concept) {
        self.concepts.push(concept);
        self.red_rank = Ghost(self.red_rank@.push(0));
        self.def_rank = Ghost(self.def_rank@.push(0));
        proof {
            assert(self.model().concepts =~= old(self).model().concepts.push(concept@));
        }
    }
}

impl ConceptAdder for Context {
    fn add_concept(&mut self, concept: Concept) -> (index: usize) {
        let index = self.concepts.len();
        self.blindly_add_concept(concept);
        index
    }
}

} // verus!
