use vstd::prelude::*;
use crate::concepts::{
    empty_view, lemma_seq_insert_contains, AbstractFactory, Concept, ConceptKind, GetDefinition, GetReduction,
    StringFactory,
};
use crate::ast::{AbstractSyntaxTree, MaybeConcept};
use crate::context::{ConceptAdder, ConceptReader, Context, StringAdder};
use crate::errors::{ZiaError, ZiaResult};
use crate::model::{LABEL, Model};
use crate::translating::{lemma_readings_kept_by_append, lemma_readings_kept_by_definition, lemma_readings_kept_by_reduction};
use crate::reading::{Container, FindDefinition, GetNormalForm};
use crate::upkeep::{
    lemma_append, lemma_append_string, lemma_definition_clear, lemma_definition_set_names,
    lemma_definition_set_sound, lemma_isolated_not_expanded, lemma_label_of, lemma_reduction_clear, lemma_reduction_set_names,
    lemma_reduction_set_sound, lemma_unused_not_contained,
};

verus! {

impl Context {
    /// Whether the chain of reductions that starts at `start` passes through `target`.
    pub fn chain_passes_through(&self, start: usize, target: usize) -> (b: bool)
        requires
            self.model().sound(),
            self.model().has(start),
        ensures
            b == self.model().reaches(start, target),
        decreases self.model().rrank(start),
    {
        let ghost m = self.model();
        if start == target {
            return true;
        }
        match self.read_concept(start).get_reduction() {
            None => false,
            Some(n) => {
                assert(m.red(start) == Some(n));
                self.chain_passes_through(n, target)
            },
        }
    }
}

/// Setting the reduction of a concept.
pub trait UpdateNormalForm: GetNormalForm {
    /// Makes `concept` reduce to `normal_form`, unless `concept` is not
    /// abstract, that would close a loop of reductions or the rule already exists.
    /// An abstract concept may only get a rule that the context can hold
    /// (`may_reduce_to`): an ordinary concept to an ordinary one, or a label
    /// definition to a text that nothing else reduces to. Any other rule would
    /// make the labels or the normal forms that the context gives unreadable.
    fn update_normal_form(&mut self, concept: usize, normal_form: usize) -> (r: ZiaResult<()>)
        requires
            old(self).model().sound(),
            old(self).model().has(concept),
            old(self).model().has(normal_form),
            old(self).model().is_abstract(concept) ==> old(self).model().may_reduce_to(concept, normal_form),
        ensures
            r == (if !old(self).model().is_abstract(concept) {
                Err(ZiaError::ConcreteReduction)
            } else if old(self).model().reaches(normal_form, concept) {
                Err(ZiaError::CyclicReduction)
            } else if old(self).model().red(concept) == Some(normal_form) {
                Err(ZiaError::RedundantReduction)
            } else {
                Ok(())
            }),
            r is Err ==> final(self).model() == old(self).model(),
            r is Ok ==> old(self).model().with_reduction_of(final(self).model(), concept, Some(normal_form)),
            final(self).model().sound(),
            old(self).model().wf() && (old(self).model().ordinary(concept) ==> old(self).model().nameable(concept)
                && old(self).model().nameable(normal_form)) ==> final(self).model().wf(),
            !old(self).model().is_label_def(concept) ==> forall|s: Seq<char>|
                #[trigger] final(self).model().concept_of_label(s) == old(self).model().concept_of_label(s),
    ;
}

impl UpdateNormalForm for Context {
    fn update_normal_form(&mut self, concept: usize, normal_form: usize) -> (r: ZiaResult<()>) {
        let ghost m = self.model();
        match self.read_concept(concept) {
            Concept::Abstract(_) => {},
            _ => { return Err(ZiaError::ConcreteReduction); },
        }
        if self.chain_passes_through(normal_form, concept) {
            return Err(ZiaError::CyclicReduction);
        }
        let old_target = self.read_concept(concept).get_reduction();
        if let Some(o) = old_target {
            if o == normal_form {
                return Err(ZiaError::RedundantReduction);
            }
        }
        assert(m.reaches(concept, concept));
        assert(concept != normal_form);
        if let Some(o) = old_target {
            assert(m.red(concept) == Some(o));
            assert(m.has(o));
            self.unlink_reduces_from(o, concept);
        }
        let ghost m1 = self.model();
        self.write_reduction(concept, normal_form);
        let ghost m2 = self.model();
        self.link_reduces_from(normal_form, concept);
        let ghost m3 = self.model();
        let k: Ghost<nat> = Ghost((m.rrank(normal_form) + 1) as nat);
        self.set_ranks(Ghost(m.raised_red_ranks(concept, k@)), Ghost(m.def_rank), Ghost(m.red_bound + k@));
        proof {
            let m4 = self.model();
            lemma_seq_insert_contains(m2.view(normal_form).reduces_from, concept);
            assert(m.with_reduction_of(m4, concept, Some(normal_form))) by {
                assert forall|x: usize| #![trigger m4.view(x)] m.has(x) implies {
                    &&& m4.view(x).kind == m.view(x).kind
                    &&& m4.view(x).definition == m.view(x).definition
                    &&& m4.view(x).string == m.view(x).string
                    &&& m4.view(x).lefthand_of == m.view(x).lefthand_of
                    &&& m4.view(x).righthand_of == m.view(x).righthand_of
                    &&& m4.view(x).reduction == (if x == concept {
                        Some(normal_form)
                    } else {
                        m.view(x).reduction
                    })
                } by {
                    assert(m4.view(x) == m3.view(x));
                }
            }
            assert(m4.red_links_ok()) by {
                assert forall|x: usize, y: usize| m4.has(x) implies (#[trigger] m4.view(x).reduces_from.contains(y) <==> (
                m4.has(y) && m4.red(y) == Some(x))) by {
                    assert(m.view(y) == m.view(y));
                    assert(m4.view(y) == m3.view(y));
                    assert(m.view(x).reduces_from.contains(y) <==> (m.has(y) && m.red(y) == Some(x)));
                    if x == normal_form {
                    } else if old_target == Some(x) {
                        assert(m4.view(x).reduces_from == m1.view(x).reduces_from);
                    } else {
                        assert(m4.view(x).reduces_from == m.view(x).reduces_from);
                    }
                }
                assert forall|x: usize| m4.has(x) implies (#[trigger] m4.view(x)).reduces_from.no_duplicates() by {
                    assert(m.view(x).reduces_from.no_duplicates());
                }
            }
            lemma_reduction_set_sound(m, m4, concept, normal_form);
            if m.wf() && (m.ordinary(concept) ==> m.nameable(concept) && m.nameable(normal_form)) {
                lemma_reduction_set_names(m, m4, concept, normal_form, None);
            }
            if !m.is_label_def(concept) {
                lemma_readings_kept_by_reduction(m, m4, concept, Some(normal_form));
            }
        }
        Ok(())
    }
}

/// Removing the reduction of a concept.
pub trait DeleteReduction: ConceptReader {
    /// Removes the reduction of the concept that a tree denotes; a tree that
    /// denotes no concept, or a concept without reduction, has no reduction to
    /// remove.
    fn try_removing_reduction(&mut self, syntax: &AbstractSyntaxTree) -> (r: ZiaResult<()>)
        requires
            old(self).model().wf(),
            syntax@.concept() matches Some(c) ==> old(self).model().has(c) && old(self).model().ordinary(c),
        ensures
            final(self).model().wf(),
            match syntax@.concept() {
                Some(c) => if old(self).model().red(c) is Some {
                    r == Ok::<(), ZiaError>(()) && old(self).model().with_reduction_of(final(self).model(), c, None)
                } else {
                    r == Err::<(), ZiaError>(ZiaError::RedundantReduction) && final(self).model() == old(self).model()
                },
                None => r == Err::<(), ZiaError>(ZiaError::RedundantReduction) && final(self).model() == old(self).model(),
            },
    ;

    /// Makes a concept that reduces no longer reduce.
    fn delete_reduction(&mut self, concept: usize)
        requires
            old(self).model().sound(),
            old(self).model().has(concept),
            old(self).model().red(concept) is Some,
        ensures
            old(self).model().with_reduction_of(final(self).model(), concept, None),
            final(self).model().sound(),
            forall|e: Option<usize>|
                old(self).model().names_ok_except(e) && old(self).model().unlabel_keeps_names(concept, e)
                    ==> #[trigger] final(self).model().names_ok_except(e),
            forall|x: usize| #[trigger] final(self).model().label_of(x) == (if old(self).model().label_def_of(x) == Some(concept) {
                None
            } else {
                old(self).model().label_of(x)
            }),
    ;
}

impl DeleteReduction for Context {
    fn try_removing_reduction(&mut self, syntax: &AbstractSyntaxTree) -> (r: ZiaResult<()>) {
        if let Some(c) = syntax.get_concept() {
            if self.read_concept(c).get_reduction().is_some() {
                self.delete_reduction(c);
                proof {
                    assert(old(self).model().names_ok_except(None));
                    assert(old(self).model().unlabel_keeps_names(c, None));
                }
                Ok(())
            } else {
                Err(ZiaError::RedundantReduction)
            }
        } else {
            Err(ZiaError::RedundantReduction)
        }
    }

    fn delete_reduction(&mut self, concept: usize) {
        let ghost m = self.model();
        let n = match self.read_concept(concept).get_reduction() {
            Some(n) => n,
            None => { return; },
        };
        assert(m.red(concept) == Some(n));
        self.unlink_reduces_from(n, concept);
        let ghost m1 = self.model();
        self.erase_reduction(concept);
        proof {
            let m2 = self.model();
            assert(m.with_reduction_of(m2, concept, None)) by {
                assert forall|x: usize| #![trigger m2.view(x)] m.has(x) implies {
                    &&& m2.view(x).kind == m.view(x).kind
                    &&& m2.view(x).definition == m.view(x).definition
                    &&& m2.view(x).string == m.view(x).string
                    &&& m2.view(x).lefthand_of == m.view(x).lefthand_of
                    &&& m2.view(x).righthand_of == m.view(x).righthand_of
                    &&& m2.view(x).reduction == (if x == concept {
                        None
                    } else {
                        m.view(x).reduction
                    })
                } by {
                    assert(m2.view(x) == m1.view(x) || x == concept);
                }
            }
            assert(m2.red_links_ok()) by {
                assert forall|x: usize, y: usize| m2.has(x) implies (#[trigger] m2.view(x).reduces_from.contains(y) <==> (
                m2.has(y) && m2.red(y) == Some(x))) by {
                    assert(m.view(y) == m.view(y));
                    assert(m.view(x).reduces_from.contains(y) <==> (m.has(y) && m.red(y) == Some(x)));
                    if x != n {
                        assert(m2.view(x).reduces_from == m.view(x).reduces_from);
                    }
                }
                assert forall|x: usize| m2.has(x) implies (#[trigger] m2.view(x)).reduces_from.no_duplicates() by {
                    assert(m.view(x).reduces_from.no_duplicates());
                }
            }
            assert forall|e: Option<usize>|
                m.names_ok_except(e) && m.unlabel_keeps_names(concept, e) implies #[trigger] m2.names_ok_except(e) by {
                lemma_reduction_clear(m, m2, concept, e);
            }
            lemma_reduction_clear(m, m2, concept, None);
        }
    }
}

/// Making a new abstract concept in a context.
pub trait AbstractMaker: ConceptAdder {
    /// Adds an abstract concept that holds nothing, and returns its index.
    fn new_abstract(&mut self) -> (index: usize)
        ensures
            index == old(self).model().len(),
            final(self).model() == old(self).model().appended(empty_view(ConceptKind::Abstract, Seq::empty())),
    ;
}

impl AbstractMaker for Context {
    fn new_abstract(&mut self) -> (index: usize) {
        let concept = <Concept as AbstractFactory>::new_abstract();
        self.add_concept(concept)
    }
}

/// Making a new string concept in a context.
pub trait StringMaker: ConceptAdder + StringAdder {
    /// Adds a string concept of the text, indexes it by the text, and returns its index.
    fn new_string(&mut self, string: &str) -> (index: usize)
        ensures
            index == old(self).model().len(),
            final(self).model() == (Model {
                strings: old(self).model().strings.insert(string@, index),
                ..old(self).model().appended(empty_view(ConceptKind::Text, string@))
            }),
    ;
}

impl StringMaker for Context {
    fn new_string(&mut self, string: &str) -> (index: usize) {
        let string_concept = Concept::new_string(string);
        let index = self.add_concept(string_concept);
        self.add_string(index, string);
        index
    }
}

/// Giving a concept a definition.
pub trait InsertDefinition: Container {
    /// Defines `definition` as the composition of `lefthand` and `righthand`,
    /// unless `definition` is not abstract, the definition would contain itself
    /// or a reduction of one of its parts would lead back into it.
    /// The concept must be undefined and the pair define nothing yet, else the
    /// parts would keep links to a definition that is gone, and two concepts
    /// would share one definition; the parts must be ordinary, or `LABEL` for
    /// a label definition of a concept that nothing else refers to.
    fn insert_definition(&mut self, definition: usize, lefthand: usize, righthand: usize) -> (r: ZiaResult<()>)
        requires
            old(self).model().sound(),
            old(self).model().has(definition),
            old(self).model().has(lefthand),
            old(self).model().has(righthand),
            definition != LABEL,
            old(self).model().def(definition) is None,
            old(self).model().definition_of(lefthand, righthand) is None,
            old(self).model().ordinary(righthand),
            lefthand == LABEL || old(self).model().ordinary(lefthand),
            lefthand == LABEL ==> old(self).model().isolated(definition),
        ensures
            r == (if !old(self).model().is_abstract(definition) {
                Err(ZiaError::SettingDefinitionOfConcrete)
            } else if lefthand == definition || righthand == definition || old(self).model().contains(lefthand, definition)
                || old(self).model().contains(righthand, definition) {
                Err(ZiaError::InfiniteDefinition)
            } else if old(self).model().reduction_expands(lefthand, definition) || old(self).model().reduction_expands(
                righthand,
                definition,
            ) {
                Err(ZiaError::ExpandingReduction)
            } else {
                Ok(())
            }),
            r is Err ==> final(self).model() == old(self).model(),
            r is Ok ==> old(self).model().with_definition_of(final(self).model(), definition, Some((lefthand, righthand))),
            final(self).model().sound(),
            forall|x: usize| #[trigger] final(self).model().label_of(x) == old(self).model().label_of(x),
            old(self).model().wf() && (lefthand != LABEL ==> old(self).model().nameable(lefthand)
                && old(self).model().nameable(righthand)) ==> final(self).model().wf(),
            lefthand != LABEL ==> old(self).model().keeps_names(final(self).model()),
            lefthand != LABEL ==> forall|s: Seq<char>|
                #[trigger] final(self).model().concept_of_label(s) == old(self).model().concept_of_label(s),
    ;

    /// Whether the chain of reductions after `inner_concept` reaches
    /// `outer_concept` or a concept that contains it.
    fn check_reductions(&self, outer_concept: usize, inner_concept: usize) -> (r: ZiaResult<()>)
        requires
            self.model().sound(),
            self.model().has(inner_concept),
        ensures
            r == (if self.model().reduction_expands(inner_concept, outer_concept) {
                Err(ZiaError::ExpandingReduction)
            } else {
                Ok(())
            }),
    ;
}

impl InsertDefinition for Context {
    fn insert_definition(&mut self, definition: usize, lefthand: usize, righthand: usize) -> (r: ZiaResult<()>) {
        let ghost m = self.model();
        match self.read_concept(definition) {
            Concept::Abstract(_) => {},
            _ => { return Err(ZiaError::SettingDefinitionOfConcrete); },
        }
        if lefthand == definition || righthand == definition || self.contains(lefthand, definition) || self.contains(
            righthand,
            definition,
        ) {
            return Err(ZiaError::InfiniteDefinition);
        }
        match self.check_reductions(definition, lefthand) {
            Err(e) => { return Err(e); },
            Ok(()) => {},
        }
        match self.check_reductions(definition, righthand) {
            Err(e) => { return Err(e); },
            Ok(()) => {},
        }
        self.write_definition(definition, lefthand, righthand);
        let ghost m1 = self.model();
        self.link_lefthand(lefthand, definition);
        let ghost m2 = self.model();
        self.link_righthand(righthand, definition);
        let ghost m3 = self.model();
        let k: Ghost<nat> = Ghost(m.max_drank(lefthand, righthand) + 1);
        self.set_ranks(Ghost(m.red_rank), Ghost(m.raised_def_ranks(definition, k@)), Ghost(m.red_bound));
        proof {
            let m4 = self.model();
            lemma_seq_insert_contains(m1.view(lefthand).lefthand_of, definition);
            lemma_seq_insert_contains(m2.view(righthand).righthand_of, definition);
            assert(m.with_definition_of(m4, definition, Some((lefthand, righthand)))) by {
                assert forall|x: usize| #![trigger m4.view(x)] m.has(x) implies {
                    &&& m4.view(x).kind == m.view(x).kind
                    &&& m4.view(x).reduction == m.view(x).reduction
                    &&& m4.view(x).string == m.view(x).string
                    &&& m4.view(x).reduces_from == m.view(x).reduces_from
                    &&& m4.view(x).definition == (if x == definition {
                        Some((lefthand, righthand))
                    } else {
                        m.view(x).definition
                    })
                } by {
                    assert(m4.view(x) == m3.view(x));
                }
            }
            assert(m4.def_links_ok()) by {
                assert forall|x: usize, y: usize| m4.has(x) implies (#[trigger] m4.view(x).lefthand_of.contains(y)
                    <==> m4.uses_on_left(y, x)) by {
                    assert(m.view(y) == m.view(y));
                    assert(m4.view(y) == m3.view(y));
                    assert(m.view(x).lefthand_of.contains(y) <==> m.uses_on_left(y, x));
                    if x != lefthand {
                        assert(m4.view(x).lefthand_of == m.view(x).lefthand_of);
                    }
                }
                assert forall|x: usize, y: usize| m4.has(x) implies (#[trigger] m4.view(x).righthand_of.contains(y)
                    <==> m4.uses_on_right(y, x)) by {
                    assert(m.view(y) == m.view(y));
                    assert(m4.view(y) == m3.view(y));
                    assert(m.view(x).righthand_of.contains(y) <==> m.uses_on_right(y, x));
                    if x != righthand {
                        assert(m4.view(x).righthand_of == m.view(x).righthand_of);
                    }
                }
                assert forall|x: usize| m4.has(x) implies {
                    &&& (#[trigger] m4.view(x)).lefthand_of.no_duplicates()
                    &&& m4.view(x).righthand_of.no_duplicates()
                } by {
                    assert(m.view(x).lefthand_of.no_duplicates());
                    assert(m.view(x).righthand_of.no_duplicates());
                }
            }
            lemma_definition_set_sound(m, m4, definition, lefthand, righthand);
            lemma_definition_set_names(m, m4, definition, lefthand, righthand, None);
            if lefthand != LABEL {
                assert forall|x: usize| m.has(x) && #[trigger] m.ordinary(x) implies m4.ordinary(x) by {
                    assert(m4.view(x) == m3.view(x));
                }
                assert forall|x: usize| m.has(x) && #[trigger] m.label_of(x) is Some implies m4.label_of(x) is Some by {
                    assert(m4.label_of(x) == m.label_of(x));
                }
            }
        }
        proof {
            if lefthand != LABEL {
                lemma_readings_kept_by_definition(m, self.model(), definition, Some((lefthand, righthand)));
            }
        }
        Ok(())
    }

    fn check_reductions(&self, outer_concept: usize, inner_concept: usize) -> (r: ZiaResult<()>)
        decreases self.model().rrank(inner_concept),
    {
        let ghost m = self.model();
        if let Some(r) = self.read_concept(inner_concept).get_reduction() {
            assert(m.red(inner_concept) == Some(r));
            assert(m.has(r));
            if r == outer_concept || self.contains(r, outer_concept) {
                Err(ZiaError::ExpandingReduction)
            } else {
                self.check_reductions(outer_concept, r)
            }
        } else {
            Ok(())
        }
    }
}

/// Removing the definition of a concept.
pub trait DeleteDefinition: ConceptReader {
    /// Removes the definition of a defined concept that is not a label definition.
    fn delete_definition(&mut self, concept: usize)
        requires
            old(self).model().sound(),
            old(self).model().has(concept),
            old(self).model().def(concept) is Some,
            !old(self).model().is_label_def(concept),
        ensures
            old(self).model().with_definition_of(final(self).model(), concept, None),
            final(self).model().sound(),
            forall|x: usize| #[trigger] final(self).model().label_of(x) == old(self).model().label_of(x),
            forall|e: Option<usize>|
                old(self).model().names_ok_except(e) && (old(self).model().label_of(concept) is Some || e == Some(concept))
                    ==> #[trigger] final(self).model().names_ok_except(e),
    ;
}

impl DeleteDefinition for Context {
    fn delete_definition(&mut self, concept: usize) {
        let ghost m = self.model();
        let (left, right) = match self.read_concept(concept).get_definition() {
            Some(pair) => pair,
            None => { return; },
        };
        assert(m.def(concept) == Some((left, right)));
        assert(m.has(left) && m.has(right));
        self.unlink_lefthand(left, concept);
        let ghost m1 = self.model();
        self.unlink_righthand(right, concept);
        let ghost m2 = self.model();
        self.erase_definition(concept);
        proof {
            let m3 = self.model();
            assert(m.with_definition_of(m3, concept, None)) by {
                assert forall|x: usize| #![trigger m3.view(x)] m.has(x) implies {
                    &&& m3.view(x).kind == m.view(x).kind
                    &&& m3.view(x).reduction == m.view(x).reduction
                    &&& m3.view(x).string == m.view(x).string
                    &&& m3.view(x).reduces_from == m.view(x).reduces_from
                    &&& m3.view(x).definition == (if x == concept {
                        None
                    } else {
                        m.view(x).definition
                    })
                } by {
                    assert(m3.view(x) == m2.view(x) || x == concept);
                }
            }
            assert(m3.def_links_ok()) by {
                assert forall|x: usize, y: usize| m3.has(x) implies (#[trigger] m3.view(x).lefthand_of.contains(y)
                    <==> m3.uses_on_left(y, x)) by {
                    assert(m.view(y) == m.view(y));
                    assert(m.view(x).lefthand_of.contains(y) <==> m.uses_on_left(y, x));
                    if x != left {
                        assert(m3.view(x).lefthand_of == m.view(x).lefthand_of);
                    } else {
                        assert(m3.view(x).lefthand_of == m1.view(x).lefthand_of);
                    }
                }
                assert forall|x: usize, y: usize| m3.has(x) implies (#[trigger] m3.view(x).righthand_of.contains(y)
                    <==> m3.uses_on_right(y, x)) by {
                    assert(m.view(y) == m.view(y));
                    assert(m.view(x).righthand_of.contains(y) <==> m.uses_on_right(y, x));
                    if x != right {
                        assert(m3.view(x).righthand_of == m.view(x).righthand_of);
                    } else {
                        assert(m3.view(x).righthand_of == m2.view(x).righthand_of);
                    }
                }
                assert forall|x: usize| m3.has(x) implies {
                    &&& (#[trigger] m3.view(x)).lefthand_of.no_duplicates()
                    &&& m3.view(x).righthand_of.no_duplicates()
                } by {
                    assert(m.view(x).lefthand_of.no_duplicates());
                    assert(m.view(x).righthand_of.no_duplicates());
                }
            }
            lemma_definition_clear(m, m3, concept, None);
            assert forall|e: Option<usize>|
                m.names_ok_except(e) && (m.label_of(concept) is Some || e == Some(concept)) implies #[trigger] m3.names_ok_except(e) by {
                lemma_definition_clear(m, m3, concept, e);
            }
        }
    }
}

/// Finding the concept defined as a pair, or defining a new one.
pub trait FindOrInsertDefinition: AbstractMaker + InsertDefinition + FindDefinition {
    /// The concept defined as `(lefthand, righthand)`; a new abstract concept
    /// is given that definition when there is none.
    fn find_or_insert_definition(&mut self, lefthand: usize, righthand: usize) -> (r: ZiaResult<usize>)
        requires
            old(self).model().sound(),
            old(self).model().has(lefthand),
            old(self).model().has(righthand),
            old(self).model().ordinary(righthand),
            lefthand == LABEL || old(self).model().ordinary(lefthand),
        ensures
            old(self).model().definition_of(lefthand, righthand) matches Some(d) ==> r == Ok::<usize, ZiaError>(d)
                && final(self).model() == old(self).model(),
            old(self).model().definition_of(lefthand, righthand) is None ==> r == Ok::<usize, ZiaError>(
                old(self).model().len() as usize,
            ) && old(self).model().appended(empty_view(ConceptKind::Abstract, Seq::empty())).with_definition_of(
                final(self).model(),
                old(self).model().len() as usize,
                Some((lefthand, righthand)),
            ),
            r matches Ok(d) ==> final(self).model().has(d) && final(self).model().def(d) == Some((lefthand, righthand)),
            old(self).model().keeps_definitions(final(self).model()),
            final(self).model().sound(),
            forall|x: usize| #[trigger] final(self).model().label_of(x) == old(self).model().label_of(x),
            old(self).model().keeps_names(final(self).model()),
            forall|e: Option<usize>|
                old(self).model().names_ok_except(e) && (lefthand != LABEL ==> old(self).model().nameable(lefthand)
                    && old(self).model().nameable(righthand)) ==> #[trigger] final(self).model().names_ok_except(e),
            forall|s: Seq<char>| #[trigger] final(self).model().concept_of_label(s) == old(self).model().concept_of_label(s),
    ;
}

impl FindOrInsertDefinition for Context {
    fn find_or_insert_definition(&mut self, lefthand: usize, righthand: usize) -> (r: ZiaResult<usize>) {
        let ghost m = self.model();
        match self.find_definition(lefthand, righthand) {
            Some(def) => {
                proof {
                    let w = choose|w: usize| m.has(w) && #[trigger] m.def(w) == Some((lefthand, righthand));
                }
                Ok(def)
            },
            None => {
                let definition = self.new_abstract();
                let ghost m1 = self.model();
                proof {
                    lemma_append(m, empty_view(ConceptKind::Abstract, Seq::empty()), None);
                    assert(m1.view(definition) == empty_view(ConceptKind::Abstract, Seq::empty()));
                    assert(m1.view(lefthand) == m.view(lefthand));
                    assert(m1.view(righthand) == m.view(righthand));
                    assert(m1.view(LABEL) == m.view(LABEL));
                    assert forall|d: usize| m1.has(d) implies #[trigger] m1.def(d) != Some((lefthand, righthand)) by {
                        if d != definition {
                            assert(m1.view(d) == m.view(d));
                            assert(m1.def(d) == m.def(d));
                        }
                    }
                    lemma_unused_not_contained(m1, lefthand, definition);
                    lemma_unused_not_contained(m1, righthand, definition);
                    lemma_isolated_not_expanded(m1, lefthand, definition);
                    lemma_isolated_not_expanded(m1, righthand, definition);
                }
                let inserted = self.insert_definition(definition, lefthand, righthand);
                proof {
                    let m2 = self.model();
                    assert(inserted is Ok);
                    lemma_definition_set_names(m1, m2, definition, lefthand, righthand, None);
                    assert forall|x: usize| #[trigger] m2.label_of(x) == m.label_of(x) by {
                        assert(m1.label_of(x) == m.label_of(x) || x == definition);
                        if x == definition {
                            lemma_label_of(m, x);
                            if let Some(w) = m.label_def_of(x) {
                                let v = choose|v: usize| m.has(v) && #[trigger] m.def(v) == Some((LABEL, x));
                                assert(m.has(x));
                            }
                        }
                    }
                    assert forall|x: usize| m.has(x) implies #[trigger] m2.def(x) == m.def(x) by {
                        assert(m1.view(x) == m.view(x));
                        assert(m2.view(x).definition == m1.view(x).definition);
                    }
                    assert forall|x: usize| m.has(x) && #[trigger] m.ordinary(x) implies m2.ordinary(x) by {
                        assert(m1.view(x) == m.view(x));
                        assert(m2.view(x).kind == m1.view(x).kind);
                        assert(m2.def(x) == m1.def(x));
                    }
                    assert forall|x: usize| m.has(x) && #[trigger] m.nameable(x) implies m2.nameable(x) by {
                        assert(m1.view(x) == m.view(x));
                        assert(m2.def(x) == m1.def(x));
                    }
                    assert forall|e: Option<usize>|
                        m.names_ok_except(e) && (lefthand != LABEL ==> m.nameable(lefthand) && m.nameable(righthand))
                            implies #[trigger] m2.names_ok_except(e) by {
                        lemma_append(m, empty_view(ConceptKind::Abstract, Seq::empty()), e);
                        assert(m1.nameable(lefthand) == m.nameable(lefthand));
                        assert(m1.nameable(righthand) == m.nameable(righthand));
                        lemma_definition_set_names(m1, m2, definition, lefthand, righthand, e);
                    }
                    lemma_readings_kept_by_append(m, empty_view(ConceptKind::Abstract, Seq::empty()));
                    lemma_readings_kept_by_definition(m1, m2, definition, Some((lefthand, righthand)));
                }
                Ok(definition)
            },
        }
    }
}

} // verus!
