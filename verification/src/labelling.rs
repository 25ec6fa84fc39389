use vstd::prelude::*;
use crate::concepts::{empty_view, ConceptKind};
use crate::context::{ConceptReader, Context};
use crate::errors::{ZiaError, ZiaResult};
use crate::model::{LABEL, Model};
use crate::translating::{lemma_reading_kept_by_new_string, lemma_reading_kept_by_reduction, lemma_readings_kept_by_append, lemma_reading_ok};
use crate::reading::{lemma_labels_unique, GetConceptOfLabel, GetLabel, MaybeDisconnected};
use crate::upkeep::{
    lemma_append, lemma_append_string, lemma_blank_sound, lemma_keeps_names_trans, lemma_label_def_of, lemma_label_of,
    lemma_reduction_set_names,
};
use crate::writing::{AbstractMaker, DeleteDefinition, DeleteReduction, FindOrInsertDefinition, StringMaker, UpdateNormalForm};
use crate::concepts::GetDefinition;

verus! {

/// A label definition that reduces to a string concept makes its concept the labellee of that string concept.
pub proof fn lemma_labellee_of(m: Model, x: usize, d: usize, t: usize)
    requires
        m.sound(),
        m.has(d),
        m.def(d) == Some((LABEL, x)),
        m.red(d) == Some(t),
    ensures
        m.labellee_of(t) == Some(x),
{
    assert(m.has(t));
    assert(m.is_label_def(d));
    assert(m.is_text(t));
    assert(d != t);
    assert(m.rrank(t) < m.rrank(d));
    assert(m.reaches(t, t));
    assert(m.reaches(d, t));
    assert(m.labels(x, t));
    let w = choose|w: usize| m.labels(w, t);
    lemma_labels_unique(m, w, x, t);
}

/// Appending a concept that holds nothing keeps every name.
pub proof fn lemma_append_keeps_names(m: Model, m2: Model)
    requires
        m2.len() >= m.len(),
        forall|x: usize| m.has(x) ==> #[trigger] m2.view(x) == m.view(x),
        forall|x: usize| m.has(x) ==> #[trigger] m2.label_of(x) == m.label_of(x),
    ensures
        m.keeps_names(m2),
{
    assert forall|x: usize| m.has(x) && #[trigger] m.ordinary(x) implies m2.ordinary(x) by {
        assert(m2.view(x) == m.view(x));
    }
    assert forall|x: usize| m.has(x) && #[trigger] m.nameable(x) implies m2.nameable(x) by {
        assert(m2.view(x) == m.view(x));
        assert(m2.label_of(x) == m.label_of(x));
    }
    assert forall|x: usize| m.has(x) && #[trigger] m.label_of(x) is Some implies m2.label_of(x) is Some by {
        assert(m2.label_of(x) == m.label_of(x));
    }
}

/// The concepts that labelling adds, a label definition and a string
/// concept, are not labelled themselves.
proof fn lemma_new_concepts_unlabelled(
    m0: Model,
    m1: Model,
    m2: Model,
    m3: Model,
    concept: usize,
    definition: usize,
    string_id: usize,
)
    requires
        m0.sound(),
        m0.has(concept),
        forall|d: usize| m0.has(d) ==> #[trigger] m1.def(d) == m0.def(d),
        m1.len() >= m0.len(),
        m1.has(definition),
        m1.def(definition) == Some((LABEL, concept)),
        forall|d: usize| m1.has(d) && !m0.has(d) ==> d == definition,
        string_id == m1.len(),
        m2.len() == m1.len() + 1,
        forall|d: usize| m1.has(d) ==> #[trigger] m2.view(d) == m1.view(d),
        m2.def(string_id) is None,
        m3.len() == m2.len(),
        forall|x: usize| m2.label_def_of(x) != Some(definition) ==> #[trigger] m3.label_of(x) == m2.label_of(x),
    ensures
        forall|x: usize| m3.has(x) && !m0.has(x) ==> #[trigger] m3.label_of(x) is None,
{
    assert forall|x: usize| m3.has(x) && !m0.has(x) implies #[trigger] m3.label_of(x) is None by {
        assert(x != concept);
        assert(!exists|d: usize| m2.has(d) && #[trigger] m2.def(d) == Some((LABEL, x))) by {
            if exists|d: usize| m2.has(d) && #[trigger] m2.def(d) == Some((LABEL, x)) {
                let d = choose|d: usize| m2.has(d) && #[trigger] m2.def(d) == Some((LABEL, x));
                if m0.has(d) {
                    assert(m2.view(d) == m1.view(d));
                    assert(m1.def(d) == m0.def(d));
                    assert(m0.has(x));
                } else if d == string_id {
                } else {
                    assert(m2.view(d) == m1.view(d));
                    assert(d == definition);
                }
            }
        }
        assert(m2.label_def_of(x) is None);
    }
}

/// Labelling a concept with a text keeps what every other text reads as,
/// but for the texts that read as that concept.
proof fn lemma_label_readings(
    m0: Model,
    m1: Model,
    m2: Model,
    m3: Model,
    concept: usize,
    definition: usize,
    text: Seq<char>,
)
    requires
        m1.sound(),
        m3.sound(),
        m1.len() <= usize::MAX,
        forall|s: Seq<char>| #[trigger] m1.concept_of_label(s) == m0.concept_of_label(s),
        m2 == (Model { strings: m1.strings.insert(text, m1.len() as usize), ..m1.appended(empty_view(ConceptKind::Text, text)) }),
        m1.has(definition),
        m1.def(definition) == Some((LABEL, concept)),
        m2.with_reduction_of(m3, definition, Some(m1.len() as usize)),
    ensures
        forall|s: Seq<char>|
            s != text && m0.concept_of_label(s) != Some(concept) ==> #[trigger] m3.concept_of_label(s) == m0.concept_of_label(s),
{
    lemma_append_string(m1, text, None);
    assert forall|s: Seq<char>|
        s != text && m0.concept_of_label(s) != Some(concept) implies #[trigger] m3.concept_of_label(s) == m0.concept_of_label(s) by {
        lemma_reading_kept_by_new_string(m1, text, s);
        if m2.strings.contains_key(s) {
            let t = m2.strings[s];
            assert(m1.strings.contains_key(s) && m1.strings[s] == t);
            assert(m1.is_text(t));
            assert(m2.view(definition) == m1.view(definition));
            if m2.red(definition) == Some(t) {
                lemma_labellee_of(m2, concept, definition, t);
            }
        }
        lemma_reading_kept_by_reduction(m2, m3, definition, Some(m1.len() as usize), s);
    }
}

/// Labelling concepts with strings.
pub trait Labeller: StringMaker + FindOrInsertDefinition + UpdateNormalForm {
    /// Labels an ordinary concept with a text, replacing the label it had.
    /// Only ordinary concepts are labelled: a label on `LABEL`, a label
    /// definition or a string concept would be read back as a concept that
    /// commands cannot name.
    fn label(&mut self, concept: usize, string: &str) -> (r: ZiaResult<()>)
        requires
            old(self).model().sound(),
            old(self).model().has(concept),
            old(self).model().ordinary(concept),
        ensures
            r == Ok::<(), ZiaError>(()),
            final(self).model().sound(),
            final(self).model().label_of(concept) == Some(string@),
            forall|x: usize|
                old(self).model().has(x) && x != concept ==> #[trigger] final(self).model().label_of(x) == old(self).model().label_of(x),
            final(self).model().strings.contains_key(string@),
            final(self).model().labellee_of(final(self).model().strings[string@]) == Some(concept),
            forall|x: usize| old(self).model().has(x) ==> #[trigger] final(self).model().def(x) == old(self).model().def(x),
            old(self).model().keeps_names(final(self).model()),
            forall|e: Option<usize>| old(self).model().names_ok_except(e) ==> #[trigger] final(self).model().names_ok_except(e),
            old(self).model().names_ok_except(Some(concept)) ==> final(self).model().names_ok_except(None),
            final(self).model().len() == old(self).model().len() + (if old(self).model().definition_of(LABEL, concept) is Some {
                1nat
            } else {
                2nat
            }),
            final(self).model().strings == old(self).model().strings.insert(string@, (final(self).model().len() - 1) as usize),
            forall|x: usize|
                final(self).model().has(x) && !old(self).model().has(x) ==> #[trigger] final(self).model().label_of(x) is None,
            final(self).model().concept_of_label(string@) == Some(concept),
            forall|s: Seq<char>|
                s != string@ && old(self).model().concept_of_label(s) != Some(concept) ==> #[trigger] final(self).model().concept_of_label(s)
                    == old(self).model().concept_of_label(s),
            old(self).model().keeps_reductions(final(self).model()),
            old(self).model().adds_only_label_defs(final(self).model()),
    ;

    /// Adds a new abstract concept labelled with a text, and returns its index.
    fn new_labelled_abstract(&mut self, string: &str) -> (r: ZiaResult<usize>)
        requires
            old(self).model().sound(),
        ensures
            r == Ok::<usize, ZiaError>(old(self).model().len() as usize),
            final(self).model().sound(),
            final(self).model().has(old(self).model().len() as usize),
            final(self).model().ordinary(old(self).model().len() as usize),
            final(self).model().label_of(old(self).model().len() as usize) == Some(string@),
            final(self).model().def(old(self).model().len() as usize) is None,
            forall|x: usize|
                old(self).model().has(x) ==> #[trigger] final(self).model().label_of(x) == old(self).model().label_of(x),
            final(self).model().strings.contains_key(string@),
            final(self).model().labellee_of(final(self).model().strings[string@]) == Some(
                old(self).model().len() as usize,
            ),
            forall|x: usize| old(self).model().has(x) ==> #[trigger] final(self).model().def(x) == old(self).model().def(x),
            old(self).model().keeps_names(final(self).model()),
            forall|e: Option<usize>| old(self).model().names_ok_except(e) ==> #[trigger] final(self).model().names_ok_except(e),
            final(self).model().concept_of_label(string@) == Some(old(self).model().len() as usize),
            forall|s: Seq<char>|
                s != string@ ==> #[trigger] final(self).model().concept_of_label(s) == old(self).model().concept_of_label(s),
            old(self).model().keeps_reductions(final(self).model()),
            old(self).model().adds_only_label_defs(final(self).model()),
            final(self).model().len() == old(self).model().len() + 3,
    ;
}

impl Labeller for Context {
    #[verifier::rlimit(100)]
    #[verifier::spinoff_prover]
    fn label(&mut self, concept: usize, string: &str) -> (r: ZiaResult<()>) {
        let ghost m0 = self.model();
        let definition = match self.find_or_insert_definition(LABEL, concept) {
            Ok(d) => d,
            Err(e) => { return Err(e); },
        };
        let ghost m1 = self.model();
        let string_id = self.new_string(string);
        let ghost m2 = self.model();
        proof {
            lemma_append_string(m1, string@, None);
            assert(m2.view(definition) == m1.view(definition));
            assert(m2.view(concept) == m1.view(concept));
            assert(m2.is_label_def(definition));
            assert(m2.is_abstract(definition));
            if let Some(x) = m2.red(definition) {
                assert(m1.has(x));
            }
        }
        let updated = self.update_normal_form(definition, string_id);
        proof {
            let m3 = self.model();
            assert(updated is Ok);
            lemma_reduction_set_names(m2, m3, definition, string_id, None);
            lemma_label_def_of(m2, concept, definition);
            assert(m3.label_of(concept) == Some(string@));
            assert forall|x: usize| m0.has(x) && x != concept implies #[trigger] m3.label_of(x) == m0.label_of(x) by {
                assert(m3.label_of(x) == (if m2.label_def_of(x) == Some(definition) {
                    Some(m2.view(string_id).string)
                } else {
                    m2.label_of(x)
                }));
                if m2.label_def_of(x) == Some(definition) {
                    lemma_label_of(m2, x);
                }
                assert(m2.label_of(x) == m1.label_of(x));
            }
            assert(m3.strings == m2.strings);
            assert(m3.def(definition) == m2.def(definition));
            lemma_labellee_of(m3, concept, definition, string_id);
            assert forall|x: usize| m0.has(x) implies #[trigger] m3.def(x) == m0.def(x) by {
                assert(m3.view(x).definition == m2.view(x).definition);
                assert(m2.view(x) == m1.view(x));
                assert(m1.view(x).definition == m0.view(x).definition);
            }
            lemma_append_keeps_names(m1, m2);
            assert(m2.keeps_names(m3)) by {
                assert forall|x: usize| m2.has(x) && #[trigger] m2.ordinary(x) implies m3.ordinary(x) by {
                    assert(m3.view(x).kind == m2.view(x).kind);
                    assert(m3.def(x) == m2.def(x));
                }
                assert forall|x: usize| m2.has(x) && #[trigger] m2.label_of(x) is Some implies m3.label_of(x) is Some by {
                    assert(m3.label_of(x) == (if m2.label_def_of(x) == Some(definition) {
                        Some(m2.view(string_id).string)
                    } else {
                        m2.label_of(x)
                    }));
                }
            }
            lemma_keeps_names_trans(m0, m1, m2);
            lemma_keeps_names_trans(m0, m2, m3);
            assert forall|x: usize| m2.label_def_of(x) != Some(definition) implies #[trigger] m3.label_of(x)
                == m2.label_of(x) by {
                assert(m3.label_of(x) == (if m2.label_def_of(x) == Some(definition) {
                    Some(m2.view(string_id).string)
                } else {
                    m2.label_of(x)
                }));
            }
            assert forall|d: usize| m1.has(d) implies #[trigger] m2.view(d) == m1.view(d) by {}
            lemma_new_concepts_unlabelled(m0, m1, m2, m3, concept, definition, string_id);
            lemma_label_readings(m0, m1, m2, m3, concept, definition, string@);
            assert forall|w: usize| m3.has(w) && !m0.has(w) implies match #[trigger] m3.def(w) {
                Some((p, _)) => p == LABEL,
                None => true,
            } by {
                assert(m3.def(w) == m2.def(w));
                if m1.has(w) {
                    assert(m2.view(w) == m1.view(w));
                    assert(w == definition);
                }
            }
            assert forall|x: usize| m3.has(x) && !m3.is_label_def(x) implies #[trigger] m3.red(x) == (if m0.has(x) {
                m0.red(x)
            } else {
                None
            }) by {
                assert(x != definition);
                assert(m3.red(x) == m2.red(x));
                if m1.has(x) {
                    assert(m2.view(x) == m1.view(x));
                    assert(m1.view(x).reduction == (if m0.has(x) { m0.red(x) } else { None }));
                }
            }
            assert forall|e: Option<usize>| m0.names_ok_except(e) implies #[trigger] m3.names_ok_except(e) by {
                lemma_append_string(m1, string@, e);
                lemma_reduction_set_names(m2, m3, definition, string_id, e);
            }
            if m0.names_ok_except(Some(concept)) {
                assert(m3.names_ok_except(Some(concept)));
                assert(m3.view(concept).kind == m2.view(concept).kind);
                assert forall|x: usize| #[trigger] m3.ordinary(x) && None::<usize> != Some(x) implies m3.nameable(x)
                    || m3.disconnected(x) by {
                    if x != concept {
                        assert(m3.ordinary(x) && Some(concept) != Some(x));
                    }
                }
            }
        }
        Ok(())
    }

    fn new_labelled_abstract(&mut self, string: &str) -> (r: ZiaResult<usize>) {
        let ghost m0 = self.model();
        let new_abstract = self.new_abstract();
        let ghost m1 = self.model();
        proof {
            lemma_append(m0, empty_view(ConceptKind::Abstract, Seq::empty()), None);
            assert(m1.view(new_abstract) == empty_view(ConceptKind::Abstract, Seq::empty()));
            assert(m1.view(LABEL) == m0.view(LABEL));
            assert(m1.ordinary(new_abstract));
            assert forall|w: usize| m1.has(w) implies #[trigger] m1.def(w) != Some((LABEL, new_abstract)) by {
                if w != new_abstract {
                    assert(m1.view(w) == m0.view(w));
                    if m0.def(w) == Some((LABEL, new_abstract)) {
                        assert(m0.has(new_abstract));
                    }
                }
            }
            assert(m1.definition_of(LABEL, new_abstract) is None);
        }
        match self.label(new_abstract, string) {
            Ok(()) => {},
            Err(e) => { return Err(e); },
        }
        proof {
            let m2 = self.model();
            assert forall|x: usize| m0.has(x) implies #[trigger] m2.label_of(x) == m0.label_of(x) by {
                assert(m1.label_of(x) == m0.label_of(x));
            }
            assert forall|x: usize| m0.has(x) implies #[trigger] m2.def(x) == m0.def(x) by {
                assert(m1.view(x) == m0.view(x));
            }
            assert(m2.def(new_abstract) == m1.def(new_abstract));
            lemma_append_keeps_names(m0, m1);
            lemma_keeps_names_trans(m0, m1, m2);
            assert(m2.ordinary(new_abstract));
            assert forall|e: Option<usize>| m0.names_ok_except(e) implies #[trigger] m2.names_ok_except(e) by {
                lemma_append(m0, empty_view(ConceptKind::Abstract, Seq::empty()), e);
            }
            lemma_readings_kept_by_append(m0, empty_view(ConceptKind::Abstract, Seq::empty()));
            assert forall|w: usize| m2.has(w) && !m0.has(w) implies match #[trigger] m2.def(w) {
                Some((p, _)) => p == LABEL,
                None => true,
            } by {
                if m1.has(w) {
                    assert(m2.def(w) == m1.def(w));
                    assert(m1.view(w) == empty_view(ConceptKind::Abstract, Seq::empty()));
                }
            }
            assert forall|x: usize| m2.has(x) && !m2.is_label_def(x) implies #[trigger] m2.red(x) == (if m0.has(x) {
                m0.red(x)
            } else {
                None
            }) by {
                assert(m2.red(x) == (if m1.has(x) { m1.red(x) } else { None }));
                if m0.has(x) {
                    assert(m1.view(x) == m0.view(x));
                } else if m1.has(x) {
                    assert(m1.view(x) == empty_view(ConceptKind::Abstract, Seq::empty()));
                }
            }
            assert forall|s: Seq<char>| s != string@ implies #[trigger] m2.concept_of_label(s) == m0.concept_of_label(s) by {
                assert(m1.concept_of_label(s) == m0.concept_of_label(s));
                lemma_reading_ok(m1, s);
            }
        }
        Ok(new_abstract)
    }
}

/// Removing the label of a concept.
pub trait Unlabeller: DeleteReduction + GetConceptOfLabel {
    /// Removes the label of a labelled concept.
    fn unlabel(&mut self, concept: usize)
        requires
            old(self).model().sound(),
            old(self).model().has(concept),
            old(self).model().label_of(concept) is Some,
        ensures
            final(self).model().sound(),
            final(self).model().label_of(concept) is None,
            forall|x: usize| x != concept ==> #[trigger] final(self).model().label_of(x) == old(self).model().label_of(x),
            forall|x: usize| old(self).model().has(x) ==> #[trigger] final(self).model().def(x) == old(self).model().def(x),
            final(self).model().len() == old(self).model().len(),
            final(self).model().strings == old(self).model().strings,
            old(self).model().names_ok_except(None) ==> final(self).model().names_ok_except(Some(concept)),
            old(self).model().names_ok_except(None) && old(self).model().disconnected(concept) ==> final(self).model().names_ok_except(None),
            forall|x: usize| old(self).model().has(x) ==> #[trigger] final(self).model().ordinary(x) == old(self).model().ordinary(x),
            forall|x: usize|
                old(self).model().has(x) && old(self).model().ordinary(x) ==> #[trigger] final(self).model().disconnected(x)
                    == old(self).model().disconnected(x),
            forall|s: Seq<char>|
                old(self).model().concept_of_label(s) != Some(concept) ==> #[trigger] final(self).model().concept_of_label(s)
                    == old(self).model().concept_of_label(s),
    ;
}

impl Unlabeller for Context {
    fn unlabel(&mut self, concept: usize) {
        let ghost m0 = self.model();
        proof {
            lemma_label_of(m0, concept);
        }
        match self.get_concept_of_label(concept) {
            None => {},
            Some(d) => {
                proof {
                    assert(m0.def(d) == Some((LABEL, concept)));
                    assert(m0.is_label_def(d));
                }
                self.delete_reduction(d);
                proof {
                    let m1 = self.model();
                    assert forall|s: Seq<char>| m0.concept_of_label(s) != Some(concept) implies #[trigger] m1.concept_of_label(s)
                        == m0.concept_of_label(s) by {
                        if m0.strings.contains_key(s) {
                            let t = m0.strings[s];
                            if m0.red(d) == Some(t) {
                                lemma_labellee_of(m0, concept, d, t);
                            }
                        }
                        lemma_reading_kept_by_reduction(m0, m1, d, None, s);
                    }
                    assert(m1.label_of(concept) is None);
                    assert forall|x: usize| x != concept implies #[trigger] m1.label_of(x) == m0.label_of(x) by {
                        if m0.label_def_of(x) == Some(d) {
                            lemma_label_of(m0, x);
                        }
                    }
                    assert forall|x: usize| m0.has(x) implies #[trigger] m1.def(x) == m0.def(x) by {
                        assert(m1.view(x).definition == m0.view(x).definition);
                    }
                    if m0.names_ok_except(None) {
                        assert(m0.names_ok_except(Some(concept)));
                        assert(m0.unlabel_keeps_names(d, Some(concept)));
                        assert(m1.names_ok_except(Some(concept)));
                        if m0.disconnected(concept) {
                            assert(m0.unlabel_keeps_names(d, None));
                            assert(m1.names_ok_except(None));
                        }
                    }
                    assert forall|x: usize| m0.has(x) implies #[trigger] m1.ordinary(x) == m0.ordinary(x) by {
                        assert(m1.view(x).kind == m0.view(x).kind);
                    }
                    let t = m0.red(d)->0;
                    assert(m0.has(t) && m0.is_text(t));
                    assert forall|x: usize| m0.has(x) && m0.ordinary(x) implies #[trigger] m1.disconnected(x)
                        == m0.disconnected(x) by {
                        assert(x != d);
                        assert(m1.red(x) == m0.red(x));
                        assert(m1.def(x) == m0.def(x));
                        assert forall|y: usize| #![trigger m1.uses_on_left(y, x)] #![trigger m0.uses_on_left(y, x)] m1.uses_on_left(y, x) == m0.uses_on_left(y, x) by {
                            if m0.has(y) {
                                assert(m1.def(y) == m0.def(y));
                            }
                        }
                        assert forall|y: usize| #![trigger m1.uses_on_right(y, x)] #![trigger m0.uses_on_right(y, x)] m1.uses_on_right(y, x) == m0.uses_on_right(y, x) by {
                            if m0.has(y) {
                                assert(m1.def(y) == m0.def(y));
                            }
                        }
                        assert forall|y: usize| #![trigger m1.is_label_def(y)] #![trigger m0.is_label_def(y)] m0.has(y) implies m1.is_label_def(y) == m0.is_label_def(y) by {
                            if m0.has(y) {
                                assert(m1.def(y) == m0.def(y));
                            }
                        }
                        assert forall|y: usize| #![trigger m1.red(y)] #![trigger m0.red(y)] m1.has(y) implies (m1.red(y) == Some(x) <==> m0.red(y) == Some(x)) by {
                            assert(m1.view(y).reduction == (if y == d { None } else { m0.view(y).reduction }));
                            if y == d {
                                assert(m0.view(t).kind != crate::concepts::ConceptKind::Abstract);
                            }
                        }
                    }
                }
            },
        }
    }
}

/// Forgetting concepts that nothing refers to any more.
pub trait DefinitionDeleter: MaybeDisconnected + DeleteDefinition + Unlabeller + GetLabel {
    /// Removes the definition of a concept, then forgets the labels of the
    /// concept and of its former parts when nothing refers to them any more.
    /// A forgotten concept keeps its place, unlabelled and disconnected:
    /// concepts are found by their index, and removing one would shift the
    /// index of every later concept while definitions, reductions and the
    /// string index still hold the old ones.
    fn cleanly_delete_definition(&mut self, concept: usize)
        requires
            old(self).model().sound(),
            old(self).model().has(concept),
            old(self).model().def(concept) is Some,
            !old(self).model().is_label_def(concept),
        ensures
            final(self).model().sound(),
            final(self).model().len() == old(self).model().len(),
            final(self).model().strings == old(self).model().strings,
            final(self).model().def(concept) is None,
            forall|x: usize|
                old(self).model().has(x) && x != concept ==> #[trigger] final(self).model().def(x) == old(self).model().def(x),
            forall|x: usize|
                #[trigger] final(self).model().label_of(x) == (if (x == concept || x == old(self).model().def(concept).unwrap().0 || x == old(self).model().def(concept).unwrap().1)
                    && final(self).model().disconnected(x) {
                    None
                } else {
                    old(self).model().label_of(x)
                }),
            old(self).model().wf() && old(self).model().label_of(concept) is Some ==> final(self).model().wf(),
    ;

    /// Forgets the label of a concept that nothing refers to.
    fn try_delete_concept(&mut self, concept: usize)
        requires
            old(self).model().sound(),
            old(self).model().has(concept),
        ensures
            final(self).model().sound(),
            final(self).model().len() == old(self).model().len(),
            final(self).model().strings == old(self).model().strings,
            forall|x: usize| old(self).model().has(x) ==> #[trigger] final(self).model().def(x) == old(self).model().def(x),
            forall|x: usize|
                #[trigger] final(self).model().label_of(x) == (if x == concept && old(self).model().disconnected(x) {
                    None
                } else {
                    old(self).model().label_of(x)
                }),
            forall|x: usize| old(self).model().has(x) ==> #[trigger] final(self).model().ordinary(x) == old(self).model().ordinary(x),
            forall|x: usize|
                old(self).model().has(x) && old(self).model().ordinary(x) ==> #[trigger] final(self).model().disconnected(x)
                    == old(self).model().disconnected(x),
            old(self).model().names_ok_except(None) ==> final(self).model().names_ok_except(None),
    ;
}

impl DefinitionDeleter for Context {
    fn cleanly_delete_definition(&mut self, concept: usize) {
        let ghost m0 = self.model();
        let definition = self.read_concept(concept).get_definition();
        let (left, right) = match definition {
            Some(pair) => pair,
            None => { return; },
        };
        assert(m0.def(concept) == Some((left, right)));
        assert(m0.has(left) && m0.has(right));
        self.delete_definition(concept);
        let ghost m1 = self.model();
        self.try_delete_concept(concept);
        let ghost m2 = self.model();
        self.try_delete_concept(left);
        let ghost m3 = self.model();
        self.try_delete_concept(right);
        proof {
            let m4 = self.model();
            assert forall|x: usize| m0.has(x) && x != concept implies #[trigger] m4.def(x) == m0.def(x) by {
                assert(m1.def(x) == m1.view(x).definition);
            }
            assert(m1.def(concept) == m1.view(concept).definition);
            assert forall|x: usize|
                #[trigger] m4.label_of(x) == (if (x == concept || x == m0.def(concept).unwrap().0 || x == m0.def(concept).unwrap().1) && m4.disconnected(x) {
                    None
                } else {
                    m0.label_of(x)
                }) by {
                assert(m1.label_of(x) == m0.label_of(x));
                if x == concept || x == left || x == right {
                    assert(m0.has(x));
                    assert(m0.ordinary(concept));
                    assert(m0.ordinary(left) && m0.ordinary(right));
                    assert(m1.view(x).kind == m0.view(x).kind);
                    assert(m1.def(x) == m1.view(x).definition);
                    assert(m1.ordinary(x));
                    assert(m2.ordinary(x));
                    assert(m3.ordinary(x));
                    assert(m4.disconnected(x) == m3.disconnected(x));
                    assert(m3.disconnected(x) == m2.disconnected(x));
                    assert(m2.disconnected(x) == m1.disconnected(x));
                }
            }
            if m0.wf() && m0.label_of(concept) is Some {
                assert(m0.names_ok_except(None));
                assert(m1.names_ok_except(None));
            }
        }
    }

    fn try_delete_concept(&mut self, concept: usize) {
        let ghost m0 = self.model();
        if self.is_disconnected(concept) && self.get_label(concept).is_some() {
            self.unlabel(concept);
        }
    }
}

/// Setting up a new context.
pub trait ContextMaker: Labeller + Sized {
    /// A context with the three built-in concepts: `LABEL`, which labels
    /// concepts, `DEFINE`, labelled `:=`, and `REDUCTION`, labelled `->`.
    fn new() -> (c: Self)
        ensures
            c.model().wf(),
            c.model().label_of(crate::model::DEFINE) == Some(":="@),
            c.model().label_of(crate::model::REDUCTION) == Some("->"@),
            c.model().ordinary(crate::model::DEFINE),
            c.model().ordinary(crate::model::REDUCTION),
            c.model().len() == 7,
            c.model().concept_of_label(":="@) == Some(crate::model::DEFINE),
            c.model().concept_of_label("->"@) == Some(crate::model::REDUCTION),
            forall|x: usize| c.model().has(x) && !c.model().is_label_def(x) ==> #[trigger] c.model().red(x) is None,
            c.model().strings == Map::<Seq<char>, usize>::empty().insert(":="@, 4).insert("->"@, 6),
            forall|x: usize|
                x != crate::model::DEFINE && x != crate::model::REDUCTION ==> #[trigger] c.model().label_of(x) is None,
    ;
}

impl Context {
    /// Adds the three built-in concepts to an empty context and labels `DEFINE` and `REDUCTION`.
    pub fn setup(&mut self) -> (r: ZiaResult<()>)
        requires
            old(self).model().len() == 0,
            old(self).model().strings == Map::<Seq<char>, usize>::empty(),
        ensures
            r == Ok::<(), ZiaError>(()),
            final(self).model().wf(),
            final(self).model().label_of(crate::model::DEFINE) == Some(":="@),
            final(self).model().label_of(crate::model::REDUCTION) == Some("->"@),
            final(self).model().ordinary(crate::model::DEFINE),
            final(self).model().ordinary(crate::model::REDUCTION),
            final(self).model().len() == 7,
            final(self).model().concept_of_label(":="@) == Some(crate::model::DEFINE),
            final(self).model().concept_of_label("->"@) == Some(crate::model::REDUCTION),
            forall|x: usize|
                final(self).model().has(x) && !final(self).model().is_label_def(x) ==> #[trigger] final(self).model().red(x) is None,
            final(self).model().strings == Map::<Seq<char>, usize>::empty().insert(":="@, 4).insert("->"@, 6),
            forall|x: usize|
                x != crate::model::DEFINE && x != crate::model::REDUCTION ==> #[trigger] final(self).model().label_of(x) is None,
    {
        let ghost m0 = self.model();
        let _label_concept = self.new_abstract();
        let define_concept = self.new_abstract();
        let reduction_concept = self.new_abstract();
        let ghost zeros: Seq<nat> = seq![0nat, 0nat, 0nat];
        self.set_ranks(Ghost(zeros), Ghost(zeros), Ghost(0nat));
        proof {
            let m = self.model();
            let ev = empty_view(ConceptKind::Abstract, Seq::empty());
            assert(m.len() == 3);
            assert forall|x: usize| m.has(x) implies #[trigger] m.view(x) == ev by {}
            assert forall|x: usize| m.has(x) implies #[trigger] m.rrank(x) <= m.red_bound by {}
            lemma_blank_sound(m);
            assert(m.view(define_concept) == ev);
            assert(m.view(reduction_concept) == ev);
            assert(m.ordinary(define_concept));
            assert(m.ordinary(reduction_concept));
            assert forall|x: usize| #[trigger] m.label_of(x) is None by {
                assert(!exists|d: usize| m.has(d) && #[trigger] m.def(d) == Some((LABEL, x)));
            }
            assert(m.definition_of(LABEL, define_concept) is None);
            assert(m.definition_of(LABEL, reduction_concept) is None);
        }
        let ghost m1 = self.model();
        match self.label(define_concept, ":=") {
            Ok(()) => {},
            Err(e) => { return Err(e); },
        }
        let ghost m2 = self.model();
        proof {
            assert(m2.ordinary(reduction_concept));
        }
        proof {
            assert(m2.len() == 5);
            assert(m2.definition_of(LABEL, reduction_concept) is None) by {
                if exists|d: usize| m2.has(d) && #[trigger] m2.def(d) == Some((LABEL, reduction_concept)) {
                    let d = choose|d: usize| m2.has(d) && #[trigger] m2.def(d) == Some((LABEL, reduction_concept));
                    if m1.has(d) {
                        assert(m2.def(d) == m1.def(d));
                    } else {
                        assert(m2.label_of(reduction_concept) == m1.label_of(reduction_concept));
                        crate::upkeep::lemma_label_of(m2, reduction_concept);
                        assert(m2.label_def_of(reduction_concept) is Some);
                    }
                }
            }
        }
        let r = self.label(reduction_concept, "->");
        proof {
            let m3 = self.model();
            assert(m3.label_of(define_concept) == m2.label_of(define_concept));
            reveal_strlit(":=");
            reveal_strlit("->");
            assert(":="@[0] != "->"@[0]);
            assert(":="@ != "->"@);
            assert(m3.concept_of_label(":="@) == m2.concept_of_label(":="@));
            assert forall|x: usize| m3.has(x) && !m3.is_label_def(x) implies #[trigger] m3.red(x) is None by {
                if m2.has(x) {
                    assert(m3.def(x) == m2.def(x));
                    if m1.has(x) {
                        assert(m2.def(x) == m1.def(x));
                    }
                }
            }
            assert(m3.len() == 7);
            assert forall|x: usize|
                x != crate::model::DEFINE && x != crate::model::REDUCTION implies #[trigger] m3.label_of(x) is None by {
                if m1.has(x) {
                    assert(m2.label_of(x) == m1.label_of(x));
                    assert(m3.label_of(x) == m2.label_of(x));
                } else if m2.has(x) {
                    assert(m3.label_of(x) == m2.label_of(x));
                }
            }
        }
        r
    }

    /// A new context, set up with its built-in concepts.
    pub fn new() -> (c: Context)
        ensures
            c.model().wf(),
            c.model().label_of(crate::model::DEFINE) == Some(":="@),
            c.model().label_of(crate::model::REDUCTION) == Some("->"@),
            c.model().ordinary(crate::model::DEFINE),
            c.model().ordinary(crate::model::REDUCTION),
            c.model().len() == 7,
            c.model().concept_of_label(":="@) == Some(crate::model::DEFINE),
            c.model().concept_of_label("->"@) == Some(crate::model::REDUCTION),
            forall|x: usize| c.model().has(x) && !c.model().is_label_def(x) ==> #[trigger] c.model().red(x) is None,
            c.model().strings == Map::<Seq<char>, usize>::empty().insert(":="@, 4).insert("->"@, 6),
            forall|x: usize|
                x != crate::model::DEFINE && x != crate::model::REDUCTION ==> #[trigger] c.model().label_of(x) is None,
    {
        let mut cont = Context::default();
        let _ = cont.setup();
        cont
    }
}

impl ContextMaker for Context {
    fn new() -> (c: Self) {
        Context::new()
    }
}

} // verus!
