use vstd::prelude::*;
use crate::ast::{AbstractSyntaxTree, Container as SyntaxContainer, MaybeConcept, Pair, SyntaxFactory, SyntaxTree};
use crate::context::{ConceptReader, Context};
use crate::errors::{error_message, ZiaError, ZiaResult};
use crate::labelling::{DefinitionDeleter, Labeller, Unlabeller};
use crate::model::{DEFINE, LABEL, Model, REDUCTION};
use crate::reading::{FindDefinition, GetLabel, GetNormalForm};
use crate::concepts::{GetDefinition, GetReduction};
use crate::syntax::{lemma_definition_of_ok, lemma_parts_nameable, lemma_writable};
use crate::reducing::{Expander, Reduce};
use crate::translating::{lemma_parsed_ok, parsable, SyntaxConverter};
use crate::text::{has_space, string_of};
use crate::upkeep::{lemma_keeps_names_trans, lemma_keeps_reductions_trans, lemma_label_of, lemma_reduction_set_names};
use crate::writing::{DeleteReduction, FindOrInsertDefinition, InsertDefinition, UpdateNormalForm};

verus! {

impl Model {
    /// `c` is the concept that the tree stands for: the tree's concept when it
    /// has one, an undefined concept labelled with the text of a symbol, or the
    /// concept defined as the pair of what the branches stand for, labelled
    /// with the text of the expression when that text has no space.
    pub open spec fn denotes(self, c: usize, t: SyntaxTree) -> bool
        decreases t,
    {
        self.has(c) && match t.concept() {
            Some(k) => c == k,
            None => match t {
                SyntaxTree::Leaf { string, .. } => self.label_of(c) == Some(string) && self.def(c) is None,
                SyntaxTree::Node { string, left, right, .. } => match self.def(c) {
                    Some((a, b)) => self.denotes(a, *left) && self.denotes(b, *right) && (!string.contains(' ')
                        ==> self.label_of(c) == Some(string)),
                    None => false,
                },
            },
        }
    }
}

/// What a spaced tree stands for stays the same while definitions, and the
/// labels of undefined concepts, stay the same.
pub proof fn lemma_denotes_kept(m1: Model, m2: Model, c: usize, t: SyntaxTree)
    requires
        m1.denotes(c, t),
        t.spaced(),
        t.inner_spaced(),
        m2.len() >= m1.len(),
        forall|x: usize| m1.has(x) ==> #[trigger] m2.def(x) == m1.def(x),
        forall|x: usize| m1.has(x) && m1.def(x) is None ==> #[trigger] m2.label_of(x) == m1.label_of(x),
    ensures
        m2.denotes(c, t),
    decreases t,
{
    if t.concept() is None {
        match t {
            SyntaxTree::Leaf { .. } => {
                assert(m2.label_of(c) == m1.label_of(c));
            },
            SyntaxTree::Node { left, right, .. } => {
                let (a, b) = m1.def(c).unwrap();
                assert(m2.def(c) == m1.def(c));
                lemma_denotes_kept(m1, m2, a, *left);
                lemma_denotes_kept(m1, m2, b, *right);
            },
        }
    }
}

impl Model {
    /// Where the tree has no concept of its own, none of the concepts that `c`
    /// stands for through it is `d`.
    pub open spec fn avoids(self, c: usize, t: SyntaxTree, d: usize) -> bool
        decreases t,
    {
        match t.concept() {
            Some(_) => true,
            None => c != d && match t {
                SyntaxTree::Leaf { .. } => true,
                SyntaxTree::Node { left, right, .. } => match self.def(c) {
                    Some((a, b)) => self.avoids(a, *left, d) && self.avoids(b, *right, d),
                    None => true,
                },
            },
        }
    }
}

/// What a spaced tree stands for, away from `d`, stays the same while the
/// other definitions, and the labels of the other undefined concepts, stay the same.
pub proof fn lemma_denotes_kept_except(m1: Model, m2: Model, c: usize, t: SyntaxTree, d: usize)
    requires
        m1.denotes(c, t),
        m1.avoids(c, t, d),
        t.spaced(),
        t.inner_spaced(),
        m2.len() >= m1.len(),
        forall|x: usize| m1.has(x) && x != d ==> #[trigger] m2.def(x) == m1.def(x),
        forall|x: usize| m1.has(x) && x != d && m1.def(x) is None ==> #[trigger] m2.label_of(x) == m1.label_of(x),
    ensures
        m2.denotes(c, t),
        m2.avoids(c, t, d),
    decreases t,
{
    if t.concept() is None {
        match t {
            SyntaxTree::Leaf { .. } => {
                assert(m2.label_of(c) == m1.label_of(c));
            },
            SyntaxTree::Node { left, right, .. } => {
                let (a, b) = m1.def(c).unwrap();
                assert(m2.def(c) == m1.def(c));
                lemma_denotes_kept_except(m1, m2, a, *left, d);
                lemma_denotes_kept_except(m1, m2, b, *right, d);
            },
        }
    }
}

/// The texts that making the concept of a tree labels: the symbols, and the
/// expressions without a space, that have no concept yet.
pub open spec fn made_texts(t: SyntaxTree) -> Set<Seq<char>>
    decreases t,
{
    match t.concept() {
        Some(_) => Set::empty(),
        None => match t {
            SyntaxTree::Leaf { string, .. } => set![string],
            SyntaxTree::Node { string, left, right, .. } => made_texts(*left).union(made_texts(*right)).union(
                if string.contains(' ') {
                    Set::empty()
                } else {
                    set![string]
                },
            ),
        },
    }
}

/// No two parts of the tree that get labelled have the same text.
pub open spec fn distinct_texts(t: SyntaxTree) -> bool
    decreases t,
{
    match t.concept() {
        Some(_) => true,
        None => match t {
            SyntaxTree::Leaf { .. } => true,
            SyntaxTree::Node { string, left, right, .. } => {
                &&& made_texts(*left).disjoint(made_texts(*right))
                &&& (!string.contains(' ') ==> !made_texts(*left).contains(string) && !made_texts(*right).contains(string))
                &&& distinct_texts(*left)
                &&& distinct_texts(*right)
            },
        },
    }
}

impl Model {
    /// Every text that making the concept `c` of the tree labelled reads as
    /// the concept made for it.
    pub open spec fn reads(self, c: usize, t: SyntaxTree) -> bool
        decreases t,
    {
        match t.concept() {
            Some(_) => true,
            None => {
                &&& (t is Leaf || !t.string().contains(' ') ==> self.concept_of_label(t.string()) == Some(c))
                &&& match t {
                    SyntaxTree::Leaf { .. } => true,
                    SyntaxTree::Node { left, right, .. } => match self.def(c) {
                        Some((a, b)) => self.reads(a, *left) && self.reads(b, *right),
                        None => false,
                    },
                }
            },
        }
    }
}

/// What the texts of a tree read as stays the same while they, and the
/// definitions, stay the same.
pub proof fn lemma_reads_kept(m1: Model, m2: Model, c: usize, t: SyntaxTree)
    requires
        m1.reads(c, t),
        m1.has(c) || t.concept() is Some,
        m1.sound(),
        m2.len() >= m1.len(),
        forall|x: usize| m1.has(x) ==> #[trigger] m2.def(x) == m1.def(x),
        forall|s: Seq<char>| made_texts(t).contains(s) ==> #[trigger] m2.concept_of_label(s) == m1.concept_of_label(s),
    ensures
        m2.reads(c, t),
    decreases t,
{
    if t.concept() is None {
        if let SyntaxTree::Node { string, left, right, .. } = t {
            let (a, b) = m1.def(c).unwrap();
            assert(m2.def(c) == m1.def(c));
            assert(m1.has(a) && m1.has(b));
            assert forall|s: Seq<char>| made_texts(*left).contains(s) implies #[trigger] m2.concept_of_label(s)
                == m1.concept_of_label(s) by {
                assert(made_texts(t).contains(s));
            }
            assert forall|s: Seq<char>| made_texts(*right).contains(s) implies #[trigger] m2.concept_of_label(s)
                == m1.concept_of_label(s) by {
                assert(made_texts(t).contains(s));
            }
            lemma_reads_kept(m1, m2, a, *left);
            lemma_reads_kept(m1, m2, b, *right);
        }
    }
}

/// What the texts of a tree read as stays the same while they, and the
/// definitions of the concepts they stand for, stay the same, whatever
/// becomes of `d`, which the tree avoids.
pub proof fn lemma_reads_kept_except(m1: Model, m2: Model, c: usize, t: SyntaxTree, d: usize)
    requires
        m1.reads(c, t),
        m1.avoids(c, t, d),
        m1.has(c) || t.concept() is Some,
        m1.sound(),
        m2.len() >= m1.len(),
        forall|x: usize| m1.has(x) && x != d ==> #[trigger] m2.def(x) == m1.def(x),
        forall|s: Seq<char>| made_texts(t).contains(s) ==> #[trigger] m2.concept_of_label(s) == m1.concept_of_label(s),
    ensures
        m2.reads(c, t),
    decreases t,
{
    if t.concept() is None {
        if let SyntaxTree::Node { string, left, right, .. } = t {
            let (a, b) = m1.def(c).unwrap();
            assert(m2.def(c) == m1.def(c));
            assert(m1.has(a) && m1.has(b));
            assert forall|s: Seq<char>| made_texts(*left).contains(s) implies #[trigger] m2.concept_of_label(s)
                == m1.concept_of_label(s) by {
                assert(made_texts(t).contains(s));
            }
            assert forall|s: Seq<char>| made_texts(*right).contains(s) implies #[trigger] m2.concept_of_label(s)
                == m1.concept_of_label(s) by {
                assert(made_texts(t).contains(s));
            }
            lemma_reads_kept_except(m1, m2, a, *left, d);
            lemma_reads_kept_except(m1, m2, b, *right, d);
        }
    }
}

/// A text that making the concept `c` of a tree labelled reads as a concept
/// no higher in definition rank than `c`.
pub proof fn lemma_reads_below(m: Model, c: usize, t: SyntaxTree, s: Seq<char>)
    requires
        m.sound(),
        m.has(c),
        m.reads(c, t),
        made_texts(t).contains(s),
    ensures
        m.concept_of_label(s) matches Some(x) && m.drank(x) <= m.drank(c),
    decreases t,
{
    if let SyntaxTree::Node { string, left, right, .. } = t {
        if !(!string.contains(' ') && s == string) {
            let (a, b) = m.def(c).unwrap();
            assert(m.has(a) && m.has(b));
            if made_texts(*left).contains(s) {
                lemma_reads_below(m, a, *left, s);
            } else {
                lemma_reads_below(m, b, *right, s);
            }
        }
    }
}

/// A chain of reductions from a concept other than a label definition that
/// passes through another concept was already there, while the reductions
/// and definitions are kept.
pub proof fn lemma_reaches_kept(m0: Model, m2: Model, x: usize, y: usize)
    requires
        m0.sound(),
        m2.sound(),
        m0.keeps_reductions(m2),
        m0.keeps_definitions(m2),
        m2.has(x),
        !m2.is_label_def(x),
        m2.reaches(x, y),
    ensures
        x == y || (m0.has(x) && m0.reaches(x, y)),
    decreases m2.rrank(x),
{
    if x != y {
        let n = m2.red(x).unwrap();
        assert(m0.has(x));
        assert(m0.red(x) == Some(n));
        assert(m2.ordinary(n));
        lemma_reaches_kept(m0, m2, n, y);
        assert(m0.has(n));
        assert(m0.rrank(n) < m0.rrank(x));
        assert(m0.reaches(n, y));
    }
}

/// A chain of reductions from `x` that passes through another concept `c`
/// reaches `c` after `x`.
pub proof fn lemma_reaches_expands(m: Model, x: usize, c: usize)
    requires
        m.sound(),
        m.has(x),
        x != c,
        m.reaches(x, c),
    ensures
        m.reduction_expands(x, c),
    decreases m.rrank(x),
{
    let n = m.red(x).unwrap();
    assert(m.has(n));
    if n != c {
        lemma_reaches_expands(m, n, c);
    }
}

/// A chain of reductions is the same in two models whose concepts reduce alike.
pub proof fn lemma_reaches_same(m2: Model, m3: Model, x: usize, c: usize)
    requires
        m2.sound(),
        m3.sound(),
        m2.has(x),
        m3.len() == m2.len(),
        forall|y: usize| m2.has(y) ==> #[trigger] m3.red(y) == m2.red(y),
        m3.reaches(x, c),
    ensures
        m2.reaches(x, c),
    decreases m3.rrank(x),
{
    if x != c {
        let n = m3.red(x).unwrap();
        assert(m2.red(x) == Some(n));
        assert(m2.has(n));
        lemma_reaches_same(m2, m3, n, c);
    }
}

/// A pair whose righthand concept is new, among concepts where only label
/// definitions are new, defines nothing.
pub proof fn lemma_fresh_pair_undefined(m1: Model, m2: Model, l: usize, r: usize)
    requires
        m1.sound(),
        m1.adds_only_label_defs(m2),
        m1.keeps_definitions(m2),
        !m1.has(r),
        l != LABEL,
    ensures
        m2.definition_of(l, r) is None,
{
    assert forall|w: usize| m2.has(w) implies #[trigger] m2.def(w) != Some((l, r)) by {
        if m1.has(w) {
            assert(m2.def(w) == m1.def(w));
            if m1.def(w) == Some((l, r)) {
                assert(m1.has(r));
            }
        }
    }
}

/// After a concept is defined as a pair whose reductions do not lead back
/// into it, neither part reaches or contains it.
pub proof fn lemma_new_definition_outcome(m2: Model, m3: Model, d: usize, l: usize, r: usize)
    requires
        m2.sound(),
        m3.sound(),
        m2.has(l),
        m2.has(r),
        m2.has(d),
        m2.with_definition_of(m3, d, Some((l, r))),
        l != d,
        r != d,
        !m2.reduction_expands(l, d),
        !m2.reduction_expands(r, d),
    ensures
        !m3.reaches(l, d),
        !m3.reaches(r, d),
        !m3.contains(l, d),
        !m3.contains(r, d),
{
    assert forall|y: usize| m2.has(y) implies #[trigger] m3.red(y) == m2.red(y) by {
        assert(m3.view(y).reduction == m2.view(y).reduction);
    }
    if m3.reaches(l, d) {
        lemma_reaches_same(m2, m3, l, d);
        lemma_reaches_expands(m2, l, d);
    }
    if m3.reaches(r, d) {
        lemma_reaches_same(m2, m3, r, d);
        lemma_reaches_expands(m2, r, d);
    }
    assert(m3.view(d).definition == Some((l, r)));
    assert(m3.drank(l) < m3.drank(d) && m3.drank(r) < m3.drank(d));
    if m3.contains(l, d) {
        crate::laws::lemma_contains_rank(m3, l, d);
    }
    if m3.contains(r, d) {
        crate::laws::lemma_contains_rank(m3, r, d);
    }
}

/// A tree of ordinary, nameable concepts stays one while names are kept.
pub proof fn lemma_tree_ok_kept(m1: Model, m2: Model, t: SyntaxTree)
    requires
        m1.keeps_names(m2),
        m1.tree_ok(t),
    ensures
        m2.tree_ok(t),
    decreases t,
{
    if let Some(c) = t.concept() {
        assert(m1.ordinary(c) && m1.nameable(c));
        assert(m2.ordinary(c) && m2.nameable(c));
    }
    match t {
        SyntaxTree::Leaf { concept, .. } => {
            if let Some(c) = concept {
                assert(m1.label_of(c) is Some);
            }
        },
        SyntaxTree::Node { left, right, .. } => {
            lemma_tree_ok_kept(m1, m2, *left);
            lemma_tree_ok_kept(m1, m2, *right);
        },
    }
}

/// Keeping names and definitions does not change a model that is kept as it is.
pub proof fn lemma_keeps_refl(m: Model)
    ensures
        m.keeps_names(m),
        m.keeps_definitions(m),
{
}

/// Making the concepts that syntax trees denote.
pub trait ConceptMaker: Labeller + GetNormalForm {
    /// The concept that a tree denotes, making it when the tree denotes none:
    /// a new concept labelled with the symbol, or the concept defined as the
    /// pair of the concepts of the branches, labelled with the tree's text when
    /// that text holds no space.
    fn concept_from_ast(&mut self, ast: &AbstractSyntaxTree) -> (r: ZiaResult<usize>)
        requires
            old(self).model().wf(),
            old(self).model().tree_ok(ast@),
        ensures
            final(self).model().wf(),
            old(self).model().keeps_names(final(self).model()),
            old(self).model().keeps_definitions(final(self).model()),
            r matches Ok(c) && final(self).model().has(c) && final(self).model().ordinary(c) && final(self).model().nameable(c),
            ast@.concept() matches Some(c) ==> r == Ok::<usize, ZiaError>(c) && final(self).model() == old(self).model(),
            ast@.concept() is None && ast@ is Leaf ==> r == Ok::<usize, ZiaError>(old(self).model().len() as usize)
                && final(self).model().label_of(old(self).model().len() as usize) == Some(ast@.string()),
            ast@.concept() is None && ast@ is Node ==> (r matches Ok(c) ==> final(self).model().def(c) is Some && (
            !ast@.string().contains(' ') ==> final(self).model().label_of(c) == Some(ast@.string()))),
            ast@.inner_spaced() ==> (r matches Ok(c) && final(self).model().denotes(c, ast@)),
            ast@.inner_spaced() && ast@.spaced() ==> forall|x: usize|
                old(self).model().has(x) ==> #[trigger] final(self).model().label_of(x) == old(self).model().label_of(x),
            ast@.inner_spaced() ==> forall|d: usize|
                old(self).model().has(d) && old(self).model().def(d) is None ==> (r is Ok
                    && #[trigger] final(self).model().avoids(r->Ok_0, ast@, d)),
            ast@.inner_spaced() && ast@.spaced() ==> forall|s: Seq<char>|
                !made_texts(ast@).contains(s) ==> #[trigger] final(self).model().concept_of_label(s)
                    == old(self).model().concept_of_label(s),
            ast@.inner_spaced() ==> forall|s: Seq<char>|
                !made_texts(ast@).contains(s) && old(self).model().concept_of_label(s) != Some(r->Ok_0)
                    ==> #[trigger] final(self).model().concept_of_label(s) == old(self).model().concept_of_label(s),
            ast@.inner_spaced() && distinct_texts(ast@) ==> final(self).model().reads(r->Ok_0, ast@),
            old(self).model().keeps_reductions(final(self).model()),
            ast@ is Leaf && ast@.concept() is None ==> old(self).model().adds_only_label_defs(final(self).model()),
            ast@ is Leaf && ast@.concept() is None ==> final(self).model().len() == old(self).model().len() + 3,
            ast@ matches SyntaxTree::Node { string, left, right, .. } ==> (ast@.concept() is None && *left is Leaf
                && left.concept() is None && *right is Leaf && right.concept() is None ==> r == Ok::<usize, ZiaError>(
                (old(self).model().len() + 6) as usize,
            ) && final(self).model().len() == old(self).model().len() + (if string.contains(' ') {
                7nat
            } else {
                9nat
            }) && final(self).model().def((old(self).model().len() + 6) as usize) == Some(
                ((old(self).model().len() as usize), ((old(self).model().len() + 3) as usize)),
            )),
        decreases ast,
    ;
}

impl ConceptMaker for Context {
    #[verifier::rlimit(100)]
    #[verifier::spinoff_prover]
    fn concept_from_ast(&mut self, ast: &AbstractSyntaxTree) -> (r: ZiaResult<usize>)
        decreases ast,
    {
        let ghost m0 = self.model();
        if let Some(c) = ast.get_concept() {
            proof {
                lemma_keeps_refl(m0);
                assert(m0.keeps_reductions(m0));
            }
            return Ok(c);
        }
        let string = ast.to_string();
        match ast {
            AbstractSyntaxTree::Symbol(_) => {
                proof {
                    self.lemma_len_fits();
                }
                let r = self.new_labelled_abstract(string.as_str());
                proof {
                    let m1 = self.model();
                    let c = m0.len() as usize;
                    assert(m1.names_ok_except(None));
                    assert forall|x: usize| m0.has(x) implies #[trigger] m1.def(x) == m0.def(x) by {}
                    assert(m1.label_of(c) == Some(ast@.string()));
                    assert(m1.def(c) is None);
                    assert(m1.denotes(c, ast@));
                    assert forall|d: usize| m0.has(d) && m0.def(d) is None implies #[trigger] m1.avoids(c, ast@, d) by {
                        assert(ast@.concept() is None);
                        assert(d != c);
                    }
                    assert(made_texts(ast@) == set![ast@.string()]);
                    assert(m1.reads(c, ast@));
                }
                r
            },
            AbstractSyntaxTree::Expression(e) => {
                let left: &AbstractSyntaxTree = &e.lefthand;
                let right: &AbstractSyntaxTree = &e.righthand;
                let leftc = match self.concept_from_ast(left) {
                    Ok(c) => c,
                    Err(err) => { return Err(err); },
                };
                let ghost m1 = self.model();
                proof {
                    lemma_tree_ok_kept(m0, m1, right@);
                    self.lemma_len_fits();
                }
                let rightc = match self.concept_from_ast(right) {
                    Ok(c) => c,
                    Err(err) => { return Err(err); },
                };
                let ghost m2 = self.model();
                let ghost fresh = left@ is Leaf && left@.concept() is None && right@ is Leaf && right@.concept() is None;
                proof {
                    lemma_keeps_names_trans(m0, m1, m2);
                    assert(m2.ordinary(leftc) && m2.nameable(leftc));
                    assert(leftc != crate::model::LABEL);
                    if fresh {
                        lemma_fresh_pair_undefined(m1, m2, leftc, rightc);
                        self.lemma_len_fits();
                    }
                }
                let concept = match self.find_or_insert_definition(leftc, rightc) {
                    Ok(c) => c,
                    Err(err) => { return Err(err); },
                };
                let ghost m3 = self.model();
                proof {
                    assert(m2.keeps_reductions(m3)) by {
                        assert forall|x: usize| m3.has(x) && !m3.is_label_def(x) implies #[trigger] m3.red(x) == (if m2.has(
                            x,
                        ) {
                            m2.red(x)
                        } else {
                            None
                        }) by {
                            if m2.definition_of(leftc, rightc) is None {
                                let m2a = m2.appended(crate::concepts::empty_view(crate::concepts::ConceptKind::Abstract, Seq::empty()));
                                assert(m3.view(x).reduction == m2a.view(x).reduction);
                                if m2.has(x) {
                                    assert(m2a.view(x) == m2.view(x));
                                }
                            }
                        }
                    }
                    lemma_keeps_reductions_trans(m0, m1, m2);
                    lemma_keeps_reductions_trans(m0, m2, m3);
                    lemma_keeps_names_trans(m0, m2, m3);
                    assert(m3.names_ok_except(None));
                    assert(m3.def(concept) == Some((leftc, rightc)));
                    assert(m3.has(leftc));
                    assert(m3.view(concept).kind == crate::concepts::ConceptKind::Abstract);
                    assert(m3.ordinary(concept));
                    assert forall|x: usize| m0.has(x) implies #[trigger] m3.def(x) == m0.def(x) by {
                        assert(m1.def(x) == m0.def(x));
                        assert(m2.def(x) == m1.def(x));
                        assert(m3.def(x) == m2.def(x));
                    }
                    if ast@.inner_spaced() {
                        lemma_denotes_kept(m1, m2, leftc, left@);
                        lemma_denotes_kept(m2, m3, leftc, left@);
                        lemma_denotes_kept(m2, m3, rightc, right@);
                        assert forall|x: usize| m0.has(x) implies #[trigger] m3.label_of(x) == m0.label_of(x) by {
                            assert(m1.label_of(x) == m0.label_of(x));
                            assert(m2.label_of(x) == m1.label_of(x));
                        }
                        assert forall|d: usize| m0.has(d) && m0.def(d) is None implies #[trigger] m3.avoids(
                            concept,
                            ast@,
                            d,
                        ) by {
                            assert(m1.avoids(leftc, left@, d));
                            assert(m1.def(d) == m0.def(d));
                            assert(m2.avoids(rightc, right@, d));
                            lemma_denotes_kept_except(m1, m2, leftc, left@, d);
                            lemma_denotes_kept_except(m2, m3, leftc, left@, d);
                            lemma_denotes_kept_except(m2, m3, rightc, right@, d);
                            assert(m3.def(d) == m0.def(d));
                        }
                        assert forall|s: Seq<char>| !made_texts(left@).contains(s) && !made_texts(right@).contains(s)
                            implies #[trigger] m3.concept_of_label(s) == m0.concept_of_label(s) by {
                            assert(m1.concept_of_label(s) == m0.concept_of_label(s));
                            assert(m2.concept_of_label(s) == m1.concept_of_label(s));
                        }
                        if distinct_texts(ast@) {
                            assert forall|s: Seq<char>| made_texts(left@).contains(s) implies #[trigger] m2.concept_of_label(s)
                                == m1.concept_of_label(s) by {
                                assert(!made_texts(right@).contains(s));
                            }
                            lemma_reads_kept(m1, m2, leftc, left@);
                            lemma_reads_kept(m2, m3, leftc, left@);
                            lemma_reads_kept(m2, m3, rightc, right@);
                        }
                    }
                }
                proof {
                    if fresh {
                        assert(concept == m2.len());
                        assert forall|w: usize| m3.has(w) implies #[trigger] m3.def(w) != Some((LABEL, concept)) by {
                            if w != concept {
                                assert(m3.def(w) == m2.def(w));
                                if m2.def(w) == Some((LABEL, concept)) {
                                    assert(m2.has(concept));
                                }
                            }
                        }
                        assert(m3.definition_of(LABEL, concept) is None);
                    }
                }
                if !has_space(string.as_str()) {
                    match self.label(concept, string.as_str()) {
                        Ok(()) => {},
                        Err(err) => { return Err(err); },
                    }
                    proof {
                        let m4 = self.model();
                        lemma_keeps_names_trans(m0, m3, m4);
                        lemma_keeps_reductions_trans(m0, m3, m4);
                        assert(m4.names_ok_except(None));
                        assert(m4.def(concept) == m3.def(concept));
                        if ast@.inner_spaced() {
                            assert forall|x: usize| m3.has(x) && m3.def(x) is None implies #[trigger] m4.label_of(x)
                                == m3.label_of(x) by {
                                assert(x != concept);
                            }
                            lemma_denotes_kept(m3, m4, leftc, left@);
                            lemma_denotes_kept(m3, m4, rightc, right@);
                            assert(ast@.string() == string@);
                            assert(made_texts(ast@).contains(string@));
                            if distinct_texts(ast@) {
                                assert(m3.drank(leftc) < m3.drank(concept) && m3.drank(rightc) < m3.drank(concept));
                                assert forall|s: Seq<char>| made_texts(left@).contains(s) implies #[trigger] m4.concept_of_label(s)
                                    == m3.concept_of_label(s) by {
                                    lemma_reads_below(m3, leftc, left@, s);
                                }
                                assert forall|s: Seq<char>| made_texts(right@).contains(s) implies #[trigger] m4.concept_of_label(s)
                                    == m3.concept_of_label(s) by {
                                    lemma_reads_below(m3, rightc, right@, s);
                                }
                                lemma_reads_kept(m3, m4, leftc, left@);
                                lemma_reads_kept(m3, m4, rightc, right@);
                            }
                            assert forall|d: usize| m0.has(d) && m0.def(d) is None implies #[trigger] m4.avoids(
                                concept,
                                ast@,
                                d,
                            ) by {
                                assert(m3.avoids(concept, ast@, d));
                                assert(m3.def(d) == m0.def(d));
                                lemma_denotes_kept_except(m3, m4, leftc, left@, d);
                                lemma_denotes_kept_except(m3, m4, rightc, right@, d);
                            }
                        }
                    }
                }
                Ok(concept)
            },
        }
    }
}

/// Whether a command succeeded, with what it printed left out.
pub open spec fn unit(r: ZiaResult<String>) -> ZiaResult<()> {
    match r {
        Ok(_) => Ok(()),
        Err(e) => Err(e),
    }
}

impl Model {
    /// `c` is defined as a pair of which a part reduces: a reduction rule for
    /// `c` would give it two ways to reduce.
    pub open spec fn parts_reduce(self, c: usize) -> bool {
        match self.def(c) {
            Some((l, r)) => self.red(l) is Some || self.red(r) is Some,
            None => false,
        }
    }

    /// How a reduction command on trees that the concepts `a` and `b` stand
    /// for ended: what `a` reduces to afterwards, and why it was refused.
    pub open spec fn reduction_outcome(
        self,
        new: Model,
        a: usize,
        b: usize,
        syntax: SyntaxTree,
        normal_form: SyntaxTree,
        r: ZiaResult<()>,
    ) -> bool {
        &&& new.denotes(a, syntax)
        &&& new.denotes(b, normal_form)
        &&& match r {
            Ok(_) => new.red(a) == Some(b) && !(self.has(a) && self.red(a) == Some(b)) && !new.parts_reduce(a),
            Err(ZiaError::RedundantReduction) => new.red(a) == Some(b) && self.has(a) && self.red(a) == Some(b)
                && !new.parts_reduce(a),
            Err(ZiaError::CyclicReduction) => new.reaches(b, a) && (b == a || (self.has(b) && self.reaches(b, a)))
                && !new.parts_reduce(a),
            Err(ZiaError::MultipleReductionPaths) => new.parts_reduce(a),
            Err(_) => false,
        }
        &&& (b != a ==> new.red(b) == (if self.has(b) {
            self.red(b)
        } else {
            None
        }))
        &&& (distinct_texts(syntax) && distinct_texts(normal_form) && made_texts(syntax).disjoint(made_texts(normal_form))
            ==> new.reads(a, syntax) && new.reads(b, normal_form))
    }

    /// What `execute_reduction` does with `syntax` and `normal_form`.
    pub open spec fn reduction_executed(self, new: Model, syntax: SyntaxTree, normal_form: SyntaxTree, r: ZiaResult<()>) -> bool {
        &&& self.keeps_definitions(new)
        &&& r != Err::<(), ZiaError>(ZiaError::NotAProgram)
        &&& (normal_form.holds(syntax.string()) ==> r == Err::<(), ZiaError>(ZiaError::ExpandingReduction) && new == self)
        &&& (!normal_form.holds(syntax.string()) && syntax.string() == normal_form.string() ==> match syntax.concept() {
            Some(c) => if self.red(c) is Some {
                r is Ok && self.with_reduction_of(new, c, None)
            } else {
                r == Err::<(), ZiaError>(ZiaError::RedundantReduction) && new == self
            },
            None => r == Err::<(), ZiaError>(ZiaError::RedundantReduction) && new == self,
        })
        &&& (!normal_form.holds(syntax.string()) && syntax.string() != normal_form.string() && syntax.concept() is Some
            && normal_form.concept() is Some ==> {
            let a = syntax.concept().unwrap();
            let b = normal_form.concept().unwrap();
            &&& (self.parts_reduce(a) ==> r == Err::<(), ZiaError>(ZiaError::MultipleReductionPaths))
            &&& (!self.parts_reduce(a) && self.reaches(b, a) ==> r == Err::<(), ZiaError>(ZiaError::CyclicReduction))
            &&& (!self.parts_reduce(a) && !self.reaches(b, a) && self.red(a) == Some(b) ==> r == Err::<(), ZiaError>(
                ZiaError::RedundantReduction,
            ))
            &&& (!self.parts_reduce(a) && !self.reaches(b, a) && self.red(a) != Some(b) ==> r is Ok
                && self.with_reduction_of(new, a, Some(b)))
            &&& (r is Err ==> new == self)
        })
        &&& (syntax.spaced() && syntax.inner_spaced() && normal_form.spaced() && normal_form.inner_spaced()
            && !normal_form.holds(syntax.string()) && syntax.string() != normal_form.string() ==> exists|
            a: usize,
            b: usize,
        | #[trigger] self.reduction_outcome(new, a, b, syntax, normal_form, r))
        &&& (syntax.spaced() && syntax.inner_spaced() && normal_form.spaced() && normal_form.inner_spaced()
            && !normal_form.holds(syntax.string()) && syntax.string() != normal_form.string() ==> forall|s: Seq<char>|
            !made_texts(syntax).contains(s) && !made_texts(normal_form).contains(s) ==> #[trigger] new.concept_of_label(s)
                == self.concept_of_label(s))
    }
}

/// Setting and removing reduction rules from syntax.
pub trait ExecuteReduction: ConceptMaker + DeleteReduction + UpdateNormalForm {
    /// Makes the concept of `syntax` reduce to the concept of `normal_form`,
    /// or removes its reduction when both are the same text.
    fn execute_reduction(&mut self, syntax: &AbstractSyntaxTree, normal_form: &AbstractSyntaxTree) -> (r: ZiaResult<String>)
        requires
            old(self).model().wf(),
            old(self).model().tree_ok(syntax@),
            old(self).model().tree_ok(normal_form@),
        ensures
            final(self).model().wf(),
            r matches Ok(s) ==> s@ == Seq::<char>::empty(),
            r matches Err(e) ==> e != ZiaError::NotAProgram,
            old(self).model().reduction_executed(final(self).model(), syntax@, normal_form@, unit(r)),
    ;
}

impl ExecuteReduction for Context {
    #[verifier::rlimit(40)]
    #[verifier::spinoff_prover]
    fn execute_reduction(&mut self, syntax: &AbstractSyntaxTree, normal_form: &AbstractSyntaxTree) -> (r: ZiaResult<String>) {
        let ghost m0 = self.model();
        if normal_form.contains(syntax) {
            Err(ZiaError::ExpandingReduction)
        } else if syntax.eq(normal_form) {
            match self.try_removing_reduction(syntax) {
                Ok(()) => {},
                Err(e) => { return Err(e); },
            }
            proof {
                reveal_strlit("");
                let m1 = self.model();
                assert forall|x: usize| m0.has(x) implies #[trigger] m1.def(x) == m0.def(x) by {
                    assert(m1.view(x).definition == m0.view(x).definition);
                }
            }
            Ok(string_of(""))
        } else {
            let syntax_concept = match self.concept_from_ast(syntax) {
                Ok(c) => c,
                Err(e) => { return Err(e); },
            };
            let ghost m1 = self.model();
            proof {
                lemma_tree_ok_kept(m0, m1, normal_form@);
            }
            let normal_form_concept = match self.concept_from_ast(normal_form) {
                Ok(c) => c,
                Err(e) => { return Err(e); },
            };
            let ghost m2 = self.model();
            proof {
                lemma_keeps_names_trans(m0, m1, m2);
                lemma_keeps_reductions_trans(m0, m1, m2);
                assert(m2.ordinary(syntax_concept) && m2.nameable(syntax_concept));
                assert(m2.red(syntax_concept) == (if m0.has(syntax_concept) {
                    m0.red(syntax_concept)
                } else {
                    None
                }));
                assert(m2.ordinary(normal_form_concept));
                assert(m2.red(normal_form_concept) == (if m0.has(normal_form_concept) {
                    m0.red(normal_form_concept)
                } else {
                    None
                }));
                assert(m0.keeps_definitions(m2)) by {
                    assert forall|x: usize| m0.has(x) implies #[trigger] m2.def(x) == m0.def(x) by {
                        assert(m1.def(x) == m0.def(x));
                    }
                }
                if m2.reaches(normal_form_concept, syntax_concept) {
                    lemma_reaches_kept(m0, m2, normal_form_concept, syntax_concept);
                }
            }
            proof {
                if syntax@.spaced() && syntax@.inner_spaced() && normal_form@.spaced() && normal_form@.inner_spaced() {
                    lemma_denotes_kept(m1, m2, syntax_concept, syntax@);
                    assert forall|s: Seq<char>| !made_texts(syntax@).contains(s) && !made_texts(normal_form@).contains(s)
                        implies #[trigger] m2.concept_of_label(s) == m0.concept_of_label(s) by {
                        assert(m1.concept_of_label(s) == m0.concept_of_label(s));
                    }
                    if distinct_texts(syntax@) && distinct_texts(normal_form@) && made_texts(syntax@).disjoint(
                        made_texts(normal_form@),
                    ) {
                        assert forall|s: Seq<char>| made_texts(syntax@).contains(s) implies #[trigger] m2.concept_of_label(s)
                            == m1.concept_of_label(s) by {
                            assert(!made_texts(normal_form@).contains(s));
                        }
                        lemma_reads_kept(m1, m2, syntax_concept, syntax@);
                    }
                }
            }
            if let Some((l, r)) = self.read_concept(syntax_concept).get_definition() {
                proof {
                    assert(m2.def(syntax_concept) == Some((l, r)));
                    assert(m2.has(l) && m2.has(r));
                }
                if self.read_concept(l).get_reduction().is_some() || self.read_concept(r).get_reduction().is_some() {
                    proof {
                        assert(m2.parts_reduce(syntax_concept));
                        if syntax@.spaced() && syntax@.inner_spaced() && normal_form@.spaced() && normal_form@.inner_spaced() {
                            assert(m0.reduction_outcome(
                                m2,
                                syntax_concept,
                                normal_form_concept,
                                syntax@,
                                normal_form@,
                                Err(ZiaError::MultipleReductionPaths),
                            ));
                        }
                    }
                    return Err(ZiaError::MultipleReductionPaths);
                }
            }
            match self.update_normal_form(syntax_concept, normal_form_concept) {
                Ok(()) => {},
                Err(e) => {
                    proof {
                        if syntax@.spaced() && syntax@.inner_spaced() && normal_form@.spaced() && normal_form@.inner_spaced() {
                            assert(m0.reduction_outcome(m2, syntax_concept, normal_form_concept, syntax@, normal_form@, Err(e)));
                        }
                    }
                    return Err(e);
                },
            }
            proof {
                reveal_strlit("");
                let m3 = self.model();
                if syntax@.spaced() && syntax@.inner_spaced() && normal_form@.spaced() && normal_form@.inner_spaced() {
                    lemma_reduction_set_names(m2, m3, syntax_concept, normal_form_concept, None);
                    assert forall|x: usize| m2.has(x) implies #[trigger] m3.def(x) == m2.def(x) by {
                        assert(m3.view(x).definition == m2.view(x).definition);
                    }
                    assert forall|x: usize| m2.has(x) && m2.def(x) is None implies #[trigger] m3.label_of(x)
                        == m2.label_of(x) by {
                        if m2.label_def_of(x) == Some(syntax_concept) {
                            lemma_label_of(m2, x);
                        }
                    }
                    lemma_denotes_kept(m2, m3, syntax_concept, syntax@);
                    lemma_denotes_kept(m2, m3, normal_form_concept, normal_form@);
                    assert(!m2.is_label_def(syntax_concept));
                    assert(m3.concept_of_label(syntax@.string()) == m2.concept_of_label(syntax@.string()));
                    if distinct_texts(syntax@) && distinct_texts(normal_form@) && made_texts(syntax@).disjoint(
                        made_texts(normal_form@),
                    ) {
                        lemma_reads_kept(m2, m3, syntax_concept, syntax@);
                        lemma_reads_kept(m2, m3, normal_form_concept, normal_form@);
                    }
                    if let Some((l, r)) = m3.def(syntax_concept) {
                        assert(m2.def(syntax_concept) == Some((l, r)));
                        assert(m2.has(l) && m2.has(r));
                        assert(m2.drank(l) < m2.drank(syntax_concept) && m2.drank(r) < m2.drank(syntax_concept));
                        assert(m3.red(l) == m2.red(l));
                        assert(m3.red(r) == m2.red(r));
                    }
                    assert(m0.reduction_outcome(m3, syntax_concept, normal_form_concept, syntax@, normal_form@, Ok(())));
                }
            }
            Ok(string_of(""))
        }
    }
}

/// Defining concepts and relabelling them from syntax.
pub trait Definer: ConceptMaker + DefinitionDeleter + GetLabel + FindDefinition + InsertDefinition + Unlabeller {
    /// Defines the syntax `new_syntax` as the syntax `old_syntax`, unless the latter contains the former.
    fn execute_definition(&mut self, new_syntax: &AbstractSyntaxTree, old_syntax: &AbstractSyntaxTree) -> (r: ZiaResult<String>)
        requires
            old(self).model().wf(),
            old(self).model().tree_ok(new_syntax@),
            old(self).model().tree_ok(old_syntax@),
        ensures
            final(self).model().wf(),
            r matches Ok(s) ==> s@ == Seq::<char>::empty(),
            r matches Err(e) ==> e != ZiaError::NotAProgram,
            old(self).model().definition_executed(final(self).model(), new_syntax@, old_syntax@, unit(r)),
    ;

    /// Makes `before` mean what `after` names: relabels a concept, labels or
    /// defines the concept of an expression, or removes a definition.
    fn define(&mut self, before: &AbstractSyntaxTree, after: &AbstractSyntaxTree) -> (r: ZiaResult<()>)
        requires
            old(self).model().wf(),
            old(self).model().tree_ok(before@),
            old(self).model().tree_ok(after@),
        ensures
            final(self).model().wf(),
            r matches Err(e) ==> e != ZiaError::NotAProgram,
            old(self).model().defined(final(self).model(), before@, after@, r),
    ;

    /// Gives a concept a definition of two trees, or relabels the parts of the definition it has.
    fn redefine(&mut self, concept: usize, left: &AbstractSyntaxTree, right: &AbstractSyntaxTree) -> (r: ZiaResult<()>)
        requires
            old(self).model().wf(),
            old(self).model().has(concept),
            old(self).model().ordinary(concept),
            old(self).model().tree_ok(left@),
            old(self).model().tree_ok(right@),
        ensures
            final(self).model().wf(),
            old(self).model().redefined(final(self).model(), concept, left@, right@, r),
    ;

    /// Replaces the label of a concept.
    fn relabel(&mut self, concept: usize, new_label: &str) -> (r: ZiaResult<()>)
        requires
            old(self).model().wf(),
            old(self).model().has(concept),
            old(self).model().ordinary(concept),
        ensures
            r == Ok::<(), ZiaError>(()),
            final(self).model().wf(),
            final(self).model().label_of(concept) == Some(new_label@),
            forall|x: usize|
                old(self).model().has(x) && x != concept ==> #[trigger] final(self).model().label_of(x) == old(self).model().label_of(x),
            old(self).model().keeps_definitions(final(self).model()),
            old(self).model().keeps_names(final(self).model()),
            final(self).model().concept_of_label(new_label@) == Some(concept),
            forall|s: Seq<char>|
                s != new_label@ && old(self).model().concept_of_label(s) != Some(concept)
                    ==> #[trigger] final(self).model().concept_of_label(s) == old(self).model().concept_of_label(s),
    ;

    /// Makes the concept that an expression of two trees denotes, labelled with `syntax`.
    fn define_new_syntax(&mut self, syntax: &str, left: &AbstractSyntaxTree, right: &AbstractSyntaxTree) -> (r: ZiaResult<()>)
        requires
            old(self).model().wf(),
            old(self).model().tree_ok(left@),
            old(self).model().tree_ok(right@),
        ensures
            r == Ok::<(), ZiaError>(()),
            final(self).model().wf(),
            old(self).model().keeps_names(final(self).model()),
            old(self).model().keeps_definitions(final(self).model()),
            old(self).model().undefined_pair(left@, right@) && !syntax@.contains(' ') ==> exists|c: usize|
                final(self).model().has(c) && final(self).model().def(c) is Some && #[trigger] final(self).model().label_of(c)
                    == Some(syntax@),
            left@.spaced() && left@.inner_spaced() && right@.spaced() && right@.inner_spaced() ==> exists|c: usize|
                #[trigger] final(self).model().denotes(
                    c,
                    SyntaxTree::node(syntax@, old(self).model().pair_concept(left@, right@), left@, right@),
                ) && old(self).model().new_syntax_read(
                    final(self).model(),
                    c,
                    SyntaxTree::node(syntax@, old(self).model().pair_concept(left@, right@), left@, right@),
                ),
            left@ is Leaf && left@.concept() is None && right@ is Leaf && right@.concept() is None && !syntax@.contains(' ')
                ==> final(self).model().len() == old(self).model().len() + 9 && final(self).model().def(
                (old(self).model().len() + 6) as usize,
            ) == Some(((old(self).model().len() as usize), ((old(self).model().len() + 3) as usize))),
    ;
}

impl Model {
    /// What `redefine` does: relabels the parts of a defined concept, or gives
    /// an undefined concept the definition of the concepts of two trees.
    pub open spec fn redefined(self, new: Model, concept: usize, left: SyntaxTree, right: SyntaxTree, r: ZiaResult<()>) -> bool {
        match self.def(concept) {
            Some((lc, rc)) => {
                &&& r is Ok
                &&& new.label_of(rc) == Some(right.string())
                &&& (lc != rc ==> new.label_of(lc) == Some(left.string()))
                &&& self.keeps_definitions(new)
                &&& new.concept_of_label(right.string()) == Some(rc)
                &&& (lc != rc && left.string() != right.string() ==> new.concept_of_label(left.string()) == Some(lc))
                &&& forall|s: Seq<char>|
                    s != left.string() && s != right.string() && self.concept_of_label(s) != Some(lc)
                        && self.concept_of_label(s) != Some(rc) ==> #[trigger] new.concept_of_label(s)
                        == self.concept_of_label(s)
            },
            None => {
                &&& (r is Ok ==> new.def(concept) is Some)
                &&& self.keeps_reductions(new)
                &&& (r is Err ==> self.keeps_definitions(new))
                &&& (r matches Err(e) ==> e == ZiaError::DefinitionCollision || e == ZiaError::InfiniteDefinition || e
                    == ZiaError::ExpandingReduction)
                &&& (left.spaced() && left.inner_spaced() && right.spaced() && right.inner_spaced() ==> exists|
                    a: usize,
                    b: usize,
                |
                    #![trigger new.denotes(a, left), new.denotes(b, right)]
                    new.denotes(a, left) && new.denotes(b, right) && match r {
                        Ok(()) => new.def(concept) == Some((a, b)) && !new.reaches(a, concept) && !new.reaches(b, concept)
                            && !new.contains(a, concept) && !new.contains(b, concept),
                        Err(ZiaError::DefinitionCollision) => new.definition_of(a, b) is Some && !(right is Leaf
                            && right.concept() is None),
                        Err(ZiaError::InfiniteDefinition) => new.definition_of(a, b) is None && (a == concept || b
                            == concept || new.contains(a, concept) || new.contains(b, concept)),
                        Err(ZiaError::ExpandingReduction) => new.definition_of(a, b) is None && !(a == concept || b
                            == concept || new.contains(a, concept) || new.contains(b, concept)) && (new.reduction_expands(
                            a,
                            concept,
                        ) || new.reduction_expands(b, concept)),
                        Err(_) => false,
                    } && (distinct_texts(left) && distinct_texts(right) && made_texts(left).disjoint(made_texts(right))
                        ==> new.reads(a, left) && new.reads(b, right)))
                &&& (left.spaced() && left.inner_spaced() && right.spaced() && right.inner_spaced() ==> forall|
                    s: Seq<char>,
                |
                    !made_texts(left).contains(s) && !made_texts(right).contains(s) ==> #[trigger] new.concept_of_label(s)
                        == self.concept_of_label(s))
            },
        }
    }

    /// What `execute_definition` does with `new_syntax` and `old_syntax`.
    pub open spec fn definition_executed(self, new: Model, new_syntax: SyntaxTree, old_syntax: SyntaxTree, r: ZiaResult<()>) -> bool {
        if old_syntax.holds(new_syntax.string()) {
            r == Err::<(), ZiaError>(ZiaError::InfiniteDefinition) && new == self
        } else {
            self.defined(new, old_syntax, new_syntax, r)
        }
    }

    /// After making the concept `c` of the tree `t`: the labelled texts read
    /// as the concepts made for them, when they differ, and every other text
    /// that did not read as `c` reads as before.
    pub open spec fn new_syntax_read(self, new: Model, c: usize, t: SyntaxTree) -> bool {
        &&& distinct_texts(t) ==> new.reads(c, t)
        &&& forall|s: Seq<char>|
            !made_texts(t).contains(s) && self.concept_of_label(s) != Some(c) ==> #[trigger] new.concept_of_label(s)
                == self.concept_of_label(s)
    }

    /// The concept defined as the pair of the concepts of two trees, when both
    /// have one and such a concept exists.
    pub open spec fn pair_concept(self, left: SyntaxTree, right: SyntaxTree) -> Option<usize> {
        match (left.concept(), right.concept()) {
            (Some(l), Some(r)) => self.definition_of(l, r),
            _ => None,
        }
    }

    /// The concepts of two trees define no concept: one of them has no concept,
    /// or no concept is defined as their pair.
    pub open spec fn undefined_pair(self, left: SyntaxTree, right: SyntaxTree) -> bool {
        match (left.concept(), right.concept()) {
            (Some(l), Some(r)) => self.definition_of(l, r) is None,
            _ => true,
        }
    }

    /// What `define` does with `before` and `after`.
    pub open spec fn defined(self, new: Model, before: SyntaxTree, after: SyntaxTree, r: ZiaResult<()>) -> bool {
        if after is Node {
            r == Err::<(), ZiaError>(ZiaError::BadDefinition) && new == self
        } else {
            match (after.concept(), before.concept(), before) {
                (_, None, SyntaxTree::Leaf { .. }) => r == Err::<(), ZiaError>(ZiaError::RedundantRefactor) && new == self,
                (None, Some(b), _) => {
                    &&& r is Ok
                    &&& new.label_of(b) == Some(after.string())
                    &&& new.concept_of_label(after.string()) == Some(b)
                    &&& forall|s: Seq<char>|
                        s != after.string() && self.concept_of_label(s) != Some(b) ==> #[trigger] new.concept_of_label(s)
                            == self.concept_of_label(s)
                },
                (None, None, SyntaxTree::Node { left, right, .. }) => {
                    &&& r is Ok
                    &&& self.keeps_names(new)
                    &&& (self.undefined_pair(*left, *right) && !after.string().contains(' ') ==> exists|c: usize|
                        new.has(c) && new.def(c) is Some && #[trigger] new.label_of(c) == Some(after.string()))
                    &&& (*left is Leaf && left.concept() is None && *right is Leaf && right.concept() is None
                        && !after.string().contains(' ') ==> new.len() == self.len() + 9 && new.def(
                        (self.len() + 6) as usize,
                    ) == Some(((self.len() as usize), ((self.len() + 3) as usize))))
                    &&& (left.spaced() && left.inner_spaced() && right.spaced() && right.inner_spaced() ==> exists|
                        c: usize,
                    |
                        #[trigger] new.denotes(
                            c,
                            SyntaxTree::node(after.string(), self.pair_concept(*left, *right), *left, *right),
                        ) && self.new_syntax_read(
                            new,
                            c,
                            SyntaxTree::node(after.string(), self.pair_concept(*left, *right), *left, *right),
                        ))
                },
                (Some(a), Some(b), SyntaxTree::Leaf { .. }) => if a == b {
                    if self.def(a) is Some {
                        r is Ok && new.def(a) is None
                    } else {
                        r == Err::<(), ZiaError>(ZiaError::RedundantDefinition) && new == self
                    }
                } else {
                    r == Err::<(), ZiaError>(ZiaError::DefinitionCollision) && new == self
                },
                (Some(a), Some(b), SyntaxTree::Node { .. }) => if a == b {
                    r == Err::<(), ZiaError>(ZiaError::RedundantDefinition) && new == self
                } else {
                    r == Err::<(), ZiaError>(ZiaError::DefinitionCollision) && new == self
                },
                (Some(a), None, SyntaxTree::Node { left, right, .. }) => self.redefined(new, a, *left, *right, r),
            }
        }
    }
}

impl Definer for Context {
    fn execute_definition(&mut self, new_syntax: &AbstractSyntaxTree, old_syntax: &AbstractSyntaxTree) -> (r: ZiaResult<String>) {
        if old_syntax.contains(new_syntax) {
            Err(ZiaError::InfiniteDefinition)
        } else {
            match self.define(old_syntax, new_syntax) {
                Ok(()) => {},
                Err(e) => { return Err(e); },
            }
            proof {
                reveal_strlit("");
            }
            Ok(string_of(""))
        }
    }

    fn define(&mut self, before: &AbstractSyntaxTree, after: &AbstractSyntaxTree) -> (r: ZiaResult<()>) {
        let ghost m0 = self.model();
        if let AbstractSyntaxTree::Expression(_) = after {
            return Err(ZiaError::BadDefinition);
        }
        match (after.get_concept(), before.get_concept(), before) {
            (_, None, AbstractSyntaxTree::Symbol(_)) => Err(ZiaError::RedundantRefactor),
            (None, Some(b), AbstractSyntaxTree::Symbol(_)) => {
                let label = after.to_string();
                self.relabel(b, label.as_str())
            },
            (None, Some(b), AbstractSyntaxTree::Expression(_)) => {
                let label = after.to_string();
                if self.get_label(b).is_none() {
                    let r = self.label(b, label.as_str());
                    proof {
                        assert(m0.names_ok_except(None));
                    }
                    r
                } else {
                    self.relabel(b, label.as_str())
                }
            },
            (None, None, AbstractSyntaxTree::Expression(e)) => {
                let syntax = after.to_string();
                self.define_new_syntax(syntax.as_str(), &e.lefthand, &e.righthand)
            },
            (Some(a), Some(b), AbstractSyntaxTree::Symbol(_)) => {
                if a == b {
                    if self.read_concept(a).get_definition().is_some() {
                        proof {
                            assert(m0.def(a) is Some);
                            assert(m0.ordinary(a));
                        }
                        self.cleanly_delete_definition(a);
                        Ok(())
                    } else {
                        Err(ZiaError::RedundantDefinition)
                    }
                } else {
                    Err(ZiaError::DefinitionCollision)
                }
            },
            (Some(a), Some(b), AbstractSyntaxTree::Expression(_)) => {
                if a == b {
                    Err(ZiaError::RedundantDefinition)
                } else {
                    Err(ZiaError::DefinitionCollision)
                }
            },
            (Some(a), None, AbstractSyntaxTree::Expression(e)) => self.redefine(a, &e.lefthand, &e.righthand),
        }
    }

    #[verifier::rlimit(60)]
    #[verifier::spinoff_prover]
    fn redefine(&mut self, concept: usize, left: &AbstractSyntaxTree, right: &AbstractSyntaxTree) -> (r: ZiaResult<()>) {
        let ghost m0 = self.model();
        if let Some((left_concept, right_concept)) = self.read_concept(concept).get_definition() {
            proof {
                assert(m0.def(concept) == Some((left_concept, right_concept)));
                lemma_parts_nameable(m0, concept);
            }
            let left_label = left.to_string();
            let right_label = right.to_string();
            match self.relabel(left_concept, left_label.as_str()) {
                Ok(()) => {},
                Err(e) => { return Err(e); },
            }
            let ghost m1 = self.model();
            let r = self.relabel(right_concept, right_label.as_str());
            proof {
                let m2 = self.model();
                assert forall|s: Seq<char>|
                    s != left@.string() && s != right@.string() && m0.concept_of_label(s) != Some(left_concept)
                        && m0.concept_of_label(s) != Some(right_concept) implies #[trigger] m2.concept_of_label(s)
                        == m0.concept_of_label(s) by {
                    assert(m1.concept_of_label(s) == m0.concept_of_label(s));
                }
                assert forall|x: usize| m0.has(x) implies #[trigger] m2.def(x) == m0.def(x) by {
                    assert(m1.def(x) == m0.def(x));
                }
            }
            r
        } else {
            let left_concept = match self.concept_from_ast(left) {
                Ok(c) => c,
                Err(e) => { return Err(e); },
            };
            let ghost m1 = self.model();
            proof {
                lemma_tree_ok_kept(m0, m1, right@);
                self.lemma_len_fits();
            }
            let right_concept = match self.concept_from_ast(right) {
                Ok(c) => c,
                Err(e) => { return Err(e); },
            };
            let ghost m2 = self.model();
            proof {
                lemma_keeps_names_trans(m0, m1, m2);
                lemma_keeps_reductions_trans(m0, m1, m2);
                assert(m0.keeps_definitions(m2)) by {
                    assert forall|x: usize| m0.has(x) implies #[trigger] m2.def(x) == m0.def(x) by {
                        assert(m1.def(x) == m0.def(x));
                    }
                }
                if right@ is Leaf && right@.concept() is None {
                    lemma_fresh_pair_undefined(m1, m2, left_concept, right_concept);
                }
                assert(m2.def(concept) == m0.def(concept));
                assert(m2.ordinary(concept));
                assert(m2.ordinary(left_concept) && m2.nameable(left_concept));
            }
            let ghost spaced = left@.spaced() && left@.inner_spaced() && right@.spaced() && right@.inner_spaced();
            proof {
                if spaced {
                    lemma_denotes_kept(m1, m2, left_concept, left@);
                    assert(m1.avoids(left_concept, left@, concept));
                    assert(m1.def(concept) == m0.def(concept));
                    assert(m2.avoids(right_concept, right@, concept));
                    lemma_denotes_kept_except(m1, m2, left_concept, left@, concept);
                    assert forall|s: Seq<char>| !made_texts(left@).contains(s) && !made_texts(right@).contains(s)
                        implies #[trigger] m2.concept_of_label(s) == m0.concept_of_label(s) by {
                        assert(m1.concept_of_label(s) == m0.concept_of_label(s));
                    }
                    if distinct_texts(left@) && distinct_texts(right@) && made_texts(left@).disjoint(made_texts(right@)) {
                        assert forall|s: Seq<char>| made_texts(left@).contains(s) implies #[trigger] m2.concept_of_label(s)
                            == m1.concept_of_label(s) by {
                            assert(!made_texts(right@).contains(s));
                        }
                        lemma_reads_kept(m1, m2, left_concept, left@);
                        lemma_denotes_kept_except(m1, m2, left_concept, left@, concept);
                    }
                }
            }
            if self.find_definition(left_concept, right_concept).is_some() {
                return Err(ZiaError::DefinitionCollision);
            }
            match self.insert_definition(concept, left_concept, right_concept) {
                Ok(()) => {},
                Err(e) => { return Err(e); },
            }
            proof {
                let m3 = self.model();
                assert(m0.keeps_reductions(m3)) by {
                    assert forall|x: usize| m3.has(x) && !m3.is_label_def(x) implies #[trigger] m3.red(x) == (if m0.has(x) {
                        m0.red(x)
                    } else {
                        None
                    }) by {
                        assert(m3.view(x).reduction == m2.view(x).reduction);
                        if x != concept {
                            assert(m3.view(x).definition == m2.view(x).definition);
                        }
                    }
                }
                if spaced {
                    assert forall|x: usize| m2.has(x) && x != concept implies #[trigger] m3.def(x) == m2.def(x) by {
                        assert(m3.view(x).definition == m2.view(x).definition);
                    }
                    lemma_denotes_kept_except(m2, m3, left_concept, left@, concept);
                    lemma_denotes_kept_except(m2, m3, right_concept, right@, concept);
                    assert(m3.def(concept) == Some((left_concept, right_concept)));
                    lemma_new_definition_outcome(m2, m3, concept, left_concept, right_concept);
                    if distinct_texts(left@) && distinct_texts(right@) && made_texts(left@).disjoint(made_texts(right@)) {
                        lemma_reads_kept_except(m2, m3, left_concept, left@, concept);
                        lemma_reads_kept_except(m2, m3, right_concept, right@, concept);
                    }
                }
            }
            Ok(())
        }
    }

    fn relabel(&mut self, concept: usize, new_label: &str) -> (r: ZiaResult<()>) {
        let ghost m0 = self.model();
        if self.get_label(concept).is_some() {
            self.unlabel(concept);
        }
        let ghost m1 = self.model();
        proof {
            assert(m0.names_ok_except(None));
            assert(m1.names_ok_except(Some(concept))) by {
                if m1 == m0 {
                    assert forall|x: usize| #[trigger] m1.ordinary(x) && Some(concept) != Some(x) implies m1.nameable(x)
                        || m1.disconnected(x) by {
                        assert(m0.ordinary(x) && None::<usize> != Some(x));
                    }
                }
            }
            assert(m1.ordinary(concept));
        }
        let r = self.label(concept, new_label);
        proof {
            let m2 = self.model();
            assert forall|s: Seq<char>| s != new_label@ && m0.concept_of_label(s) != Some(concept) implies #[trigger] m2.concept_of_label(
                s,
            ) == m0.concept_of_label(s) by {
                assert(m1.concept_of_label(s) == m0.concept_of_label(s));
            }
            assert forall|x: usize| m0.has(x) && x != concept implies #[trigger] m2.label_of(x) == m0.label_of(x) by {
                assert(m1.label_of(x) == m0.label_of(x));
            }
            assert forall|x: usize| m0.has(x) implies #[trigger] m2.def(x) == m0.def(x) by {
                assert(m1.def(x) == m0.def(x));
            }
            assert(m0.keeps_names(m2)) by {
                assert forall|x: usize| m0.has(x) && #[trigger] m0.ordinary(x) implies m2.ordinary(x) by {
                    assert(m1.ordinary(x));
                }
                assert forall|x: usize| m0.has(x) && #[trigger] m0.nameable(x) implies m2.nameable(x) by {
                    if x != concept {
                        assert(m2.label_of(x) == m0.label_of(x));
                        assert(m2.def(x) == m0.def(x));
                    }
                }
                assert forall|x: usize| m0.has(x) && #[trigger] (m0.label_of(x) is Some) implies m2.label_of(x) is Some by {
                    if x != concept {
                        assert(m2.label_of(x) == m0.label_of(x));
                    }
                }
            }
        }
        r
    }

    fn define_new_syntax(&mut self, syntax: &str, left: &AbstractSyntaxTree, right: &AbstractSyntaxTree) -> (r: ZiaResult<()>) {
        let ghost m0 = self.model();
        let definition_concept = if let (Some(l), Some(r)) = (left.get_concept(), right.get_concept()) {
            proof {
                lemma_definition_of_ok(m0, l, r);
            }
            self.find_definition(l, r)
        } else {
            None
        };
        let new_syntax_tree = AbstractSyntaxTree::from_pair(syntax, definition_concept, left, right);
        let made = self.concept_from_ast(&new_syntax_tree);
        match made {
            Ok(c) => {
                proof {
                    assert(definition_concept == m0.pair_concept(left@, right@));
                    if m0.undefined_pair(left@, right@) && !syntax@.contains(' ') {
                        assert(new_syntax_tree@.concept() is None);
                        assert(self.model().label_of(c) == Some(syntax@));
                    }
                    if left@.spaced() && left@.inner_spaced() && right@.spaced() && right@.inner_spaced() {
                        assert(new_syntax_tree@.inner_spaced());
                        assert(m0.new_syntax_read(self.model(), c, new_syntax_tree@));
                    }
                }
            },
            Err(e) => { return Err(e); },
        }
        Ok(())
    }
}

impl Model {
    /// The concept that the chain of reductions from `c` reaches first among
    /// `REDUCTION` and `DEFINE`, or else the end of the chain.
    pub open spec fn command_of(self, c: usize) -> usize
        decreases self.rrank(c),
    {
        if c == REDUCTION || c == DEFINE {
            c
        } else {
            match self.red(c) {
                Some(n) => if self.rrank(n) < self.rrank(c) {
                    self.command_of(n)
                } else {
                    c
                },
                None => c,
            }
        }
    }

    /// The tree that a tree in command position stands for: the syntax of the
    /// concept its chain of reductions leads to.
    pub open spec fn command_tree(self, t: SyntaxTree) -> SyntaxTree {
        match t.concept() {
            Some(c) => if self.command_of(c) == c {
                t
            } else {
                self.syntax_of(self.command_of(c))
            },
            None => t,
        }
    }

    /// What `match_righthand_pair` does: executes a reduction or a definition
    /// when the concept of `rightleft` leads to `REDUCTION` or `DEFINE`.
    pub open spec fn righthand_matched(
        self,
        new: Model,
        left: SyntaxTree,
        rightleft: SyntaxTree,
        rightright: SyntaxTree,
        r: ZiaResult<()>,
    ) -> bool {
        match rightleft.concept() {
            Some(c) => if self.command_of(c) == REDUCTION {
                self.reduction_executed(new, left, rightright, r)
            } else if self.command_of(c) == DEFINE {
                self.definition_executed(new, left, rightright, r)
            } else {
                r == Err::<(), ZiaError>(ZiaError::NotAProgram) && new == self
            },
            None => r == Err::<(), ZiaError>(ZiaError::NotAProgram) && new == self,
        }
    }

    /// What `call_as_righthand` does.
    pub open spec fn called_as_righthand(self, new: Model, left: SyntaxTree, right: SyntaxTree, r: ZiaResult<()>) -> bool {
        match right {
            SyntaxTree::Leaf { .. } => r == Err::<(), ZiaError>(ZiaError::NotAProgram) && new == self,
            SyntaxTree::Node { left: rightleft, right: rightright, .. } => self.righthand_matched(
                new,
                left,
                *rightleft,
                *rightright,
                r,
            ),
        }
    }

    /// The command of a pair asks for the normal form of its lefthand tree.
    pub open spec fn asks_reduction(self, right: SyntaxTree) -> bool {
        right.concept() matches Some(c) && self.command_of(c) == REDUCTION
    }

    /// The command of a pair asks for the expansion of its lefthand tree.
    pub open spec fn asks_expansion(self, right: SyntaxTree) -> bool {
        right.concept() matches Some(c) && self.command_of(c) == DEFINE
    }
}

/// The chain of reductions from a concept only leads down the ranks.
pub proof fn lemma_command_of_rank(m: Model, c: usize)
    requires
        m.sound(),
        m.has(c),
    ensures
        m.rrank(m.command_of(c)) <= m.rrank(c),
    decreases m.rrank(c),
{
    if c != REDUCTION && c != DEFINE {
        if let Some(n) = m.red(c) {
            assert(m.has(n));
            lemma_command_of_rank(m, n);
        }
    }
}

/// Carrying out commands whose righthand tree is an expression.
pub trait RightHandCall: Definer + ExecuteReduction + Reduce {
    /// Carries out `left right` where `right` should be an expression `rightleft rightright`.
    fn call_as_righthand(&mut self, left: &AbstractSyntaxTree, right: &AbstractSyntaxTree) -> (r: ZiaResult<String>)
        requires
            old(self).model().wf(),
            old(self).model().tree_ok(left@),
            old(self).model().tree_ok(right@),
        ensures
            final(self).model().wf(),
            r matches Ok(s) ==> s@ == Seq::<char>::empty(),
            old(self).model().called_as_righthand(final(self).model(), left@, right@, unit(r)),
            r == Err::<String, ZiaError>(ZiaError::NotAProgram) ==> final(self).model() == old(self).model(),
    ;

    /// Executes a reduction when `rightleft` stands for `->`, a definition when it stands for `:=`.
    fn match_righthand_pair(
        &mut self,
        left: &AbstractSyntaxTree,
        rightleft: &AbstractSyntaxTree,
        rightright: &AbstractSyntaxTree,
    ) -> (r: ZiaResult<String>)
        requires
            old(self).model().wf(),
            old(self).model().tree_ok(left@),
            old(self).model().tree_ok(rightleft@),
            old(self).model().tree_ok(rightright@),
        ensures
            final(self).model().wf(),
            r matches Ok(s) ==> s@ == Seq::<char>::empty(),
            old(self).model().righthand_matched(final(self).model(), left@, rightleft@, rightright@, unit(r)),
            r == Err::<String, ZiaError>(ZiaError::NotAProgram) ==> final(self).model() == old(self).model(),
    ;
}

impl RightHandCall for Context {
    fn call_as_righthand(&mut self, left: &AbstractSyntaxTree, right: &AbstractSyntaxTree) -> (r: ZiaResult<String>) {
        match right {
            AbstractSyntaxTree::Expression(e) => self.match_righthand_pair(left, &e.lefthand, &e.righthand),
            AbstractSyntaxTree::Symbol(_) => Err(ZiaError::NotAProgram),
        }
    }

    fn match_righthand_pair(
        &mut self,
        left: &AbstractSyntaxTree,
        rightleft: &AbstractSyntaxTree,
        rightright: &AbstractSyntaxTree,
    ) -> (r: ZiaResult<String>) {
        let ghost m = self.model();
        let mut current = rightleft.clone();
        loop
            invariant
                m == self.model(),
                m == old(self).model(),
                m.wf(),
                m.tree_ok(left@),
                m.tree_ok(rightright@),
                m.tree_ok(current@),
                rightleft@.concept() is Some <==> current@.concept() is Some,
                current@.concept() matches Some(c) ==> m.command_of(c) == m.command_of(rightleft@.concept().unwrap()),
            decreases match current@.concept() {
                Some(c) => m.rrank(c),
                None => 0,
            },
        {
            match current.get_concept() {
                Some(c) => {
                    if c == REDUCTION {
                        return self.execute_reduction(left, rightright);
                    } else if c == DEFINE {
                        return self.execute_definition(left, rightright);
                    } else {
                        match self.read_concept(c).get_reduction() {
                            Some(n) => {
                                proof {
                                    assert(m.red(c) == Some(n));
                                    assert(m.has(n) && m.ordinary(n));
                                    assert(m.view(n).reduces_from.contains(c));
                                    assert(!m.disconnected(n));
                                    lemma_writable(m, n);
                                }
                                current = self.to_ast(n);
                            },
                            None => {
                                return Err(ZiaError::NotAProgram);
                            },
                        }
                    }
                },
                None => {
                    return Err(ZiaError::NotAProgram);
                },
            }
        }
    }
}

/// Carrying out commands.
pub trait Call: RightHandCall + Expander {
    /// Carries out a command given as a syntax tree.
    fn call(&mut self, ast: &AbstractSyntaxTree) -> (r: ZiaResult<String>)
        requires
            old(self).model().wf(),
            old(self).model().tree_ok(ast@),
        ensures
            final(self).model().wf(),
            ast@ matches SyntaxTree::Node { left, right, .. } ==> old(self).model().pair_called(
                final(self).model(),
                *left,
                *right,
                r,
            ),
            ast@ matches SyntaxTree::Node { left, right, .. } ==> (old(self).model().asks_reduction(*right) ==> (r matches Ok(s) && s@ == old(self).model().fully_reduced(*left, usize::MAX as nat).string())),
            ast@ matches SyntaxTree::Node { left, right, .. } ==> (old(self).model().asks_expansion(*right) ==> (r matches Ok(s) && s@ == old(self).model().expanded(*left).string())),
            ast@ matches SyntaxTree::Node { left, right, .. } ==> (!old(self).model().asks_reduction(*right) && !old(self).model().asks_expansion(*right) ==> (r matches Ok(s) ==> s@
                == Seq::<char>::empty())),
            ast@ is Leaf && old(self).model().expanded(ast@).string() == ast@.string() && old(self).model().fully_reduced(
                ast@,
                usize::MAX as nat,
            ).string() == ast@.string() ==> r == Err::<String, ZiaError>(ZiaError::NotAProgram) && final(self).model() == old(self).model(),
            r == Err::<String, ZiaError>(ZiaError::NotAProgram) ==> final(self).model() == old(self).model(),
            old(self).model().called(final(self).model(), ast@, r, usize::MAX as nat),
    ;

    /// Carries out a command given as a syntax tree, within a bound on nested calls.
    fn call_within(&mut self, ast: &AbstractSyntaxTree, depth: usize) -> (r: ZiaResult<String>)
        requires
            old(self).model().wf(),
            old(self).model().tree_ok(ast@),
        ensures
            final(self).model().wf(),
            ast@ matches SyntaxTree::Node { left, right, .. } ==> old(self).model().pair_called(
                final(self).model(),
                *left,
                *right,
                r,
            ),
            ast@ matches SyntaxTree::Node { left, right, .. } ==> (old(self).model().asks_reduction(*right) ==> (r matches Ok(s) && s@ == old(self).model().fully_reduced(*left, usize::MAX as nat).string())),
            ast@ matches SyntaxTree::Node { left, right, .. } ==> (old(self).model().asks_expansion(*right) ==> (r matches Ok(s) && s@ == old(self).model().expanded(*left).string())),
            ast@ matches SyntaxTree::Node { left, right, .. } ==> (!old(self).model().asks_reduction(*right) && !old(self).model().asks_expansion(*right) ==> (r matches Ok(s) ==> s@
                == Seq::<char>::empty())),
            ast@ is Leaf && old(self).model().expanded(ast@).string() == ast@.string() && old(self).model().fully_reduced(
                ast@,
                usize::MAX as nat,
            ).string() == ast@.string() ==> r == Err::<String, ZiaError>(ZiaError::NotAProgram) && final(self).model() == old(self).model(),
            r == Err::<String, ZiaError>(ZiaError::NotAProgram) ==> final(self).model() == old(self).model(),
            old(self).model().called(final(self).model(), ast@, r, depth as nat),
        decreases depth, 1nat,
    ;

    /// Carries out `left right`: prints the normal form of `left` when `right`
    /// stands for `->`, its expansion when `right` stands for `:=`, and else
    /// treats `right` as an expression.
    fn call_pair(&mut self, left: &AbstractSyntaxTree, right: &AbstractSyntaxTree) -> (r: ZiaResult<String>)
        requires
            old(self).model().wf(),
            old(self).model().tree_ok(left@),
            old(self).model().tree_ok(right@),
        ensures
            final(self).model().wf(),
            old(self).model().pair_called(final(self).model(), left@, right@, r),
            old(self).model().asks_reduction(right@) ==> (r matches Ok(s) && s@ == old(self).model().fully_reduced(
                left@,
                usize::MAX as nat,
            ).string()),
            old(self).model().asks_expansion(right@) ==> (r matches Ok(s) && s@ == old(self).model().expanded(left@).string()),
            !old(self).model().asks_reduction(right@) && !old(self).model().asks_expansion(right@) ==> (r matches Ok(s) ==> s@
                == Seq::<char>::empty()),
            r == Err::<String, ZiaError>(ZiaError::NotAProgram) ==> final(self).model() == old(self).model(),
    ;

    /// Carries out the expansion of a tree, when it differs from the tree.
    fn try_expanding_then_call(&mut self, ast: &AbstractSyntaxTree, depth: usize) -> (r: ZiaResult<String>)
        requires
            old(self).model().wf(),
            old(self).model().tree_ok(ast@),
        ensures
            final(self).model().wf(),
            old(self).model().expanded(ast@).string() == ast@.string() ==> r == Err::<String, ZiaError>(
                ZiaError::NotAProgram,
            ) && final(self).model() == old(self).model(),
            r == Err::<String, ZiaError>(ZiaError::NotAProgram) ==> final(self).model() == old(self).model(),
            old(self).model().expanded(ast@).string() != ast@.string() && depth > 0 ==> old(self).model().called(
                final(self).model(),
                old(self).model().expanded(ast@),
                r,
                (depth - 1) as nat,
            ),
            depth == 0 ==> r == Err::<String, ZiaError>(ZiaError::NotAProgram),
        decreases depth, 0nat,
    ;

    /// Carries out the normal form of a tree, when it differs from the tree.
    fn try_reducing_then_call(&mut self, ast: &AbstractSyntaxTree, depth: usize) -> (r: ZiaResult<String>)
        requires
            old(self).model().wf(),
            old(self).model().tree_ok(ast@),
        ensures
            final(self).model().wf(),
            old(self).model().fully_reduced(ast@, usize::MAX as nat).string() == ast@.string() ==> r == Err::<
                String,
                ZiaError,
            >(ZiaError::NotAProgram) && final(self).model() == old(self).model(),
            r == Err::<String, ZiaError>(ZiaError::NotAProgram) ==> final(self).model() == old(self).model(),
            old(self).model().fully_reduced(ast@, usize::MAX as nat).string() != ast@.string() && depth > 0 ==> old(self).model().called(
                final(self).model(),
                old(self).model().fully_reduced(ast@, usize::MAX as nat),
                r,
                (depth - 1) as nat,
            ),
            depth == 0 ==> r == Err::<String, ZiaError>(ZiaError::NotAProgram) && final(self).model() == old(self).model(),
        decreases depth, 0nat,
    ;
}

impl Model {
    /// What calling `left right` does and prints.
    pub open spec fn pair_printed(self, new: Model, left: SyntaxTree, right: SyntaxTree, r: ZiaResult<String>) -> bool {
        &&& self.pair_called(new, left, right, r)
        &&& self.asks_reduction(right) ==> (r matches Ok(s) && s@ == self.fully_reduced(left, usize::MAX as nat).string())
        &&& self.asks_expansion(right) ==> (r matches Ok(s) && s@ == self.expanded(left).string())
        &&& !self.asks_reduction(right) && !self.asks_expansion(right) ==> (r matches Ok(s) ==> s@ == Seq::<char>::empty())
    }

    /// What calling a tree does, within `depth` nested calls: a pair is
    /// called as a pair; a symbol whose expansion differs is called as its
    /// expansion, and, where that is no program, a symbol whose normal form
    /// differs is called as its normal form; else it is no program.
    pub open spec fn called(self, new: Model, t: SyntaxTree, r: ZiaResult<String>, depth: nat) -> bool
        decreases depth,
    {
        match t {
            SyntaxTree::Node { left, right, .. } => self.pair_printed(new, *left, *right, r),
            SyntaxTree::Leaf { .. } => {
                let e = self.expanded(t);
                let n = self.fully_reduced(t, usize::MAX as nat);
                let expands = e.string() != t.string() && depth > 0;
                let reduces = n.string() != t.string() && depth > 0;
                ||| expands && r != Err::<String, ZiaError>(ZiaError::NotAProgram) && self.called(
                    new,
                    e,
                    r,
                    (depth - 1) as nat,
                )
                ||| (!expands || self.called(self, e, Err(ZiaError::NotAProgram), (depth - 1) as nat)) && (if reduces {
                    self.called(new, n, r, (depth - 1) as nat)
                } else {
                    r == Err::<String, ZiaError>(ZiaError::NotAProgram) && new == self
                })
            },
        }
    }

    /// What `call_pair` does with `left` and `right`.
    pub open spec fn pair_called(self, new: Model, left: SyntaxTree, right: SyntaxTree, r: ZiaResult<String>) -> bool {
        if self.asks_reduction(right) {
            new == self && r is Ok
        } else if self.asks_expansion(right) {
            new == self && r is Ok
        } else {
            self.called_as_righthand(new, left, self.command_tree(right), unit(r))
        }
    }
}

impl Call for Context {
    fn call(&mut self, ast: &AbstractSyntaxTree) -> (r: ZiaResult<String>) {
        self.call_within(ast, usize::MAX)
    }

    fn call_within(&mut self, ast: &AbstractSyntaxTree, depth: usize) -> (r: ZiaResult<String>)
        decreases depth, 1nat,
    {
        match ast {
            AbstractSyntaxTree::Expression(e) => self.call_pair(&e.lefthand, &e.righthand),
            AbstractSyntaxTree::Symbol(_) => {
                match self.try_expanding_then_call(ast, depth) {
                    Ok(s) => { return Ok(s); },
                    Err(e) => {
                        if e != ZiaError::NotAProgram {
                            return Err(e);
                        }
                    },
                }
                self.try_reducing_then_call(ast, depth)
            },
        }
    }

    fn call_pair(&mut self, left: &AbstractSyntaxTree, right: &AbstractSyntaxTree) -> (r: ZiaResult<String>) {
        let ghost m = self.model();
        let mut current = right.clone();
        loop
            invariant
                m == self.model(),
                m == old(self).model(),
                m.wf(),
                m.tree_ok(left@),
                m.tree_ok(current@),
                right@.concept() is Some <==> current@.concept() is Some,
                current@.concept() matches Some(c) ==> m.command_of(c) == m.command_of(right@.concept().unwrap()),
                m.command_tree(current@) == m.command_tree(right@),
            decreases match current@.concept() {
                Some(c) => m.rrank(c),
                None => 0,
            },
        {
            match current.get_concept() {
                Some(c) => {
                    if c == REDUCTION {
                        return Ok(self.recursively_reduce(left).to_string());
                    } else if c == DEFINE {
                        return Ok(self.expand(left).to_string());
                    } else {
                        match self.read_concept(c).get_reduction() {
                            Some(n) => {
                                proof {
                                    assert(m.red(c) == Some(n));
                                    assert(m.has(n) && m.ordinary(n));
                                    assert(m.view(n).reduces_from.contains(c));
                                    assert(!m.disconnected(n));
                                    lemma_writable(m, n);
                                    lemma_command_of_rank(m, n);
                                    assert(m.command_of(c) == m.command_of(n));
                                }
                                current = self.to_ast(n);
                            },
                            None => {
                                return self.call_as_righthand(left, &current);
                            },
                        }
                    }
                },
                None => {
                    return self.call_as_righthand(left, &current);
                },
            }
        }
    }

    fn try_expanding_then_call(&mut self, ast: &AbstractSyntaxTree, depth: usize) -> (r: ZiaResult<String>)
        decreases depth, 0nat,
    {
        let ghost m = self.model();
        let expansion = self.expand(ast);
        if !expansion.eq(ast) && depth > 0 {
            proof {
                crate::syntax::lemma_expanded_ok(m, ast@);
            }
            self.call_within(&expansion, depth - 1)
        } else {
            Err(ZiaError::NotAProgram)
        }
    }

    fn try_reducing_then_call(&mut self, ast: &AbstractSyntaxTree, depth: usize) -> (r: ZiaResult<String>)
        decreases depth, 0nat,
    {
        let ghost m = self.model();
        let normal_form = self.recursively_reduce(ast);
        if !normal_form.eq(ast) && depth > 0 {
            proof {
                crate::syntax::lemma_fully_reduced_ok(m, ast@, usize::MAX as nat);
            }
            self.call_within(&normal_form, depth - 1)
        } else {
            Err(ZiaError::NotAProgram)
        }
    }
}

/// Executing commands given as text.
pub trait Execute: Call + SyntaxConverter {
    /// Reads a command as a syntax tree of the symbols that concepts are
    /// labelled with, carries it out, and returns what it prints or the
    /// message of the error it meets. A command `let X` carries out `X`.
    fn execute(&mut self, command: &str) -> (r: String)
        requires
            old(self).model().wf(),
            parsable(command@),
        ensures
            final(self).model().wf(),
            old(self).model().parsed(command@) matches Err(e) ==> r@ == error_message(e) && final(self).model() == old(self).model(),
            old(self).model().parsed(command@) matches Ok(t) ==> (command_body(t) matches SyntaxTree::Node { left, right, .. } ==> ((
            old(self).model().asks_reduction(*right) ==> r@ == old(self).model().fully_reduced(*left, usize::MAX as nat).string()
                && final(self).model() == old(self).model()))),
            old(self).model().parsed(command@) matches Ok(t) ==> (command_body(t) matches SyntaxTree::Node { left, right, .. } ==> ((
            old(self).model().asks_expansion(*right) ==> r@ == old(self).model().expanded(*left).string() && final(self).model() == old(self).model()))),
            old(self).model().parsed(command@) matches Ok(t) ==> (command_body(t) matches SyntaxTree::Node { left, right, .. } ==> ((!old(self).model().asks_reduction(*right) && !old(self).model().asks_expansion(*right) ==> exists|res: ZiaResult<()>|
                old(self).model().called_as_righthand(final(self).model(), *left, old(self).model().command_tree(*right), res)
                    && #[trigger] printed(res) == r@))),
            old(self).model().parsed(command@) matches Ok(t) ==> (command_body(t) is Leaf && old(self).model().expanded(command_body(t)).string()
                == command_body(t).string() && old(self).model().fully_reduced(command_body(t), usize::MAX as nat).string()
                == command_body(t).string() ==> r@ == error_message(
                ZiaError::NotAProgram,
            ) && final(self).model() == old(self).model()),
            old(self).model().parsed(command@) matches Ok(t) ==> exists|res: ZiaResult<String>|
                #[trigger] old(self).model().called(final(self).model(), command_body(t), res, usize::MAX as nat) && shown(res)
                    == r@,
    ;
}

/// The command that a tree stands for: `X` for a tree `let X`, and the tree itself otherwise.
pub open spec fn command_body(t: SyntaxTree) -> SyntaxTree {
    match t {
        SyntaxTree::Node { left, right, .. } => if *left is Leaf && left.string() == "let"@ {
            *right
        } else {
            t
        },
        SyntaxTree::Leaf { .. } => t,
    }
}

/// What a command prints: its output, or the message of its error.
pub open spec fn shown(res: ZiaResult<String>) -> Seq<char> {
    match res {
        Ok(s) => s@,
        Err(e) => error_message(e),
    }
}

/// What a command that prints nothing prints: nothing, or the message of its error.
pub open spec fn printed(res: ZiaResult<()>) -> Seq<char> {
    match res {
        Ok(()) => Seq::empty(),
        Err(e) => error_message(e),
    }
}

impl Execute for Context {
    fn execute(&mut self, command: &str) -> (r: String) {
        let ghost m = self.model();
        let ast = match self.ast_from_expression(command) {
            Ok(a) => a,
            Err(e) => { return e.to_string(); },
        };
        proof {
            lemma_parsed_ok(m, command@);
            reveal_strlit("let");
        }
        let let_word = AbstractSyntaxTree::new("let", None);
        let body: &AbstractSyntaxTree = match &ast {
            AbstractSyntaxTree::Expression(e) => match &*e.lefthand {
                AbstractSyntaxTree::Symbol(_) => if e.lefthand.eq(&let_word) {
                    proof {
                        assert(let_word@.string() == "let"@);
                        assert(ast@ matches SyntaxTree::Node { left, right, .. } && *left == e.lefthand@ && *right == e.righthand@);
                    }
                    &*e.righthand
                } else {
                    proof {
                        assert(e.lefthand@.string() != "let"@);
                    }
                    &ast
                },
                AbstractSyntaxTree::Expression(_) => &ast,
            },
            AbstractSyntaxTree::Symbol(_) => &ast,
        };
        proof {
            assert(body@ == command_body(ast@));
        }
        let result = self.call(body);
        proof {
            if let SyntaxTree::Node { left, right, .. } = body@ {
                if !m.asks_reduction(*right) && !m.asks_expansion(*right) {
                    assert(m.called_as_righthand(self.model(), *left, m.command_tree(*right), unit(result)));
                    assert(printed(unit(result)) == (match result {
                        Ok(s) => s@,
                        Err(e) => error_message(e),
                    }));
                }
            }
        }
        match result {
            Ok(s) => s,
            Err(e) => e.to_string(),
        }
    }
}

} // verus!
