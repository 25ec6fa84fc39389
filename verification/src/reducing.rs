use vstd::prelude::*;
use crate::ast::{AbstractSyntaxTree, DisplayJoint, MaybeConcept, Pair, SyntaxFactory, SyntaxTree};
use crate::concepts::{GetDefinition, MaybeString};
use crate::context::{ConceptReader, Context};
use crate::model::Model;
use crate::reading::{FindDefinition, GetLabel, GetNormalForm};
use crate::syntax::{
    lemma_combined_ok, lemma_definition_of_ok, lemma_expanded_concept_ok, lemma_normal_form_nameable,
    lemma_parts_nameable, lemma_reduced_concept_ok, lemma_reduced_ok, lemma_writable,
};
use crate::text::{has_space, string_of};

verus! {

/// The trees of an optional syntax tree.
pub open spec fn tree_of(o: Option<AbstractSyntaxTree>) -> Option<SyntaxTree> {
    match o {
        Some(t) => Some(t@),
        None => None,
    }
}

/// Joining two trees into an expression.
pub trait Combine: FindDefinition {
    /// The expression of the two trees, denoting the concept they define, if any.
    fn combine(&self, ast: &AbstractSyntaxTree, other: &AbstractSyntaxTree) -> (r: AbstractSyntaxTree)
        requires
            self.model().sound(),
            ast@.concept() matches Some(c) ==> self.model().has(c),
            other@.concept() matches Some(c) ==> self.model().has(c),
        ensures
            r@ == self.model().combined(ast@, other@),
    ;
}

impl Combine for Context {
    fn combine(&self, ast: &AbstractSyntaxTree, other: &AbstractSyntaxTree) -> (r: AbstractSyntaxTree) {
        let mut left_string = ast.display_joint();
        let right_string = other.display_joint();
        let definition = match (ast.get_concept(), other.get_concept()) {
            (Some(l), Some(r)) => self.find_definition(l, r),
            _ => None,
        };
        proof {
            reveal_strlit(" ");
        }
        left_string.append(" ");
        left_string.append(right_string.as_str());
        AbstractSyntaxTree::from_pair(left_string.as_str(), definition, ast, other)
    }
}

/// Reducing syntax trees.
pub trait Reduce: GetLabel + Combine {
    /// Reduces a tree until no reduction applies, in at most `usize::MAX` steps.
    fn recursively_reduce(&self, ast: &AbstractSyntaxTree) -> (r: AbstractSyntaxTree)
        requires
            self.model().wf(),
            self.model().tree_ok(ast@),
        ensures
            r@ == self.model().fully_reduced(ast@, usize::MAX as nat),
            self.model().reduced(r@) is None || self.model().reduces_for(ast@, usize::MAX as nat),
            self.model().reduced(r@) is None ==> self.model().fully_reduced(r@, usize::MAX as nat) == r@,
    ;

    /// One step of reduction of a tree, if one applies.
    fn reduce(&self, ast: &AbstractSyntaxTree) -> (r: Option<AbstractSyntaxTree>)
        requires
            self.model().wf(),
            self.model().tree_ok(ast@),
        ensures
            tree_of(r) == self.model().reduced(ast@),
    ;

    /// One step of reduction of a concept, if one applies.
    fn reduce_concept(&self, concept: usize) -> (r: Option<AbstractSyntaxTree>)
        requires
            self.model().wf(),
            self.model().has(concept),
            self.model().ordinary(concept),
        ensures
            tree_of(r) == self.model().reduced_concept(concept),
    ;

    /// The syntax of a concept: a symbol of its label, or the expression of its definition.
    fn to_ast(&self, concept: usize) -> (r: AbstractSyntaxTree)
        requires
            self.model().wf(),
            self.model().has(concept),
            self.model().ordinary(concept),
            self.model().nameable(concept),
        ensures
            r@ == self.model().syntax_of(concept),
    ;

    /// The reduction of a pair from the reductions of its branches.
    fn match_left_right(
        &self,
        left: Option<AbstractSyntaxTree>,
        right: Option<AbstractSyntaxTree>,
        original_left: &AbstractSyntaxTree,
        original_right: &AbstractSyntaxTree,
    ) -> (r: Option<AbstractSyntaxTree>)
        requires
            self.model().wf(),
            self.model().tree_ok(original_left@),
            self.model().tree_ok(original_right@),
            left matches Some(t) ==> self.model().tree_ok(t@),
            right matches Some(t) ==> self.model().tree_ok(t@),
        ensures
            tree_of(r) == self.model().matched(tree_of(left), tree_of(right), original_left@, original_right@),
    ;

    /// The expression of two trees, written as the label of the concept they define, if it has one.
    fn contract_pair(&self, lefthand: &AbstractSyntaxTree, righthand: &AbstractSyntaxTree) -> (r: AbstractSyntaxTree)
        requires
            self.model().wf(),
            self.model().tree_ok(lefthand@),
            self.model().tree_ok(righthand@),
        ensures
            r@ == self.model().contracted(lefthand@, righthand@),
    ;
}

impl Reduce for Context {
    fn recursively_reduce(&self, ast: &AbstractSyntaxTree) -> (r: AbstractSyntaxTree) {
        let ghost m = self.model();
        proof {
            crate::syntax::lemma_fully_reduced_stops(m, ast@, usize::MAX as nat);
            let t = m.fully_reduced(ast@, usize::MAX as nat);
            assert(m.reduced(t) is None ==> m.fully_reduced(t, usize::MAX as nat) == t);
        }
        let mut current = ast.clone();
        let mut fuel: usize = usize::MAX;
        loop
            invariant
                m == self.model(),
                m.wf(),
                m.tree_ok(current@),
                m.fully_reduced(ast@, usize::MAX as nat) == m.fully_reduced(current@, fuel as nat),
                m.reduced(m.fully_reduced(ast@, usize::MAX as nat)) is None || m.reduces_for(ast@, usize::MAX as nat),
            decreases fuel,
        {
            if fuel == 0 {
                return current;
            }
            match self.reduce(&current) {
                Some(next) => {
                    proof {
                        lemma_reduced_ok(m, current@);
                    }
                    current = next;
                    fuel = fuel - 1;
                },
                None => {
                    return current;
                },
            }
        }
    }

    fn reduce(&self, ast: &AbstractSyntaxTree) -> (r: Option<AbstractSyntaxTree>)
        decreases ast,
    {
        let ghost m = self.model();
        match ast.get_concept() {
            Some(c) => self.reduce_concept(c),
            None => match ast {
                AbstractSyntaxTree::Symbol(_) => None,
                AbstractSyntaxTree::Expression(e) => {
                    let left: &AbstractSyntaxTree = &e.lefthand;
                    let right: &AbstractSyntaxTree = &e.righthand;
                    let left_result = self.reduce(left);
                    let right_result = self.reduce(right);
                    proof {
                        lemma_reduced_ok(m, left@);
                        lemma_reduced_ok(m, right@);
                    }
                    self.match_left_right(left_result, right_result, left, right)
                },
            },
        }
    }

    fn reduce_concept(&self, concept: usize) -> (r: Option<AbstractSyntaxTree>)
        decreases self.model().drank(concept),
    {
        let ghost m = self.model();
        proof {
            lemma_normal_form_nameable(m, concept);
        }
        match self.get_normal_form(concept) {
            None => match self.read_concept(concept).get_definition() {
                Some((left, right)) => {
                    assert(m.def(concept) == Some((left, right)));
                    proof {
                        lemma_parts_nameable(m, concept);
                        lemma_writable(m, left);
                        lemma_writable(m, right);
                        lemma_reduced_concept_ok(m, left);
                        lemma_reduced_concept_ok(m, right);
                    }
                    let left_result = self.reduce_concept(left);
                    let right_result = self.reduce_concept(right);
                    let left_ast = self.to_ast(left);
                    let right_ast = self.to_ast(right);
                    self.match_left_right(left_result, right_result, &left_ast, &right_ast)
                },
                None => None,
            },
            Some(n) => Some(self.to_ast(n)),
        }
    }

    fn to_ast(&self, concept: usize) -> (r: AbstractSyntaxTree)
        decreases self.model().drank(concept),
    {
        let ghost m = self.model();
        match self.get_label(concept) {
            Some(s) => AbstractSyntaxTree::new(s.as_str(), Some(concept)),
            None => match self.read_concept(concept).get_definition() {
                Some((left, right)) => {
                    assert(m.def(concept) == Some((left, right)));
                    proof {
                        lemma_parts_nameable(m, concept);
                    }
                    let left_ast = self.to_ast(left);
                    let right_ast = self.to_ast(right);
                    proof {
                        lemma_writable(m, left);
                        lemma_writable(m, right);
                    }
                    self.combine(&left_ast, &right_ast)
                },
                None => {
                    proof {
                        reveal_strlit("");
                    }
                    AbstractSyntaxTree::new("", Some(concept))
                },
            },
        }
    }

    fn match_left_right(
        &self,
        left: Option<AbstractSyntaxTree>,
        right: Option<AbstractSyntaxTree>,
        original_left: &AbstractSyntaxTree,
        original_right: &AbstractSyntaxTree,
    ) -> (r: Option<AbstractSyntaxTree>) {
        match (left, right) {
            (None, None) => None,
            (Some(new_left), None) => Some(self.contract_pair(&new_left, original_right)),
            (None, Some(new_right)) => Some(self.contract_pair(original_left, &new_right)),
            (Some(new_left), Some(new_right)) => Some(self.contract_pair(&new_left, &new_right)),
        }
    }

    fn contract_pair(&self, lefthand: &AbstractSyntaxTree, righthand: &AbstractSyntaxTree) -> (r: AbstractSyntaxTree) {
        let ghost m = self.model();
        if let (Some(lc), Some(rc)) = (lefthand.get_concept(), righthand.get_concept()) {
            if let Some(def) = self.find_definition(lc, rc) {
                proof {
                    lemma_definition_of_ok(m, lc, rc);
                }
                if let Some(a) = self.get_label(def) {
                    return AbstractSyntaxTree::from_pair(a.as_str(), Some(def), lefthand, righthand);
                }
            }
        }
        self.combine(lefthand, righthand)
    }
}

/// Expanding syntax trees into their definitions.
pub trait Expander: Reduce {
    /// The tree with every concept replaced by its expanded definition.
    fn expand(&self, ast: &AbstractSyntaxTree) -> (r: AbstractSyntaxTree)
        requires
            self.model().wf(),
            self.model().tree_ok(ast@),
        ensures
            r@ == self.model().expanded(ast@),
    ;

    /// The expanded definition of a concept.
    fn expand_concept(&self, concept: usize) -> (r: AbstractSyntaxTree)
        requires
            self.model().wf(),
            self.model().has(concept),
            self.model().ordinary(concept),
            self.model().nameable(concept),
        ensures
            r@ == self.model().expanded_concept(concept),
    ;
}

impl Expander for Context {
    fn expand(&self, ast: &AbstractSyntaxTree) -> (r: AbstractSyntaxTree)
        decreases ast,
    {
        let ghost m = self.model();
        if let Some(con) = ast.get_concept() {
            self.expand_concept(con)
        } else {
            match ast {
                AbstractSyntaxTree::Symbol(_) => ast.clone(),
                AbstractSyntaxTree::Expression(e) => {
                    let left: &AbstractSyntaxTree = &e.lefthand;
                    let right: &AbstractSyntaxTree = &e.righthand;
                    let left_expansion = self.expand(left);
                    let right_expansion = self.expand(right);
                    proof {
                        crate::syntax::lemma_expanded_ok(m, left@);
                        crate::syntax::lemma_expanded_ok(m, right@);
                    }
                    self.combine(&left_expansion, &right_expansion)
                },
            }
        }
    }

    fn expand_concept(&self, concept: usize) -> (r: AbstractSyntaxTree)
        decreases self.model().drank(concept),
    {
        let ghost m = self.model();
        if let Some((left, right)) = self.read_concept(concept).get_definition() {
            assert(m.def(concept) == Some((left, right)));
            proof {
                lemma_parts_nameable(m, concept);
                lemma_expanded_concept_ok(m, left);
                lemma_expanded_concept_ok(m, right);
            }
            let left_expansion = self.expand_concept(left);
            let right_expansion = self.expand_concept(right);
            self.combine(&left_expansion, &right_expansion)
        } else {
            self.to_ast(concept)
        }
    }
}

/// Showing concepts as text.
pub trait Display: GetLabel {
    /// The text that shows a concept: a string concept in quotes, its label,
    /// or its definition, with each part that holds a space in parentheses
    /// of its own, so that the text reads back as the same tree.
    fn display(&self, concept: usize) -> (r: String)
        requires
            self.model().wf(),
            self.model().has(concept),
            self.model().is_text(concept) || (self.model().ordinary(concept) && self.model().nameable(concept)),
        ensures
            r@ == self.model().displayed(concept),
    ;
}

impl Display for Context {
    fn display(&self, concept: usize) -> (r: String)
        decreases self.model().drank(concept),
    {
        let ghost m = self.model();
        match self.read_concept(concept).get_string() {
            Some(s) => {
                let mut r = string_of("\"");
                r.append(s.as_str());
                r.append("\"");
                r
            },
            None => match self.get_label(concept) {
                Some(l) => l,
                None => match self.read_concept(concept).get_definition() {
                    Some((left, right)) => {
                        assert(m.def(concept) == Some((left, right)));
                        proof {
                            lemma_parts_nameable(m, concept);
                        }
                        let mut left_string = self.display(left);
                        if has_space(left_string.as_str()) {
                            let mut s = string_of("(");
                            s.append(left_string.as_str());
                            s.append(")");
                            left_string = s;
                        }
                        let mut right_string = self.display(right);
                        if has_space(right_string.as_str()) {
                            let mut s = string_of("(");
                            s.append(right_string.as_str());
                            s.append(")");
                            right_string = s;
                        }
                        proof {
                            reveal_strlit(" ");
                        }
                        left_string.append(" ");
                        left_string.append(right_string.as_str());
                        left_string
                    },
                    None => {
                        proof {
                            reveal_strlit("");
                        }
                        string_of("")
                    },
                },
            },
        }
    }
}

} // verus!
