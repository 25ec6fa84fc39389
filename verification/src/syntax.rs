use vstd::prelude::*;
use crate::ast::SyntaxTree;
use crate::model::{LABEL, Model};
use crate::upkeep::lemma_label_of;

verus! {

impl Model {
    /// `c` can be written as syntax: it is labelled, or defined by parts that can.
    pub open spec fn writable(self, c: usize) -> bool
        decreases self.drank(c),
    {
        self.label_of(c) is Some || match self.def(c) {
            Some((l, r)) => self.drank(l) < self.drank(c) && self.drank(r) < self.drank(c) && self.writable(l)
                && self.writable(r),
            None => false,
        }
    }

    /// The tree that joins two trees, denoting the concept defined by their concepts, if any.
    pub open spec fn combined(self, a: SyntaxTree, b: SyntaxTree) -> SyntaxTree {
        let concept = match (a.concept(), b.concept()) {
            (Some(l), Some(r)) => self.definition_of(l, r),
            _ => None,
        };
        SyntaxTree::node(a.joint() + " "@ + b.joint(), concept, a, b)
    }

    /// The syntax of a concept: a symbol of its label, or else the tree of its definition.
    pub open spec fn syntax_of(self, c: usize) -> SyntaxTree
        decreases self.drank(c),
    {
        match self.label_of(c) {
            Some(s) => SyntaxTree::Leaf { string: s, concept: Some(c) },
            None => match self.def(c) {
                Some((l, r)) => if self.drank(l) < self.drank(c) && self.drank(r) < self.drank(c) {
                    self.combined(self.syntax_of(l), self.syntax_of(r))
                } else {
                    SyntaxTree::Leaf { string: Seq::empty(), concept: Some(c) }
                },
                None => SyntaxTree::Leaf { string: Seq::empty(), concept: Some(c) },
            },
        }
    }

    /// The tree that joins two trees, written as the label of the concept they
    /// define when that concept is labelled.
    pub open spec fn contracted(self, a: SyntaxTree, b: SyntaxTree) -> SyntaxTree {
        match (a.concept(), b.concept()) {
            (Some(lc), Some(rc)) => match self.definition_of(lc, rc) {
                Some(d) => match self.label_of(d) {
                    Some(s) => SyntaxTree::node(s, Some(d), a, b),
                    None => self.combined(a, b),
                },
                None => self.combined(a, b),
            },
            _ => self.combined(a, b),
        }
    }

    /// The reduction of a pair from the reductions of its branches, if either reduces.
    pub open spec fn matched(
        self,
        left: Option<SyntaxTree>,
        right: Option<SyntaxTree>,
        original_left: SyntaxTree,
        original_right: SyntaxTree,
    ) -> Option<SyntaxTree> {
        match (left, right) {
            (None, None) => None,
            (Some(l), None) => Some(self.contracted(l, original_right)),
            (None, Some(r)) => Some(self.contracted(original_left, r)),
            (Some(l), Some(r)) => Some(self.contracted(l, r)),
        }
    }

    /// One step of reduction of a concept: the syntax of its normal form, or
    /// else the reduction of its definition.
    pub open spec fn reduced_concept(self, c: usize) -> Option<SyntaxTree>
        decreases self.drank(c),
    {
        match self.normal_form(c) {
            Some(n) => Some(self.syntax_of(n)),
            None => match self.def(c) {
                Some((l, r)) => if self.drank(l) < self.drank(c) && self.drank(r) < self.drank(c) {
                    self.matched(self.reduced_concept(l), self.reduced_concept(r), self.syntax_of(l), self.syntax_of(r))
                } else {
                    None
                },
                None => None,
            },
        }
    }

    /// One step of reduction of a tree.
    pub open spec fn reduced(self, t: SyntaxTree) -> Option<SyntaxTree>
        decreases t,
    {
        match t.concept() {
            Some(c) => self.reduced_concept(c),
            None => match t {
                SyntaxTree::Leaf { .. } => None,
                SyntaxTree::Node { left, right, .. } => self.matched(self.reduced(*left), self.reduced(*right), *left, *right),
            },
        }
    }

    /// The tree after at most `fuel` steps of reduction, stopping where no step applies.
    pub open spec fn fully_reduced(self, t: SyntaxTree, fuel: nat) -> SyntaxTree
        decreases fuel,
    {
        if fuel == 0 {
            t
        } else {
            match self.reduced(t) {
                Some(next) => self.fully_reduced(next, (fuel - 1) as nat),
                None => t,
            }
        }
    }

    /// Steps of reduction apply to `t` `n` times in a row.
    pub open spec fn reduces_for(self, t: SyntaxTree, n: nat) -> bool
        decreases n,
    {
        n == 0 || match self.reduced(t) {
            Some(next) => self.reduces_for(next, (n - 1) as nat),
            None => false,
        }
    }

    /// The tree of the definitions of a concept, expanded down to undefined concepts.
    pub open spec fn expanded_concept(self, c: usize) -> SyntaxTree
        decreases self.drank(c),
    {
        match self.def(c) {
            Some((l, r)) => if self.drank(l) < self.drank(c) && self.drank(r) < self.drank(c) {
                self.combined(self.expanded_concept(l), self.expanded_concept(r))
            } else {
                self.syntax_of(c)
            },
            None => self.syntax_of(c),
        }
    }

    /// A tree with every concept replaced by its expanded definition.
    pub open spec fn expanded(self, t: SyntaxTree) -> SyntaxTree
        decreases t,
    {
        match t.concept() {
            Some(c) => self.expanded_concept(c),
            None => match t {
                SyntaxTree::Leaf { .. } => t,
                SyntaxTree::Node { left, right, .. } => self.combined(self.expanded(*left), self.expanded(*right)),
            },
        }
    }

    /// The text that shows a concept: a string concept in quotes, its label, or its definition,
    /// with each part that holds a space in parentheses of its own.
    pub open spec fn displayed(self, c: usize) -> Seq<char>
        decreases self.drank(c),
    {
        if self.is_text(c) {
            "\""@ + self.view(c).string + "\""@
        } else {
            match self.label_of(c) {
                Some(s) => s,
                None => match self.def(c) {
                    Some((l, r)) => if self.drank(l) < self.drank(c) && self.drank(r) < self.drank(c) {
                        let left = self.displayed(l);
                        let right = self.displayed(r);
                        let left = if left.contains(' ') {
                            "("@ + left + ")"@
                        } else {
                            left
                        };
                        let right = if right.contains(' ') {
                            "("@ + right + ")"@
                        } else {
                            right
                        };
                        left + " "@ + right
                    } else {
                        Seq::empty()
                    },
                    None => Seq::empty(),
                },
            }
        }
    }

    /// Every concept in the tree is an ordinary, nameable concept of the model,
    /// and every symbol that denotes a concept denotes a labelled one.
    pub open spec fn tree_ok(self, t: SyntaxTree) -> bool
        decreases t,
    {
        &&& (t.concept() matches Some(c) ==> self.has(c) && self.ordinary(c) && self.nameable(c))
        &&& match t {
            SyntaxTree::Leaf { concept, .. } => concept matches Some(c) ==> self.label_of(c) is Some,
            SyntaxTree::Node { left, right, .. } => self.tree_ok(*left) && self.tree_ok(*right),
        }
    }
}

/// The definition of two ordinary concepts, if there is one, is an ordinary, nameable concept.
pub proof fn lemma_definition_of_ok(m: Model, l: usize, r: usize)
    requires
        m.sound(),
        m.has(l),
        m.ordinary(l),
    ensures
        m.definition_of(l, r) matches Some(d) ==> m.has(d) && m.ordinary(d) && m.nameable(d) && m.def(d) == Some(
            (l, r),
        ),
{
    if let Some(d) = m.definition_of(l, r) {
        let w = choose|w: usize| m.has(w) && #[trigger] m.def(w) == Some((l, r));
        assert(m.has(d));
        assert(m.def(d) == Some((l, r)));
        assert(m.view(d).kind == crate::concepts::ConceptKind::Abstract);
        assert(d != LABEL);
    }
}

/// Joining trees of ordinary concepts gives a tree of ordinary concepts.
pub proof fn lemma_combined_ok(m: Model, a: SyntaxTree, b: SyntaxTree)
    requires
        m.sound(),
        m.tree_ok(a),
        m.tree_ok(b),
    ensures
        m.tree_ok(m.combined(a, b)),
        m.tree_ok(m.contracted(a, b)),
{
    if let (Some(l), Some(r)) = (a.concept(), b.concept()) {
        lemma_definition_of_ok(m, l, r);
    }
}

/// An ordinary concept defined as a pair is the definition of that pair.
pub proof fn lemma_definition_of_def(m: Model, c: usize)
    requires
        m.sound(),
        m.has(c),
        m.def(c) is Some,
    ensures
        m.definition_of(m.def(c).unwrap().0, m.def(c).unwrap().1) == Some(c),
{
    let (l, r) = m.def(c).unwrap();
    assert(m.def(c) == Some((l, r)));
    let w = choose|w: usize| m.has(w) && #[trigger] m.def(w) == Some((l, r));
    assert(m.def(w) == m.def(c));
}

/// An ordinary, nameable concept can be written, and its syntax denotes it.
pub proof fn lemma_writable(m: Model, c: usize)
    requires
        m.wf(),
        m.has(c),
        m.ordinary(c),
        m.nameable(c),
    ensures
        m.writable(c),
        m.syntax_of(c).concept() == Some(c),
        m.tree_ok(m.syntax_of(c)),
    decreases m.drank(c),
{
    if m.label_of(c) is None {
        let (l, r) = m.def(c).unwrap();
        assert(m.def(c) == Some((l, r)));
        assert(m.has(l) && m.has(r));
        assert(m.drank(l) < m.drank(c) && m.drank(r) < m.drank(c));
        assert(l != LABEL);
        assert(m.ordinary(l) && m.ordinary(r));
        assert(m.uses_on_left(c, l));
        assert(m.uses_on_right(c, r));
        assert(!m.is_label_def(c));
        assert(!m.disconnected(l));
        assert(!m.disconnected(r));
        lemma_writable(m, l);
        lemma_writable(m, r);
        lemma_definition_of_def(m, c);
        lemma_combined_ok(m, m.syntax_of(l), m.syntax_of(r));
    }
}

/// The parts of an ordinary defined concept are ordinary and nameable.
pub proof fn lemma_parts_nameable(m: Model, c: usize)
    requires
        m.wf(),
        m.has(c),
        m.ordinary(c),
        m.def(c) is Some,
    ensures
        m.has(m.def(c).unwrap().0) && m.ordinary(m.def(c).unwrap().0) && m.nameable(m.def(c).unwrap().0),
        m.has(m.def(c).unwrap().1) && m.ordinary(m.def(c).unwrap().1) && m.nameable(m.def(c).unwrap().1),
        m.drank(m.def(c).unwrap().0) < m.drank(c),
        m.drank(m.def(c).unwrap().1) < m.drank(c),
{
    let (l, r) = m.def(c).unwrap();
    assert(m.def(c) == Some((l, r)));
    assert(m.has(l) && m.has(r));
    assert(l != LABEL);
    assert(m.uses_on_left(c, l));
    assert(m.uses_on_right(c, r));
    assert(!m.disconnected(l));
    assert(!m.disconnected(r));
}

/// The reduction of an ordinary concept leads to an ordinary, nameable concept.
pub proof fn lemma_normal_form_nameable(m: Model, c: usize)
    requires
        m.wf(),
        m.has(c),
        m.ordinary(c),
    ensures
        m.normal_form(c) matches Some(n) ==> m.has(n) && m.ordinary(n) && m.nameable(n),
    decreases m.rrank(c),
{
    if let Some(n) = m.red(c) {
        assert(m.has(n));
        assert(m.ordinary(n));
        assert(m.rrank(n) < m.rrank(c));
        lemma_normal_form_nameable(m, n);
        if m.red(n) is None {
            assert(m.end_of(n) == n);
            assert(m.view(n).reduces_from.contains(c));
            assert(!m.disconnected(n));
        }
    }
}

/// One step of reduction of an ordinary concept gives a tree of ordinary concepts.
pub proof fn lemma_reduced_concept_ok(m: Model, c: usize)
    requires
        m.wf(),
        m.has(c),
        m.ordinary(c),
    ensures
        m.reduced_concept(c) matches Some(t) ==> m.tree_ok(t),
    decreases m.drank(c),
{
    lemma_normal_form_nameable(m, c);
    if let Some(n) = m.normal_form(c) {
        lemma_writable(m, n);
    } else if let Some((l, r)) = m.def(c) {
        lemma_parts_nameable(m, c);
        lemma_reduced_concept_ok(m, l);
        lemma_reduced_concept_ok(m, r);
        lemma_writable(m, l);
        lemma_writable(m, r);
        if let Some(a) = m.reduced_concept(l) {
            lemma_combined_ok(m, a, m.syntax_of(r));
            if let Some(b) = m.reduced_concept(r) {
                lemma_combined_ok(m, a, b);
            }
        }
        if let Some(b) = m.reduced_concept(r) {
            lemma_combined_ok(m, m.syntax_of(l), b);
        }
    }
}

/// One step of reduction of a tree of ordinary concepts gives such a tree.
pub proof fn lemma_reduced_ok(m: Model, t: SyntaxTree)
    requires
        m.wf(),
        m.tree_ok(t),
    ensures
        m.reduced(t) matches Some(u) ==> m.tree_ok(u),
    decreases t,
{
    if let Some(c) = t.concept() {
        lemma_reduced_concept_ok(m, c);
    } else if let SyntaxTree::Node { left, right, .. } = t {
        lemma_reduced_ok(m, *left);
        lemma_reduced_ok(m, *right);
        if let Some(a) = m.reduced(*left) {
            lemma_combined_ok(m, a, *right);
            if let Some(b) = m.reduced(*right) {
                lemma_combined_ok(m, a, b);
            }
        }
        if let Some(b) = m.reduced(*right) {
            lemma_combined_ok(m, *left, b);
        }
    }
}

/// Expanding a tree of ordinary concepts gives such a tree.
pub proof fn lemma_expanded_concept_ok(m: Model, c: usize)
    requires
        m.wf(),
        m.has(c),
        m.ordinary(c),
        m.nameable(c),
    ensures
        m.tree_ok(m.expanded_concept(c)),
    decreases m.drank(c),
{
    lemma_writable(m, c);
    if let Some((l, r)) = m.def(c) {
        lemma_parts_nameable(m, c);
        lemma_expanded_concept_ok(m, l);
        lemma_expanded_concept_ok(m, r);
        lemma_combined_ok(m, m.expanded_concept(l), m.expanded_concept(r));
    }
}

/// Expanding a tree of ordinary concepts gives such a tree.
pub proof fn lemma_expanded_ok(m: Model, t: SyntaxTree)
    requires
        m.wf(),
        m.tree_ok(t),
    ensures
        m.tree_ok(m.expanded(t)),
    decreases t,
{
    if let Some(c) = t.concept() {
        lemma_expanded_concept_ok(m, c);
    } else if let SyntaxTree::Node { left, right, .. } = t {
        lemma_expanded_ok(m, *left);
        lemma_expanded_ok(m, *right);
        lemma_combined_ok(m, m.expanded(*left), m.expanded(*right));
    }
}

/// Full reduction of a tree of ordinary concepts gives such a tree.
pub proof fn lemma_fully_reduced_ok(m: Model, t: SyntaxTree, fuel: nat)
    requires
        m.wf(),
        m.tree_ok(t),
    ensures
        m.tree_ok(m.fully_reduced(t, fuel)),
    decreases fuel,
{
    if fuel > 0 {
        lemma_reduced_ok(m, t);
        if let Some(next) = m.reduced(t) {
            lemma_fully_reduced_ok(m, next, (fuel - 1) as nat);
        }
    }
}

/// Reducing with some fuel stops where no step applies, unless every step
/// that the fuel allows applies.
pub proof fn lemma_fully_reduced_stops(m: Model, t: SyntaxTree, fuel: nat)
    ensures
        m.reduced(m.fully_reduced(t, fuel)) is None || m.reduces_for(t, fuel),
    decreases fuel,
{
    if fuel > 0 {
        if let Some(next) = m.reduced(t) {
            lemma_fully_reduced_stops(m, next, (fuel - 1) as nat);
        }
    }
}

} // verus!
