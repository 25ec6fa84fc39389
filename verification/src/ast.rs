use vstd::prelude::*;
use crate::text::string_of;

verus! {

/// The mathematical form of a syntax tree: each node has its text and the
/// concept it denotes, if any; an inner node has a lefthand and a righthand branch.
pub enum SyntaxTree {
    Leaf { string: Seq<char>, concept: Option<usize> },
    Node { string: Seq<char>, concept: Option<usize>, left: Box<SyntaxTree>, right: Box<SyntaxTree> },
}

impl SyntaxTree {
    /// The text of the tree.
    pub open spec fn string(self) -> Seq<char> {
        match self {
            SyntaxTree::Leaf { string, .. } => string,
            SyntaxTree::Node { string, .. } => string,
        }
    }

    /// The concept the tree denotes, if any.
    pub open spec fn concept(self) -> Option<usize> {
        match self {
            SyntaxTree::Leaf { concept, .. } => concept,
            SyntaxTree::Node { concept, .. } => concept,
        }
    }

    /// The branches of an inner node.
    pub open spec fn expansion(self) -> Option<(SyntaxTree, SyntaxTree)> {
        match self {
            SyntaxTree::Leaf { .. } => None,
            SyntaxTree::Node { left, right, .. } => Some((*left, *right)),
        }
    }

    /// The text of the tree as a part of a larger expression: an inner node is parenthesised.
    pub open spec fn joint(self) -> Seq<char> {
        match self {
            SyntaxTree::Leaf { string, .. } => string,
            SyntaxTree::Node { string, .. } => "("@ + string + ")"@,
        }
    }

    /// Some branch of the tree, at any depth, has the text `text`.
    pub open spec fn holds(self, text: Seq<char>) -> bool
        decreases self,
    {
        match self {
            SyntaxTree::Leaf { .. } => false,
            SyntaxTree::Node { left, right, .. } => left.string() == text || right.string() == text || left.holds(
                text,
            ) || right.holds(text),
        }
    }

    /// The tree is a symbol, denotes a concept, or has a text with a space, as
    /// the expressions that commands are read into have.
    pub open spec fn spaced(self) -> bool {
        self is Leaf || self.concept() is Some || self.string().contains(' ')
    }

    /// Every branch of the tree, at any depth, is `spaced`.
    pub open spec fn inner_spaced(self) -> bool
        decreases self,
    {
        match self {
            SyntaxTree::Leaf { .. } => true,
            SyntaxTree::Node { left, right, .. } => left.spaced() && right.spaced() && left.inner_spaced()
                && right.inner_spaced(),
        }
    }

    /// An inner node with the given text, concept and branches.
    pub open spec fn node(string: Seq<char>, concept: Option<usize>, left: SyntaxTree, right: SyntaxTree) -> SyntaxTree {
        SyntaxTree::Node { string, concept, left: Box::new(left), right: Box::new(right) }
    }
}

/// A piece of syntax: its text and the concept it denotes, if any.
pub struct Syntax {
    pub string: String,
    pub concept: Option<usize>,
}

/// An expression: its own syntax and its two branches.
pub struct Expression {
    pub syntax: Syntax,
    pub lefthand: Box<AbstractSyntaxTree>,
    pub righthand: Box<AbstractSyntaxTree>,
}

/// A syntax tree: a symbol, or an expression of two trees.
pub enum AbstractSyntaxTree {
    Symbol(Syntax),
    Expression(Expression),
}

impl View for AbstractSyntaxTree {
    type V = SyntaxTree;

    open spec fn view(&self) -> SyntaxTree
        decreases self,
    {
        match self {
            AbstractSyntaxTree::Symbol(s) => SyntaxTree::Leaf { string: s.string@, concept: s.concept },
            AbstractSyntaxTree::Expression(e) => SyntaxTree::Node {
                string: e.syntax.string@,
                concept: e.syntax.concept,
                left: Box::new((*e.lefthand).view()),
                right: Box::new((*e.righthand).view()),
            },
        }
    }
}

impl Syntax {
    /// A copy of the syntax.
    pub fn clone(&self) -> (r: Syntax)
        ensures
            r.string@ == self.string@,
            r.concept == self.concept,
    {
        Syntax { string: self.string.clone(), concept: self.concept }
    }
}

impl Expression {
    /// A copy of the lefthand branch.
    pub fn get_lefthand(&self) -> (r: AbstractSyntaxTree)
        ensures
            r@ == (*self.lefthand)@,
    {
        self.lefthand.clone()
    }

    /// A copy of the righthand branch.
    pub fn get_righthand(&self) -> (r: AbstractSyntaxTree)
        ensures
            r@ == (*self.righthand)@,
    {
        self.righthand.clone()
    }
}

impl AbstractSyntaxTree {
    /// A copy of the tree.
    pub fn clone(&self) -> (r: AbstractSyntaxTree)
        ensures
            r@ == self@,
        decreases self,
    {
        match self {
            AbstractSyntaxTree::Symbol(s) => AbstractSyntaxTree::Symbol(s.clone()),
            AbstractSyntaxTree::Expression(e) => {
                let left = (*e.lefthand).clone();
                let right = (*e.righthand).clone();
                AbstractSyntaxTree::Expression(
                    Expression { syntax: e.syntax.clone(), lefthand: Box::new(left), righthand: Box::new(right) },
                )
            },
        }
    }

    /// The text of the tree.
    pub fn to_string(&self) -> (r: String)
        ensures
            r@ == self@.string(),
    {
        match self {
            AbstractSyntaxTree::Symbol(s) => s.string.clone(),
            AbstractSyntaxTree::Expression(e) => e.syntax.string.clone(),
        }
    }

    /// Whether two trees have the same text, which is how trees are compared.
    pub fn eq(&self, other: &AbstractSyntaxTree) -> (b: bool)
        ensures
            b == (self@.string() == other@.string()),
    {
        let a = self.to_string();
        let c = other.to_string();
        a == c
    }
}

/// Reading the concept that syntax denotes.
pub trait MaybeConcept: View<V = SyntaxTree> {
    fn get_concept(&self) -> (r: Option<usize>)
        ensures
            r == self@.concept(),
    ;
}

/// Reading the branches of syntax.
pub trait MightExpand: View<V = SyntaxTree> + Sized {
    fn get_expansion(&self) -> (r: Option<(Self, Self)>)
        ensures
            match r {
                Some((left, right)) => self@.expansion() == Some((left@, right@)),
                None => self@.expansion() is None,
            },
    ;
}

/// Writing syntax as a part of a larger expression.
pub trait DisplayJoint: View<V = SyntaxTree> {
    fn display_joint(&self) -> (r: String)
        ensures
            r@ == self@.joint(),
    ;
}

/// Making an expression of two trees.
pub trait Pair: View<V = SyntaxTree> + Sized {
    fn from_pair(syntax: &str, concept: Option<usize>, lefthand: &Self, righthand: &Self) -> (r: Self)
        ensures
            r@ == SyntaxTree::node(syntax@, concept, lefthand@, righthand@),
    ;
}

/// Making a symbol.
pub trait SyntaxFactory: View<V = SyntaxTree> + Sized {
    fn new(s: &str, concept: Option<usize>) -> (r: Self)
        ensures
            r@ == (SyntaxTree::Leaf { string: s@, concept }),
    ;
}

/// Whether a branch of a tree, at any depth, has the text of another tree.
pub trait Container: View<V = SyntaxTree> + Sized {
    fn contains(&self, other: &Self) -> (b: bool)
        ensures
            b == self@.holds(other@.string()),
    ;
}

impl MaybeConcept for AbstractSyntaxTree {
    fn get_concept(&self) -> (r: Option<usize>) {
        match self {
            AbstractSyntaxTree::Symbol(s) => s.concept,
            AbstractSyntaxTree::Expression(e) => e.syntax.concept,
        }
    }
}

impl MightExpand for AbstractSyntaxTree {
    fn get_expansion(&self) -> (r: Option<(AbstractSyntaxTree, AbstractSyntaxTree)>) {
        match self {
            AbstractSyntaxTree::Symbol(_) => None,
            AbstractSyntaxTree::Expression(e) => Some((e.get_lefthand(), e.get_righthand())),
        }
    }
}

impl DisplayJoint for AbstractSyntaxTree {
    fn display_joint(&self) -> (r: String) {
        match self {
            AbstractSyntaxTree::Expression(e) => {
                let mut r = string_of("(");
                r.append(e.syntax.string.as_str());
                r.append(")");
                r
            },
            AbstractSyntaxTree::Symbol(s) => s.string.clone(),
        }
    }
}

impl Pair for AbstractSyntaxTree {
    fn from_pair(syntax: &str, concept: Option<usize>, lefthand: &AbstractSyntaxTree, righthand: &AbstractSyntaxTree) -> (r: AbstractSyntaxTree) {
        AbstractSyntaxTree::Expression(
            Expression {
                syntax: Syntax { string: string_of(syntax), concept },
                lefthand: Box::new(lefthand.clone()),
                righthand: Box::new(righthand.clone()),
            },
        )
    }
}

impl SyntaxFactory for AbstractSyntaxTree {
    fn new(s: &str, concept: Option<usize>) -> (r: AbstractSyntaxTree) {
        AbstractSyntaxTree::Symbol(Syntax { string: string_of(s), concept })
    }
}

impl Container for AbstractSyntaxTree {
    fn contains(&self, other: &AbstractSyntaxTree) -> (b: bool)
        decreases self,
    {
        match self {
            AbstractSyntaxTree::Symbol(_) => false,
            AbstractSyntaxTree::Expression(e) => {
                e.lefthand.eq(other) || e.righthand.eq(other) || (*e.lefthand).contains(other)
                    || (*e.righthand).contains(other)
            },
        }
    }
}

} // verus!
