use vstd::prelude::*;
use crate::ast::{AbstractSyntaxTree, SyntaxFactory, SyntaxTree};
use crate::context::{ConceptReader, Context, StringConcept};
use crate::errors::{ZiaError, ZiaResult};
use crate::model::{LABEL, Model};
use crate::reading::{lemma_label_def_reaches, Label};
use crate::labelling::lemma_labellee_of;
use crate::reducing::Combine;
use crate::syntax::lemma_combined_ok;
use crate::text::has_space;
use crate::token::{lex, nesting_fits, parse_line, tokens_of};
use crate::upkeep::{lemma_append, lemma_append_string, lemma_label_def_of, lemma_label_of};
use crate::concepts::{detached, empty_view, ConceptKind, ConceptView};

verus! {

/// The parentheses of a command nest in a way that the reader can follow: the
/// depth stays within the tokenizer's counter, and every token that holds a
/// space is shorter than the command and parsable in turn.
pub open spec fn parsable(s: Seq<char>) -> bool
    decreases s.len(),
{
    let ts = tokens_of(s);
    &&& nesting_fits(s)
    &&& (ts.len() == 1 ==> (ts[0].contains(' ') ==> ts[0].len() < s.len() && parsable(ts[0])))
    &&& (ts.len() == 2 ==> (ts[0].contains(' ') ==> ts[0].len() < s.len() && parsable(ts[0])) && (ts[1].contains(
        ' ',
    ) ==> ts[1].len() < s.len() && parsable(ts[1])))
}

impl Model {
    /// The concept that a text labels, if any.
    pub open spec fn concept_of_label(self, s: Seq<char>) -> Option<usize> {
        if self.strings.contains_key(s) {
            self.labellee_of(self.strings[s])
        } else {
            None
        }
    }

    /// The tree of a token: a symbol for a text without spaces, else the tree of the expression.
    pub open spec fn token_tree(self, t: Seq<char>, whole: Seq<char>) -> Result<SyntaxTree, ZiaError>
        decreases whole.len(), 0nat,
    {
        if t.contains(' ') {
            if t.len() < whole.len() {
                self.parsed(t)
            } else {
                Err(ZiaError::AmbiguousExpression)
            }
        } else {
            Ok(SyntaxTree::Leaf { string: t, concept: self.concept_of_label(t) })
        }
    }

    /// The syntax tree of a command, or the error that reading it gives.
    pub open spec fn parsed(self, s: Seq<char>) -> Result<SyntaxTree, ZiaError>
        decreases s.len(), 1nat,
    {
        let ts = tokens_of(s);
        if ts.len() == 0 {
            Err(ZiaError::EmptyParentheses)
        } else if ts.len() == 1 {
            if ts[0].contains(' ') && !(ts[0].len() < s.len()) {
                Err(ZiaError::AmbiguousExpression)
            } else {
                self.token_tree(ts[0], s)
            }
        } else if ts.len() == 2 {
            if (ts[0].contains(' ') && !(ts[0].len() < s.len())) || (ts[1].contains(' ') && !(ts[1].len() < s.len())) {
                Err(ZiaError::AmbiguousExpression)
            } else {
                match self.token_tree(ts[0], s) {
                    Err(e) => Err(e),
                    Ok(a) => match self.token_tree(ts[1], s) {
                        Err(e) => Err(e),
                        Ok(b) => Ok(self.combined(a, b)),
                    },
                }
            }
        } else {
            Err(ZiaError::AmbiguousExpression)
        }
    }
}

/// Whether the depth of parentheses stays within the tokenizer's counter.
pub fn nesting_ok(s: &str) -> (b: bool)
    ensures
        b == nesting_fits(s@),
{
    let n = s.unicode_len();
    let mut level: i64 = 0;
    let mut i: usize = 0;
    proof {
        assert(s@.take(0) =~= Seq::<char>::empty());
    }
    while i < n
        invariant
            n == s@.len(),
            i <= n,
            level == lex(s@.take(i as int)).level,
            forall|k: int| 0 <= k <= i ==> -128 <= #[trigger] lex(s@.take(k)).level <= 127,
        decreases n - i,
    {
        let letter = s.get_char(i);
        proof {
            assert(s@.take(i + 1).drop_last() =~= s@.take(i as int));
            assert(s@.take(i + 1).last() == letter);
        }
        if letter == '(' {
            level = level + 1;
        } else if letter == ')' {
            level = level - 1;
        }
        assert(level == lex(s@.take(i + 1)).level);
        if level < -128 || level > 127 {
            assert(!(-128 <= lex(s@.take(i + 1)).level <= 127));
            return false;
        }
        i = i + 1;
    }
    proof {
        assert(s@.take(n as int) =~= s@);
        assert forall|k: int| 0 <= k <= s@.len() implies -128 <= #[trigger] lex(s@.take(k)).level <= 127 by {}
    }
    true
}

/// Whether a command can be read: see `parsable`.
pub fn is_parsable(s: &str) -> (b: bool)
    ensures
        b == parsable(s@),
    decreases s@.len(),
{
    if !nesting_ok(s) {
        return false;
    }
    let tokens = parse_line(s);
    let n = s.unicode_len();
    proof {
        assert(tokens@.map_values(|t: String| t@).len() == tokens.len());
    }
    let ghost ts = tokens_of(s@);
    if tokens.len() == 1 || tokens.len() == 2 {
        let mut i: usize = 0;
        while i < tokens.len()
            invariant
                tokens.len() == 1 || tokens.len() == 2,
                ts == tokens@.map_values(|t: String| t@),
                ts == tokens_of(s@),
                nesting_fits(s@),
                n == s@.len(),
                i <= tokens.len(),
                forall|j: int| 0 <= j < i ==> (ts[j].contains(' ') ==> ts[j].len() < s@.len() && parsable(#[trigger] ts[j])),
            decreases tokens.len() - i,
        {
            let t = tokens[i].as_str();
            assert(t@ == ts[i as int]);
            assert(i == 0 || i == 1);
            if has_space(t) {
                if !(t.unicode_len() < n) {
                    return false;
                }
                if !is_parsable(t) {
                    return false;
                }
            }
            i = i + 1;
        }
        true
    } else {
        true
    }
}

/// The labellee of a string concept is an ordinary concept labelled with the string's text.
pub proof fn lemma_labellee_ok(m: Model, t: usize)
    requires
        m.sound(),
        m.has(t),
    ensures
        m.labellee_of(t) matches Some(x) ==> m.has(x) && m.ordinary(x) && m.label_of(x) == Some(m.view(t).string),
{
    if let Some(x) = m.labellee_of(t) {
        assert(m.labels(x, t));
        let d = choose|d: usize| m.has(d) && #[trigger] m.def(d) == Some((LABEL, x)) && d != t && m.reaches(d, t);
        assert(m.is_label_def(d));
        lemma_label_def_reaches(m, d, t);
        assert(m.has(x) && m.ordinary(x));
        lemma_label_def_of(m, x, d);
        lemma_label_of(m, x);
    }
}

/// A text reads as an ordinary concept that it labels.
pub proof fn lemma_reading_ok(m: Model, s: Seq<char>)
    requires
        m.sound(),
    ensures
        m.concept_of_label(s) matches Some(x) ==> m.has(x) && m.ordinary(x) && m.label_of(x) == Some(s),
{
    if m.strings.contains_key(s) {
        assert(m.is_text(m.strings[s]));
        lemma_labellee_ok(m, m.strings[s]);
    }
}

/// The concept that a string concept labels stays the same while the label
/// definitions that reduce to it stay the same.
pub proof fn lemma_labellee_kept(m1: Model, m2: Model, t: usize)
    requires
        m1.sound(),
        m2.sound(),
        forall|d: usize|
            m2.has(d) && m2.is_label_def(d) && #[trigger] m2.red(d) == Some(t) ==> m1.has(d) && m1.def(d) == m2.def(d)
                && m1.red(d) == Some(t),
        forall|d: usize|
            m1.has(d) && m1.is_label_def(d) && #[trigger] m1.red(d) == Some(t) ==> m2.has(d) && m2.def(d) == m1.def(d)
                && m2.red(d) == Some(t),
    ensures
        m2.labellee_of(t) == m1.labellee_of(t),
{
    if let Some(x) = m1.labellee_of(t) {
        assert(m1.labels(x, t));
        let d = choose|d: usize| m1.has(d) && #[trigger] m1.def(d) == Some((LABEL, x)) && d != t && m1.reaches(d, t);
        assert(m1.is_label_def(d));
        lemma_label_def_reaches(m1, d, t);
        lemma_labellee_of(m2, x, d, t);
    } else if let Some(y) = m2.labellee_of(t) {
        assert(m2.labels(y, t));
        let d = choose|d: usize| m2.has(d) && #[trigger] m2.def(d) == Some((LABEL, y)) && d != t && m2.reaches(d, t);
        assert(m2.is_label_def(d));
        lemma_label_def_reaches(m2, d, t);
        lemma_labellee_of(m1, y, d, t);
    }
}

/// What every text reads as stays the same while the string index and the
/// label definitions that reduce stay the same.
pub proof fn lemma_readings_kept(m1: Model, m2: Model)
    requires
        m1.sound(),
        m2.sound(),
        m2.strings == m1.strings,
        forall|d: usize|
            m2.has(d) && m2.is_label_def(d) && #[trigger] m2.red(d) is Some ==> m1.has(d) && m1.def(d) == m2.def(d)
                && m1.red(d) == m2.red(d),
        forall|d: usize|
            m1.has(d) && m1.is_label_def(d) && #[trigger] m1.red(d) is Some ==> m2.has(d) && m2.def(d) == m1.def(d)
                && m2.red(d) == m1.red(d),
    ensures
        forall|s: Seq<char>| #[trigger] m2.concept_of_label(s) == m1.concept_of_label(s),
{
    assert forall|s: Seq<char>| #[trigger] m2.concept_of_label(s) == m1.concept_of_label(s) by {
        if m1.strings.contains_key(s) {
            let t = m1.strings[s];
            assert forall|d: usize| m2.has(d) && m2.is_label_def(d) && #[trigger] m2.red(d) == Some(t) implies m1.has(d)
                && m1.def(d) == m2.def(d) && m1.red(d) == Some(t) by {
                assert(m2.red(d) is Some);
            }
            assert forall|d: usize| m1.has(d) && m1.is_label_def(d) && #[trigger] m1.red(d) == Some(t) implies m2.has(d)
                && m2.def(d) == m1.def(d) && m2.red(d) == Some(t) by {
                assert(m1.red(d) is Some);
            }
            lemma_labellee_kept(m1, m2, t);
        }
    }
}

/// Setting the reduction of a concept other than a label definition keeps
/// what every text reads as.
pub proof fn lemma_readings_kept_by_reduction(m1: Model, m2: Model, c: usize, r: Option<usize>)
    requires
        m1.sound(),
        m2.sound(),
        m1.with_reduction_of(m2, c, r),
        !m1.is_label_def(c),
    ensures
        forall|s: Seq<char>| #[trigger] m2.concept_of_label(s) == m1.concept_of_label(s),
{
    assert forall|d: usize| m2.has(d) implies #[trigger] m2.def(d) == m1.def(d) by {
        assert(m2.view(d).definition == m1.view(d).definition);
    }
    assert forall|d: usize| m2.has(d) && d != c implies #[trigger] m2.red(d) == m1.red(d) by {
        assert(m2.view(d).reduction == m1.view(d).reduction);
    }
    lemma_readings_kept(m1, m2);
}

/// Setting the definition of a concept that is no label definition, and
/// becomes none, or that does not reduce, keeps what every text reads as.
pub proof fn lemma_readings_kept_by_definition(m1: Model, m2: Model, d0: usize, v: Option<(usize, usize)>)
    requires
        m1.sound(),
        m2.sound(),
        m1.with_definition_of(m2, d0, v),
        m1.red(d0) is None || (!m1.is_label_def(d0) && !(v matches Some((l, _)) && l == LABEL)),
    ensures
        forall|s: Seq<char>| #[trigger] m2.concept_of_label(s) == m1.concept_of_label(s),
{
    assert forall|d: usize| m2.has(d) && d != d0 implies #[trigger] m2.def(d) == m1.def(d) by {
        assert(m2.view(d).definition == m1.view(d).definition);
    }
    assert forall|d: usize| m2.has(d) implies #[trigger] m2.red(d) == m1.red(d) by {
        assert(m2.view(d).reduction == m1.view(d).reduction);
    }
    lemma_readings_kept(m1, m2);
}

/// Adding a concept that holds nothing keeps what every text reads as.
pub proof fn lemma_readings_kept_by_append(m1: Model, v: ConceptView)
    requires
        m1.sound(),
        detached(v),
        m1.len() <= usize::MAX,
    ensures
        forall|s: Seq<char>| #[trigger] m1.appended(v).concept_of_label(s) == m1.concept_of_label(s),
{
    let m2 = m1.appended(v);
    lemma_append(m1, v, None);
    assert forall|d: usize| m2.has(d) && m2.is_label_def(d) && #[trigger] m2.red(d) is Some implies m1.has(d)
        && m1.def(d) == m2.def(d) && m1.red(d) == m2.red(d) by {
        if !m1.has(d) {
            assert(m2.view(d) == v);
        }
    }
    lemma_readings_kept(m1, m2);
}

/// Setting the reduction of any concept keeps what a text reads as, while
/// the string concept of that text is neither the old nor the new target.
pub proof fn lemma_reading_kept_by_reduction(m1: Model, m2: Model, c: usize, r: Option<usize>, s: Seq<char>)
    requires
        m1.sound(),
        m2.sound(),
        m1.with_reduction_of(m2, c, r),
        m1.strings.contains_key(s) ==> m1.red(c) != Some(m1.strings[s]) && r != Some(m1.strings[s]),
    ensures
        m2.concept_of_label(s) == m1.concept_of_label(s),
{
    if m1.strings.contains_key(s) {
        let t = m1.strings[s];
        assert forall|d: usize| m2.has(d) implies #[trigger] m2.def(d) == m1.def(d) by {
            assert(m2.view(d).definition == m1.view(d).definition);
        }
        assert forall|d: usize| m2.has(d) && d != c implies #[trigger] m2.red(d) == m1.red(d) by {
            assert(m2.view(d).reduction == m1.view(d).reduction);
        }
        lemma_labellee_kept(m1, m2, t);
    }
}

/// Adding a string concept for a text keeps what every other text reads as.
pub proof fn lemma_reading_kept_by_new_string(m1: Model, text: Seq<char>, s: Seq<char>)
    requires
        m1.sound(),
        m1.len() <= usize::MAX,
        s != text,
    ensures
        (Model { strings: m1.strings.insert(text, m1.len() as usize), ..m1.appended(empty_view(ConceptKind::Text, text)) }).concept_of_label(s)
            == m1.concept_of_label(s),
{
    let m2 = Model { strings: m1.strings.insert(text, m1.len() as usize), ..m1.appended(empty_view(ConceptKind::Text, text)) };
    lemma_append_string(m1, text, None);
    if m1.strings.contains_key(s) {
        let t = m1.strings[s];
        assert forall|d: usize| m2.has(d) && m2.is_label_def(d) && #[trigger] m2.red(d) == Some(t) implies m1.has(d)
            && m1.def(d) == m2.def(d) && m1.red(d) == Some(t) by {
            if !m1.has(d) {
                assert(m2.view(d) == empty_view(ConceptKind::Text, text));
            }
        }
        lemma_labellee_kept(m1, m2, t);
    }
}

/// A command that reads as a tree gives a tree of ordinary, nameable concepts.
pub proof fn lemma_parsed_ok(m: Model, s: Seq<char>)
    requires
        m.wf(),
    ensures
        m.parsed(s) matches Ok(t) ==> m.tree_ok(t),
    decreases s.len(),
{
    let ts = tokens_of(s);
    if ts.len() == 1 || ts.len() == 2 {
        assert forall|i: int| 0 <= i < ts.len() implies (#[trigger] m.token_tree(ts[i], s) matches Ok(t) ==> m.tree_ok(t)) by {
            if ts[i].contains(' ') {
                if ts[i].len() < s.len() {
                    lemma_parsed_ok(m, ts[i]);
                }
            } else if m.strings.contains_key(ts[i]) {
                lemma_labellee_ok(m, m.strings[ts[i]]);
            }
        }
        if ts.len() == 2 {
            if let (Ok(a), Ok(b)) = (m.token_tree(ts[0], s), m.token_tree(ts[1], s)) {
                lemma_combined_ok(m, a, b);
            }
        }
    }
}

/// Finding the concepts that symbols label.
pub trait SyntaxFinder: StringConcept + Label {
    /// The concept that a text labels, if any.
    fn concept_from_label(&self, s: &str) -> (r: Option<usize>)
        requires
            self.model().sound(),
        ensures
            r == self.model().concept_of_label(s@),
    ;

    /// The symbol of a text, denoting the concept it labels, if any.
    fn ast_from_symbol(&self, s: &str) -> (r: AbstractSyntaxTree)
        requires
            self.model().sound(),
        ensures
            r@ == (SyntaxTree::Leaf { string: s@, concept: self.model().concept_of_label(s@) }),
    ;
}

impl SyntaxFinder for Context {
    fn concept_from_label(&self, s: &str) -> (r: Option<usize>) {
        match self.get_string_concept(s) {
            None => None,
            Some(c) => {
                assert(self.model().strings.contains_key(s@));
                self.get_labellee(c)
            },
        }
    }

    fn ast_from_symbol(&self, s: &str) -> (r: AbstractSyntaxTree) {
        let concept_if_exists = self.concept_from_label(s);
        AbstractSyntaxTree::new(s, concept_if_exists)
    }
}

/// Reading commands as syntax trees.
pub trait SyntaxConverter: SyntaxFinder + Combine {
    /// The syntax tree of a command: a symbol, or the expression of two
    /// tokens; an error for empty parentheses or more than two tokens.
    fn ast_from_expression(&self, s: &str) -> (r: ZiaResult<AbstractSyntaxTree>)
        requires
            self.model().sound(),
            parsable(s@),
        ensures
            match r {
                Ok(t) => self.model().parsed(s@) == Ok::<SyntaxTree, ZiaError>(t@),
                Err(e) => self.model().parsed(s@) == Err::<SyntaxTree, ZiaError>(e),
            },
        decreases s@.len(), 2nat,
    ;

    /// The expression of two tokens.
    fn ast_from_pair(&self, left: &str, right: &str, whole: Ghost<Seq<char>>) -> (r: ZiaResult<AbstractSyntaxTree>)
        requires
            self.model().sound(),
            left@.contains(' ') ==> left@.len() < whole@.len() && parsable(left@),
            right@.contains(' ') ==> right@.len() < whole@.len() && parsable(right@),
        ensures
            match r {
                Ok(t) => match (self.model().token_tree(left@, whole@), self.model().token_tree(right@, whole@)) {
                    (Ok(a), Ok(b)) => t@ == self.model().combined(a, b),
                    _ => false,
                },
                Err(e) => self.model().token_tree(left@, whole@) == Err::<SyntaxTree, ZiaError>(e) || (
                self.model().token_tree(left@, whole@) is Ok && self.model().token_tree(right@, whole@) == Err::<
                    SyntaxTree,
                    ZiaError,
                >(e)),
            },
        decreases whole@.len(), 1nat,
    ;

    /// The tree of a token: an expression when it holds a space, else a symbol.
    fn ast_from_token(&self, t: &str, whole: Ghost<Seq<char>>) -> (r: ZiaResult<AbstractSyntaxTree>)
        requires
            self.model().sound(),
            t@.contains(' ') ==> t@.len() < whole@.len() && parsable(t@),
        ensures
            match r {
                Ok(tree) => self.model().token_tree(t@, whole@) == Ok::<SyntaxTree, ZiaError>(tree@),
                Err(e) => self.model().token_tree(t@, whole@) == Err::<SyntaxTree, ZiaError>(e),
            },
        decreases whole@.len(), 0nat,
    ;
}

impl SyntaxConverter for Context {
    fn ast_from_expression(&self, s: &str) -> (r: ZiaResult<AbstractSyntaxTree>)
        decreases s@.len(), 2nat,
    {
        let tokens = parse_line(s);
        let ghost ts = tokens_of(s@);
        proof {
            assert(tokens@.map_values(|t: String| t@).len() == tokens.len());
        }
        match tokens.len() {
            0 => Err(ZiaError::EmptyParentheses),
            1 => {
                assert(tokens[0]@ == ts[0]);
                self.ast_from_token(tokens[0].as_str(), Ghost(s@))
            },
            2 => {
                assert(tokens[0]@ == ts[0]);
                assert(tokens[1]@ == ts[1]);
                self.ast_from_pair(tokens[0].as_str(), tokens[1].as_str(), Ghost(s@))
            },
            _ => Err(ZiaError::AmbiguousExpression),
        }
    }

    fn ast_from_pair(&self, left: &str, right: &str, whole: Ghost<Seq<char>>) -> (r: ZiaResult<AbstractSyntaxTree>)
        decreases whole@.len(), 1nat,
    {
        let lefthand = match self.ast_from_token(left, whole) {
            Ok(t) => t,
            Err(e) => { return Err(e); },
        };
        let righthand = match self.ast_from_token(right, whole) {
            Ok(t) => t,
            Err(e) => { return Err(e); },
        };
        proof {
            lemma_tree_concepts_exist(self.model(), left@, whole@);
            lemma_tree_concepts_exist(self.model(), right@, whole@);
        }
        Ok(self.combine(&lefthand, &righthand))
    }

    fn ast_from_token(&self, t: &str, whole: Ghost<Seq<char>>) -> (r: ZiaResult<AbstractSyntaxTree>)
        decreases whole@.len(), 0nat,
    {
        if has_space(t) {
            self.ast_from_expression(t)
        } else {
            Ok(self.ast_from_symbol(t))
        }
    }
}

/// The concept of a token's tree, if any, is a concept of the model.
pub proof fn lemma_tree_concepts_exist(m: Model, t: Seq<char>, whole: Seq<char>)
    requires
        m.sound(),
    ensures
        m.token_tree(t, whole) matches Ok(tree) ==> (tree.concept() matches Some(c) ==> m.has(c)),
    decreases whole.len(), 0nat,
{
    if t.contains(' ') {
        if t.len() < whole.len() {
            lemma_parsed_concepts_exist(m, t);
        }
    } else if m.strings.contains_key(t) {
        lemma_labellee_ok(m, m.strings[t]);
    }
}

/// The concept of a command's tree, if any, is a concept of the model.
pub proof fn lemma_parsed_concepts_exist(m: Model, s: Seq<char>)
    requires
        m.sound(),
    ensures
        m.parsed(s) matches Ok(tree) ==> (tree.concept() matches Some(c) ==> m.has(c)),
    decreases s.len(), 1nat,
{
    let ts = tokens_of(s);
    if ts.len() == 1 {
        if !(ts[0].contains(' ') && !(ts[0].len() < s.len())) {
            lemma_tree_concepts_exist(m, ts[0], s);
        }
    } else if ts.len() == 2 {
        if let (Ok(a), Ok(b)) = (m.token_tree(ts[0], s), m.token_tree(ts[1], s)) {
            if let (Some(l), Some(r)) = (a.concept(), b.concept()) {
                if let Some(d) = m.definition_of(l, r) {
                    let w = choose|w: usize| m.has(w) && #[trigger] m.def(w) == Some((l, r));
                }
            }
        }
    }
}

} // verus!
