use vstd::prelude::*;
use crate::model::{LABEL, Model};
use crate::reading::{lemma_end_in_range, lemma_labels_unique, lemma_no_cycle};
use crate::ast::SyntaxTree;
use crate::errors::{ZiaError, ZiaResult};
use crate::syntax::lemma_definition_of_def;
use crate::token::{joint_text, lex, lex_step, token_of, tokens_of, LexState};

verus! {

/// A concept contains only concepts of lower definition rank.
pub proof fn lemma_contains_rank(m: Model, x: usize, y: usize)
    requires
        m.sound(),
        m.has(x),
        m.contains(x, y),
    ensures
        m.drank(y) < m.drank(x),
    decreases m.drank(x),
{
    let (l, r) = m.def(x).unwrap();
    assert(m.def(x) == Some((l, r)));
    assert(m.has(l) && m.has(r));
    if l != y && r != y {
        if m.contains(l, y) {
            lemma_contains_rank(m, l, y);
        } else {
            lemma_contains_rank(m, r, y);
        }
    }
}

/// A chain of reductions that does not pass through `c` ends in the same place
/// after `c` is given a reduction.
proof fn lemma_end_unchanged(m: Model, m2: Model, x: usize, c: usize, r: Option<usize>)
    requires
        m.sound(),
        m2.sound(),
        m.has(x),
        !m.reaches(x, c),
        m.with_reduction_of(m2, c, r),
    ensures
        m2.end_of(x) == m.end_of(x),
        m2.normal_form(x) == m.normal_form(x),
    decreases m.rrank(x),
{
    assert(m.view(x) == m.view(x));
    assert(x != c);
    assert(m2.red(x) == m.red(x));
    if let Some(n) = m.red(x) {
        assert(m.has(n));
        assert(m.rrank(n) < m.rrank(x));
        assert(m2.rrank(n) < m2.rrank(x));
        lemma_end_unchanged(m, m2, n, c, r);
    }
}

/// After a concept is made to reduce to `n`, its normal form is the end of the
/// chain of reductions from `n`: `n` itself when `n` does not reduce.
pub proof fn law_reduction_sets_normal_form(m: Model, m2: Model, c: usize, n: usize)
    requires
        m.sound(),
        m2.sound(),
        m.has(c),
        m.has(n),
        !m.reaches(n, c),
        m.with_reduction_of(m2, c, Some(n)),
    ensures
        m2.normal_form(c) == Some(
            match m.normal_form(n) {
                Some(e) => e,
                None => n,
            },
        ),
{
    assert(m.view(c) == m.view(c));
    assert(m2.red(c) == Some(n));
    assert(m2.rrank(n) < m2.rrank(c));
    lemma_end_unchanged(m, m2, n, c, Some(n));
    assert(m.view(n) == m.view(n));
    if m.red(n) is None {
        assert(m2.red(n) is None);
        assert(m2.end_of(n) == n);
    }
}

/// After the reduction of a concept is removed, the concept has no normal form.
pub proof fn law_removed_reduction_leaves_no_normal_form(m: Model, m2: Model, c: usize)
    requires
        m.has(c),
        m.with_reduction_of(m2, c, None),
    ensures
        m2.normal_form(c) is None,
{
    assert(m.view(c) == m.view(c));
}

/// A reduction that was just set is redundant when set again, and the loop
/// check does not refuse it: setting it again is answered `RedundantReduction`.
pub proof fn law_repeated_reduction_is_redundant(m: Model, m2: Model, c: usize, n: usize)
    requires
        m.sound(),
        m2.sound(),
        m.has(c),
        m.has(n),
        m.with_reduction_of(m2, c, Some(n)),
    ensures
        m2.red(c) == Some(n),
        !m2.reaches(n, c),
{
    assert(m.view(c) == m.view(c));
    assert(m2.has(c));
    lemma_no_cycle(m2, n, c);
}

/// No chain of reductions loops: a concept that reduces is never reached again
/// from what it reduces to.
pub proof fn law_reductions_never_loop(m: Model, c: usize)
    requires
        m.sound(),
        m.has(c),
    ensures
        m.red(c) matches Some(n) ==> !m.reaches(n, c),
{
    if let Some(n) = m.red(c) {
        assert(m.has(n));
        lemma_no_cycle(m, n, c);
    }
}

/// No concept is a part, at any depth, of its own definition.
pub proof fn law_definitions_never_contain_themselves(m: Model, c: usize)
    requires
        m.sound(),
        m.has(c),
    ensures
        !m.contains(c, c),
{
    if m.contains(c, c) {
        lemma_contains_rank(m, c, c);
    }
}

/// A string concept labels at most one concept.
pub proof fn law_labels_are_unique(m: Model, x: usize, y: usize, t: usize)
    requires
        m.sound(),
        m.labels(x, t),
        m.labels(y, t),
    ensures
        x == y,
{
    lemma_labels_unique(m, x, y, t);
}

/// A pair of concepts defines at most one concept, and that concept is the
/// one that finding the definition of the pair gives.
pub proof fn law_definitions_are_unique(m: Model, a: usize, l: usize, r: usize)
    requires
        m.sound(),
        m.has(a),
        m.def(a) == Some((l, r)),
    ensures
        m.definition_of(l, r) == Some(a),
        forall|b: usize| m.has(b) && #[trigger] m.def(b) == Some((l, r)) ==> b == a,
{
    lemma_definition_of_def(m, a);
}

/// Only label definitions are made with `LABEL`, and `LABEL` itself is never
/// defined and never reduces.
pub proof fn law_label_is_built_in(m: Model)
    requires
        m.sound(),
    ensures
        m.has(LABEL),
        m.def(LABEL) is None,
        m.red(LABEL) is None,
        forall|x: usize| m.has(x) && #[trigger] m.uses_on_left(x, LABEL) ==> m.is_label_def(x),
{
}

/// Removing a reduction that was just set, on a concept that had none, gives
/// back the definitions and reductions of every concept.
pub proof fn law_removing_a_new_reduction_restores(m0: Model, m1: Model, m2: Model, c: usize, n: usize)
    requires
        m0.has(c),
        m0.red(c) is None,
        m0.with_reduction_of(m1, c, Some(n)),
        m1.with_reduction_of(m2, c, None),
    ensures
        m0.with_reduction_of(m2, c, None),
        forall|x: usize| m0.has(x) ==> #[trigger] m2.red(x) == m0.red(x) && m2.def(x) == m0.def(x),
{
    assert forall|x: usize| m0.has(x) implies #[trigger] m2.red(x) == m0.red(x) && m2.def(x) == m0.def(x) by {
        assert(m0.view(x) == m0.view(x));
        assert(m1.view(x) == m1.view(x));
    }
    assert forall|x: usize| #![trigger m2.view(x)] m0.has(x) implies {
        &&& m2.view(x).kind == m0.view(x).kind
        &&& m2.view(x).definition == m0.view(x).definition
        &&& m2.view(x).string == m0.view(x).string
        &&& m2.view(x).lefthand_of == m0.view(x).lefthand_of
        &&& m2.view(x).righthand_of == m0.view(x).righthand_of
        &&& m2.view(x).reduction == (if x == c {
            None
        } else {
            m0.view(x).reduction
        })
    } by {
        assert(m0.view(x) == m0.view(x));
        assert(m1.view(x) == m1.view(x));
    }
}

/// Removing a definition that was just given to an undefined concept gives
/// back the definitions and reductions of every concept.
pub proof fn law_removing_a_new_definition_restores(m0: Model, m1: Model, m2: Model, d: usize, l: usize, r: usize)
    requires
        m0.has(d),
        m0.def(d) is None,
        m0.with_definition_of(m1, d, Some((l, r))),
        m1.with_definition_of(m2, d, None),
    ensures
        m0.with_definition_of(m2, d, None),
        forall|x: usize| m0.has(x) ==> #[trigger] m2.def(x) == m0.def(x) && m2.red(x) == m0.red(x),
{
    assert forall|x: usize| m0.has(x) implies #[trigger] m2.def(x) == m0.def(x) && m2.red(x) == m0.red(x) by {
        assert(m0.view(x) == m0.view(x));
        assert(m1.view(x) == m1.view(x));
    }
    assert forall|x: usize| #![trigger m2.view(x)] m0.has(x) implies {
        &&& m2.view(x).kind == m0.view(x).kind
        &&& m2.view(x).reduction == m0.view(x).reduction
        &&& m2.view(x).string == m0.view(x).string
        &&& m2.view(x).reduces_from == m0.view(x).reduces_from
        &&& m2.view(x).definition == (if x == d {
            None
        } else {
            m0.view(x).definition
        })
    } by {
        assert(m0.view(x) == m0.view(x));
        assert(m1.view(x) == m1.view(x));
    }
}

/// The tokenizer's state after reading `t` from the state `st`.
pub open spec fn lex_from(st: LexState, t: Seq<char>) -> LexState
    decreases t.len(),
{
    if t.len() == 0 {
        st
    } else {
        lex_step(lex_from(st, t.drop_last()), t.last())
    }
}

/// Opening minus closing parentheses in a text.
pub open spec fn depth(s: Seq<char>) -> int
    decreases s.len(),
{
    if s.len() == 0 {
        0
    } else {
        depth(s.drop_last()) + if s.last() == '(' {
            1int
        } else if s.last() == ')' {
            -1int
        } else {
            0int
        }
    }
}

/// A symbol's text: not empty, and without spaces, parentheses or line breaks.
pub open spec fn atom_text(s: Seq<char>) -> bool {
    &&& s.len() > 0
    &&& forall|i: int| 0 <= i < s.len() ==> #[trigger] s[i] != ' ' && s[i] != '(' && s[i] != ')' && s[i] != '\n' && s[i] != '\r'
}

/// An expression's text: it holds a space, no line break, and balanced parentheses.
pub open spec fn expression_text(s: Seq<char>) -> bool {
    &&& s.contains(' ')
    &&& forall|i: int| 0 <= i < s.len() ==> #[trigger] s[i] != '\n' && s[i] != '\r'
    &&& forall|k: int| 0 <= k <= s.len() ==> depth(#[trigger] s.take(k)) >= 0
    &&& depth(s) == 0
}

/// The parts of a token that the tokenizer reads back.
pub open spec fn token_text(p: (bool, Seq<char>)) -> bool {
    if p.0 {
        expression_text(p.1)
    } else {
        atom_text(p.1)
    }
}

/// Reading two texts one after the other reads the second from where the first ended.
proof fn lemma_lex_from_append(st: LexState, s: Seq<char>, t: Seq<char>)
    ensures
        lex_from(st, s + t) == lex_from(lex_from(st, s), t),
    decreases t.len(),
{
    if t.len() == 0 {
        assert(s + t =~= s);
    } else {
        assert((s + t).drop_last() =~= s + t.drop_last());
        assert((s + t).last() == t.last());
        lemma_lex_from_append(st, s, t.drop_last());
    }
}

/// Reading from the start is reading from the empty state.
proof fn lemma_lex_is_lex_from(s: Seq<char>)
    ensures
        lex(s) == lex_from(LexState { level: 0, token: Seq::empty(), tokens: Seq::empty() }, s),
    decreases s.len(),
{
    if s.len() > 0 {
        lemma_lex_is_lex_from(s.drop_last());
    }
}

/// At depth zero with no token begun, a symbol's text becomes the token begun.
proof fn lemma_lex_atom(ts: Seq<Seq<char>>, a: Seq<char>, k: int)
    requires
        forall|i: int| 0 <= i < a.len() ==> #[trigger] a[i] != ' ' && a[i] != '(' && a[i] != ')' && a[i] != '\n' && a[i] != '\r',
        0 <= k <= a.len(),
    ensures
        lex_from(LexState { level: 0, token: Seq::empty(), tokens: ts }, a.take(k)) == (LexState {
            level: 0,
            token: a.take(k),
            tokens: ts,
        }),
    decreases k,
{
    if k > 0 {
        lemma_lex_atom(ts, a, k - 1);
        assert(a.take(k).drop_last() =~= a.take(k - 1));
        assert(a.take(k).last() == a[k - 1]);
        assert(a.take(k - 1).push(a[k - 1]) =~= a.take(k));
    } else {
        assert(a.take(0) =~= Seq::<char>::empty());
    }
}

/// Inside parentheses, an expression's text is kept whole in the token.
proof fn lemma_lex_inside(ts: Seq<Seq<char>>, e: Seq<char>, k: int)
    requires
        expression_text(e),
        0 <= k <= e.len(),
    ensures
        lex_from(LexState { level: 1, token: Seq::empty(), tokens: ts }, e.take(k)) == (LexState {
            level: 1 + depth(e.take(k)),
            token: e.take(k),
            tokens: ts,
        }),
    decreases k,
{
    if k > 0 {
        lemma_lex_inside(ts, e, k - 1);
        assert(e.take(k).drop_last() =~= e.take(k - 1));
        assert(e.take(k).last() == e[k - 1]);
        assert(e.take(k - 1).push(e[k - 1]) =~= e.take(k));
        assert(depth(e.take(k - 1)) >= 0);
        assert(depth(e.take(k)) >= 0);
        assert(e[k - 1] != '\n' && e[k - 1] != '\r');
    } else {
        assert(e.take(0) =~= Seq::<char>::empty());
    }
}

/// At depth zero with no token begun, a parenthesised expression becomes a
/// completed token.
proof fn lemma_lex_expression(ts: Seq<Seq<char>>, e: Seq<char>)
    requires
        expression_text(e),
    ensures
        lex_from(LexState { level: 0, token: Seq::empty(), tokens: ts }, "("@ + e + ")"@) == (LexState {
            level: 0,
            token: Seq::empty(),
            tokens: ts.push(e),
        }),
{
    reveal_strlit("(");
    reveal_strlit(")");
    let st0 = LexState { level: 0, token: Seq::<char>::empty(), tokens: ts };
    let open = "("@;
    assert(open =~= seq!['(']);
    assert(lex_from(st0, open) == lex_step(lex_from(st0, open.drop_last()), '('));
    assert(open.drop_last() =~= Seq::<char>::empty());
    let st1 = LexState { level: 1, token: Seq::<char>::empty(), tokens: ts };
    assert(lex_from(st0, open) == st1);
    lemma_lex_inside(ts, e, e.len() as int);
    assert(e.take(e.len() as int) =~= e);
    lemma_lex_from_append(st0, open, e);
    let close = ")"@;
    assert(close =~= seq![')']);
    assert(close.drop_last() =~= Seq::<char>::empty());
    lemma_lex_from_append(st0, open + e, close);
    let se = LexState { level: 1, token: e, tokens: ts };
    assert(lex_from(st0, open + e) == se);
    assert(lex_from(se, close) == lex_step(lex_from(se, close.drop_last()), ')'));
    assert(lex_from(se, close.drop_last()) == se);
    assert(e.len() > 0);
}

/// Joining two tokens and reading the text back gives the two tokens.
pub proof fn law_added_tokens_read_back(a: (bool, Seq<char>), b: (bool, Seq<char>))
    requires
        token_text(a),
        token_text(b),
    ensures
        tokens_of(joint_text(a) + " "@ + joint_text(b)).map_values(|t: Seq<char>| token_of(t)) == seq![a, b],
{
    reveal_strlit(" ");
    let empty = LexState { level: 0, token: Seq::<char>::empty(), tokens: Seq::<Seq<char>>::empty() };
    let j1 = joint_text(a);
    let j2 = joint_text(b);
    let sp = " "@;
    assert(sp =~= seq![' ']);
    assert(sp.drop_last() =~= Seq::<char>::empty());
    lemma_lex_is_lex_from(j1 + sp + j2);
    lemma_lex_from_append(empty, j1 + sp, j2);
    lemma_lex_from_append(empty, j1, sp);
    let ts1 = seq![a.1];
    let after_sp = LexState { level: 0, token: Seq::<char>::empty(), tokens: ts1 };
    if a.0 {
        lemma_lex_expression(Seq::empty(), a.1);
        assert(Seq::<Seq<char>>::empty().push(a.1) =~= ts1);
    } else {
        lemma_lex_atom(Seq::empty(), a.1, a.1.len() as int);
        assert(a.1.take(a.1.len() as int) =~= a.1);
    }
    let x = lex_from(empty, j1);
    assert(lex_from(x, sp) == lex_step(lex_from(x, sp.drop_last()), ' '));
    assert(lex_from(x, sp.drop_last()) == x);
    if !a.0 {
        assert(x.token.len() > 0);
    }
    assert(lex_from(empty, j1 + sp) == after_sp);
    let fin = lex_from(after_sp, j2);
    if b.0 {
        lemma_lex_expression(ts1, b.1);
        assert(fin == LexState { level: 0, token: Seq::<char>::empty(), tokens: ts1.push(b.1) });
    } else {
        lemma_lex_atom(ts1, b.1, b.1.len() as int);
        assert(b.1.take(b.1.len() as int) =~= b.1);
    }
    let toks = tokens_of(j1 + sp + j2);
    assert(toks =~= seq![a.1, b.1]);
    if !a.0 {
        assert(!a.1.contains(' '));
    }
    if !b.0 {
        assert(!b.1.contains(' '));
    }
    assert(toks.map_values(|t: Seq<char>| token_of(t)) =~= seq![a, b]);
}

/// The syntax of a concept stands for that concept.
proof fn lemma_syntax_of_concept(m: Model, c: usize)
    requires
        m.sound(),
        m.has(c),
    ensures
        m.syntax_of(c).concept() == Some(c),
    decreases m.drank(c),
{
    if m.label_of(c) is None {
        if let Some((l, r)) = m.def(c) {
            assert(m.has(l) && m.has(r));
            lemma_syntax_of_concept(m, l);
            lemma_syntax_of_concept(m, r);
            crate::syntax::lemma_definition_of_def(m, c);
        }
    }
}

/// A tree that stands for a labelled concept, in one of the shapes that a
/// step of reduction gives, is written as that label.
pub open spec fn written_as_label(m: Model, u: SyntaxTree) -> bool {
    u.concept() matches Some(d) ==> (m.label_of(d) matches Some(s) ==> u.string() == s)
}

/// Joining two trees into the concept they define shows that concept's label.
proof fn lemma_contracted_written(m: Model, a: SyntaxTree, b: SyntaxTree)
    requires
        m.sound(),
    ensures
        written_as_label(m, m.contracted(a, b)),
{
    if let (Some(lc), Some(rc)) = (a.concept(), b.concept()) {
        if let Some(d) = m.definition_of(lc, rc) {
            if m.label_of(d) is None {
                assert(m.contracted(a, b).concept() == Some(d));
            }
        }
    }
}

/// A step of reduction of a concept shows a labelled result as its label.
proof fn lemma_reduced_concept_written(m: Model, c: usize)
    requires
        m.sound(),
        m.has(c),
    ensures
        m.reduced_concept(c) matches Some(u) ==> written_as_label(m, u),
{
    if let Some(n) = m.normal_form(c) {
        lemma_end_in_range(m, c);
        lemma_syntax_of_concept(m, n);
    } else if let Some((l, r)) = m.def(c) {
        if m.drank(l) < m.drank(c) && m.drank(r) < m.drank(c) {
            let ol = m.reduced_concept(l);
            let or = m.reduced_concept(r);
            match (ol, or) {
                (None, None) => {},
                (Some(x), None) => lemma_contracted_written(m, x, m.syntax_of(r)),
                (None, Some(y)) => lemma_contracted_written(m, m.syntax_of(l), y),
                (Some(x), Some(y)) => lemma_contracted_written(m, x, y),
            }
        }
    }
}

/// One step of reduction of a tree never shows a labelled concept as its raw
/// parts: when the result stands for a labelled concept, whether one branch
/// or both branches of a pair reduced, it is written as that label.
pub proof fn law_reduction_shows_labels(m: Model, t: SyntaxTree)
    requires
        m.sound(),
        m.tree_ok(t),
    ensures
        m.reduced(t) matches Some(u) ==> (u.concept() matches Some(d) ==> (m.label_of(d) matches Some(s) ==> u.string()
            == s)),
{
    match t.concept() {
        Some(c) => lemma_reduced_concept_written(m, c),
        None => {
            if let SyntaxTree::Node { left, right, .. } = t {
                match (m.reduced(*left), m.reduced(*right)) {
                    (None, None) => {},
                    (Some(x), None) => lemma_contracted_written(m, x, *right),
                    (None, Some(y)) => lemma_contracted_written(m, *left, y),
                    (Some(x), Some(y)) => lemma_contracted_written(m, x, y),
                }
            }
        },
    }
}

/// Every concept at a leaf of the tree has no definition.
pub open spec fn leaves_undefined(m: Model, t: SyntaxTree) -> bool
    decreases t,
{
    match t {
        SyntaxTree::Leaf { concept, .. } => concept matches Some(k) ==> m.def(k) is None,
        SyntaxTree::Node { left, right, .. } => leaves_undefined(m, *left) && leaves_undefined(m, *right),
    }
}

/// The syntax of an undefined concept is a single symbol for it.
proof fn lemma_undefined_syntax(m: Model, c: usize)
    requires
        m.def(c) is None,
    ensures
        leaves_undefined(m, m.syntax_of(c)),
{
}

/// The expansion of a concept goes all the way down: no concept at any of its
/// leaves has a definition, so no part of it could be expanded further.
pub proof fn law_expansion_reaches_undefined_concepts(m: Model, c: usize)
    requires
        m.sound(),
        m.has(c),
    ensures
        leaves_undefined(m, m.expanded_concept(c)),
    decreases m.drank(c),
{
    match m.def(c) {
        Some((l, r)) => {
            assert(m.has(l) && m.has(r));
            law_expansion_reaches_undefined_concepts(m, l);
            law_expansion_reaches_undefined_concepts(m, r);
        },
        None => lemma_undefined_syntax(m, c),
    }
}

/// The expansion of a tree of concepts goes all the way down as well.
pub proof fn law_tree_expansion_reaches_undefined_concepts(m: Model, t: SyntaxTree)
    requires
        m.sound(),
        m.tree_ok(t),
    ensures
        leaves_undefined(m, m.expanded(t)),
    decreases t,
{
    match t.concept() {
        Some(c) => law_expansion_reaches_undefined_concepts(m, c),
        None => {
            if let SyntaxTree::Node { left, right, .. } = t {
                law_tree_expansion_reaches_undefined_concepts(m, *left);
                law_tree_expansion_reaches_undefined_concepts(m, *right);
            }
        },
    }
}

/// The branch of a tree at a path of choices, `false` for the lefthand
/// branch and `true` for the righthand one.
pub open spec fn branch_at(t: SyntaxTree, path: Seq<bool>) -> Option<SyntaxTree>
    decreases path.len(),
{
    if path.len() == 0 {
        Some(t)
    } else {
        match t {
            SyntaxTree::Leaf { .. } => None,
            SyntaxTree::Node { left, right, .. } => branch_at(if path[0] { *right } else { *left }, path.drop_first()),
        }
    }
}

/// A tree holds the text of every branch below it, at any depth, on either side.
pub proof fn law_every_branch_is_held(t: SyntaxTree, path: Seq<bool>)
    requires
        path.len() > 0,
        branch_at(t, path) is Some,
    ensures
        t.holds(branch_at(t, path).unwrap().string()),
    decreases path.len(),
{
    if let SyntaxTree::Node { left, right, .. } = t {
        let next = if path[0] { *right } else { *left };
        if path.len() > 1 {
            law_every_branch_is_held(next, path.drop_first());
            assert(branch_at(t, path) == branch_at(next, path.drop_first()));
        }
    }
}

/// A reduction command whose target has, at any depth and on either side, a
/// branch with the text of what is reduced is refused as expanding, and
/// changes nothing.
pub proof fn law_reduction_into_itself_is_refused(
    m: Model,
    new: Model,
    syntax: SyntaxTree,
    normal_form: SyntaxTree,
    r: ZiaResult<()>,
    path: Seq<bool>,
)
    requires
        m.reduction_executed(new, syntax, normal_form, r),
        path.len() > 0,
        branch_at(normal_form, path) matches Some(u) && u.string() == syntax.string(),
    ensures
        r == Err::<(), ZiaError>(ZiaError::ExpandingReduction),
        new == m,
{
    law_every_branch_is_held(normal_form, path);
}

/// Redefining a concept that is defined by two undefined concepts with two
/// symbols relabels the parts, so that the expansion of the concept is
/// written with the new symbols.
pub proof fn law_redefinition_relabels_the_parts(
    m: Model,
    new: Model,
    concept: usize,
    left: SyntaxTree,
    right: SyntaxTree,
    r: ZiaResult<()>,
)
    requires
        m.wf(),
        new.sound(),
        m.has(concept),
        m.def(concept) matches Some((l, rr)) && l != rr && m.def(l) is None && m.def(rr) is None,
        left is Leaf,
        right is Leaf,
        m.redefined(new, concept, left, right, r),
    ensures
        r is Ok,
        new.expanded_concept(concept).string() == left.string() + " "@ + right.string(),
{
    let (l, rr) = m.def(concept).unwrap();
    assert(m.has(concept));
    assert(m.has(l) && m.has(rr));
    assert(new.def(concept) == Some((l, rr)));
    assert(new.def(l) is None && new.def(rr) is None);
    assert(new.has(concept));
    assert(new.has(l) && new.has(rr));
    assert(new.drank(l) < new.drank(concept) && new.drank(rr) < new.drank(concept));
    assert(new.label_of(l) == Some(left.string()));
    assert(new.label_of(rr) == Some(right.string()));
    let el = new.expanded_concept(l);
    let er = new.expanded_concept(rr);
    assert(el == new.syntax_of(l));
    assert(er == new.syntax_of(rr));
    assert(el.joint() == left.string());
    assert(er.joint() == right.string());
    assert(new.expanded_concept(concept) == new.combined(el, er));
}

/// Calling a symbol whose expansion differs from it does what calling the
/// expansion does, whenever that expansion is a program.
pub proof fn law_symbol_runs_its_expansion(m: Model, new: Model, t: SyntaxTree, r: ZiaResult<String>, depth: nat)
    requires
        t is Leaf,
        depth > 0,
        m.expanded(t).string() != t.string(),
        r != Err::<String, ZiaError>(ZiaError::NotAProgram),
        m.called(new, m.expanded(t), r, (depth - 1) as nat),
    ensures
        m.called(new, t, r, depth),
{
}

} // verus!
