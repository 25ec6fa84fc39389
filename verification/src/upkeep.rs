use vstd::prelude::*;
use crate::concepts::{detached, empty_view, ConceptKind, ConceptView};
use crate::model::{LABEL, Model};

verus! {

impl Model {
    /// Nothing reduces to `n`.
    pub open spec fn unreduced_to(self, n: usize) -> bool {
        forall|y: usize| self.has(y) ==> #[trigger] self.red(y) != Some(n)
    }

    /// The reduction rules that the invariant allows: a label definition to a
    /// string concept that nothing reduces to yet, or an ordinary concept to an
    /// ordinary concept.
    pub open spec fn may_reduce_to(self, c: usize, n: usize) -> bool {
        ||| self.is_label_def(c) && self.is_text(n) && self.unreduced_to(n)
        ||| self.ordinary(c) && self.ordinary(n)
    }

    /// `new` is `self` with the reduction of `c` set to `r`: the kinds, texts,
    /// definitions and other reductions stay as they were.
    pub open spec fn with_reduction_of(self, new: Model, c: usize, r: Option<usize>) -> bool {
        &&& new.concepts.len() == self.concepts.len()
        &&& new.strings == self.strings
        &&& forall|x: usize|
            #![trigger new.view(x)]
            #![trigger self.view(x)]
            self.has(x) ==> {
                &&& new.view(x).kind == self.view(x).kind
                &&& new.view(x).definition == self.view(x).definition
                &&& new.view(x).string == self.view(x).string
                &&& new.view(x).lefthand_of == self.view(x).lefthand_of
                &&& new.view(x).righthand_of == self.view(x).righthand_of
                &&& new.view(x).reduction == (if x == c {
                    r
                } else {
                    self.view(x).reduction
                })
            }
    }

    /// `new` is `self` with the definition of `d` set to `v`: the kinds, texts,
    /// reductions and other definitions stay as they were.
    pub open spec fn with_definition_of(self, new: Model, d: usize, v: Option<(usize, usize)>) -> bool {
        &&& new.concepts.len() == self.concepts.len()
        &&& new.strings == self.strings
        &&& forall|x: usize|
            #![trigger new.view(x)]
            #![trigger self.view(x)]
            self.has(x) ==> {
                &&& new.view(x).kind == self.view(x).kind
                &&& new.view(x).reduction == self.view(x).reduction
                &&& new.view(x).string == self.view(x).string
                &&& new.view(x).reduces_from == self.view(x).reduces_from
                &&& new.view(x).definition == (if x == d {
                    v
                } else {
                    self.view(x).definition
                })
            }
    }

    /// The chain of reductions after `inner` reaches `outer` or a concept that contains `outer`.
    pub open spec fn reduction_expands(self, inner: usize, outer: usize) -> bool
        decreases self.rrank(inner),
    {
        match self.red(inner) {
            Some(n) => self.rrank(n) < self.rrank(inner) && (n == outer || self.contains(n, outer)
                || self.reduction_expands(n, outer)),
            None => false,
        }
    }

    /// `d` holds nothing and nothing refers to it.
    pub open spec fn isolated(self, d: usize) -> bool {
        &&& self.red(d) is None
        &&& self.def(d) is None
        &&& forall|y: usize| #[trigger] self.uses_on_left(y, d) ==> false
        &&& forall|y: usize| #[trigger] self.uses_on_right(y, d) ==> false
        &&& self.unreduced_to(d)
    }

    /// The definitions that the invariant allows `d` to be given: one made of
    /// ordinary concepts, or the label definition of an ordinary concept when
    /// `d` is isolated; `d` must be free of a definition and not loop.
    pub open spec fn may_define(self, d: usize, l: usize, r: usize) -> bool {
        &&& self.is_abstract(d)
        &&& d != LABEL
        &&& self.def(d) is None
        &&& self.has(l)
        &&& self.has(r)
        &&& self.ordinary(r)
        &&& (l == LABEL || self.ordinary(l))
        &&& (l == LABEL ==> self.isolated(d))
        &&& self.definition_of(l, r) is None
        &&& l != d
        &&& r != d
        &&& !self.contains(l, d)
        &&& !self.contains(r, d)
    }

    /// The definition ranks, with those of `d` and the concepts that contain it raised by `k`.
    pub open spec fn raised_def_ranks(self, d: usize, k: nat) -> Seq<nat> {
        Seq::new(
            self.len(),
            |i: int|
                if i as usize == d || self.contains(i as usize, d) {
                    self.def_rank[i] + k
                } else {
                    self.def_rank[i]
                },
        )
    }

    /// The larger definition rank of two concepts.
    pub open spec fn max_drank(self, l: usize, r: usize) -> nat {
        if self.drank(l) < self.drank(r) {
            self.drank(r)
        } else {
            self.drank(l)
        }
    }

    /// Removing the reduction of `c` keeps every ordinary concept but `e`
    /// nameable or disconnected: when `c` is the label definition of a concept,
    /// that concept is `e`, is disconnected or has a definition.
    pub open spec fn unlabel_keeps_names(self, c: usize, e: Option<usize>) -> bool {
        self.is_label_def(c) ==> {
            let y = self.def(c).unwrap().1;
            e == Some(y) || self.disconnected(y) || self.def(y) is Some
        }
    }

    /// The reduction ranks, with those of the concepts whose chain passes through `c` raised by `k`.
    pub open spec fn raised_red_ranks(self, c: usize, k: nat) -> Seq<nat> {
        Seq::new(
            self.len(),
            |i: int|
                if self.reaches(i as usize, c) {
                    self.red_rank[i] + k
                } else {
                    self.red_rank[i]
                },
        )
    }
}

/// Setting a reduction that the invariant allows, where no loop results, keeps
/// the invariant, once the ranks upstream of the reduced concept are raised.
pub proof fn lemma_reduction_set_sound(m: Model, m2: Model, c: usize, n: usize)
    requires
        m.sound(),
        m.has(c),
        m.has(n),
        m.may_reduce_to(c, n),
        !m.reaches(n, c),
        m.with_reduction_of(m2, c, Some(n)),
        m2.red_links_ok(),
        m2.red_rank == m.raised_red_ranks(c, (m.rrank(n) + 1) as nat),
        m2.def_rank == m.def_rank,
        m2.red_bound == m.red_bound + m.rrank(n) + 1,
    ensures
        m2.sound(),
{
    let k = (m.rrank(n) + 1) as nat;
    assert forall|x: usize| m.has(x) implies m2.rrank(x) == (if m.reaches(x, c) {
        m.rrank(x) + k
    } else {
        m.rrank(x)
    }) by {}
    assert(m.reaches(c, c));
    assert(m2.view(LABEL).kind == m.view(LABEL).kind);
    assert(m2.sizes_ok());
    assert(m2.kinds_ok()) by {
        assert forall|x: usize| m2.has(x) && #[trigger] m2.view(x).kind != crate::concepts::ConceptKind::Abstract implies m2.def(x) is None && m2.red(x) is None by {
            assert(m.view(x).kind != crate::concepts::ConceptKind::Abstract);
        }
    }
    assert(m2.refs_ok()) by {
        assert forall|x: usize| m2.has(x) implies match #[trigger] m2.def(x) {
            Some((l, r)) => m2.has(l) && m2.has(r),
            None => true,
        } by {
            assert(m.def(x) == m2.def(x));
        }
        assert forall|x: usize| m2.has(x) implies match #[trigger] m2.red(x) {
            Some(y) => m2.has(y),
            None => true,
        } by {
            if x != c {
                assert(m.red(x) == m2.red(x));
            }
        }
    }
    assert(m2.def_links_ok()) by {
        assert forall|x: usize, y: usize| m2.has(x) implies (#[trigger] m2.view(x).lefthand_of.contains(y) <==> m2.uses_on_left(y, x)) by {
            assert(m.view(x).lefthand_of.contains(y) <==> m.uses_on_left(y, x));
            if m.has(y) {
                assert(m.def(y) == m2.def(y));
            }
        }
        assert forall|x: usize, y: usize| m2.has(x) implies (#[trigger] m2.view(x).righthand_of.contains(y) <==> m2.uses_on_right(y, x)) by {
            assert(m.view(x).righthand_of.contains(y) <==> m.uses_on_right(y, x));
            if m.has(y) {
                assert(m.def(y) == m2.def(y));
            }
        }
        assert forall|x: usize| m2.has(x) implies {
            &&& (#[trigger] m2.view(x)).lefthand_of.no_duplicates()
            &&& m2.view(x).righthand_of.no_duplicates()
        } by {
            assert(m.view(x).lefthand_of.no_duplicates());
        }
    }
    assert(m2.defs_ok()) by {
        assert forall|d: usize| m2.has(d) implies match #[trigger] m2.def(d) {
            Some((l, r)) => (l == LABEL || m2.ordinary(l)) && m2.ordinary(r),
            None => true,
        } by {
            assert(m.def(d) == m2.def(d));
            if let Some((l, r)) = m.def(d) {
                assert(m.view(l) == m.view(l));
                assert(m.view(r) == m.view(r));
            }
        }
    }
    assert(m2.reds_ok()) by {
        assert forall|x: usize| m2.has(x) implies match #[trigger] m2.red(x) {
            Some(y) => (m2.is_label_def(x) && m2.is_text(y)) || (m2.ordinary(x) && m2.ordinary(y)),
            None => true,
        } by {
            assert(m.view(x) == m.view(x));
            if let Some(y) = m2.red(x) {
                if x == c {
                    assert(m.view(n) == m.view(n));
                } else {
                    assert(m.red(x) == Some(y));
                    assert(m.view(y) == m.view(y));
                }
            }
        }
    }
    assert(m2.texts_ok()) by {
        assert forall|a: usize, b: usize|
            m2.has(a) && m2.has(b) && #[trigger] m2.red(a) == #[trigger] m2.red(b) && (m2.red(a) matches Some(s) && m2.is_text(s)) implies a == b by {
            let s = m2.red(a)->0;
            assert(m.view(s) == m.view(s));
            if a == c && b != c {
                assert(m.red(b) == Some(n));
            } else if b == c && a != c {
                assert(m.red(a) == Some(n));
            } else if a != c && b != c {
                assert(m.red(a) == m.red(b));
            }
        }
    }
    assert(m2.unique_defs()) by {
        assert forall|a: usize, b: usize|
            m2.has(a) && m2.has(b) && #[trigger] m2.def(a) == #[trigger] m2.def(b) && m2.def(a) is Some implies a == b by {
            assert(m.def(a) == m2.def(a));
            assert(m.def(b) == m2.def(b));
        }
    }
    assert(m2.ranks_ok()) by {
        assert forall|x: usize| m2.has(x) implies match #[trigger] m2.red(x) {
            Some(y) => m2.rrank(y) < m2.rrank(x),
            None => true,
        } by {
            if x == c {
            } else if let Some(y) = m.red(x) {
                assert(m.has(y));
                assert(m.rrank(y) < m.rrank(x));
                if m.reaches(y, c) {
                    assert(m.reaches(x, c));
                }
            } else {
                assert(m2.red(x) == m.red(x));
            }
        }
        assert forall|x: usize| m2.has(x) implies match #[trigger] m2.def(x) {
            Some((l, r)) => m2.drank(l) < m2.drank(x) && m2.drank(r) < m2.drank(x),
            None => true,
        } by {
            assert(m.def(x) == m2.def(x));
        }
        assert forall|x: usize| m2.has(x) implies #[trigger] m2.rrank(x) <= m2.red_bound by {
            assert(m.rrank(x) <= m.red_bound);
        }
    }
    assert(m2.strings_ok()) by {
        assert forall|key: Seq<char>| #[trigger] m2.strings.contains_key(key) implies m2.is_text(m2.strings[key]) && m2.view(m2.strings[key]).string == key by {
            let t = m.strings[key];
            assert(m.view(t) == m.view(t));
        }
    }
}

/// Under unique definitions, the label definition of `c` is the concept defined as `(LABEL, c)`.
pub proof fn lemma_label_def_of(m: Model, c: usize, d: usize)
    requires
        m.unique_defs(),
        m.has(d),
        m.def(d) == Some((LABEL, c)),
    ensures
        m.label_def_of(c) == Some(d),
{
    let w = choose|w: usize| m.has(w) && #[trigger] m.def(w) == Some((LABEL, c));
    assert(m.def(w) == m.def(d));
}

/// The label of a concept is the text of the string concept its label definition reduces to.
pub proof fn lemma_label_of(m: Model, c: usize)
    requires
        m.sound(),
    ensures
        m.label_of(c) == match m.label_def_of(c) {
            Some(d) => match m.red(d) {
                Some(t) => Some(m.view(t).string),
                None => None,
            },
            None => None,
        },
        m.label_def_of(c) matches Some(d) ==> m.has(d) && m.def(d) == Some((LABEL, c)),
{
    if let Some(d) = m.label_def_of(c) {
        let w = choose|w: usize| m.has(w) && #[trigger] m.def(w) == Some((LABEL, c));
        assert(m.has(d));
        if let Some(t) = m.red(d) {
            assert(m.has(t));
            assert(m.is_label_def(d));
            assert(m.is_text(t));
            assert(m.red(t) is None);
            assert(m.rrank(t) < m.rrank(d));
            assert(m.end_of(t) == t);
            assert(m.end_of(d) == t);
        }
    }
}

/// Two models with the same definitions have the same label definitions.
pub proof fn lemma_same_label_defs(m: Model, m2: Model, c: usize)
    requires
        m.unique_defs(),
        m2.unique_defs(),
        m2.concepts.len() == m.concepts.len(),
        forall|x: usize| m.has(x) ==> #[trigger] m2.def(x) == m.def(x),
    ensures
        m2.label_def_of(c) == m.label_def_of(c),
{
    if exists|d: usize| m.has(d) && #[trigger] m.def(d) == Some((LABEL, c)) {
        let d = choose|d: usize| m.has(d) && #[trigger] m.def(d) == Some((LABEL, c));
        lemma_label_def_of(m, c, d);
        assert(m2.def(d) == m.def(d));
        lemma_label_def_of(m2, c, d);
    } else {
        assert forall|d: usize| m2.has(d) implies #[trigger] m2.def(d) != Some((LABEL, c)) by {
            assert(m2.def(d) == m.def(d));
        }
    }
}

/// Setting a reduction keeps every label but that of the concept whose label
/// definition is reduced, which becomes the text of the new string concept;
/// every ordinary concept stays nameable or disconnected.
pub proof fn lemma_reduction_set_names(m: Model, m2: Model, c: usize, n: usize, e: Option<usize>)
    requires
        m.sound(),
        m2.sound(),
        m.has(c),
        m.has(n),
        m.may_reduce_to(c, n),
        m.with_reduction_of(m2, c, Some(n)),
    ensures
        m.names_ok_except(e) && (m.ordinary(c) ==> m.nameable(c) && m.nameable(n)) ==> m2.names_ok_except(e),
        forall|x: usize| #[trigger] m2.label_of(x) == (if m.label_def_of(x) == Some(c) {
            Some(m.view(n).string)
        } else {
            m.label_of(x)
        }),
        forall|x: usize| m.has(x) && #[trigger] m.nameable(x) ==> m2.nameable(x),
{
    assert forall|x: usize| m.has(x) implies #[trigger] m2.def(x) == m.def(x) by {
        assert(m.view(x) == m.view(x));
    }
    assert forall|x: usize| #[trigger] m2.label_of(x) == (if m.label_def_of(x) == Some(c) {
        Some(m.view(n).string)
    } else {
        m.label_of(x)
    }) by {
        lemma_same_label_defs(m, m2, x);
        lemma_label_of(m, x);
        lemma_label_of(m2, x);
        if let Some(d) = m.label_def_of(x) {
            assert(m.view(d) == m.view(d));
            if let Some(t) = m2.red(d) {
                assert(m.view(t) == m.view(t));
            }
        }
    }
    assert forall|x: usize| m.has(x) && #[trigger] m.nameable(x) implies m2.nameable(x) by {
        assert(m2.label_of(x) == (if m.label_def_of(x) == Some(c) {
            Some(m.view(n).string)
        } else {
            m.label_of(x)
        }));
    }
    if m.names_ok_except(e) && (m.ordinary(c) ==> m.nameable(c) && m.nameable(n)) {
    assert forall|x: usize| #[trigger] m2.ordinary(x) && e != Some(x) implies m2.nameable(x) || m2.disconnected(x) by {
        assert(m.view(x) == m.view(x));
        assert(m.ordinary(x));
        if !m.nameable(x) {
            assert(m.disconnected(x));
            assert(m2.label_of(x) == (if m.label_def_of(x) == Some(c) {
                Some(m.view(n).string)
            } else {
                m.label_of(x)
            }));
            if m2.label_of(x) is None {
                assert(x != c);
                assert(x != n) by {
                    assert(m.view(n) == m.view(n));
                }
                assert forall|y: usize| #[trigger] m2.uses_on_left(y, x) implies false by {
                    assert(m.uses_on_left(y, x));
                }
                assert forall|y: usize| #[trigger] m2.uses_on_right(y, x) implies m2.is_label_def(y) by {
                    assert(m.uses_on_right(y, x));
                }
                assert forall|y: usize| m2.has(y) implies #[trigger] m2.red(y) != Some(x) by {
                    assert(m.view(y) == m.view(y));
                    if y != c {
                        assert(m.red(y) != Some(x));
                    }
                }
            }
        }
    }
    }
}

/// Removing a reduction keeps the invariant; the concept whose label
/// definition loses its reduction loses its label, and every other ordinary
/// concept stays nameable or disconnected.
pub proof fn lemma_reduction_clear(m: Model, m2: Model, c: usize, e: Option<usize>)
    requires
        m.sound(),
        m.has(c),
        m.red(c) is Some,
        m.with_reduction_of(m2, c, None),
        m2.red_links_ok(),
        m2.red_rank == m.red_rank,
        m2.def_rank == m.def_rank,
        m2.red_bound == m.red_bound,
    ensures
        m2.sound(),
        m.names_ok_except(e) && m.unlabel_keeps_names(c, e) ==> m2.names_ok_except(e),
        forall|x: usize| #[trigger] m2.label_of(x) == (if m.label_def_of(x) == Some(c) {
            None
        } else {
            m.label_of(x)
        }),
{
    assert forall|x: usize| m.has(x) implies #[trigger] m2.def(x) == m.def(x) by {
        assert(m.view(x) == m.view(x));
    }
    assert(m2.view(LABEL).kind == m.view(LABEL).kind);
    assert(m2.sizes_ok());
    assert(m2.kinds_ok()) by {
        assert forall|x: usize| m2.has(x) && #[trigger] m2.view(x).kind != crate::concepts::ConceptKind::Abstract implies m2.def(x) is None && m2.red(x) is None by {
            assert(m.view(x).kind != crate::concepts::ConceptKind::Abstract);
        }
    }
    assert(m2.refs_ok()) by {
        assert forall|x: usize| m2.has(x) implies match #[trigger] m2.def(x) {
            Some((l, r)) => m2.has(l) && m2.has(r),
            None => true,
        } by {
            assert(m.def(x) == m2.def(x));
        }
        assert forall|x: usize| m2.has(x) implies match #[trigger] m2.red(x) {
            Some(y) => m2.has(y),
            None => true,
        } by {
            if x != c {
                assert(m.red(x) == m2.red(x));
            }
        }
    }
    assert(m2.def_links_ok()) by {
        assert forall|x: usize, y: usize| m2.has(x) implies (#[trigger] m2.view(x).lefthand_of.contains(y) <==> m2.uses_on_left(y, x)) by {
            assert(m.view(x).lefthand_of.contains(y) <==> m.uses_on_left(y, x));
            if m.has(y) {
                assert(m.def(y) == m2.def(y));
            }
        }
        assert forall|x: usize, y: usize| m2.has(x) implies (#[trigger] m2.view(x).righthand_of.contains(y) <==> m2.uses_on_right(y, x)) by {
            assert(m.view(x).righthand_of.contains(y) <==> m.uses_on_right(y, x));
            if m.has(y) {
                assert(m.def(y) == m2.def(y));
            }
        }
        assert forall|x: usize| m2.has(x) implies {
            &&& (#[trigger] m2.view(x)).lefthand_of.no_duplicates()
            &&& m2.view(x).righthand_of.no_duplicates()
        } by {
            assert(m.view(x).lefthand_of.no_duplicates());
        }
    }
    assert(m2.defs_ok()) by {
        assert forall|d: usize| m2.has(d) implies match #[trigger] m2.def(d) {
            Some((l, r)) => (l == LABEL || m2.ordinary(l)) && m2.ordinary(r),
            None => true,
        } by {
            assert(m.def(d) == m2.def(d));
            if let Some((l, r)) = m.def(d) {
                assert(m.view(l) == m.view(l));
                assert(m.view(r) == m.view(r));
            }
        }
    }
    assert(m2.reds_ok()) by {
        assert forall|x: usize| m2.has(x) implies match #[trigger] m2.red(x) {
            Some(y) => (m2.is_label_def(x) && m2.is_text(y)) || (m2.ordinary(x) && m2.ordinary(y)),
            None => true,
        } by {
            assert(m.view(x) == m.view(x));
            if let Some(y) = m2.red(x) {
                assert(m.red(x) == Some(y));
                assert(m.view(y) == m.view(y));
            }
        }
    }
    assert(m2.texts_ok()) by {
        assert forall|a: usize, b: usize|
            m2.has(a) && m2.has(b) && #[trigger] m2.red(a) == #[trigger] m2.red(b) && (m2.red(a) matches Some(s) && m2.is_text(s)) implies a == b by {
            let s = m2.red(a)->0;
            assert(m.view(s) == m.view(s));
            assert(m.view(a) == m.view(a));
            assert(m.view(b) == m.view(b));
            assert(m.red(a) == m.red(b));
        }
    }
    assert(m2.unique_defs()) by {
        assert forall|a: usize, b: usize|
            m2.has(a) && m2.has(b) && #[trigger] m2.def(a) == #[trigger] m2.def(b) && m2.def(a) is Some implies a == b by {
            assert(m.def(a) == m2.def(a));
            assert(m.def(b) == m2.def(b));
        }
    }
    assert(m2.ranks_ok()) by {
        assert forall|x: usize| m2.has(x) implies match #[trigger] m2.red(x) {
            Some(y) => m2.rrank(y) < m2.rrank(x),
            None => true,
        } by {
            assert(m.view(x) == m.view(x));
            if x != c {
                assert(m.red(x) == m2.red(x));
            }
        }
        assert forall|x: usize| m2.has(x) implies match #[trigger] m2.def(x) {
            Some((l, r)) => m2.drank(l) < m2.drank(x) && m2.drank(r) < m2.drank(x),
            None => true,
        } by {
            assert(m.def(x) == m2.def(x));
        }
        assert forall|x: usize| m2.has(x) implies #[trigger] m2.rrank(x) <= m2.red_bound by {
            assert(m.rrank(x) <= m.red_bound);
        }
    }
    assert(m2.strings_ok()) by {
        assert forall|key: Seq<char>| #[trigger] m2.strings.contains_key(key) implies m2.is_text(m2.strings[key]) && m2.view(m2.strings[key]).string == key by {
            let t = m.strings[key];
            assert(m.view(t) == m.view(t));
        }
    }
    assert forall|x: usize| #[trigger] m2.label_of(x) == (if m.label_def_of(x) == Some(c) {
        None
    } else {
        m.label_of(x)
    }) by {
        lemma_same_label_defs(m, m2, x);
        lemma_label_of(m, x);
        lemma_label_of(m2, x);
        if let Some(d) = m.label_def_of(x) {
            assert(m.view(d) == m.view(d));
            if let Some(t) = m2.red(d) {
                assert(m.view(t) == m.view(t));
            }
        }
    }
    if m.names_ok_except(e) && m.unlabel_keeps_names(c, e) {
    assert forall|x: usize| #[trigger] m2.ordinary(x) && e != Some(x) implies m2.nameable(x) || m2.disconnected(x) by {
        assert(m.view(x) == m.view(x));
        assert(m.ordinary(x));
        assert(m2.label_of(x) == (if m.label_def_of(x) == Some(c) {
            None
        } else {
            m.label_of(x)
        }));
        let disconnected_before = m.disconnected(x);
        if m.label_def_of(x) == Some(c) {
            lemma_label_of(m, x);
            assert(m.def(c) == Some((LABEL, x)));
        }
        if disconnected_before {
            assert(x != c);
            assert forall|y: usize| #[trigger] m2.uses_on_left(y, x) implies false by {
                assert(m.uses_on_left(y, x));
            }
            assert forall|y: usize| #[trigger] m2.uses_on_right(y, x) implies m2.is_label_def(y) by {
                assert(m.uses_on_right(y, x));
            }
            assert forall|y: usize| m2.has(y) implies #[trigger] m2.red(y) != Some(x) by {
                assert(m.view(y) == m.view(y));
                if y != c {
                    assert(m.red(y) != Some(x));
                }
            }
        }
    }
    }
}

/// Giving a concept a definition that the invariant allows keeps the
/// invariant, once the definition ranks of the concepts that contain it are raised.
pub proof fn lemma_definition_set_sound(m: Model, m2: Model, d: usize, l: usize, r: usize)
    requires
        m.sound(),
        m.may_define(d, l, r),
        m.with_definition_of(m2, d, Some((l, r))),
        m2.def_links_ok(),
        m2.def_rank == m.raised_def_ranks(d, m.max_drank(l, r) + 1),
        m2.red_rank == m.red_rank,
        m2.red_bound == m.red_bound,
    ensures
        m2.sound(),
{
    let k = m.max_drank(l, r) + 1;
    assert forall|x: usize| m.has(x) implies m2.drank(x) == (if x == d || m.contains(x, d) {
        m.drank(x) + k
    } else {
        m.drank(x)
    }) by {}
    assert forall|x: usize| m.has(x) && x != d implies #[trigger] m2.def(x) == m.def(x) by {
        assert(m.view(x) == m.view(x));
    }
    assert forall|x: usize| m.has(x) implies #[trigger] m2.red(x) == m.red(x) by {
        assert(m.view(x) == m.view(x));
    }
    assert(m.ordinary(d));
    assert(l == LABEL ==> m2.is_label_def(d));
    assert(l != LABEL ==> m2.ordinary(d));
    assert forall|x: usize| m.has(x) && x != d implies (#[trigger] m2.ordinary(x) == m.ordinary(x) && m2.is_label_def(x)
        == m.is_label_def(x) && m2.is_text(x) == m.is_text(x)) by {
        assert(m.view(x) == m.view(x));
    }
    assert(m2.view(LABEL).kind == m.view(LABEL).kind);
    assert(m2.sizes_ok());
    assert(m2.kinds_ok()) by {
        assert forall|x: usize| m2.has(x) && #[trigger] m2.view(x).kind != crate::concepts::ConceptKind::Abstract implies m2.def(x) is None && m2.red(x) is None by {
            assert(m.view(x).kind != crate::concepts::ConceptKind::Abstract);
        }
    }
    assert(m2.refs_ok()) by {
        assert forall|x: usize| m2.has(x) implies match #[trigger] m2.def(x) {
            Some((a, b)) => m2.has(a) && m2.has(b),
            None => true,
        } by {
            if x != d {
                assert(m.def(x) == m2.def(x));
            }
        }
        assert forall|x: usize| m2.has(x) implies match #[trigger] m2.red(x) {
            Some(y) => m2.has(y),
            None => true,
        } by {
            assert(m.red(x) == m2.red(x));
        }
    }
    assert(m2.red_links_ok()) by {
        assert forall|x: usize, y: usize| m2.has(x) implies (#[trigger] m2.view(x).reduces_from.contains(y) <==> (m2.has(y)
            && m2.red(y) == Some(x))) by {
            assert(m.view(x).reduces_from.contains(y) <==> (m.has(y) && m.red(y) == Some(x)));
            if m.has(y) {
                assert(m.red(y) == m2.red(y));
            }
        }
        assert forall|x: usize| m2.has(x) implies (#[trigger] m2.view(x)).reduces_from.no_duplicates() by {
            assert(m.view(x).reduces_from.no_duplicates());
        }
    }
    assert(m2.defs_ok()) by {
        assert forall|x: usize| m2.has(x) implies match #[trigger] m2.def(x) {
            Some((a, b)) => (a == LABEL || m2.ordinary(a)) && m2.ordinary(b),
            None => true,
        } by {
            if x != d {
                assert(m.def(x) == m2.def(x));
                if let Some((a, b)) = m.def(x) {
                    if l == LABEL {
                        assert(a != d) by {
                            if a == d {
                                assert(m.uses_on_left(x, d));
                            }
                        }
                        assert(b != d) by {
                            if b == d {
                                assert(m.uses_on_right(x, d));
                            }
                        }
                    }
                }
            }
        }
    }
    assert(m2.reds_ok()) by {
        assert forall|x: usize| m2.has(x) implies match #[trigger] m2.red(x) {
            Some(y) => (m2.is_label_def(x) && m2.is_text(y)) || (m2.ordinary(x) && m2.ordinary(y)),
            None => true,
        } by {
            assert(m.red(x) == m2.red(x));
            if let Some(y) = m.red(x) {
                assert(m.has(y));
                if l == LABEL {
                    assert(x != d);
                    assert(y != d);
                }
            }
        }
    }
    assert(m2.texts_ok()) by {
        assert forall|a: usize, b: usize|
            m2.has(a) && m2.has(b) && #[trigger] m2.red(a) == #[trigger] m2.red(b) && (m2.red(a) matches Some(s) && m2.is_text(s)) implies a == b by {
            let s = m2.red(a)->0;
            assert(m.view(s) == m.view(s));
            assert(m.red(a) == m.red(b));
        }
    }
    assert(m2.unique_defs()) by {
        assert forall|a: usize, b: usize|
            m2.has(a) && m2.has(b) && #[trigger] m2.def(a) == #[trigger] m2.def(b) && m2.def(a) is Some implies a == b by {
            if a == d && b != d {
                assert(m.def(b) == Some((l, r)));
            } else if b == d && a != d {
                assert(m.def(a) == Some((l, r)));
            } else if a != d && b != d {
                assert(m.def(a) == m.def(b));
            }
        }
    }
    assert(m2.ranks_ok()) by {
        assert forall|x: usize| m2.has(x) implies match #[trigger] m2.red(x) {
            Some(y) => m2.rrank(y) < m2.rrank(x),
            None => true,
        } by {
            assert(m.red(x) == m2.red(x));
        }
        assert forall|x: usize| m2.has(x) implies match #[trigger] m2.def(x) {
            Some((a, b)) => m2.drank(a) < m2.drank(x) && m2.drank(b) < m2.drank(x),
            None => true,
        } by {
            if x != d {
                assert(m.def(x) == m2.def(x));
                if let Some((a, b)) = m.def(x) {
                    assert(m.has(a) && m.has(b));
                    assert(m.drank(a) < m.drank(x) && m.drank(b) < m.drank(x));
                    if a == d || m.contains(a, d) || b == d || m.contains(b, d) {
                        assert(m.contains(x, d));
                    }
                }
            }
        }
        assert forall|x: usize| m2.has(x) implies #[trigger] m2.rrank(x) <= m2.red_bound by {
            assert(m.rrank(x) <= m.red_bound);
        }
    }
    assert(m2.strings_ok()) by {
        assert forall|key: Seq<char>| #[trigger] m2.strings.contains_key(key) implies m2.is_text(m2.strings[key]) && m2.view(m2.strings[key]).string == key by {
            let t = m.strings[key];
            assert(m.view(t) == m.view(t));
        }
    }
}

/// Giving a concept a definition keeps every label, and keeps every ordinary
/// concept nameable or disconnected when the parts of a definition that is
/// not a label definition are nameable.
pub proof fn lemma_definition_set_names(m: Model, m2: Model, d: usize, l: usize, r: usize, e: Option<usize>)
    requires
        m.sound(),
        m2.sound(),
        m.may_define(d, l, r),
        m.with_definition_of(m2, d, Some((l, r))),
    ensures
        forall|x: usize| #[trigger] m2.label_of(x) == m.label_of(x),
        forall|x: usize| m.has(x) && #[trigger] m.nameable(x) ==> m2.nameable(x),
        m2.nameable(d),
        m.names_ok_except(e) && (l != LABEL ==> m.nameable(l) && m.nameable(r)) ==> m2.names_ok_except(e),
{
    assert forall|x: usize| m.has(x) && x != d implies #[trigger] m2.def(x) == m.def(x) by {
        assert(m.view(x) == m.view(x));
    }
    assert forall|x: usize| m.has(x) implies #[trigger] m2.red(x) == m.red(x) by {
        assert(m.view(x) == m.view(x));
    }
    assert(m.ordinary(d));
    assert forall|x: usize| #[trigger] m2.label_of(x) == m.label_of(x) by {
        lemma_label_of(m, x);
        lemma_label_of(m2, x);
        if exists|w: usize| m.has(w) && #[trigger] m.def(w) == Some((LABEL, x)) {
            let w = choose|w: usize| m.has(w) && #[trigger] m.def(w) == Some((LABEL, x));
            assert(w != d);
            assert(m2.def(w) == m.def(w));
            lemma_label_def_of(m2, x, w);
            if let Some(t) = m.red(w) {
                assert(m.view(t) == m.view(t));
            }
        } else if m2.label_def_of(x) is Some {
            let w = m2.label_def_of(x)->0;
            if w != d {
                assert(m.def(w) == m2.def(w));
            }
        }
    }
    assert(m2.def(d) is Some);
    assert forall|x: usize| m.has(x) && #[trigger] m.nameable(x) implies m2.nameable(x) by {
        assert(m2.label_of(x) == m.label_of(x));
        if x != d {
            assert(m2.def(x) == m.def(x));
        }
    }
    if m.names_ok_except(e) && (l != LABEL ==> m.nameable(l) && m.nameable(r)) {
        assert forall|x: usize| #[trigger] m2.ordinary(x) && e != Some(x) implies m2.nameable(x) || m2.disconnected(x) by {
            assert(m.view(x) == m.view(x));
            assert(m2.label_of(x) == m.label_of(x));
            if x != d {
                assert(m2.def(x) == m.def(x));
                assert(m.ordinary(x));
                if !m.nameable(x) {
                    assert(m.disconnected(x));
                    assert(x != l && (l != LABEL ==> x != r));
                    assert forall|y: usize| #[trigger] m2.uses_on_left(y, x) implies false by {
                        if y != d {
                            assert(m.uses_on_left(y, x));
                        }
                    }
                    assert forall|y: usize| #[trigger] m2.uses_on_right(y, x) implies m2.is_label_def(y) by {
                        if y != d {
                            assert(m.uses_on_right(y, x));
                            assert(m.def(y) == m2.def(y));
                        }
                    }
                    assert forall|y: usize| m2.has(y) implies #[trigger] m2.red(y) != Some(x) by {
                        assert(m.red(y) == m2.red(y));
                    }
                }
            }
        }
    }
}

/// Removing the definition of a concept that is not a label definition keeps
/// the invariant and every label; the concept stays nameable when it is labelled.
pub proof fn lemma_definition_clear(m: Model, m2: Model, d: usize, e: Option<usize>)
    requires
        m.sound(),
        m.has(d),
        m.def(d) is Some,
        !m.is_label_def(d),
        m.with_definition_of(m2, d, None),
        m2.def_links_ok(),
        m2.def_rank == m.def_rank,
        m2.red_rank == m.red_rank,
        m2.red_bound == m.red_bound,
    ensures
        m2.sound(),
        forall|x: usize| #[trigger] m2.label_of(x) == m.label_of(x),
        m.names_ok_except(e) && (m.label_of(d) is Some || e == Some(d)) ==> m2.names_ok_except(e),
{
    assert forall|x: usize| m.has(x) && x != d implies #[trigger] m2.def(x) == m.def(x) by {
        assert(m.view(x) == m.view(x));
    }
    assert forall|x: usize| m.has(x) implies #[trigger] m2.red(x) == m.red(x) by {
        assert(m.view(x) == m.view(x));
    }
    assert(m.ordinary(d));
    assert(m2.ordinary(d));
    assert forall|x: usize| m.has(x) implies (#[trigger] m2.ordinary(x) == m.ordinary(x) && m2.is_label_def(x)
        == m.is_label_def(x) && m2.is_text(x) == m.is_text(x)) by {
        assert(m.view(x) == m.view(x));
    }
    assert(m2.view(LABEL).kind == m.view(LABEL).kind);
    assert(m2.sizes_ok());
    assert(m2.kinds_ok()) by {
        assert forall|x: usize| m2.has(x) && #[trigger] m2.view(x).kind != crate::concepts::ConceptKind::Abstract implies m2.def(x) is None && m2.red(x) is None by {
            assert(m.view(x).kind != crate::concepts::ConceptKind::Abstract);
        }
    }
    assert(m2.refs_ok()) by {
        assert forall|x: usize| m2.has(x) implies match #[trigger] m2.def(x) {
            Some((a, b)) => m2.has(a) && m2.has(b),
            None => true,
        } by {
            if x != d {
                assert(m.def(x) == m2.def(x));
            }
        }
        assert forall|x: usize| m2.has(x) implies match #[trigger] m2.red(x) {
            Some(y) => m2.has(y),
            None => true,
        } by {
            assert(m.red(x) == m2.red(x));
        }
    }
    assert(m2.red_links_ok()) by {
        assert forall|x: usize, y: usize| m2.has(x) implies (#[trigger] m2.view(x).reduces_from.contains(y) <==> (m2.has(y)
            && m2.red(y) == Some(x))) by {
            assert(m.view(x).reduces_from.contains(y) <==> (m.has(y) && m.red(y) == Some(x)));
            if m.has(y) {
                assert(m.red(y) == m2.red(y));
            }
        }
        assert forall|x: usize| m2.has(x) implies (#[trigger] m2.view(x)).reduces_from.no_duplicates() by {
            assert(m.view(x).reduces_from.no_duplicates());
        }
    }
    assert(m2.defs_ok()) by {
        assert forall|x: usize| m2.has(x) implies match #[trigger] m2.def(x) {
            Some((a, b)) => (a == LABEL || m2.ordinary(a)) && m2.ordinary(b),
            None => true,
        } by {
            if x != d {
                assert(m.def(x) == m2.def(x));
            }
        }
    }
    assert(m2.reds_ok()) by {
        assert forall|x: usize| m2.has(x) implies match #[trigger] m2.red(x) {
            Some(y) => (m2.is_label_def(x) && m2.is_text(y)) || (m2.ordinary(x) && m2.ordinary(y)),
            None => true,
        } by {
            assert(m.red(x) == m2.red(x));
        }
    }
    assert(m2.texts_ok()) by {
        assert forall|a: usize, b: usize|
            m2.has(a) && m2.has(b) && #[trigger] m2.red(a) == #[trigger] m2.red(b) && (m2.red(a) matches Some(s) && m2.is_text(s)) implies a == b by {
            let s = m2.red(a)->0;
            assert(m.view(s) == m.view(s));
            assert(m.red(a) == m.red(b));
        }
    }
    assert(m2.unique_defs()) by {
        assert forall|a: usize, b: usize|
            m2.has(a) && m2.has(b) && #[trigger] m2.def(a) == #[trigger] m2.def(b) && m2.def(a) is Some implies a == b by {
            assert(m.def(a) == m2.def(a));
            assert(m.def(b) == m2.def(b));
        }
    }
    assert(m2.ranks_ok()) by {
        assert forall|x: usize| m2.has(x) implies match #[trigger] m2.red(x) {
            Some(y) => m2.rrank(y) < m2.rrank(x),
            None => true,
        } by {
            assert(m.red(x) == m2.red(x));
        }
        assert forall|x: usize| m2.has(x) implies match #[trigger] m2.def(x) {
            Some((a, b)) => m2.drank(a) < m2.drank(x) && m2.drank(b) < m2.drank(x),
            None => true,
        } by {
            if x != d {
                assert(m.def(x) == m2.def(x));
            }
        }
        assert forall|x: usize| m2.has(x) implies #[trigger] m2.rrank(x) <= m2.red_bound by {
            assert(m.rrank(x) <= m.red_bound);
        }
    }
    assert(m2.strings_ok()) by {
        assert forall|key: Seq<char>| #[trigger] m2.strings.contains_key(key) implies m2.is_text(m2.strings[key]) && m2.view(m2.strings[key]).string == key by {
            let t = m.strings[key];
            assert(m.view(t) == m.view(t));
        }
    }
    assert forall|x: usize| #[trigger] m2.label_of(x) == m.label_of(x) by {
        lemma_label_of(m, x);
        lemma_label_of(m2, x);
        if let Some(w) = m.label_def_of(x) {
            assert(w != d);
            assert(m2.def(w) == m.def(w));
            lemma_label_def_of(m2, x, w);
            if let Some(t) = m.red(w) {
                assert(m.view(t) == m.view(t));
            }
        } else if m2.label_def_of(x) is Some {
            let w = m2.label_def_of(x)->0;
            assert(w != d);
            assert(m.def(w) == m2.def(w));
            lemma_label_def_of(m, x, w);
        }
    }
    if m.names_ok_except(e) && (m.label_of(d) is Some || e == Some(d)) {
        assert forall|x: usize| #[trigger] m2.ordinary(x) && e != Some(x) implies m2.nameable(x) || m2.disconnected(x) by {
            assert(m.view(x) == m.view(x));
            assert(m2.label_of(x) == m.label_of(x));
            if x != d {
                assert(m2.def(x) == m.def(x));
                assert(m.ordinary(x));
                if !m.nameable(x) {
                    assert(m.disconnected(x));
                    assert forall|y: usize| #[trigger] m2.uses_on_left(y, x) implies false by {
                        assert(m.uses_on_left(y, x));
                    }
                    assert forall|y: usize| #[trigger] m2.uses_on_right(y, x) implies m2.is_label_def(y) by {
                        assert(m.uses_on_right(y, x));
                    }
                    assert forall|y: usize| m2.has(y) implies #[trigger] m2.red(y) != Some(x) by {
                        assert(m.red(y) == m2.red(y));
                    }
                }
            }
        }
    }
}

/// No concept contains a concept that is no part of any definition.
pub proof fn lemma_unused_not_contained(m: Model, x: usize, c: usize)
    requires
        m.sound(),
        m.has(x),
        forall|y: usize| #[trigger] m.uses_on_left(y, c) ==> false,
        forall|y: usize| #[trigger] m.uses_on_right(y, c) ==> false,
    ensures
        !m.contains(x, c),
    decreases m.drank(x),
{
    if let Some((a, b)) = m.def(x) {
        assert(m.has(a) && m.has(b));
        assert(m.drank(a) < m.drank(x) && m.drank(b) < m.drank(x));
        if a == c {
            assert(m.uses_on_left(x, c));
        }
        if b == c {
            assert(m.uses_on_right(x, c));
        }
        lemma_unused_not_contained(m, a, c);
        lemma_unused_not_contained(m, b, c);
    }
}

/// No chain of reductions leads to an isolated concept or to a concept that contains it.
pub proof fn lemma_isolated_not_expanded(m: Model, x: usize, c: usize)
    requires
        m.sound(),
        m.has(x),
        m.isolated(c),
    ensures
        !m.reduction_expands(x, c),
    decreases m.rrank(x),
{
    if let Some(n) = m.red(x) {
        assert(m.has(n));
        lemma_unused_not_contained(m, n, c);
        lemma_isolated_not_expanded(m, n, c);
    }
}

/// Adding a concept that holds nothing keeps the invariant and every label.
pub proof fn lemma_append(m: Model, v: ConceptView, e: Option<usize>)
    requires
        m.sound(),
        detached(v),
        m.len() <= usize::MAX,
    ensures
        m.appended(v).sound(),
        m.appended(v).isolated(m.len() as usize),
        forall|x: usize| m.has(x) ==> #[trigger] m.appended(v).view(x) == m.view(x),
        forall|x: usize| x != m.len() ==> #[trigger] m.appended(v).label_of(x) == m.label_of(x),
        m.appended(v).label_of(m.len() as usize) is None,
        m.names_ok_except(e) ==> m.appended(v).names_ok_except(e),
{
    let m2 = m.appended(v);
    let c = m.len() as usize;
    assert(m2.view(c) == v);
    assert forall|x: usize| m.has(x) implies #[trigger] m2.view(x) == m.view(x) by {}
    assert(m2.view(LABEL) == m.view(LABEL));
    assert(m2.sizes_ok());
    assert(m2.kinds_ok()) by {
        assert forall|x: usize| m2.has(x) && #[trigger] m2.view(x).kind != ConceptKind::Abstract implies m2.def(x) is None && m2.red(x) is None by {
            if x != c {
                assert(m.view(x) == m2.view(x));
            }
        }
    }
    assert(m2.refs_ok()) by {
        assert forall|x: usize| m2.has(x) implies match #[trigger] m2.def(x) {
            Some((a, b)) => m2.has(a) && m2.has(b),
            None => true,
        } by {
            if x != c {
                assert(m.def(x) == m2.def(x));
            }
        }
        assert forall|x: usize| m2.has(x) implies match #[trigger] m2.red(x) {
            Some(y) => m2.has(y),
            None => true,
        } by {
            if x != c {
                assert(m.red(x) == m2.red(x));
            }
        }
    }
    assert forall|y: usize| m2.has(y) && y != c implies #[trigger] m2.def(y) == m.def(y) && m2.red(y) == m.red(y) by {
        assert(m2.view(y) == m.view(y));
    }
    assert(m2.def_links_ok()) by {
        assert forall|x: usize, y: usize| m2.has(x) implies (#[trigger] m2.view(x).lefthand_of.contains(y) <==> m2.uses_on_left(y, x)) by {
            if x != c {
                assert(m.view(x).lefthand_of.contains(y) <==> m.uses_on_left(y, x));
                if y != c && m2.has(y) {
                    assert(m2.def(y) == m.def(y));
                }
            } else {
                if y != c && m2.has(y) {
                    assert(m2.def(y) == m.def(y));
                    if let Some((a, b)) = m.def(y) {
                        assert(m.has(a));
                    }
                }
            }
        }
        assert forall|x: usize, y: usize| m2.has(x) implies (#[trigger] m2.view(x).righthand_of.contains(y) <==> m2.uses_on_right(y, x)) by {
            if x != c {
                assert(m.view(x).righthand_of.contains(y) <==> m.uses_on_right(y, x));
                if y != c && m2.has(y) {
                    assert(m2.def(y) == m.def(y));
                }
            } else {
                if y != c && m2.has(y) {
                    assert(m2.def(y) == m.def(y));
                    if let Some((a, b)) = m.def(y) {
                        assert(m.has(b));
                    }
                }
            }
        }
        assert forall|x: usize| m2.has(x) implies {
            &&& (#[trigger] m2.view(x)).lefthand_of.no_duplicates()
            &&& m2.view(x).righthand_of.no_duplicates()
        } by {
            if x != c {
                assert(m.view(x).lefthand_of.no_duplicates());
            }
        }
    }
    assert(m2.red_links_ok()) by {
        assert forall|x: usize, y: usize| m2.has(x) implies (#[trigger] m2.view(x).reduces_from.contains(y) <==> (m2.has(y)
            && m2.red(y) == Some(x))) by {
            if x != c {
                assert(m.view(x).reduces_from.contains(y) <==> (m.has(y) && m.red(y) == Some(x)));
            } else if y != c && m2.has(y) {
                if let Some(n) = m.red(y) {
                    assert(m.has(n));
                }
            }
        }
        assert forall|x: usize| m2.has(x) implies (#[trigger] m2.view(x)).reduces_from.no_duplicates() by {
            if x != c {
                assert(m.view(x).reduces_from.no_duplicates());
            }
        }
    }
    assert forall|x: usize| m.has(x) implies (#[trigger] m2.ordinary(x) == m.ordinary(x) && m2.is_label_def(x)
        == m.is_label_def(x) && m2.is_text(x) == m.is_text(x)) by {
        assert(m2.view(x) == m.view(x));
    }
    assert(m2.defs_ok()) by {
        assert forall|x: usize| m2.has(x) implies match #[trigger] m2.def(x) {
            Some((a, b)) => (a == LABEL || m2.ordinary(a)) && m2.ordinary(b),
            None => true,
        } by {
            if x != c {
                assert(m.def(x) == m2.def(x));
            }
        }
    }
    assert(m2.reds_ok()) by {
        assert forall|x: usize| m2.has(x) implies match #[trigger] m2.red(x) {
            Some(y) => (m2.is_label_def(x) && m2.is_text(y)) || (m2.ordinary(x) && m2.ordinary(y)),
            None => true,
        } by {
            if x != c {
                assert(m.red(x) == m2.red(x));
                if let Some(y) = m.red(x) {
                    assert(m.has(y));
                }
            }
        }
    }
    assert(m2.texts_ok()) by {
        assert forall|a: usize, b: usize|
            m2.has(a) && m2.has(b) && #[trigger] m2.red(a) == #[trigger] m2.red(b) && (m2.red(a) matches Some(s) && m2.is_text(s)) implies a == b by {
            if a != c && b != c {
                let s = m2.red(a)->0;
                assert(m.has(s));
                assert(m.view(s) == m2.view(s));
            }
        }
    }
    assert(m2.unique_defs()) by {
        assert forall|a: usize, b: usize|
            m2.has(a) && m2.has(b) && #[trigger] m2.def(a) == #[trigger] m2.def(b) && m2.def(a) is Some implies a == b by {
            if a != c && b != c {
                assert(m.def(a) == m2.def(a));
            }
        }
    }
    assert(m2.ranks_ok()) by {
        assert forall|x: usize| m2.has(x) implies match #[trigger] m2.red(x) {
            Some(y) => m2.rrank(y) < m2.rrank(x),
            None => true,
        } by {
            if x != c {
                assert(m.red(x) == m2.red(x));
                if let Some(y) = m.red(x) {
                    assert(m.has(y));
                }
            }
        }
        assert forall|x: usize| m2.has(x) implies match #[trigger] m2.def(x) {
            Some((a, b)) => m2.drank(a) < m2.drank(x) && m2.drank(b) < m2.drank(x),
            None => true,
        } by {
            if x != c {
                assert(m.def(x) == m2.def(x));
                if let Some((a, b)) = m.def(x) {
                    assert(m.has(a) && m.has(b));
                }
            }
        }
        assert forall|x: usize| m2.has(x) implies #[trigger] m2.rrank(x) <= m2.red_bound by {
            if x != c {
                assert(m.rrank(x) <= m.red_bound);
            }
        }
    }
    assert(m2.strings_ok()) by {
        assert forall|key: Seq<char>| #[trigger] m2.strings.contains_key(key) implies m2.is_text(m2.strings[key]) && m2.view(m2.strings[key]).string == key by {
            let t = m.strings[key];
            assert(m.is_text(t));
            assert(m.view(t) == m2.view(t));
        }
    }
    assert forall|y: usize| #[trigger] m2.uses_on_left(y, c) implies false by {
        if y != c {
            assert(m2.def(y) == m.def(y));
            if let Some((a, b)) = m.def(y) {
                assert(m.has(a));
            }
        }
    }
    assert forall|y: usize| #[trigger] m2.uses_on_right(y, c) implies false by {
        if y != c {
            assert(m2.def(y) == m.def(y));
            if let Some((a, b)) = m.def(y) {
                assert(m.has(b));
            }
        }
    }
    assert forall|y: usize| m2.has(y) implies #[trigger] m2.red(y) != Some(c) by {
        if y != c {
            if let Some(n) = m.red(y) {
                assert(m.has(n));
            }
        }
    }
    assert forall|x: usize| x != m.len() implies #[trigger] m2.label_of(x) == m.label_of(x) by {
        lemma_label_of(m, x);
        lemma_label_of(m2, x);
        if let Some(w) = m.label_def_of(x) {
            assert(m2.def(w) == m.def(w));
            lemma_label_def_of(m2, x, w);
            if let Some(t) = m.red(w) {
                assert(m.has(t));
                assert(m.view(t) == m2.view(t));
            }
        } else if m2.label_def_of(x) is Some {
            let w = m2.label_def_of(x)->0;
            assert(w != c);
            assert(m.def(w) == m2.def(w));
            lemma_label_def_of(m, x, w);
        }
    }
    lemma_label_of(m2, c);
    if let Some(w) = m2.label_def_of(c) {
        assert(m2.uses_on_right(w, c));
    }
    if m.names_ok_except(e) {
        assert forall|x: usize| #[trigger] m2.ordinary(x) && e != Some(x) implies m2.nameable(x) || m2.disconnected(x) by {
            if x != c {
                assert(m2.view(x) == m.view(x));
                assert(m.ordinary(x));
                assert(m2.label_of(x) == m.label_of(x));
                if !m.nameable(x) {
                    assert(m.disconnected(x));
                    assert forall|y: usize| #[trigger] m2.uses_on_left(y, x) implies false by {
                        if y != c {
                            assert(m.uses_on_left(y, x));
                        }
                    }
                    assert forall|y: usize| #[trigger] m2.uses_on_right(y, x) implies m2.is_label_def(y) by {
                        if y != c {
                            assert(m.uses_on_right(y, x));
                        }
                    }
                    assert forall|y: usize| m2.has(y) implies #[trigger] m2.red(y) != Some(x) by {
                        if y != c {
                            assert(m.red(y) == m2.red(y));
                        }
                    }
                }
            }
        }
    }
}

/// Two models that differ at most in their string index have the same structure and labels.
pub proof fn lemma_same_structure(m1: Model, m2: Model, e: Option<usize>)
    requires
        m1.sound(),
        m2.strings_ok(),
        m1.concepts == m2.concepts,
        m1.red_rank == m2.red_rank,
        m1.def_rank == m2.def_rank,
        m1.red_bound == m2.red_bound,
    ensures
        m2.sound(),
        forall|x: usize| #[trigger] m2.label_of(x) == m1.label_of(x),
        m1.names_ok_except(e) ==> m2.names_ok_except(e),
{
    assert forall|c: usize| #![trigger m2.view(c)] #![trigger m1.view(c)] m1.view(c) == m2.view(c) by {}
    assert forall|c: usize| #![trigger m2.rrank(c)] #![trigger m1.rrank(c)] m1.rrank(c) == m2.rrank(c) by {}
    assert forall|c: usize| #![trigger m2.def(c)] #![trigger m1.def(c)] m1.def(c) == m2.def(c) by {}
    assert forall|c: usize| #![trigger m2.red(c)] #![trigger m1.red(c)] m1.red(c) == m2.red(c) by {}
    assert forall|c: usize| #![trigger m2.drank(c)] #![trigger m1.drank(c)] m1.drank(c) == m2.drank(c) by {}
    assert(m2.sizes_ok());
    assert(m2.kinds_ok());
    assert(m2.refs_ok());
    assert(m2.def_links_ok()) by {
        assert forall|c: usize, x: usize| m2.has(c) implies (#[trigger] m2.view(c).lefthand_of.contains(x) <==> m2.uses_on_left(x, c)) by {
            assert(m1.view(c).lefthand_of.contains(x) <==> m1.uses_on_left(x, c));
        }
        assert forall|c: usize, x: usize| m2.has(c) implies (#[trigger] m2.view(c).righthand_of.contains(x) <==> m2.uses_on_right(x, c)) by {
            assert(m1.view(c).righthand_of.contains(x) <==> m1.uses_on_right(x, c));
        }
    }
    assert(m2.red_links_ok()) by {
        assert forall|c: usize, x: usize| m2.has(c) implies (#[trigger] m2.view(c).reduces_from.contains(x) <==> (m2.has(x)
            && m2.red(x) == Some(c))) by {
            assert(m1.view(c).reduces_from.contains(x) <==> (m1.has(x) && m1.red(x) == Some(c)));
        }
    }
    assert(m2.defs_ok());
    assert(m2.reds_ok());
    assert(m2.texts_ok()) by {
        assert forall|a: usize, b: usize|
            m2.has(a) && m2.has(b) && #[trigger] m2.red(a) == #[trigger] m2.red(b) && (m2.red(a) matches Some(s) && m2.is_text(s)) implies a == b by {
            assert(m1.red(a) == m1.red(b));
        }
    }
    assert(m2.unique_defs()) by {
        assert forall|a: usize, b: usize|
            m2.has(a) && m2.has(b) && #[trigger] m2.def(a) == #[trigger] m2.def(b) && m2.def(a) is Some implies a == b by {
            assert(m1.def(a) == m1.def(b));
        }
    }
    assert(m2.ranks_ok());
    assert forall|x: usize| #[trigger] m2.label_of(x) == m1.label_of(x) by {
        lemma_label_of(m1, x);
        lemma_label_of(m2, x);
        if let Some(w) = m1.label_def_of(x) {
            lemma_label_def_of(m2, x, w);
        } else if m2.label_def_of(x) is Some {
            let w = m2.label_def_of(x)->0;
            lemma_label_def_of(m1, x, w);
        }
    }
    if m1.names_ok_except(e) {
        assert forall|x: usize| #[trigger] m2.ordinary(x) && e != Some(x) implies m2.nameable(x) || m2.disconnected(x) by {
            assert(m1.ordinary(x));
            assert(m2.label_of(x) == m1.label_of(x));
            if !m1.nameable(x) {
                assert(m1.disconnected(x));
                assert forall|y: usize| #[trigger] m2.uses_on_left(y, x) implies false by {
                    assert(m1.uses_on_left(y, x));
                }
                assert forall|y: usize| #[trigger] m2.uses_on_right(y, x) implies m2.is_label_def(y) by {
                    assert(m1.uses_on_right(y, x));
                }
                assert forall|y: usize| m2.has(y) implies #[trigger] m2.red(y) != Some(x) by {
                    assert(m1.red(y) != Some(x));
                }
            }
        }
    }
}

/// Adding a string concept that holds nothing, and indexing it by its text,
/// keeps the invariant and every label.
pub proof fn lemma_append_string(m: Model, text: Seq<char>, e: Option<usize>)
    requires
        m.sound(),
        m.len() <= usize::MAX,
    ensures
        ({
            let m2 = Model {
                strings: m.strings.insert(text, m.len() as usize),
                ..m.appended(empty_view(ConceptKind::Text, text))
            };
            &&& m2.sound()
            &&& m2.is_text(m.len() as usize)
            &&& m2.unreduced_to(m.len() as usize)
            &&& forall|x: usize| m.has(x) ==> #[trigger] m2.view(x) == m.view(x)
            &&& forall|x: usize| x != m.len() ==> #[trigger] m2.label_of(x) == m.label_of(x)
            &&& m.names_ok_except(e) ==> m2.names_ok_except(e)
        }),
{
    let v = empty_view(ConceptKind::Text, text);
    lemma_append(m, v, e);
    let m1 = m.appended(v);
    let m2 = Model { strings: m.strings.insert(text, m.len() as usize), ..m1 };
    assert(m2.view(m.len() as usize) == v);
    assert(m2.strings_ok()) by {
        assert forall|key: Seq<char>| #[trigger] m2.strings.contains_key(key) implies m2.is_text(m2.strings[key]) && m2.view(m2.strings[key]).string == key by {
            if key != text {
                assert(m1.strings.contains_key(key));
            }
        }
    }
    lemma_same_structure(m1, m2, e);
    assert forall|x: usize| x != m.len() implies #[trigger] m2.label_of(x) == m.label_of(x) by {
        assert(m1.label_of(x) == m.label_of(x));
    }
    assert(m1.isolated(m.len() as usize));
    assert forall|y: usize| m2.has(y) implies #[trigger] m2.red(y) != Some(m.len() as usize) by {
        assert(m1.red(y) != Some(m.len() as usize));
    }
    assert forall|x: usize| m.has(x) implies #[trigger] m2.view(x) == m.view(x) by {
        assert(m1.view(x) == m.view(x));
    }
}

impl Model {
    /// Every concept that `new` adds to `self` is undefined or a label definition.
    pub open spec fn adds_only_label_defs(self, new: Model) -> bool {
        forall|w: usize|
            new.has(w) && !self.has(w) ==> match #[trigger] new.def(w) {
                Some((p, _)) => p == LABEL,
                None => true,
            }
    }

    /// Every concept of `new` but the label definitions reduces as it did in
    /// `self`, and a new one does not reduce.
    pub open spec fn keeps_reductions(self, new: Model) -> bool {
        forall|x: usize|
            new.has(x) && !new.is_label_def(x) ==> #[trigger] new.red(x) == (if self.has(x) {
                self.red(x)
            } else {
                None
            })
    }

    /// Every concept of `self` keeps its definition in `new`.
    pub open spec fn keeps_definitions(self, new: Model) -> bool {
        &&& new.len() >= self.len()
        &&& forall|x: usize| self.has(x) ==> #[trigger] new.def(x) == self.def(x)
    }

    /// Every concept of `self` is still in `new`, as ordinary, nameable and labelled as it was.
    pub open spec fn keeps_names(self, new: Model) -> bool {
        &&& new.len() >= self.len()
        &&& forall|x: usize| self.has(x) && #[trigger] self.ordinary(x) ==> new.ordinary(x)
        &&& forall|x: usize| self.has(x) && #[trigger] self.nameable(x) ==> new.nameable(x)
        &&& forall|x: usize| self.has(x) && #[trigger] self.label_of(x) is Some ==> new.label_of(x) is Some
    }
}

/// Keeping names is transitive.
pub proof fn lemma_keeps_names_trans(a: Model, b: Model, c: Model)
    requires
        a.keeps_names(b),
        b.keeps_names(c),
    ensures
        a.keeps_names(c),
{
    assert forall|x: usize| a.has(x) && #[trigger] a.ordinary(x) implies c.ordinary(x) by {
        assert(b.ordinary(x));
    }
    assert forall|x: usize| a.has(x) && #[trigger] a.nameable(x) implies c.nameable(x) by {
        assert(b.nameable(x));
    }
    assert forall|x: usize| a.has(x) && #[trigger] a.label_of(x) is Some implies c.label_of(x) is Some by {
        assert(b.label_of(x) is Some);
    }
}

/// A model of abstract concepts that hold nothing, with no string index, is sound.
pub proof fn lemma_blank_sound(m: Model)
    requires
        m.len() >= 1,
        forall|x: usize| m.has(x) ==> #[trigger] m.view(x) == empty_view(ConceptKind::Abstract, Seq::empty()),
        m.red_rank.len() == m.len(),
        m.def_rank.len() == m.len(),
        forall|x: usize| m.has(x) ==> #[trigger] m.rrank(x) <= m.red_bound,
        m.strings == Map::<Seq<char>, usize>::empty(),
    ensures
        m.sound(),
        m.names_ok_except(None),
{
    let ev = empty_view(ConceptKind::Abstract, Seq::empty());
    assert(m.view(LABEL) == ev);
    assert forall|x: usize| m.has(x) implies #[trigger] m.def(x) is None && m.red(x) is None by {
        assert(m.view(x) == ev);
    }
    assert forall|c: usize, x: usize| m.has(c) implies !(#[trigger] m.view(c).lefthand_of.contains(x)) && !m.uses_on_left(x, c) by {
        assert(m.view(c) == ev);
        if m.has(x) {
            assert(m.def(x) is None);
        }
    }
    assert forall|c: usize, x: usize| m.has(c) implies !(#[trigger] m.view(c).righthand_of.contains(x)) && !m.uses_on_right(x, c) by {
        assert(m.view(c) == ev);
        if m.has(x) {
            assert(m.def(x) is None);
        }
    }
    assert forall|c: usize, x: usize| m.has(c) implies !(#[trigger] m.view(c).reduces_from.contains(x)) && !(m.has(x) && m.red(x) == Some(c)) by {
        assert(m.view(c) == ev);
        if m.has(x) {
            assert(m.red(x) is None);
        }
    }
    assert(m.sound());
    assert forall|c: usize| #[trigger] m.ordinary(c) && None::<usize> != Some(c) implies m.nameable(c) || m.disconnected(c) by {
        assert forall|y: usize| #[trigger] m.uses_on_left(y, c) implies false by {
            assert(m.def(y) is None);
        }
        assert forall|y: usize| #[trigger] m.uses_on_right(y, c) implies m.is_label_def(y) by {
            assert(m.def(y) is None);
        }
        assert forall|y: usize| m.has(y) implies #[trigger] m.red(y) != Some(c) by {
            assert(m.red(y) is None);
        }
    }
}

/// Keeping the reductions is transitive while definitions are kept.
pub proof fn lemma_keeps_reductions_trans(a: Model, b: Model, c: Model)
    requires
        a.keeps_reductions(b),
        b.keeps_reductions(c),
        b.keeps_definitions(c),
        a.len() <= b.len(),
    ensures
        a.keeps_reductions(c),
{
    assert forall|x: usize| c.has(x) && !c.is_label_def(x) implies #[trigger] c.red(x) == (if a.has(x) {
        a.red(x)
    } else {
        None
    }) by {
        if b.has(x) {
            assert(c.def(x) == b.def(x));
            assert(b.red(x) == (if a.has(x) { a.red(x) } else { None }));
        }
    }
}

} // verus!
