use vstd::prelude::*;
use crate::concepts::{ConceptKind, ConceptView};

verus! {

/// The concept that labels other concepts: a concept `c` is labelled with a
/// string `s` when the definition `(LABEL, c)` reduces to a string concept of `s`.
pub const LABEL: usize = 0;

/// The concept of the command that defines or prints the definition of a concept (`:=`).
pub const DEFINE: usize = 1;

/// The concept of the command that sets or prints the reduction of a concept (`->`).
pub const REDUCTION: usize = 2;

/// The mathematical state of a context: its concepts, the string concepts
/// indexed by their text, and two ranks that witness that no chain of
/// reductions and no chain of definitions loops.
pub struct Model {
    pub concepts: Seq<ConceptView>,
    pub strings: Map<Seq<char>, usize>,
    pub red_rank: Seq<nat>,
    pub def_rank: Seq<nat>,
    /// An upper bound of the reduction ranks.
    pub red_bound: nat,
}

impl Model {
    pub open spec fn with_view(self, c: usize, v: ConceptView) -> Model {
        Model { concepts: self.concepts.update(c as int, v), ..self }
    }

    pub open spec fn len(self) -> nat {
        self.concepts.len()
    }

    pub open spec fn has(self, c: usize) -> bool {
        c < self.concepts.len()
    }

    pub open spec fn view(self, c: usize) -> ConceptView {
        self.concepts[c as int]
    }

    pub open spec fn def(self, c: usize) -> Option<(usize, usize)> {
        self.view(c).definition
    }

    pub open spec fn red(self, c: usize) -> Option<usize> {
        self.view(c).reduction
    }

    pub open spec fn is_abstract(self, c: usize) -> bool {
        self.has(c) && self.view(c).kind == ConceptKind::Abstract
    }

    pub open spec fn is_text(self, c: usize) -> bool {
        self.has(c) && self.view(c).kind == ConceptKind::Text
    }

    /// `d` is the definition `(LABEL, c)` of some concept `c`.
    pub open spec fn is_label_def(self, d: usize) -> bool {
        self.def(d) matches Some((l, _)) && l == LABEL
    }

    /// An abstract concept that is neither `LABEL` nor a label definition:
    /// the concepts that commands can name.
    pub open spec fn ordinary(self, c: usize) -> bool {
        &&& self.is_abstract(c)
        &&& c != LABEL
        &&& !self.is_label_def(c)
    }

    /// `x` is defined with `c` on its lefthand side.
    pub open spec fn uses_on_left(self, x: usize, c: usize) -> bool {
        self.has(x) && match self.def(x) {
            Some((l, _)) => l == c,
            None => false,
        }
    }

    /// `x` is defined with `c` on its righthand side.
    pub open spec fn uses_on_right(self, x: usize, c: usize) -> bool {
        self.has(x) && match self.def(x) {
            Some((_, r)) => r == c,
            None => false,
        }
    }

    pub open spec fn rrank(self, c: usize) -> nat {
        self.red_rank[c as int]
    }

    pub open spec fn drank(self, c: usize) -> nat {
        self.def_rank[c as int]
    }

    /// The last concept of the chain of reductions that starts at `c`.
    pub open spec fn end_of(self, c: usize) -> usize
        decreases self.rrank(c),
    {
        match self.red(c) {
            Some(n) => if self.rrank(n) < self.rrank(c) {
                self.end_of(n)
            } else {
                c
            },
            None => c,
        }
    }

    /// The normal form of `c`: the end of its chain of reductions, when it reduces at all.
    pub open spec fn normal_form(self, c: usize) -> Option<usize> {
        match self.red(c) {
            Some(_) => Some(self.end_of(c)),
            None => None,
        }
    }

    /// The chain of reductions that starts at `x` passes through `c`.
    pub open spec fn reaches(self, x: usize, c: usize) -> bool
        decreases self.rrank(x),
    {
        x == c || match self.red(x) {
            Some(n) => self.rrank(n) < self.rrank(x) && self.reaches(n, c),
            None => false,
        }
    }

    /// `inner` is a part, at any depth, of the definition of `outer`.
    pub open spec fn contains(self, outer: usize, inner: usize) -> bool
        decreases self.drank(outer),
    {
        match self.def(outer) {
            Some((l, r)) => self.drank(l) < self.drank(outer) && self.drank(r) < self.drank(outer)
                && (l == inner || r == inner || self.contains(l, inner) || self.contains(r, inner)),
            None => false,
        }
    }

    /// The label definition `(LABEL, c)` of `c`, if there is one.
    pub open spec fn label_def_of(self, c: usize) -> Option<usize> {
        if exists|d: usize| self.has(d) && #[trigger] self.def(d) == Some((LABEL, c)) {
            Some(choose|d: usize| self.has(d) && #[trigger] self.def(d) == Some((LABEL, c)))
        } else {
            None
        }
    }

    /// The label of `c`: the text of the normal form of its label definition.
    pub open spec fn label_of(self, c: usize) -> Option<Seq<char>> {
        match self.label_def_of(c) {
            Some(d) => match self.normal_form(d) {
                Some(n) => if self.is_text(n) {
                    Some(self.view(n).string)
                } else {
                    None
                },
                None => None,
            },
            None => None,
        }
    }

    /// The definition of `c` whose parts are `l` and `r`, if there is one.
    pub open spec fn definition_of(self, l: usize, r: usize) -> Option<usize> {
        if exists|d: usize| self.has(d) && #[trigger] self.def(d) == Some((l, r)) {
            Some(choose|d: usize| self.has(d) && #[trigger] self.def(d) == Some((l, r)))
        } else {
            None
        }
    }

    /// Nothing but label definitions refers to `c`, and `c` refers to nothing.
    pub open spec fn disconnected(self, c: usize) -> bool {
        &&& self.red(c) is None
        &&& self.def(c) is None
        &&& forall|y: usize| #[trigger] self.uses_on_left(y, c) ==> false
        &&& forall|y: usize| #[trigger] self.uses_on_right(y, c) ==> self.is_label_def(y)
        &&& forall|y: usize| self.has(y) ==> #[trigger] self.red(y) != Some(c)
    }

    /// `c` has a label or a definition, so that it can be written as syntax.
    pub open spec fn nameable(self, c: usize) -> bool {
        self.label_of(c) is Some || self.def(c) is Some
    }

    // ---------------------------------------------------------------
    // The invariant, in parts.
    // ---------------------------------------------------------------

    pub open spec fn sizes_ok(self) -> bool {
        &&& self.red_rank.len() == self.len()
        &&& self.def_rank.len() == self.len()
        &&& self.has(LABEL)
        &&& self.view(LABEL).kind == ConceptKind::Abstract
        &&& self.def(LABEL) is None
        &&& self.red(LABEL) is None
    }

    /// Concepts other than abstract ones have no definition and no reduction.
    pub open spec fn kinds_ok(self) -> bool {
        forall|c: usize|
            self.has(c) && #[trigger] self.view(c).kind != ConceptKind::Abstract ==> self.def(c) is None
                && self.red(c) is None
    }

    /// Every reference points to a concept.
    pub open spec fn refs_ok(self) -> bool {
        &&& forall|c: usize|
            self.has(c) ==> match #[trigger] self.def(c) {
                Some((l, r)) => self.has(l) && self.has(r),
                None => true,
            }
        &&& forall|c: usize|
            self.has(c) ==> match #[trigger] self.red(c) {
                Some(n) => self.has(n),
                None => true,
            }
    }

    /// The back references of definitions are exactly their inverse.
    pub open spec fn def_links_ok(self) -> bool {
        &&& forall|c: usize, x: usize|
            self.has(c) ==> (#[trigger] self.view(c).lefthand_of.contains(x) <==> self.uses_on_left(x, c))
        &&& forall|c: usize, x: usize|
            self.has(c) ==> (#[trigger] self.view(c).righthand_of.contains(x) <==> self.uses_on_right(x, c))
        &&& forall|c: usize|
            self.has(c) ==> {
                &&& (#[trigger] self.view(c)).lefthand_of.no_duplicates()
                &&& self.view(c).righthand_of.no_duplicates()
            }
    }

    /// The back references of reductions are exactly their inverse.
    pub open spec fn red_links_ok(self) -> bool {
        &&& forall|c: usize, x: usize|
            self.has(c) ==> (#[trigger] self.view(c).reduces_from.contains(x) <==> (self.has(x)
                && self.red(x) == Some(c)))
        &&& forall|c: usize| self.has(c) ==> (#[trigger] self.view(c)).reduces_from.no_duplicates()
    }

    /// The back references are exactly the inverse of the definitions and reductions.
    pub open spec fn links_ok(self) -> bool {
        &&& self.def_links_ok()
        &&& self.red_links_ok()
    }

    /// Definitions are made of ordinary concepts, or label an ordinary concept.
    pub open spec fn defs_ok(self) -> bool {
        forall|d: usize|
            self.has(d) ==> match #[trigger] self.def(d) {
                Some((l, r)) => (l == LABEL || self.ordinary(l)) && self.ordinary(r),
                None => true,
            }
    }

    /// Label definitions reduce to strings and ordinary concepts to ordinary concepts.
    pub open spec fn reds_ok(self) -> bool {
        forall|c: usize|
            self.has(c) ==> match #[trigger] self.red(c) {
                Some(n) => (self.is_label_def(c) && self.is_text(n)) || (self.ordinary(c) && self.ordinary(
                    n,
                )),
                None => true,
            }
    }

    /// At most one concept reduces to a string concept.
    pub open spec fn texts_ok(self) -> bool {
        forall|a: usize, b: usize|
            self.has(a) && self.has(b) && #[trigger] self.red(a) == #[trigger] self.red(b) && (self.red(a) matches Some(
                s,
            ) && self.is_text(s)) ==> a == b
    }

    /// No two concepts have the same definition.
    pub open spec fn unique_defs(self) -> bool {
        forall|a: usize, b: usize|
            self.has(a) && self.has(b) && #[trigger] self.def(a) == #[trigger] self.def(b) && self.def(
                a,
            ) is Some ==> a == b
    }

    /// Reductions and definitions go down the ranks, so no chain of either loops.
    pub open spec fn ranks_ok(self) -> bool {
        &&& forall|c: usize|
            self.has(c) ==> match #[trigger] self.red(c) {
                Some(n) => self.rrank(n) < self.rrank(c),
                None => true,
            }
        &&& forall|c: usize|
            self.has(c) ==> match #[trigger] self.def(c) {
                Some((l, r)) => self.drank(l) < self.drank(c) && self.drank(r) < self.drank(c),
                None => true,
            }
        &&& forall|c: usize| self.has(c) ==> #[trigger] self.rrank(c) <= self.red_bound
    }

    /// The string index maps each text to a string concept of that text.
    pub open spec fn strings_ok(self) -> bool {
        forall|k: Seq<char>|
            #[trigger] self.strings.contains_key(k) ==> self.is_text(self.strings[k]) && self.view(
                self.strings[k],
            ).string == k
    }

    /// The invariant of the structure of a context.
    pub open spec fn sound(self) -> bool {
        &&& self.sizes_ok()
        &&& self.kinds_ok()
        &&& self.refs_ok()
        &&& self.links_ok()
        &&& self.defs_ok()
        &&& self.reds_ok()
        &&& self.texts_ok()
        &&& self.unique_defs()
        &&& self.ranks_ok()
        &&& self.strings_ok()
    }

    /// Every ordinary concept other than `except` can be named, unless nothing refers to it.
    pub open spec fn names_ok_except(self, except: Option<usize>) -> bool {
        forall|c: usize|
            #[trigger] self.ordinary(c) && except != Some(c) ==> self.nameable(c) || self.disconnected(c)
    }

    /// The invariant of a context.
    pub open spec fn wf(self) -> bool {
        &&& self.sound()
        &&& self.names_ok_except(None)
    }
}

} // verus!
