use vstd::prelude::*;
use crate::concepts::{ConceptKind, GetDefinition, GetDefinitionOf, GetReduction, MaybeString, FindWhatReducesToIt};
use crate::context::{ConceptReader, Context};
use crate::model::{LABEL, Model};

verus! {

/// Whether a vector holds `x`.
pub fn vec_has(v: &Vec<usize>, x: usize) -> (b: bool)
    ensures
        b == v@.contains(x),
{
    let mut i: usize = 0;
    while i < v.len()
        invariant
            i <= v.len(),
            forall|j: int| 0 <= j < i ==> v@[j] != x,
        decreases v.len() - i,
    {
        if v[i] == x {
            return true;
        }
        i = i + 1;
    }
    false
}

impl Model {
    /// `x` labels `s`: the label definition of `x` reduces, through its chain, to `s`.
    pub open spec fn labels(self, x: usize, s: usize) -> bool {
        exists|d: usize|
            self.has(d) && #[trigger] self.def(d) == Some((LABEL, x)) && d != s && self.reaches(d, s)
    }

    /// The concept labelled by the string concept `s`, if there is one.
    pub open spec fn labellee_of(self, s: usize) -> Option<usize> {
        if exists|x: usize| self.labels(x, s) {
            Some(choose|x: usize| self.labels(x, s))
        } else {
            None
        }
    }
}

/// Following a chain of reductions is transitive.
pub proof fn lemma_reaches_trans(m: Model, x: usize, y: usize, z: usize)
    requires
        m.sound(),
        m.has(x),
        m.reaches(x, y),
        m.reaches(y, z),
    ensures
        m.reaches(x, z),
    decreases m.rrank(x),
{
    if x != y {
        let n = m.red(x).unwrap();
        assert(m.has(n));
        lemma_reaches_trans(m, n, y, z);
    }
}

/// A chain from `x` that passes through another concept `c` has a last step into `c`.
pub proof fn lemma_reaches_last_step(m: Model, x: usize, c: usize)
    requires
        m.sound(),
        m.has(x),
        x != c,
        m.reaches(x, c),
    ensures
        exists|y: usize| m.has(y) && m.red(y) == Some(c) && #[trigger] m.reaches(x, y),
    decreases m.rrank(x),
{
    let n = m.red(x).unwrap();
    assert(m.has(n));
    if n == c {
        assert(m.reaches(x, x));
    } else {
        lemma_reaches_last_step(m, n, c);
        let y = choose|y: usize| m.has(y) && m.red(y) == Some(c) && #[trigger] m.reaches(n, y);
        assert(m.reaches(x, y));
    }
}

/// A label definition only reaches the string concept it reduces to.
pub proof fn lemma_label_def_reaches(m: Model, d: usize, s: usize)
    requires
        m.sound(),
        m.has(d),
        m.is_label_def(d),
        d != s,
        m.reaches(d, s),
    ensures
        m.red(d) == Some(s),
        m.is_text(s),
        m.view(s).reduces_from.contains(d),
{
    let n = m.red(d).unwrap();
    assert(m.has(n));
    assert(m.is_text(n));
    assert(m.red(n) is None);
    assert(m.reaches(n, s));
    assert(n == s);
}

/// Reading the normal form of a concept.
pub trait GetNormalForm: ConceptReader {
    /// The end of the chain of reductions from `concept`, when it reduces at all.
    fn get_normal_form(&self, concept: usize) -> (r: Option<usize>)
        requires
            self.model().sound(),
            self.model().has(concept),
        ensures
            r == self.model().normal_form(concept),
    ;
}

impl GetNormalForm for Context {
    fn get_normal_form(&self, concept: usize) -> (r: Option<usize>)
        decreases self.model().rrank(concept),
    {
        let ghost m = self.model();
        match self.read_concept(concept).get_reduction() {
            None => None,
            Some(n) => {
                assert(m.red(concept) == Some(n));
                assert(m.has(n) && m.rrank(n) < m.rrank(concept));
                match self.get_normal_form(n) {
                    None => {
                        assert(m.end_of(n) == n);
                        Some(n)
                    },
                    Some(k) => Some(k),
                }
            },
        }
    }
}

/// Whether a concept is a part of the definition of another.
pub trait Container: ConceptReader {
    fn contains(&self, outer: usize, inner: usize) -> (b: bool)
        requires
            self.model().sound(),
            self.model().has(outer),
        ensures
            b == self.model().contains(outer, inner),
    ;
}

impl Container for Context {
    fn contains(&self, outer: usize, inner: usize) -> (b: bool)
        decreases self.model().drank(outer),
    {
        let ghost m = self.model();
        if let Some((left, right)) = self.read_concept(outer).get_definition() {
            assert(m.def(outer) == Some((left, right)));
            assert(m.has(left) && m.has(right));
            assert(m.drank(left) < m.drank(outer) && m.drank(right) < m.drank(outer));
            left == inner || right == inner || self.contains(left, inner) || self.contains(right, inner)
        } else {
            false
        }
    }
}

/// Finding the concept defined as a given pair of concepts.
pub trait FindDefinition: ConceptReader {
    fn find_definition(&self, lefthand: usize, righthand: usize) -> (r: Option<usize>)
        requires
            self.model().sound(),
            self.model().has(lefthand),
            self.model().has(righthand),
        ensures
            r == self.model().definition_of(lefthand, righthand),
    ;
}

impl FindDefinition for Context {
    fn find_definition(&self, lefthand: usize, righthand: usize) -> (r: Option<usize>) {
        let ghost m = self.model();
        let mut candidates: Vec<usize> = Vec::new();
        let lefthand_of = self.read_concept(lefthand).get_lefthand_of();
        let righthand_of = self.read_concept(righthand).get_righthand_of();
        let mut i: usize = 0;
        while i < lefthand_of.len()
            invariant
                m == self.model(),
                m.sound(),
                m.has(lefthand),
                m.has(righthand),
                lefthand_of@ == m.view(lefthand).lefthand_of,
                righthand_of@ == m.view(righthand).righthand_of,
                i <= lefthand_of.len(),
                candidates.len() <= 1,
                forall|x: usize| #[trigger] candidates@.contains(x) ==> m.has(x) && m.def(x) == Some((lefthand, righthand)),
                forall|j: int| 0 <= j < i ==> (#[trigger] m.def(lefthand_of@[j]) == Some((lefthand, righthand)) ==> candidates@.contains(lefthand_of@[j])),
            decreases lefthand_of.len() - i,
        {
            let candidate = lefthand_of[i];
            assert(m.view(lefthand).lefthand_of.contains(candidate));
            let has_righthand = vec_has(&righthand_of, candidate);
            let new_candidate = !vec_has(&candidates, candidate);
            if has_righthand && new_candidate {
                assert(m.def(candidate) == Some((lefthand, righthand)));
                if candidates.len() == 1 {
                    assert(candidates@.contains(candidates@[0]));
                    assert(m.def(candidates@[0]) == m.def(candidate));
                }
                let ghost before = candidates@;
                candidates.push(candidate);
                assert(candidates@[candidates.len() - 1] == candidate);
                proof {
                    assert forall|x: usize| #[trigger] candidates@.contains(x) implies m.has(x) && m.def(x) == Some((lefthand, righthand)) by {
                        let k = choose|k: int| 0 <= k < candidates@.len() && candidates@[k] == x;
                        if k < candidates@.len() - 1 {
                            assert(before.contains(x)) by { assert(before[k] == x); }
                        }
                    }
                }
            } else if !has_righthand {
                assert(!m.view(righthand).righthand_of.contains(candidate));
            }
            i = i + 1;
        }
        proof {
            if exists|d: usize| m.has(d) && #[trigger] m.def(d) == Some((lefthand, righthand)) {
                let d = choose|d: usize| m.has(d) && #[trigger] m.def(d) == Some((lefthand, righthand));
                assert(m.view(lefthand).lefthand_of.contains(d));
                let j = choose|j: int| 0 <= j < lefthand_of@.len() && lefthand_of@[j] == d;
                assert(candidates@.contains(d));
            }
        }
        match candidates.len() {
            0 => None,
            _ => {
                let d = candidates[0];
                proof {
                    assert(candidates@.contains(d));
                    let w = choose|w: usize| m.has(w) && #[trigger] m.def(w) == Some((lefthand, righthand));
                    assert(m.def(w) == m.def(d));
                }
                Some(d)
            },
        }
    }
}

/// Finding the label definition of a concept.
pub trait GetConceptOfLabel: ConceptReader {
    fn get_concept_of_label(&self, concept: usize) -> (r: Option<usize>)
        requires
            self.model().sound(),
            self.model().has(concept),
        ensures
            r == self.model().label_def_of(concept),
    ;
}

impl GetConceptOfLabel for Context {
    fn get_concept_of_label(&self, concept: usize) -> (r: Option<usize>) {
        let ghost m = self.model();
        let righthand_of = self.read_concept(concept).get_righthand_of();
        let mut i: usize = 0;
        while i < righthand_of.len()
            invariant
                m == self.model(),
                m.sound(),
                m.has(concept),
                righthand_of@ == m.view(concept).righthand_of,
                i <= righthand_of.len(),
                forall|j: int| 0 <= j < i ==> #[trigger] m.def(righthand_of@[j]) != Some((LABEL, concept)),
            decreases righthand_of.len() - i,
        {
            let candidate = righthand_of[i];
            assert(m.view(concept).righthand_of.contains(candidate));
            assert(m.uses_on_right(candidate, concept));
            match self.read_concept(candidate).get_definition() {
                None => {},
                Some((left, _)) => {
                    if left == LABEL {
                        proof {
                            let w = choose|w: usize| m.has(w) && #[trigger] m.def(w) == Some((LABEL, concept));
                            assert(m.def(w) == m.def(candidate));
                        }
                        return Some(candidate);
                    }
                },
            }
            i = i + 1;
        }
        proof {
            if exists|d: usize| m.has(d) && #[trigger] m.def(d) == Some((LABEL, concept)) {
                let d = choose|d: usize| m.has(d) && #[trigger] m.def(d) == Some((LABEL, concept));
                assert(m.view(concept).righthand_of.contains(d));
                let j = choose|j: int| 0 <= j < righthand_of@.len() && righthand_of@[j] == d;
                assert(m.def(righthand_of@[j]) != Some((LABEL, concept)));
            }
        }
        None
    }
}

/// Reading the label of a concept.
pub trait GetLabel: GetNormalForm + GetConceptOfLabel {
    fn get_label(&self, concept: usize) -> (r: Option<String>)
        requires
            self.model().sound(),
            self.model().has(concept),
        ensures
            r matches Some(s) ==> self.model().label_of(concept) == Some(s@),
            r is None ==> self.model().label_of(concept) is None,
    ;
}

impl GetLabel for Context {
    fn get_label(&self, concept: usize) -> (r: Option<String>) {
        let ghost m = self.model();
        match self.get_concept_of_label(concept) {
            None => None,
            Some(d) => {
                assert(m.has(d)) by {
                    let w = choose|w: usize| m.has(w) && #[trigger] m.def(w) == Some((LABEL, concept));
                }
                match self.get_normal_form(d) {
                    None => None,
                    Some(n) => {
                        assert(m.has(n)) by {
                            lemma_end_in_range(m, d);
                        }
                        self.read_concept(n).get_string()
                    },
                }
            },
        }
    }
}

/// The end of a chain of reductions is a concept with no reduction, reached from the start.
pub proof fn lemma_end_in_range(m: Model, c: usize)
    requires
        m.sound(),
        m.has(c),
    ensures
        m.has(m.end_of(c)),
        m.red(m.end_of(c)) is None,
        m.reaches(c, m.end_of(c)),
    decreases m.rrank(c),
{
    if let Some(n) = m.red(c) {
        assert(m.has(n));
        lemma_end_in_range(m, n);
    }
}

/// Finding every concept whose chain of reductions passes through a concept.
pub trait FindWhatItsANormalFormOf: ConceptReader {
    fn find_what_its_a_normal_form_of(&self, con: usize) -> (r: Vec<usize>)
        requires
            self.model().sound(),
            self.model().has(con),
        ensures
            forall|x: usize| #[trigger] r@.contains(x) <==> (self.model().has(x) && x != con && self.model().reaches(x, con)),
    ;
}

impl FindWhatItsANormalFormOf for Context {
    fn find_what_its_a_normal_form_of(&self, con: usize) -> (r: Vec<usize>)
        decreases self.model().red_bound - self.model().rrank(con),
    {
        let ghost m = self.model();
        let mut normal_form_of: Vec<usize> = Vec::new();
        let reduces_from = self.read_concept(con).find_what_reduces_to_it();
        let mut i: usize = 0;
        while i < reduces_from.len()
            invariant
                m == self.model(),
                m.sound(),
                m.has(con),
                reduces_from@ == m.view(con).reduces_from,
                i <= reduces_from.len(),
                forall|x: usize| #[trigger] normal_form_of@.contains(x) ==> (m.has(x) && x != con && m.reaches(x, con)),
                forall|j: int, x: usize| 0 <= j < i && m.has(x) && #[trigger] m.reaches(x, reduces_from@[j]) ==> normal_form_of@.contains(x),
            decreases reduces_from.len() - i,
        {
            let concept = reduces_from[i];
            assert(m.view(con).reduces_from.contains(concept));
            assert(m.has(concept) && m.red(concept) == Some(con));
            assert(m.rrank(con) < m.rrank(concept) <= m.red_bound);
            let ghost before = normal_form_of@;
            normal_form_of.push(concept);
            proof {
                assert forall|x: usize| #[trigger] normal_form_of@.contains(x) <==> (before.contains(x) || x == concept) by {
                    if normal_form_of@.contains(x) {
                        let p = choose|p: int| 0 <= p < normal_form_of@.len() && normal_form_of@[p] == x;
                        if p < before.len() {
                            assert(before[p] == x);
                        }
                    }
                    if before.contains(x) {
                        let p = choose|p: int| 0 <= p < before.len() && before[p] == x;
                        assert(normal_form_of@[p] == x);
                    }
                    if x == concept {
                        assert(normal_form_of@[before.len() as int] == x);
                    }
                }
            }
            let upstream = self.find_what_its_a_normal_form_of(concept);
            let mut k: usize = 0;
            while k < upstream.len()
                invariant
                    m == self.model(),
                    m.sound(),
                    m.has(con),
                    m.has(concept),
                    m.red(concept) == Some(con),
                    k <= upstream.len(),
                    forall|x: usize| #[trigger] upstream@.contains(x) <==> (m.has(x) && x != concept && m.reaches(x, concept)),
                    forall|x: usize| #[trigger] normal_form_of@.contains(x) <==> (before.contains(x) || x == concept || exists|j: int| 0 <= j < k && upstream@[j] == x),
                decreases upstream.len() - k,
            {
                let ghost nf = normal_form_of@;
                normal_form_of.push(upstream[k]);
                proof {
                    assert forall|x: usize| #[trigger] normal_form_of@.contains(x) <==> (before.contains(x) || x == concept || exists|j: int| 0 <= j < k + 1 && upstream@[j] == x) by {
                        if normal_form_of@.contains(x) {
                            let p = choose|p: int| 0 <= p < normal_form_of@.len() && normal_form_of@[p] == x;
                            if p < nf.len() {
                                assert(nf.contains(x)) by { assert(nf[p] == x); }
                            }
                        }
                        if exists|j: int| 0 <= j < k + 1 && upstream@[j] == x {
                            let j = choose|j: int| 0 <= j < k + 1 && upstream@[j] == x;
                            if j == k {
                                assert(normal_form_of@[normal_form_of@.len() - 1] == x);
                            } else {
                                assert(nf.contains(x));
                                let p = choose|p: int| 0 <= p < nf.len() && nf[p] == x;
                                assert(normal_form_of@[p] == x);
                            }
                        }
                        if before.contains(x) || x == concept {
                            assert(nf.contains(x));
                            let p = choose|p: int| 0 <= p < nf.len() && nf[p] == x;
                            assert(normal_form_of@[p] == x);
                        }
                    }
                }
                k = k + 1;
            }
            proof {
                assert(m.reaches(con, con));
                assert(m.reaches(concept, con));
                assert forall|x: usize| #[trigger] normal_form_of@.contains(x) implies (m.has(x) && x != con && m.reaches(x, con)) by {
                    if x == concept {
                    } else if before.contains(x) {
                    } else {
                        let j = choose|j: int| 0 <= j < upstream@.len() && upstream@[j] == x;
                        assert(upstream@.contains(x));
                        lemma_reaches_trans(m, x, concept, con);
                        if x == con {
                            lemma_no_cycle(m, con, concept);
                        }
                    }
                }
                assert forall|j: int, x: usize| 0 <= j < i + 1 && m.has(x) && #[trigger] m.reaches(x, reduces_from@[j]) implies normal_form_of@.contains(x) by {
                    if j == i {
                        if x == concept {
                        } else {
                            assert(upstream@.contains(x));
                            let p = choose|p: int| 0 <= p < upstream@.len() && upstream@[p] == x;
                        }
                    } else {
                        assert(before.contains(x));
                    }
                }
            }
            i = i + 1;
        }
        proof {
            assert forall|x: usize| m.has(x) && x != con && m.reaches(x, con) implies #[trigger] normal_form_of@.contains(x) by {
                lemma_reaches_last_step(m, x, con);
                let y = choose|y: usize| m.has(y) && m.red(y) == Some(con) && #[trigger] m.reaches(x, y);
                assert(m.view(con).reduces_from.contains(y));
                let j = choose|j: int| 0 <= j < reduces_from@.len() && reduces_from@[j] == y;
            }
        }
        normal_form_of
    }
}

/// No chain of reductions leads back to where it started.
pub proof fn lemma_no_cycle(m: Model, c: usize, n: usize)
    requires
        m.sound(),
        m.has(c),
        m.red(n) == Some(c),
        m.has(n),
    ensures
        !m.reaches(c, n),
{
    assert(m.rrank(c) < m.rrank(n)) by {
        assert(m.red(n) == Some(c));
    }
    if m.reaches(c, n) {
        lemma_reaches_rank(m, c, n);
    }
}

/// A chain of reductions never goes up the ranks.
pub proof fn lemma_reaches_rank(m: Model, x: usize, y: usize)
    requires
        m.sound(),
        m.has(x),
        m.reaches(x, y),
    ensures
        m.rrank(y) <= m.rrank(x),
    decreases m.rrank(x),
{
    if x != y {
        let n = m.red(x).unwrap();
        assert(m.has(n));
        lemma_reaches_rank(m, n, y);
    }
}

/// Finding the concept that a string concept labels.
pub trait Label: FindWhatItsANormalFormOf {
    fn get_labellee(&self, concept: usize) -> (r: Option<usize>)
        requires
            self.model().sound(),
            self.model().has(concept),
        ensures
            r == self.model().labellee_of(concept),
    ;
}

impl Label for Context {
    fn get_labellee(&self, concept: usize) -> (r: Option<usize>) {
        let ghost m = self.model();
        let mut candidates: Vec<usize> = Vec::new();
        let labels = self.find_what_its_a_normal_form_of(concept);
        let mut i: usize = 0;
        while i < labels.len()
            invariant
                m == self.model(),
                m.sound(),
                m.has(concept),
                forall|x: usize| #[trigger] labels@.contains(x) <==> (m.has(x) && x != concept && m.reaches(x, concept)),
                i <= labels.len(),
                candidates.len() <= 1,
                forall|x: usize| #[trigger] candidates@.contains(x) ==> m.labels(x, concept),
                forall|j: int| 0 <= j < i ==> match #[trigger] m.def(labels@[j]) {
                    Some((l, x)) => l == LABEL ==> candidates@.contains(x),
                    None => true,
                },
            decreases labels.len() - i,
        {
            let label = labels[i];
            assert(labels@.contains(label));
            match self.read_concept(label).get_definition() {
                None => {},
                Some((r, x)) => {
                    assert(m.def(label) == Some((r, x)));
                    if r == LABEL {
                        assert(m.labels(x, concept));
                        proof {
                            if candidates.len() == 1 && !candidates@.contains(x) {
                                assert(candidates@.contains(candidates@[0]));
                                lemma_labels_unique(m, candidates@[0], x, concept);
                            }
                        }
                        let ghost before = candidates@;
                        crate::concepts::vec_insert(&mut candidates, x);
                        proof {
                            crate::concepts::lemma_seq_insert_contains(before, x);
                        }
                    }
                },
            }
            i = i + 1;
        }
        proof {
            if exists|x: usize| m.labels(x, concept) {
                let x = choose|x: usize| m.labels(x, concept);
                let d = choose|d: usize| m.has(d) && #[trigger] m.def(d) == Some((LABEL, x)) && d != concept && m.reaches(d, concept);
                assert(labels@.contains(d));
                let j = choose|j: int| 0 <= j < labels@.len() && labels@[j] == d;
                assert(candidates@.contains(x));
            }
        }
        match candidates.len() {
            0 => None,
            _ => {
                let x = candidates[0];
                proof {
                    assert(candidates@.contains(x));
                    let w = choose|w: usize| m.labels(w, concept);
                    lemma_labels_unique(m, x, w, concept);
                }
                Some(x)
            },
        }
    }
}

/// A string concept labels at most one concept.
pub proof fn lemma_labels_unique(m: Model, x: usize, y: usize, s: usize)
    requires
        m.sound(),
        m.labels(x, s),
        m.labels(y, s),
    ensures
        x == y,
{
    let dx = choose|d: usize| m.has(d) && #[trigger] m.def(d) == Some((LABEL, x)) && d != s && m.reaches(d, s);
    let dy = choose|d: usize| m.has(d) && #[trigger] m.def(d) == Some((LABEL, y)) && d != s && m.reaches(d, s);
    lemma_label_def_reaches(m, dx, s);
    lemma_label_def_reaches(m, dy, s);
    assert(m.red(dx) == m.red(dy));
}

/// Whether nothing but its label refers to a concept.
pub trait MaybeDisconnected: ConceptReader {
    fn is_disconnected(&self, concept: usize) -> (b: bool)
        requires
            self.model().sound(),
            self.model().has(concept),
        ensures
            b == self.model().disconnected(concept),
    ;

    fn righthand_of_without_label_is_empty(&self, con: usize) -> (b: bool)
        requires
            self.model().sound(),
            self.model().has(con),
        ensures
            b == (forall|i: int|
                0 <= i < self.model().view(con).righthand_of.len() ==> #[trigger] self.model().is_label_def(
                    self.model().view(con).righthand_of[i],
                ) || self.model().def(self.model().view(con).righthand_of[i]) is None),
    ;
}

impl MaybeDisconnected for Context {
    fn is_disconnected(&self, concept: usize) -> (b: bool) {
        let ghost m = self.model();
        let reduction = self.read_concept(concept).get_reduction();
        let definition = self.read_concept(concept).get_definition();
        let lefthand_of = self.read_concept(concept).get_lefthand_of();
        let reduces_from = self.read_concept(concept).find_what_reduces_to_it();
        let only_labels = self.righthand_of_without_label_is_empty(concept);
        proof {
            let v = m.view(concept);
            if lefthand_of.len() > 0 {
                assert(v.lefthand_of.contains(lefthand_of@[0]));
            }
            assert forall|y: usize| #[trigger] m.uses_on_left(y, concept) implies lefthand_of@.len() > 0 by {
                assert(v.lefthand_of.contains(y));
            }
            if reduces_from.len() > 0 {
                assert(v.reduces_from.contains(reduces_from@[0]));
            }
            assert forall|y: usize| m.has(y) && #[trigger] m.red(y) == Some(concept) implies reduces_from@.len() > 0 by {
                assert(v.reduces_from.contains(y));
            }
            if only_labels {
                assert forall|y: usize| #[trigger] m.uses_on_right(y, concept) implies m.is_label_def(y) by {
                    assert(v.righthand_of.contains(y));
                    let i = choose|i: int| 0 <= i < v.righthand_of.len() && v.righthand_of[i] == y;
                    assert(m.is_label_def(v.righthand_of[i]) || m.def(v.righthand_of[i]) is None);
                }
            } else {
                let i = choose|i: int| 0 <= i < v.righthand_of.len() && !(#[trigger] m.is_label_def(v.righthand_of[i]) || m.def(v.righthand_of[i]) is None);
                assert(v.righthand_of.contains(v.righthand_of[i]));
                assert(m.uses_on_right(v.righthand_of[i], concept));
            }
        }
        reduction.is_none() && definition.is_none() && lefthand_of.len() == 0 && only_labels && reduces_from.len() == 0
    }

    fn righthand_of_without_label_is_empty(&self, con: usize) -> (b: bool) {
        let ghost m = self.model();
        let righthand_of = self.read_concept(con).get_righthand_of();
        let mut i: usize = 0;
        while i < righthand_of.len()
            invariant
                m == self.model(),
                m.sound(),
                m.has(con),
                righthand_of@ == m.view(con).righthand_of,
                i <= righthand_of.len(),
                forall|j: int| 0 <= j < i ==> #[trigger] m.is_label_def(righthand_of@[j]) || m.def(righthand_of@[j]) is None,
            decreases righthand_of.len() - i,
        {
            let concept = righthand_of[i];
            assert(m.view(con).righthand_of.contains(concept));
            if let Some((left, _)) = self.read_concept(concept).get_definition() {
                if left != LABEL {
                    assert(!(m.is_label_def(righthand_of@[i as int]) || m.def(righthand_of@[i as int]) is None));
                    return false;
                }
            }
            i = i + 1;
        }
        true
    }
}

} // verus!
