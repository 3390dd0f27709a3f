//! Sets of marks, kept in the order of their types.

use crate::markdown::marks::{MarkView, MarkdownMark, MarkdownMarkType};
use std::borrow::Cow;
use vstd::prelude::*;
use vstd::std_specs::cmp::PartialEqSpecImpl;
use vstd::std_specs::convert::TryFromSpecImpl;

verus! {

/// True when the marks stand in strictly rising order of their types, so that
/// no type occurs twice.
pub open spec fn marks_sorted(s: Seq<MarkView>) -> bool {
    forall|i: int, j: int| 0 <= i < j < s.len() ==> s[i].rank() < s[j].rank()
}

/// The number of leading marks of `s` whose type comes before rank `r`: in a
/// sorted sequence, the place where a mark of that rank stands or belongs.
pub open spec fn marks_position(s: Seq<MarkView>, r: int) -> nat
    decreases s.len(),
{
    if s.len() == 0 {
        0
    } else if s.last().rank() >= r {
        marks_position(s.drop_last(), r)
    } else {
        s.len()
    }
}

/// True when `s` holds a mark of the type of `m`.
pub open spec fn marks_has_type(s: Seq<MarkView>, t: MarkdownMarkType) -> bool {
    let p = marks_position(s, t.rank()) as int;
    p < s.len() && s[p].mark_type() == t
}

/// The set with `m` added: `m` takes the place of a mark of its type, or is
/// put where its type belongs.
pub open spec fn marks_add(s: Seq<MarkView>, m: MarkView) -> Seq<MarkView> {
    let p = marks_position(s, m.rank()) as int;
    if marks_has_type(s, m.mark_type()) {
        s.update(p, m)
    } else {
        s.insert(p, m)
    }
}

/// The set without the mark of the type of `m`, if it holds one.
pub open spec fn marks_remove(s: Seq<MarkView>, m: MarkView) -> Seq<MarkView> {
    let p = marks_position(s, m.rank()) as int;
    if marks_has_type(s, m.mark_type()) {
        s.remove(p)
    } else {
        s
    }
}

/// In a sorted sequence, the place `p` before which all ranks are below `r`
/// and at which the rank is not is the one `marks_position` gives.
pub proof fn lemma_marks_position(s: Seq<MarkView>, r: int, p: int)
    requires
        marks_sorted(s),
        0 <= p <= s.len(),
        forall|j: int| 0 <= j < p ==> s[j].rank() < r,
        p < s.len() ==> s[p].rank() >= r,
    ensures
        marks_position(s, r) == p,
    decreases s.len(),
{
    if s.len() == 0 {
    } else if s.last().rank() >= r {
        assert(p <= s.len() - 1);
        lemma_marks_position(s.drop_last(), r, p);
    } else {
        if p < s.len() {
            assert(s[p].rank() <= s.last().rank());
        }
    }
}

/// What `marks_position` gives, in a sorted sequence.
pub proof fn lemma_marks_position_bounds(s: Seq<MarkView>, r: int)
    requires
        marks_sorted(s),
    ensures
        marks_position(s, r) <= s.len(),
        forall|j: int| 0 <= j < marks_position(s, r) ==> s[j].rank() < r,
        forall|j: int| marks_position(s, r) <= j < s.len() ==> s[j].rank() >= r,
    decreases s.len(),
{
    if s.len() == 0 {
    } else if s.last().rank() >= r {
        let t = s.drop_last();
        assert forall|i: int, j: int| 0 <= i < j < t.len() implies t[i].rank() < t[j].rank() by {
            assert(s[i].rank() < s[j].rank());
        }
        lemma_marks_position_bounds(t, r);
        let p = marks_position(t, r);
        assert forall|j: int| 0 <= j < p implies s[j].rank() < r by {
            assert(t[j].rank() < r);
        }
        assert forall|j: int| p <= j < s.len() implies s[j].rank() >= r by {
            if j < t.len() {
                assert(t[j].rank() >= r);
            }
        }
    } else {
        assert forall|j: int| 0 <= j < s.len() implies s[j].rank() < r by {
            if j < s.len() - 1 {
                assert(s[j].rank() < s.last().rank());
            }
        }
    }
}

/// Adding a mark keeps the order, and the set then holds a mark of that type.
pub proof fn lemma_marks_add_sorted(s: Seq<MarkView>, m: MarkView)
    requires
        marks_sorted(s),
    ensures
        marks_sorted(marks_add(s, m)),
        marks_has_type(marks_add(s, m), m.mark_type()),
        marks_add(s, m)[marks_position(s, m.rank()) as int] == m,
        marks_position(marks_add(s, m), m.rank()) == marks_position(s, m.rank()),
{
    lemma_marks_position_bounds(s, m.rank());
    let p = marks_position(s, m.rank()) as int;
    let t = marks_add(s, m);
    assert(marks_sorted(t)) by {
        assert forall|i: int, j: int| 0 <= i < j < t.len() implies t[i].rank() < t[j].rank() by {
            if marks_has_type(s, m.mark_type()) {
                assert(s[i].rank() < s[j].rank());
            } else {
                let si = if i < p { i } else { i - 1 };
                let sj = if j < p { j } else { j - 1 };
                if i != p && j != p {
                    assert(s[si].rank() < s[sj].rank());
                }
            }
        }
    }
    lemma_marks_position(t, m.rank(), p);
}

/// Removing a mark keeps the order, and no mark of that type is left.
pub proof fn lemma_marks_remove_sorted(s: Seq<MarkView>, m: MarkView)
    requires
        marks_sorted(s),
    ensures
        marks_sorted(marks_remove(s, m)),
        !marks_has_type(marks_remove(s, m), m.mark_type()),
{
    lemma_marks_position_bounds(s, m.rank());
    let p = marks_position(s, m.rank()) as int;
    let t = marks_remove(s, m);
    assert forall|i: int, j: int| 0 <= i < j < t.len() implies t[i].rank() < t[j].rank() by {
        if marks_has_type(s, m.mark_type()) {
            let si = if i < p { i } else { i + 1 };
            let sj = if j < p { j } else { j + 1 };
            assert(s[si].rank() < s[sj].rank());
        } else {
            assert(s[i].rank() < s[j].rank());
        }
    }
    if marks_has_type(s, m.mark_type()) {
        if p < t.len() {
            assert(s[p].rank() < s[p + 1].rank());
        }
        lemma_marks_position(t, m.rank(), p);
    }
}

/// Adding a mark and then removing it leaves the set as it was when it held
/// no mark of that type, and otherwise leaves the set without that type.
pub proof fn lemma_marks_add_remove(s: Seq<MarkView>, m: MarkView)
    requires
        marks_sorted(s),
    ensures
        marks_remove(marks_add(s, m), m) == marks_remove(s, m),
        !marks_has_type(s, m.mark_type()) ==> marks_remove(marks_add(s, m), m) == s,
{
    lemma_marks_add_sorted(s, m);
    lemma_marks_position_bounds(s, m.rank());
    let p = marks_position(s, m.rank()) as int;
    if marks_has_type(s, m.mark_type()) {
        assert(s.update(p, m).remove(p) =~= s.remove(p));
    } else {
        assert(s.insert(p, m).remove(p) =~= s);
    }
}

/// What the marks of a list hold, as plain values.
pub open spec fn marks_view(marks: Seq<MarkdownMark>) -> Seq<MarkView> {
    marks.map_values(|m: MarkdownMark| m@)
}

/// Finds the place of mark type `t` in a sorted list of marks by binary
/// search: `Ok` with the index of the mark of that type, or `Err` with the
/// index at which such a mark belongs.
fn search_marks(content: &Vec<MarkdownMark>, t: MarkdownMarkType) -> (r: Result<usize, usize>)
    requires
        marks_sorted(marks_view(content@)),
    ensures
        match r {
            Ok(i) => marks_has_type(marks_view(content@), t) && i == marks_position(
                marks_view(content@),
                t.rank(),
            ),
            Err(i) => !marks_has_type(marks_view(content@), t) && i == marks_position(
                marks_view(content@),
                t.rank(),
            ),
        },
        marks_position(marks_view(content@), t.rank()) <= content@.len(),
{
    let ghost s = marks_view(content@);
    let key: u8 = t.order();
    let mut lo: usize = 0;
    let mut hi: usize = content.len();
    while lo < hi
        invariant
            0 <= lo <= hi <= s.len(),
            s == marks_view(content@),
            key == t.rank(),
            marks_sorted(s),
            forall|j: int| 0 <= j < lo ==> s[j].rank() < key,
            forall|j: int| hi <= j < s.len() ==> s[j].rank() > key,
        decreases hi - lo,
    {
        let mid: usize = lo + (hi - lo) / 2;
        let here: u8 = content[mid].mark_type().order();
        assert(here == s[mid as int].rank());
        if here == key {
            proof {
                assert forall|j: int| 0 <= j < mid implies s[j].rank() < key by {
                    assert(s[j].rank() < s[mid as int].rank());
                }
                lemma_marks_position(s, key as int, mid as int);
            }
            return Ok(mid);
        } else if here < key {
            proof {
                assert forall|j: int| 0 <= j < mid + 1 implies s[j].rank() < key by {
                    if j < mid {
                        assert(s[j].rank() < s[mid as int].rank());
                    }
                }
            }
            lo = mid + 1;
        } else {
            proof {
                assert forall|j: int| mid <= j < s.len() implies s[j].rank() > key by {
                    if j > mid {
                        assert(s[mid as int].rank() < s[j].rank());
                    }
                }
            }
            hi = mid;
        }
    }
    proof {
        lemma_marks_position(s, key as int, lo as int);
    }
    Err(lo)
}

/// A set of marks: at most one mark of each type, in the order of the types.
#[derive(Debug)]
pub struct MarkSet {
    content: Vec<MarkdownMark>,
}

/// Why a list of marks is no mark set.
#[derive(Debug, PartialEq, Eq, Structural)]
pub enum MarkSetError {
    /// Duplicate mark types
    Duplicates,
}

impl View for MarkSet {
    type V = Seq<MarkView>;

    closed spec fn view(&self) -> Seq<MarkView> {
        marks_view(self.content@)
    }
}

impl MarkSet {
    #[verifier::type_invariant]
    spec fn well_formed(self) -> bool {
        marks_sorted(self@)
    }

    /// The empty set.
    pub fn new() -> (r: Self)
        ensures
            r@ == Seq::<MarkView>::empty(),
    {
        let r = MarkSet { content: Vec::new() };
        assert(r@ =~= Seq::<MarkView>::empty());
        r
    }

    /// The number of marks in the set. The marks of a set are sorted by
    /// type, each type once.
    pub fn len(&self) -> (r: usize)
        ensures
            r == self@.len(),
            marks_sorted(self@),
    {
        proof {
            use_type_invariant(self);
        }
        self.content.len()
    }

    /// True when the set holds no mark.
    pub fn is_empty(&self) -> (r: bool)
        ensures
            r == (self@.len() == 0),
    {
        self.content.len() == 0
    }

    /// The mark at the given place in the order of mark types.
    pub fn get(&self, index: usize) -> (r: &MarkdownMark)
        requires
            index < self@.len(),
        ensures
            r@ == self@[index as int],
    {
        &self.content[index]
    }

    /// Finds the place of mark type `t`: `Ok` with the index of the mark of
    /// that type, or `Err` with the index at which such a mark belongs.
    fn search(&self, t: MarkdownMarkType) -> (r: Result<usize, usize>)
        ensures
            match r {
                Ok(i) => marks_has_type(self@, t) && i == marks_position(self@, t.rank()),
                Err(i) => !marks_has_type(self@, t) && i == marks_position(self@, t.rank()),
            },
            marks_position(self@, t.rank()) <= self@.len(),
    {
        proof {
            use_type_invariant(self);
        }
        search_marks(&self.content, t)
    }

    /// Check whether the set contains this exact mark
    pub fn contains(&self, mark: &MarkdownMark) -> (r: bool)
        ensures
            r == self@.contains(mark@),
    {
        proof {
            use_type_invariant(self);
            lemma_marks_position_bounds(self@, mark@.rank());
        }
        match self.search(mark.mark_type()) {
            Ok(index) => {
                let found = self.content[index].same(mark);
                proof {
                    if !found {
                        assert forall|j: int| 0 <= j < self@.len() implies self@[j] != mark@ by {
                            if j < index {
                                assert(self@[j].rank() < self@[index as int].rank());
                            } else if j > index {
                                assert(self@[index as int].rank() < self@[j].rank());
                            }
                        }
                    }
                }
                found
            },
            Err(_index) => {
                proof {
                    assert forall|j: int| 0 <= j < self@.len() implies self@[j] != mark@ by {
                        let p = marks_position(self@, mark@.rank()) as int;
                        if j >= p && self@[j] == mark@ {
                            if j > p {
                                assert(self@[p].rank() < self@[j].rank());
                            }
                        }
                    }
                }
                false
            },
        }
    }

    /// True when adding `mark` would leave the set as it is: the set holds
    /// this very mark.
    fn holds(&self, mark: &MarkdownMark) -> (r: bool)
        ensures
            r == (marks_add(self@, mark@) == self@),
    {
        match self.search(mark.mark_type()) {
            Ok(index) => {
                let r = self.content[index].same(mark);
                proof {
                    let p = index as int;
                    if r {
                        assert(self@.update(p, mark@) =~= self@);
                    } else {
                        assert(self@.update(p, mark@)[p] != self@[p]);
                    }
                }
                r
            },
            Err(_index) => false,
        }
    }

    /// True when the set holds a mark of type `t`.
    pub fn has_type(&self, t: MarkdownMarkType) -> (r: bool)
        ensures
            r == marks_has_type(self@, t),
            !r ==> forall|m: MarkView| m.mark_type() == t ==> #[trigger] marks_remove(self@, m) == self@,
            r ==> forall|m: MarkView| m.mark_type() == t ==> #[trigger] marks_remove(self@, m) != self@,
    {
        self.search(t).is_ok()
    }

    /// Add a mark to the set
    pub fn add(&mut self, mark: &MarkdownMark)
        ensures
            final(self)@ == marks_add(old(self)@, mark@),
    {
        proof {
            use_type_invariant(&*self);
            lemma_marks_add_sorted(self@, mark@);
        }
        match self.search(mark.mark_type()) {
            Ok(index) => {
                let mut content = Vec::new();
                std::mem::swap(&mut content, &mut self.content);
                content[index] = mark.clone();
                proof {
                    assert(marks_view(content@) =~= marks_add(old(self)@, mark@));
                }
                self.content = content;
            },
            Err(index) => {
                let mut content = Vec::new();
                std::mem::swap(&mut content, &mut self.content);
                content.insert(index, mark.clone());
                proof {
                    assert(marks_view(content@) =~= marks_add(old(self)@, mark@));
                }
                self.content = content;
            },
        }
    }

    /// Remove a mark from the set
    pub fn remove(&mut self, mark: &MarkdownMark)
        ensures
            final(self)@ == marks_remove(old(self)@, mark@),
    {
        proof {
            use_type_invariant(&*self);
            lemma_marks_remove_sorted(self@, mark@);
        }
        match self.search(mark.mark_type()) {
            Ok(index) => {
                let mut content = Vec::new();
                std::mem::swap(&mut content, &mut self.content);
                content.remove(index);
                proof {
                    assert(marks_view(content@) =~= marks_remove(old(self)@, mark@));
                }
                self.content = content;
            },
            Err(_index) => {},
        }
    }

    /// True when both sets hold the same marks.
    pub fn same(&self, other: &Self) -> (r: bool)
        ensures
            r == (self@ == other@),
    {
        if self.content.len() != other.content.len() {
            assert(self@.len() != other@.len());
            return false;
        }
        let mut i: usize = 0;
        while i < self.content.len()
            invariant
                0 <= i <= self.content@.len(),
                self.content@.len() == other.content@.len(),
                forall|j: int| 0 <= j < i ==> self@[j] == other@[j],
            decreases self.content@.len() - i,
        {
            if !self.content[i].same(&other.content[i]) {
                assert(self@[i as int] != other@[i as int]);
                return false;
            }
            i = i + 1;
        }
        assert(self@ =~= other@);
        true
    }
}

impl MarkdownMark {
    /// Given a set of marks, create a new set which contains this one as well, in the right
    /// position. If this mark is already in the set, the set itself is returned. A mark of
    /// the same type that is in the set is replaced by this one.
    pub fn add_to_set<'a>(&self, set: Cow<'a, MarkSet>) -> (r: Cow<'a, MarkSet>)
        ensures
            r@ == marks_add(set@, self@),
            marks_add(set@, self@) == set@ ==> r == set,
    {
        let unchanged = match &set {
            Cow::Borrowed(b) => b.holds(self),
            Cow::Owned(o) => o.holds(self),
        };
        if unchanged {
            set
        } else {
            let mut owned_set = match set {
                Cow::Borrowed(b) => b.clone(),
                Cow::Owned(o) => o,
            };
            owned_set.add(self);
            Cow::Owned(owned_set)
        }
    }

    /// Remove this mark from the given set, returning a new set. If no mark of this type
    /// is in the set, the set itself is returned.
    pub fn remove_from_set<'a>(&self, set: Cow<'a, MarkSet>) -> (r: Cow<'a, MarkSet>)
        ensures
            r@ == marks_remove(set@, self@),
            marks_remove(set@, self@) == set@ ==> r == set,
    {
        let unchanged = match &set {
            Cow::Borrowed(b) => !b.has_type(self.mark_type()),
            Cow::Owned(o) => !o.has_type(self.mark_type()),
        };
        if unchanged {
            set
        } else {
            let mut owned_set = match set {
                Cow::Borrowed(b) => b.clone(),
                Cow::Owned(o) => o,
            };
            owned_set.remove(self);
            Cow::Owned(owned_set)
        }
    }

    /// Create a set with just this mark
    pub fn into_set(self) -> (r: MarkSet)
        ensures
            r@ == seq![self@],
    {
        let mut content: Vec<MarkdownMark> = Vec::new();
        content.push(self);
        assert(marks_view(content@) =~= seq![self@]);
        MarkSet { content }
    }
}

/// True when two marks of the list are of one type.
pub open spec fn marks_duplicate(marks: Seq<MarkView>) -> bool {
    exists|i: int, j: int|
        0 <= i < j < marks.len() && (#[trigger] marks[i]).mark_type() == (#[trigger] marks[j]).mark_type()
}

impl TryFromSpecImpl<Vec<MarkdownMark>> for MarkSet {
    open spec fn obeys_try_from_spec() -> bool {
        false
    }

    open spec fn try_from_spec(v: Vec<MarkdownMark>) -> Result<Self, MarkSetError> {
        arbitrary()
    }
}

impl TryFrom<Vec<MarkdownMark>> for MarkSet {
    type Error = MarkSetError;

    /// The set of the marks of a list: the marks in the order of their
    /// types. Two marks of one type are an error.
    fn try_from(value: Vec<MarkdownMark>) -> (r: Result<Self, MarkSetError>)
        ensures
            marks_duplicate(marks_view(value@)) <==> r is Err,
            r matches Ok(set) ==> marks_sorted(set@) && set@.len() == value@.len() && forall|
                m: MarkView,
            |
                set@.contains(m) <==> marks_view(value@).contains(m),
    {
        let ghost all = marks_view(value@);
        let mut content: Vec<MarkdownMark> = Vec::new();
        let mut i: usize = 0;
        proof {
            assert(all.take(0) =~= Seq::<MarkView>::empty());
        }
        while i < value.len()
            invariant
                0 <= i <= value@.len(),
                all == marks_view(value@),
                marks_sorted(marks_view(content@)),
                content@.len() == i,
                same_marks(marks_view(content@), all.take(i as int)),
                !marks_duplicate(all.take(i as int)),
            decreases value@.len() - i,
        {
            let ghost before = marks_view(content@);
            let mark = &value[i];
            proof {
                lemma_marks_type_present(before, mark@.mark_type());
                assert(all.take(i + 1).drop_last() =~= all.take(i as int));
                assert(all.take(i + 1).last() == mark@);
            }
            match search_marks(&content, mark.mark_type()) {
                Ok(index) => {
                    proof {
                        lemma_duplicate_found(before, all, i as int);
                    }
                    return Err(MarkSetError::Duplicates);
                },
                Err(index) => {
                    content.insert(index, mark.clone());
                    proof {
                        assert(marks_view(content@) =~= marks_add(before, mark@));
                        lemma_marks_add_sorted(before, mark@);
                        lemma_marks_add_new(before, mark@);
                        lemma_same_marks_push(before, all.take(i + 1), mark@);
                    }
                },
            }
            i = i + 1;
        }
        proof {
            assert(all.take(all.len() as int) =~= all);
        }
        Ok(MarkSet { content })
    }
}

/// True when two lists hold the same marks.
pub open spec fn same_marks(a: Seq<MarkView>, b: Seq<MarkView>) -> bool {
    forall|m: MarkView| a.contains(m) <==> b.contains(m)
}

/// A sorted list holds a mark of a type just where `marks_has_type` says.
pub proof fn lemma_marks_type_present(s: Seq<MarkView>, t: MarkdownMarkType)
    requires
        marks_sorted(s),
    ensures
        marks_has_type(s, t) <==> exists|k: int| 0 <= k < s.len() && (#[trigger] s[k]).mark_type() == t,
{
    lemma_marks_position_bounds(s, t.rank());
    let p = marks_position(s, t.rank()) as int;
    if !marks_has_type(s, t) {
        assert forall|k: int| 0 <= k < s.len() implies (#[trigger] s[k]).mark_type() != t by {
            if k > p {
                assert(s[p].rank() < s[k].rank());
            }
        }
    }
}

/// A mark of a type that the sorted list holds already makes a duplicate in
/// a list whose first marks are those of the sorted list.
pub proof fn lemma_duplicate_found(before: Seq<MarkView>, all: Seq<MarkView>, i: int)
    requires
        0 <= i < all.len(),
        marks_sorted(before),
        same_marks(before, all.take(i)),
        marks_has_type(before, all[i].mark_type()),
    ensures
        marks_duplicate(all),
{
    lemma_marks_type_present(before, all[i].mark_type());
    let k = choose|k: int| 0 <= k < before.len() && (#[trigger] before[k]).mark_type() == all[i].mark_type();
    assert(before.contains(before[k]));
    assert(all.take(i).contains(before[k]));
    let j = choose|j: int| 0 <= j < all.take(i).len() && all.take(i)[j] == before[k];
    assert(all[j].mark_type() == all[i].mark_type());
}

/// A mark of a new type that is added to a sorted list is in the list
/// after that, with the marks that were in it.
pub proof fn lemma_marks_add_new(s: Seq<MarkView>, m: MarkView)
    requires
        marks_sorted(s),
        !marks_has_type(s, m.mark_type()),
    ensures
        forall|x: MarkView| marks_add(s, m).contains(x) <==> s.contains(x) || x == m,
        marks_add(s, m).len() == s.len() + 1,
{
    lemma_marks_position_bounds(s, m.rank());
    let p = marks_position(s, m.rank()) as int;
    let t = marks_add(s, m);
    assert forall|x: MarkView| t.contains(x) <==> s.contains(x) || x == m by {
        if t.contains(x) {
            let k = choose|k: int| 0 <= k < t.len() && t[k] == x;
            if k < p {
                assert(s[k] == x);
            } else if k > p {
                assert(s[k - 1] == x);
            }
        }
        if s.contains(x) {
            let k = choose|k: int| 0 <= k < s.len() && s[k] == x;
            if k < p {
                assert(t[k] == x);
            } else {
                assert(t[k + 1] == x);
            }
        }
        if x == m {
            assert(t[p] == x);
        }
    }
}

/// A list that holds the marks of another and one more mark holds the
/// marks of the other with that mark at its end; and no two of these are
/// of one type, where that mark is of a new type.
pub proof fn lemma_same_marks_push(before: Seq<MarkView>, next: Seq<MarkView>, m: MarkView)
    requires
        next.len() > 0,
        next.last() == m,
        marks_sorted(before),
        same_marks(before, next.drop_last()),
        !marks_has_type(before, m.mark_type()),
        !marks_duplicate(next.drop_last()),
        forall|x: MarkView| marks_add(before, m).contains(x) <==> before.contains(x) || x == m,
    ensures
        same_marks(marks_add(before, m), next),
        !marks_duplicate(next),
{
    let prefix = next.drop_last();
    let after = marks_add(before, m);
    assert forall|x: MarkView| after.contains(x) <==> next.contains(x) by {
        if next.contains(x) {
            let j = choose|j: int| 0 <= j < next.len() && next[j] == x;
            if j < prefix.len() {
                assert(prefix[j] == x);
                assert(prefix.contains(x));
            }
        }
        if prefix.contains(x) {
            let j = choose|j: int| 0 <= j < prefix.len() && prefix[j] == x;
            assert(next[j] == x);
        }
        if x == m {
            assert(next[next.len() - 1] == x);
        }
    }
    if marks_duplicate(next) {
        let (a, b) = choose|a: int, b: int|
            0 <= a < b < next.len() && (#[trigger] next[a]).mark_type() == (
            #[trigger] next[b]).mark_type();
        if b < prefix.len() {
            assert(prefix[a].mark_type() == prefix[b].mark_type());
        } else {
            assert(prefix[a] == next[a]);
            assert(prefix.contains(next[a]));
            assert(before.contains(next[a]));
            let k = choose|k: int| 0 <= k < before.len() && before[k] == next[a];
            lemma_marks_type_present(before, m.mark_type());
        }
    }
}

impl Clone for MarkSet {
    fn clone(&self) -> (r: Self)
        ensures
            r@ == self@,
    {
        proof {
            use_type_invariant(self);
        }
        let mut content: Vec<MarkdownMark> = Vec::new();
        let mut i: usize = 0;
        while i < self.content.len()
            invariant
                0 <= i <= self.content@.len(),
                content@.len() == i,
                forall|j: int| 0 <= j < i ==> content@[j]@ == self.content@[j]@,
            decreases self.content@.len() - i,
        {
            content.push(self.content[i].clone());
            i = i + 1;
        }
        assert(marks_view(content@) =~= self@);
        MarkSet { content }
    }
}

impl Default for MarkSet {
    fn default() -> (r: Self)
        ensures
            r@ == Seq::<MarkView>::empty(),
    {
        MarkSet::new()
    }
}

impl PartialEq for MarkSet {
    fn eq(&self, other: &Self) -> (r: bool) {
        self.same(other)
    }
}

impl PartialEqSpecImpl for MarkSet {
    open spec fn obeys_eq_spec() -> bool {
        true
    }

    open spec fn eq_spec(&self, other: &Self) -> bool {
        self@ == other@
    }
}

impl Eq for MarkSet {

}

} // verus!
