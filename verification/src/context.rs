//! A stack of frames that maps de Bruijn indices to values: binder names
//! during elaboration, binder types during checking.

use vstd::prelude::*;

verus! {

/// A frame on top of an enclosing context. The frame holds the indices
/// from `prev_size` on; below that the enclosing context answers.
pub struct Context<'a, T> {
    prev_size: usize,
    prev: Option<&'a Context<'a, T>>,
    this: &'a [T],
}

/// The texts of a sequence of strings.
pub open spec fn texts(s: Seq<String>) -> Seq<Seq<char>> {
    Seq::new(s.len(), |i: int| s[i]@)
}

/// The greatest position at which `name` stands in `names`.
pub open spec fn last_index_of(names: Seq<Seq<char>>, name: Seq<char>) -> Option<usize>
    decreases names.len(),
{
    if names.len() == 0 {
        None
    } else if names.last() == name {
        Some((names.len() - 1) as usize)
    } else {
        last_index_of(names.drop_last(), name)
    }
}

/// `last_index_of` finds `name`, and nothing after the place it gives is
/// `name`; it gives nothing only where `name` does not occur.
pub proof fn lemma_last_index_of(names: Seq<Seq<char>>, name: Seq<char>)
    requires
        names.len() <= usize::MAX,
    ensures
        match last_index_of(names, name) {
            Some(i) => i < names.len() && names[i as int] == name && forall|j: int|
                i < j < names.len() ==> names[j] != name,
            None => forall|j: int| 0 <= j < names.len() ==> names[j] != name,
        },
    decreases names.len(),
{
    if names.len() > 0 && names.last() != name {
        let shorter = names.drop_last();
        lemma_last_index_of(shorter, name);
        assert forall|j: int| 0 <= j < shorter.len() implies shorter[j] == names[j] by {}
        match last_index_of(shorter, name) {
            Some(i) => {
                assert(names[i as int] == shorter[i as int]);
                assert forall|j: int| i < j < names.len() implies names[j] != name by {
                    if j < shorter.len() {
                        assert(shorter[j] != name);
                    }
                }
            },
            None => {
                assert forall|j: int| 0 <= j < names.len() implies names[j] != name by {
                    if j < shorter.len() {
                        assert(shorter[j] != name);
                    }
                }
            },
        }
    }
}

/// A position that holds `name`, with no later one that does, is what
/// `last_index_of` gives.
pub proof fn lemma_last_index_of_is(names: Seq<Seq<char>>, name: Seq<char>, i: int)
    requires
        names.len() <= usize::MAX,
        0 <= i < names.len(),
        names[i] == name,
        forall|j: int| i < j < names.len() ==> names[j] != name,
    ensures
        last_index_of(names, name) == Some(i as usize),
{
    lemma_last_index_of(names, name);
}

/// Where `name` occurs nowhere, `last_index_of` gives nothing.
pub proof fn lemma_last_index_of_none(names: Seq<Seq<char>>, name: Seq<char>)
    requires
        names.len() <= usize::MAX,
        forall|j: int| 0 <= j < names.len() ==> names[j] != name,
    ensures
        last_index_of(names, name) is None,
{
    lemma_last_index_of(names, name);
}

/// The greatest position of `name` in `names`.
pub fn get_index(names: &[String], name: &String) -> (r: Option<usize>)
    ensures
        r == last_index_of(texts(names@), name@),
{
    let mut result: usize = names.len();
    while result > 0
        invariant
            result <= names.len(),
            forall|j: int| result <= j < names.len() ==> texts(names@)[j] != name@,
        decreases result,
    {
        result -= 1;
        if names[result] == *name {
            proof {
                lemma_last_index_of_is(texts(names@), name@, result as int);
            }
            return Some(result);
        }
    }
    proof {
        lemma_last_index_of_none(texts(names@), name@);
    }
    None
}

impl<'a, T> Context<'a, T> {
    /// The number of frames below this one.
    pub closed spec fn depth(&self) -> nat
        decreases self,
    {
        match self.prev {
            None => 0,
            Some(p) => p.depth() + 1,
        }
    }

    /// The frame reaches no further down than the enclosing context goes,
    /// and the indices fit the machine.
    pub closed spec fn well_formed(&self) -> bool
        decreases self,
    {
        &&& self.prev_size + self.this@.len() <= usize::MAX
        &&& match self.prev {
            None => self.prev_size == 0,
            Some(p) => p.well_formed() && self.prev_size <= p.view().len(),
        }
    }

    /// No frame hides an index of the context below it.
    pub closed spec fn is_unshadowed(&self) -> bool
        decreases self,
    {
        match self.prev {
            None => true,
            Some(p) => p.is_unshadowed() && self.prev_size == p.view().len(),
        }
    }

    /// A context of one frame.
    pub fn new(this: &'a [T]) -> (r: Self)
        ensures
            r.well_formed(),
            r.is_unshadowed(),
            r@ == this@,
    {
        let r = Context { this, prev_size: 0, prev: None };
        assert(this.len() == this@.len());
        r
    }

    /// A new frame on top that hides nothing.
    pub fn push(&'a self, next: &'a [T]) -> (r: Self)
        requires
            self.well_formed(),
            self@.len() + next@.len() <= usize::MAX,
        ensures
            r.well_formed(),
            r@ == self@ + next@,
            r.is_unshadowed() == self.is_unshadowed(),
    {
        self.push_shadowed(next, self.size())
    }

    /// A new frame on top that begins at index `unshadowed` and so hides
    /// the indices from there on.
    pub fn push_shadowed(&'a self, next: &'a [T], unshadowed: usize) -> (r: Self)
        requires
            self.well_formed(),
            unshadowed <= self@.len(),
            unshadowed + next@.len() <= usize::MAX,
        ensures
            r.well_formed(),
            r@ == self@.take(unshadowed as int) + next@,
            r.is_unshadowed() == (self.is_unshadowed() && unshadowed == self@.len()),
    {
        Context { prev_size: unshadowed, prev: Some(self), this: next }
    }

    /// The number of indices in scope.
    pub fn size(&self) -> (r: usize)
        requires
            self.well_formed(),
        ensures
            r == self@.len(),
    {
        proof {
            self.lemma_len();
        }
        self.prev_size + self.this.len()
    }

    /// The length of the view is the frame's start plus its own length.
    proof fn lemma_len(&self)
        requires
            self.well_formed(),
        ensures
            self@.len() == self.prev_size + self.this@.len(),
        decreases self,
    {
        match self.prev {
            None => {},
            Some(p) => {
                p.lemma_len();
            },
        }
    }

    /// The value bound at `index`.
    pub fn value_from_index(&'a self, index: usize) -> (r: &'a T)
        requires
            self.well_formed(),
            index < self@.len(),
        ensures
            *r == self@[index as int],
    {
        let mut curr = self;
        loop
            invariant
                curr.well_formed(),
                index < curr@.len(),
                curr@[index as int] == self@[index as int],
            decreases curr.depth(),
        {
            proof {
                curr.lemma_len();
            }
            match curr.prev {
                Some(p) => {
                    if index < curr.prev_size {
                        curr = p;
                    } else {
                        return &curr.this[index - curr.prev_size];
                    }
                },
                None => {
                    return &curr.this[index];
                },
            }
        }
    }
}

impl<'a, T> View for Context<'a, T> {
    type V = Seq<T>;

    /// The values in scope, by index.
    closed spec fn view(&self) -> Seq<T>
        decreases self,
    {
        match self.prev {
            None => self.this@,
            Some(p) => p.view().take(self.prev_size as int) + self.this@,
        }
    }
}

impl<'a> Context<'a, String> {
    /// In a context that hides nothing, a name that is looked up is found
    /// at an index that holds it, and the name at an index is found at
    /// that index or at a later one that holds it too.
    pub proof fn lemma_round_trip(&self, name: Seq<char>, i: int)
        requires
            self.well_formed(),
            self.is_unshadowed(),
        ensures
            last_index_of(texts(self@), name) matches Some(k) ==> k < self@.len()
                && self@[k as int]@ == name,
            0 <= i < self@.len() ==> (last_index_of(texts(self@), self@[i]@) matches Some(k) && i
                <= k < self@.len() && self@[k as int]@ == self@[i]@),
    {
        self.lemma_len();
        lemma_round_trip(texts(self@), name, i);
        if 0 <= i < self@.len() {
            lemma_round_trip(texts(self@), texts(self@)[i], i);
        }
    }

    /// The index of the innermost binder called `name`. The context must
    /// hide nothing: a hidden name would answer for an index that it no
    /// longer holds.
    pub fn index_from_value(&self, name: &String) -> (r: Option<usize>)
        requires
            self.well_formed(),
            self.is_unshadowed(),
        ensures
            r == last_index_of(texts(self@), name@),
    {
        let mut curr = self;
        loop
            invariant
                curr.well_formed(),
                curr.is_unshadowed(),
                self.well_formed(),
                curr@.len() <= self@.len(),
                curr@ =~= self@.take(curr@.len() as int),
                forall|j: int| curr@.len() <= j < self@.len() ==> self@[j]@ != name@,
            decreases curr.depth(),
        {
            proof {
                curr.lemma_len();
                self.lemma_len();
            }
            let ghost start = curr.prev_size as int;
            let ghost frame = texts(curr.this@);
            proof {
                lemma_last_index_of(frame, name@);
                assert forall|j: int| start <= j < curr@.len() implies self@[j]@ == frame[j
                    - start] by {
                    assert(self@.take(curr@.len() as int)[j] == self@[j]);
                    assert(curr@[j] == curr.this@[j - start]);
                }
            }
            if let Some(result) = get_index(curr.this, name) {
                proof {
                    let at = result as int + start;
                    assert(self@[at]@ == frame[result as int]);
                    assert forall|j: int| at < j < texts(self@).len() implies texts(self@)[j]
                        != name@ by {
                        if j < curr@.len() {
                            assert(self@[j]@ == frame[j - start]);
                        }
                    }
                    lemma_last_index_of_is(texts(self@), name@, at);
                }
                return Some(result + curr.prev_size);
            }
            match curr.prev {
                Some(p) => {
                    proof {
                        p.lemma_len();
                        assert(p@ =~= self@.take(p@.len() as int)) by {
                            assert(p@ =~= curr@.take(start));
                        }
                        assert forall|j: int| p@.len() <= j < self@.len() implies self@[j]@
                            != name@ by {
                            if j < curr@.len() {
                                assert(self@[j]@ == frame[j - start]);
                            }
                        }
                    }
                    curr = p;
                },
                None => {
                    proof {
                        assert forall|j: int| 0 <= j < texts(self@).len() implies texts(
                            self@,
                        )[j] != name@ by {
                            if j < curr@.len() {
                                assert(self@[j]@ == frame[j - start]);
                            }
                        }
                        lemma_last_index_of_none(texts(self@), name@);
                    }
                    return None;
                },
            }
        }
    }
}

/// In a context that hides nothing, looking a name up and reading the
/// index back gives the name, and every name in scope is found at the
/// last place where it stands.
pub proof fn lemma_round_trip(names: Seq<Seq<char>>, name: Seq<char>, i: int)
    requires
        names.len() <= usize::MAX,
    ensures
        last_index_of(names, name) matches Some(k) ==> k < names.len() && names[k as int] == name,
        0 <= i < names.len() && names[i] == name ==> (last_index_of(names, name) matches Some(k)
            && i <= k < names.len() && names[k as int] == name),
        0 <= i < names.len() && (forall|j: int| i < j < names.len() ==> names[j] != names[i])
            ==> last_index_of(names, names[i]) == Some(i as usize),
{
    lemma_last_index_of(names, name);
    if 0 <= i < names.len() {
        lemma_last_index_of(names, names[i]);
    }
}

} // verus!
