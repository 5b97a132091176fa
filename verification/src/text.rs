//! The small value types stored in a todo list: identifiers and text wrappers.

use vstd::prelude::*;

verus! {

/// A unique, monotonically increasing sequence number assigned to each item.
///
/// Within one list, identifiers start at 0 and grow by exactly one per push;
/// they are never reassigned or decremented.
#[derive(Debug, Clone, Copy, PartialEq, Eq, Structural)]
pub struct Index(u64);

impl View for Index {
    type V = u64;

    closed spec fn view(&self) -> u64 {
        self.0
    }
}

impl Index {
    pub fn new(i: u64) -> (r: Index)
        ensures
            r@ == i,
    {
        Index(i)
    }

    pub fn value(&self) -> (r: u64)
        ensures
            r == self@,
    {
        self.0
    }

    /// Advances the identifier. Asking for a jump larger than one is a
    /// contract violation, so it is ruled out by the precondition rather
    /// than handled at run time.
    pub fn add_assign(&mut self, rhs: u64)
        requires
            rhs <= 1,
            old(self)@ + rhs <= u64::MAX,
        ensures
            final(self)@ == old(self)@ + rhs,
    {
        self.0 = self.0 + rhs;
    }
}

/// The free text of a todo item, immutable after creation.
#[derive(Debug, PartialEq, Eq)]
pub struct Description(String);

impl View for Description {
    type V = Seq<char>;

    closed spec fn view(&self) -> Seq<char> {
        self.0@
    }
}

impl Clone for Description {
    fn clone(&self) -> (r: Self)
        ensures
            r == *self,
    {
        Description(self.0.clone())
    }
}

impl Description {
    pub fn new(s: &str) -> (r: Description)
        ensures
            r@ == s@,
    {
        Description(s.to_owned())
    }

    pub fn value(&self) -> (r: &str)
        ensures
            r@ == self@,
    {
        self.0.as_str()
    }
}

/// A free text label attached to a todo item.
#[derive(Debug, PartialEq, Eq)]
pub struct Tag(String);

impl View for Tag {
    type V = Seq<char>;

    closed spec fn view(&self) -> Seq<char> {
        self.0@
    }
}

impl Clone for Tag {
    fn clone(&self) -> (r: Self)
        ensures
            r == *self,
    {
        Tag(self.0.clone())
    }
}

/// The views of a sequence of tags, in order.
pub open spec fn tag_models(tags: Seq<Tag>) -> Seq<Seq<char>> {
    tags.map_values(|t: Tag| t@)
}

impl Tag {
    pub fn new(s: &str) -> (r: Tag)
        ensures
            r@ == s@,
    {
        Tag(s.to_owned())
    }

    pub fn value(&self) -> (r: &str)
        ensures
            r@ == self@,
    {
        self.0.as_str()
    }

    pub fn from_strings(ss: Vec<&str>) -> (r: Vec<Tag>)
        ensures
            tag_models(r@) == ss@.map_values(|s: &str| s@),
    {
        let mut r: Vec<Tag> = Vec::new();
        let mut i: usize = 0;
        while i < ss.len()
            invariant
                i <= ss@.len(),
                r@.len() == i,
                forall|k: int| 0 <= k < i ==> #[trigger] r@[k]@ == ss@[k]@,
            decreases ss@.len() - i,
        {
            r.push(Tag::new(ss[i]));
            i = i + 1;
        }
        proof {
            assert(tag_models(r@) =~= ss@.map_values(|s: &str| s@));
        }
        r
    }
}

/// One word of a search query, matched against the words of a description.
#[derive(Debug, PartialEq, Eq)]
pub struct SearchWord(String);

impl View for SearchWord {
    type V = Seq<char>;

    closed spec fn view(&self) -> Seq<char> {
        self.0@
    }
}

impl Clone for SearchWord {
    fn clone(&self) -> (r: Self)
        ensures
            r == *self,
    {
        SearchWord(self.0.clone())
    }
}

/// The views of a sequence of search words, in order.
pub open spec fn word_models(words: Seq<SearchWord>) -> Seq<Seq<char>> {
    words.map_values(|w: SearchWord| w@)
}

impl SearchWord {
    pub fn new(s: &str) -> (r: SearchWord)
        ensures
            r@ == s@,
    {
        SearchWord(s.to_owned())
    }

    pub fn value(&self) -> (r: &str)
        ensures
            r@ == self@,
    {
        self.0.as_str()
    }
}

} // verus!
