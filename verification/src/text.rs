//! What a key-value store asks of the types it holds: keys can be compared,
//! and whatever is written into a snapshot can be turned into text and back.
use vstd::prelude::*;

verus! {

broadcast use vstd::string::group_string_axioms;

/// `String::push` appends one character to the end of the string.
pub assume_specification[ String::push ](s: &mut String, c: char)
    ensures
        final(s)@ == old(s)@.push(c),
;

/// The characters of `s`, in order.
pub fn chars_of(s: &str) -> (v: Vec<char>)
    ensures
        v@ == s@,
{
    let mut v: Vec<char> = Vec::new();
    for c in it: s.chars()
        invariant
            it.seq() == s@,
            v@ == it.seq().take(it.index() as int),
    {
        v.push(c);
    }
    v
}

/// A type whose values can be compared for equality of what they stand for.
pub trait Key: View + Sized {
    /// Whether `self` and `other` stand for the same value.
    fn same(&self, other: &Self) -> (b: bool)
        ensures
            b == (self@ == other@),
    ;
}

/// A type whose values can be written as text and read back from it.
pub trait Text: View + Sized {
    /// The text that a value is written as.
    spec fn text(v: Self::V) -> Seq<char>;

    /// The value that a text reads as, if it reads as one.
    spec fn read(s: Seq<char>) -> Option<Self::V>;

    /// Reading what was written gives the value back.
    proof fn lemma_read_text(v: Self::V)
        ensures
            Self::read(Self::text(v)) == Some(v),
    ;

    /// Writes the value as text.
    fn to_text(&self) -> (s: String)
        ensures
            s@ == Self::text(self@),
    ;

    /// Reads a value from text; `None` where the text reads as no value.
    fn from_text(s: &str) -> (r: Option<Self>)
        ensures
            match r {
                Some(x) => Self::read(s@) == Some(x@),
                None => Self::read(s@) is None,
            },
    ;
}

impl Key for String {
    fn same(&self, other: &Self) -> (b: bool) {
        *self == *other
    }
}

impl Text for String {
    open spec fn text(v: Seq<char>) -> Seq<char> {
        v
    }

    open spec fn read(s: Seq<char>) -> Option<Seq<char>> {
        Some(s)
    }

    proof fn lemma_read_text(v: Seq<char>) {
    }

    fn to_text(&self) -> (s: String) {
        self.clone()
    }

    fn from_text(s: &str) -> (r: Option<Self>) {
        Some(s.to_owned())
    }
}

} // verus!
