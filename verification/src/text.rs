//! The text capability: how names, keys and values are held.
use vstd::prelude::*;

verus! {

/// Text content of a tree: built from a slice of the input, read back as a slice.
///
/// The view is the sequence of characters; everything the library states about
/// a tree is stated over views, so it holds for every implementation alike.
pub trait Text<'a>: View<V = Seq<char>> + Sized {
    /// Takes the text of `s`, borrowing or copying it.
    fn from_slice(s: &'a str) -> (t: Self)
        ensures
            t@ == s@,
    ;

    /// The text as a string slice.
    fn as_str(&self) -> (s: &str)
        ensures
            s@ == self@,
    ;

    /// The same text once more.
    fn duplicate(&self) -> (t: Self)
        ensures
            t@ == self@,
    ;
}

/// Zero-copy text: a view into the input buffer.
impl<'a> Text<'a> for &'a str {
    fn from_slice(s: &'a str) -> (t: Self) {
        s
    }

    fn as_str(&self) -> (s: &str) {
        *self
    }

    fn duplicate(&self) -> (t: Self) {
        *self
    }
}

/// Owned text: an independent copy.
impl<'a> Text<'a> for String {
    fn from_slice(s: &'a str) -> (t: Self) {
        s.to_owned()
    }

    fn as_str(&self) -> (s: &str) {
        String::as_str(self)
    }

    fn duplicate(&self) -> (t: Self) {
        self.clone()
    }
}

} // verus!
