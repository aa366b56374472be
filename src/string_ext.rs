//! Trimming and splitting of owned strings.
use vstd::prelude::*;
use crate::text::{chars_of, string_from, strs_view, trim, trim_range, words, words_in};

verus! {

pub trait StringExt: Sized {
    /// Replaces the string by its trimmed text.
    fn make_trim(&mut self)
        ensures
            final(self).view_chars() == trim(old(self).view_chars()),
    ;

    /// The whitespace-separated words of the string.
    fn to_split_whitespace_vec(&self) -> (r: Vec<String>)
        ensures
            strs_view(r@) == words(self.view_chars()),
    ;

    spec fn view_chars(&self) -> Seq<char>;
}

impl StringExt for String {
    open spec fn view_chars(&self) -> Seq<char> {
        self@
    }

    fn make_trim(&mut self) {
        let buf = chars_of(self.as_str());
        let (a, b) = trim_range(&buf, 0, buf.len());
        assert(buf@.subrange(0, buf@.len() as int) == buf@);
        *self = string_from(&buf, a, b);
    }

    fn to_split_whitespace_vec(&self) -> (r: Vec<String>) {
        let buf = chars_of(self.as_str());
        assert(buf@.subrange(0, buf@.len() as int) == buf@);
        words_in(&buf, 0, buf.len())
    }
}

} // verus!
