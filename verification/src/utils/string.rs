use vstd::prelude::*;
use vstd::string::StrSliceExecFns;

verus! {

pub trait MyStringExtension {
    /// The characters of the text.
    spec fn chars(&self) -> Seq<char>;

    /// The `len` characters from the one at `start` on. The character behind
    /// the last one taken must still be in the text.
    fn substring(&self, start: usize, len: usize) -> (res: &str)
        requires
            start + len < self.chars().len(),
        ensures
            res@ == self.chars().subrange(start as int, start + len),
    ;
}

impl MyStringExtension for String {
    open spec fn chars(&self) -> Seq<char> {
        self@
    }

    fn substring(&self, start: usize, len: usize) -> (res: &str) {
        let text = self.as_str();
        // the count bounds `start + len`: a text holds no more than `usize::MAX` characters
        let count = text.unicode_len();
        assert(start + len < count);
        text.substring_char(start, start + len)
    }
}

} // verus!
