//! Module specifiers: the canonical URI text that identifies one module.
//! A specifier whose scheme is `file` is local; every other scheme is
//! treated as remote.

use vstd::prelude::*;

use crate::ordering::{key_le, SortKeyValue, SortOrdered};
use crate::strings::{str_eq, str_le};

verus! {

/// An immutable, comparable URI value identifying a module. The view is the
/// full specifier text as a character sequence.
#[derive(Debug)]
pub struct ModuleSpecifier {
    pub text: String,
}

impl View for ModuleSpecifier {
    type V = Seq<char>;

    open spec fn view(&self) -> Seq<char> {
        self.text@
    }
}

impl SortOrdered for ModuleSpecifier {
    open spec fn sort_key(&self) -> SortKeyValue {
        (0, 0, self.text@, Seq::<char>::empty())
    }

    fn key_le_exec(&self, other: &Self) -> (r: bool)
        ensures
            r == key_le(self.sort_key(), other.sort_key()),
    {
        if str_eq(self.text.as_str(), other.text.as_str()) {
            true
        } else {
            str_le(self.text.as_str(), other.text.as_str())
        }
    }
}

/// Holds when the specifier text names the `file` scheme, which marks a
/// local module.
pub open spec fn is_file_scheme(s: Seq<char>) -> bool {
    s.len() >= 5 && s[0] == 'f' && s[1] == 'i' && s[2] == 'l' && s[3] == 'e' && s[4] == ':'
}

impl ModuleSpecifier {
    pub fn from_text(text: String) -> (r: ModuleSpecifier)
        ensures
            r@ == text@,
    {
        ModuleSpecifier { text }
    }

    /// A copy with the same text.
    pub fn duplicate(&self) -> (r: ModuleSpecifier)
        ensures
            r@ == self@,
    {
        ModuleSpecifier { text: self.text.clone() }
    }

    /// Whether this specifier addresses a local (`file` scheme) module.
    pub fn is_local(&self) -> (r: bool)
        ensures
            r == is_file_scheme(self@),
    {
        let n = self.text.as_str().unicode_len();
        if n < 5 {
            return false;
        }
        let s = self.text.as_str();
        s.get_char(0) == 'f' && s.get_char(1) == 'i' && s.get_char(2) == 'l' && s.get_char(3)
            == 'e' && s.get_char(4) == ':'
    }

    /// Whether the two specifiers hold the same text.
    pub fn same_as(&self, other: &ModuleSpecifier) -> (r: bool)
        ensures
            r == (self@ == other@),
    {
        str_eq(self.text.as_str(), other.text.as_str())
    }
}

} // verus!
