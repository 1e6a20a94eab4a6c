//! The values that the ranges of a range map carry.

use crate::text::{decimal, push_decimal};
use vstd::prelude::*;
use vstd::string::StringExecFns;

verus! {

/// The text that `{:?}` gives for a character.
pub uninterp spec fn char_debug_text(c: char) -> Seq<char>;

/// The text that `{:?}` gives for a string of the characters `s`.
pub uninterp spec fn str_debug_text(s: Seq<char>) -> Seq<char>;

/// A value that a range of a range map can carry: it can be compared with
/// another, copied, and written out, and all of that goes by its view.
pub trait ValueOwned: Sized + View {
    /// The text of a value, as it stands in the text of a range map.
    spec fn debug_text(v: Self::V) -> Seq<char>;

    /// Whether `self` and `other` stand for the same value.
    fn value_eq(&self, other: &Self) -> (b: bool)
        ensures
            b == (self@ == other@),
    ;

    /// A copy of `self`.
    fn value_clone(&self) -> (r: Self)
        ensures
            r@ == self@,
    ;

    /// Appends the text of `self` to `text`.
    fn push_debug(&self, text: &mut String)
        ensures
            final(text)@ == old(text)@ + Self::debug_text(self@),
    ;
}

impl ValueOwned for u8 {
    open spec fn debug_text(v: u8) -> Seq<char> {
        decimal(v as int)
    }

    fn value_eq(&self, other: &Self) -> (b: bool) {
        *self == *other
    }

    fn value_clone(&self) -> (r: Self) {
        *self
    }

    fn push_debug(&self, text: &mut String) {
        push_decimal(text, *self);
    }
}

impl ValueOwned for u16 {
    open spec fn debug_text(v: u16) -> Seq<char> {
        decimal(v as int)
    }

    fn value_eq(&self, other: &Self) -> (b: bool) {
        *self == *other
    }

    fn value_clone(&self) -> (r: Self) {
        *self
    }

    fn push_debug(&self, text: &mut String) {
        push_decimal(text, *self);
    }
}

impl ValueOwned for u32 {
    open spec fn debug_text(v: u32) -> Seq<char> {
        decimal(v as int)
    }

    fn value_eq(&self, other: &Self) -> (b: bool) {
        *self == *other
    }

    fn value_clone(&self) -> (r: Self) {
        *self
    }

    fn push_debug(&self, text: &mut String) {
        push_decimal(text, *self);
    }
}

impl ValueOwned for u64 {
    open spec fn debug_text(v: u64) -> Seq<char> {
        decimal(v as int)
    }

    fn value_eq(&self, other: &Self) -> (b: bool) {
        *self == *other
    }

    fn value_clone(&self) -> (r: Self) {
        *self
    }

    fn push_debug(&self, text: &mut String) {
        push_decimal(text, *self);
    }
}

impl ValueOwned for u128 {
    open spec fn debug_text(v: u128) -> Seq<char> {
        decimal(v as int)
    }

    fn value_eq(&self, other: &Self) -> (b: bool) {
        *self == *other
    }

    fn value_clone(&self) -> (r: Self) {
        *self
    }

    fn push_debug(&self, text: &mut String) {
        push_decimal(text, *self);
    }
}

impl ValueOwned for usize {
    open spec fn debug_text(v: usize) -> Seq<char> {
        decimal(v as int)
    }

    fn value_eq(&self, other: &Self) -> (b: bool) {
        *self == *other
    }

    fn value_clone(&self) -> (r: Self) {
        *self
    }

    fn push_debug(&self, text: &mut String) {
        push_decimal(text, *self);
    }
}

impl ValueOwned for i8 {
    open spec fn debug_text(v: i8) -> Seq<char> {
        decimal(v as int)
    }

    fn value_eq(&self, other: &Self) -> (b: bool) {
        *self == *other
    }

    fn value_clone(&self) -> (r: Self) {
        *self
    }

    fn push_debug(&self, text: &mut String) {
        push_decimal(text, *self);
    }
}

impl ValueOwned for i16 {
    open spec fn debug_text(v: i16) -> Seq<char> {
        decimal(v as int)
    }

    fn value_eq(&self, other: &Self) -> (b: bool) {
        *self == *other
    }

    fn value_clone(&self) -> (r: Self) {
        *self
    }

    fn push_debug(&self, text: &mut String) {
        push_decimal(text, *self);
    }
}

impl ValueOwned for i32 {
    open spec fn debug_text(v: i32) -> Seq<char> {
        decimal(v as int)
    }

    fn value_eq(&self, other: &Self) -> (b: bool) {
        *self == *other
    }

    fn value_clone(&self) -> (r: Self) {
        *self
    }

    fn push_debug(&self, text: &mut String) {
        push_decimal(text, *self);
    }
}

impl ValueOwned for i64 {
    open spec fn debug_text(v: i64) -> Seq<char> {
        decimal(v as int)
    }

    fn value_eq(&self, other: &Self) -> (b: bool) {
        *self == *other
    }

    fn value_clone(&self) -> (r: Self) {
        *self
    }

    fn push_debug(&self, text: &mut String) {
        push_decimal(text, *self);
    }
}

impl ValueOwned for i128 {
    open spec fn debug_text(v: i128) -> Seq<char> {
        decimal(v as int)
    }

    fn value_eq(&self, other: &Self) -> (b: bool) {
        *self == *other
    }

    fn value_clone(&self) -> (r: Self) {
        *self
    }

    fn push_debug(&self, text: &mut String) {
        push_decimal(text, *self);
    }
}

impl ValueOwned for isize {
    open spec fn debug_text(v: isize) -> Seq<char> {
        decimal(v as int)
    }

    fn value_eq(&self, other: &Self) -> (b: bool) {
        *self == *other
    }

    fn value_clone(&self) -> (r: Self) {
        *self
    }

    fn push_debug(&self, text: &mut String) {
        push_decimal(text, *self);
    }
}

impl ValueOwned for bool {
    open spec fn debug_text(v: bool) -> Seq<char> {
        if v {
            seq!['t', 'r', 'u', 'e']
        } else {
            seq!['f', 'a', 'l', 's', 'e']
        }
    }

    fn value_eq(&self, other: &Self) -> (b: bool) {
        *self == *other
    }

    fn value_clone(&self) -> (r: Self) {
        *self
    }

    fn push_debug(&self, text: &mut String) {
        proof {
            reveal_strlit("true");
            reveal_strlit("false");
        }
        if *self {
            text.append("true");
            assert("true"@ =~= seq!['t', 'r', 'u', 'e']);
        } else {
            text.append("false");
            assert("false"@ =~= seq!['f', 'a', 'l', 's', 'e']);
        }
    }
}

/// Writes a character out, with `format!` and `{:?}`.
///
/// Trusted: the result is the text that `{:?}` gives for the character,
/// which depends on the character alone.
#[verifier::external_body]
fn char_debug(c: char) -> (r: String)
    ensures
        r@ == char_debug_text(c),
{
    format!("{:?}", c)
}

/// Writes a string slice out, with `format!` and `{:?}`.
///
/// Trusted: the result is the text that `{:?}` gives for the slice, which
/// depends on its characters alone.
#[verifier::external_body]
fn str_debug(s: &str) -> (r: String)
    ensures
        r@ == str_debug_text(s@),
{
    format!("{:?}", s)
}

/// Compares two string slices, with `str`'s `==`.
///
/// Trusted: the result says whether the two slices hold the same characters.
#[verifier::external_body]
fn str_eq(a: &str, b: &str) -> (r: bool)
    ensures
        r == (a@ == b@),
{
    a == b
}

impl ValueOwned for char {
    open spec fn debug_text(v: char) -> Seq<char> {
        char_debug_text(v)
    }

    fn value_eq(&self, other: &Self) -> (b: bool) {
        *self == *other
    }

    fn value_clone(&self) -> (r: Self) {
        *self
    }

    fn push_debug(&self, text: &mut String) {
        let written = char_debug(*self);
        text.append(written.as_str());
    }
}

impl ValueOwned for String {
    open spec fn debug_text(v: Seq<char>) -> Seq<char> {
        str_debug_text(v)
    }

    fn value_eq(&self, other: &Self) -> (b: bool) {
        *self == *other
    }

    fn value_clone(&self) -> (r: Self) {
        self.clone()
    }

    fn push_debug(&self, text: &mut String) {
        let written = str_debug(self.as_str());
        text.append(written.as_str());
    }
}

impl<'a> ValueOwned for &'a str {
    open spec fn debug_text(v: Seq<char>) -> Seq<char> {
        str_debug_text(v)
    }

    fn value_eq(&self, other: &Self) -> (b: bool) {
        str_eq(*self, *other)
    }

    fn value_clone(&self) -> (r: Self) {
        *self
    }

    fn push_debug(&self, text: &mut String) {
        let written = str_debug(*self);
        text.append(written.as_str());
    }
}

} // verus!
