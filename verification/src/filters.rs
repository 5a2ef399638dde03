//! Character classifiers for tokenization.
//!
//! A [`Filter`] decides, for each character, whether it separates tokens and
//! whether it should also be collected as a one-character token of its own.

use vstd::prelude::*;

use std::collections::HashSet;

verus! {

broadcast use vstd::std_specs::hash::group_hash_axioms;

/// A type for filtering chars during tokenization.
pub trait Filter {
    /// The classification this filter gives to a character, as a pair of
    /// (is a separator, is collected as a token in itself).
    spec fn spec_on_char(&self, c: char) -> (bool, bool);

    /// Returns a tuple of bool, bool indicating whether the character marks the
    /// end of a token, and whether it should also be collected as a token in
    /// itself, respectively.
    ///
    /// (false, false) - part of a token
    /// (true,  false) - not part of a token and should be discarded
    /// (true,   true) - not part of token but is one in its own right
    fn on_char(&self, c: &char) -> (r: (bool, bool))
        ensures
            r == self.spec_on_char(*c),
    ;
}

/// Whether a character has the Unicode white-space property, as
/// `char::is_whitespace` decides it: a function of the character alone.
pub uninterp spec fn is_unicode_whitespace(c: char) -> bool;

/// Relies on `char::is_whitespace`: returns whether the character has the
/// Unicode white-space property, which depends on the character alone.
#[verifier::external_body]
fn char_is_whitespace(c: &char) -> (r: bool)
    ensures
        r == is_unicode_whitespace(*c),
{
    c.is_whitespace()
}

/// A filter for selecting whitespace characters only.
pub struct WhitespaceFilter;

impl Filter for WhitespaceFilter {
    open spec fn spec_on_char(&self, c: char) -> (bool, bool) {
        (is_unicode_whitespace(c), false)
    }

    fn on_char(&self, c: &char) -> (r: (bool, bool)) {
        (char_is_whitespace(c), false)
    }
}

/// A filter for extracting characters based on two hash sets of code points,
/// one for keep chars which are collected as tokens, and one for drop chars
/// which will be removed entirely.
pub struct HashFilter {
    pub keep_chars: HashSet<u32>,
    pub drop_chars: HashSet<u32>,
}

impl Filter for HashFilter {
    open spec fn spec_on_char(&self, c: char) -> (bool, bool) {
        let is_keep = self.keep_chars@.contains(c as u32);
        (is_keep || self.drop_chars@.contains(c as u32), is_keep)
    }

    fn on_char(&self, c: &char) -> (r: (bool, bool)) {
        let u = *c as u32;
        let is_keep = self.keep_chars.contains(&u);
        (is_keep || self.drop_chars.contains(&u), is_keep)
    }
}

/// Whether a dense boolean table marks the code point `u`: the table must be
/// long enough to reach it and hold true there.
pub open spec fn table_has(v: Seq<bool>, u: u32) -> bool {
    u < v.len() && v[u as int]
}

/// A filter that uses a Vec<bool> collection for storing keep and drop
/// characters by code point. Each vector has a length equal to or greater
/// than the largest character added, and lookups can be much faster than a
/// hash set since we can prefilter on vec length.
pub struct VecFilter {
    pub keep_chars: Vec<bool>,
    pub drop_chars: Vec<bool>,
}

impl VecFilter {
    pub fn add_keep(&mut self, c: char)
        ensures
            forall|u: u32|
                table_has(final(self).keep_chars@, u) == (u == c as u32 || table_has(
                    old(self).keep_chars@,
                    u,
                )),
            final(self).drop_chars == old(self).drop_chars,
    {
        let s = c as u32 as usize;
        while self.keep_chars.len() <= s
            invariant
                s < usize::MAX,
                self.drop_chars == old(self).drop_chars,
                old(self).keep_chars@.is_prefix_of(self.keep_chars@),
                forall|k: int|
                    old(self).keep_chars@.len() <= k < self.keep_chars@.len()
                        ==> !self.keep_chars@[k],
            decreases s + 1 - self.keep_chars.len(),
        {
            self.keep_chars.push(false);
        }
        self.keep_chars.set(s, true);
    }

    pub fn add_drop(&mut self, c: char)
        ensures
            forall|u: u32|
                table_has(final(self).drop_chars@, u) == (u == c as u32 || table_has(
                    old(self).drop_chars@,
                    u,
                )),
            final(self).keep_chars == old(self).keep_chars,
    {
        let s = c as u32 as usize;
        while self.drop_chars.len() <= s
            invariant
                s < usize::MAX,
                self.keep_chars == old(self).keep_chars,
                old(self).drop_chars@.is_prefix_of(self.drop_chars@),
                forall|k: int|
                    old(self).drop_chars@.len() <= k < self.drop_chars@.len()
                        ==> !self.drop_chars@[k],
            decreases s + 1 - self.drop_chars.len(),
        {
            self.drop_chars.push(false);
        }
        self.drop_chars.set(s, true);
    }
}

impl Filter for VecFilter {
    open spec fn spec_on_char(&self, c: char) -> (bool, bool) {
        let is_keep = table_has(self.keep_chars@, c as u32);
        (is_keep || table_has(self.drop_chars@, c as u32), is_keep)
    }

    fn on_char(&self, c: &char) -> (r: (bool, bool)) {
        let s = *c as u32 as usize;
        let is_keep = s < self.keep_chars.len() && self.keep_chars[s];
        (is_keep || (s < self.drop_chars.len() && self.drop_chars[s]), is_keep)
    }
}

/// The drop set of the default policy: space, tab, newline, carriage return
/// and form feed.
pub open spec fn default_is_drop(c: char) -> bool {
    c == ' ' || c == '\t' || c == '\n' || c == '\r' || c == '\u{c}'
}

/// The keep set of the default policy: a fixed punctuation and quote list,
/// each member emitted as a one-character token.
pub open spec fn default_is_keep(c: char) -> bool {
    c == '#' || c == '!' || c == '\\' || c == '"' || c == '%' || c == '&' || c == '\'' || c == '('
        || c == ')' || c == '*' || c == '+' || c == '-' || c == '.' || c == '/' || c == ':' || c
        == ';' || c == '<' || c == '=' || c == '>' || c == '?' || c == '@' || c == '[' || c == ']'
        || c == '^' || c == '_' || c == '`' || c == '{' || c == '|' || c == '}' || c == '~' || c
        == '\u{201c}' || c == '\u{201d}' || c == '\u{2033}'
}

/// A filter that uses a prechosen set of default tokenization characters.
pub struct DefaultFilter;

impl Filter for DefaultFilter {
    open spec fn spec_on_char(&self, c: char) -> (bool, bool) {
        (default_is_drop(c) || default_is_keep(c), default_is_keep(c))
    }

    fn on_char(&self, c: &char) -> (r: (bool, bool)) {
        match *c {
            ' ' | '\t' | '\n' | '\r' | '\u{C}' => (true, false),
            '#' | '!' | '\\' | '"' | '%' | '&' | '\'' | '(' | ')' | '*' | '+' | '-' | '.' | '/'
                | ':' | ';' | '<' | '=' | '>' | '?' | '@' | '[' | ']' | '^' | '_' | '`' | '{'
                | '|' | '}' | '~' | '\u{201C}' | '\u{201D}' | '\u{2033}' => (true, true),
            _ => (false, false),
        }
    }
}

} // verus!
