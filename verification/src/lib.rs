//! A character-filter-driven tokenizer.
//!
//! Given an input text and a pluggable character classifier (a [`filters::Filter`]),
//! the [`FilteredTokenizer`] walks the input character by character and emits
//! [`Token`] values: maximal runs of ordinary content, plus one-character tokens
//! for separators the classifier asks to keep.

use vstd::prelude::*;

pub mod filters;
pub mod model;

use crate::filters::Filter;
use crate::model::SpecToken;
use crate::model::is_separator;
use crate::model::is_self_emitted;
use crate::model::lemma_next_sep_at;
use crate::model::scan_tokens;

verus! {

/// Context for a token extracted from an input.
pub struct Token<'a> {
    /// The content of the extracted token: a slice into the original input.
    pub term: &'a str,
    /// The absolute offset of the token in chars (Unicode scalar values, not bytes).
    pub start_offset: usize,
    /// The token position: a zero-based ordinal over all tokens emitted by one scan.
    pub position: usize,
}

impl<'a> Token<'a> {
    pub fn from_str(term: &'a str, start_offset: usize, position: usize) -> (t: Self)
        ensures
            t.term == term,
            t.start_offset == start_offset,
            t.position == position,
    {
        Token { term, start_offset, position }
    }

    pub fn term(&self) -> (r: &str)
        ensures
            r@ == self.term@,
    {
        self.term
    }
}

impl<'a> View for Token<'a> {
    type V = SpecToken;

    open spec fn view(&self) -> SpecToken {
        SpecToken {
            term: self.term@,
            start_offset: self.start_offset as nat,
            position: self.position as nat,
        }
    }
}

impl<'a> DeepView for Token<'a> {
    type V = SpecToken;

    open spec fn deep_view(&self) -> SpecToken {
        self.view()
    }
}

/// Implementation of a tokenizer that extracts tokens based on a provided
/// Filter implementation. One instance performs a single forward scan; its
/// cursor state is internal.
pub struct FilteredTokenizer<'a, T: Filter> {
    filter: T,
    input: &'a str,
    char_offset: usize,
    position: usize,
}

impl<'a, T: Filter> FilteredTokenizer<'a, T> {
    /// The cursors are within the input and the position counter never
    /// outruns the char cursor (each emitted token consumes at least one
    /// character).
    pub closed spec fn wf(self) -> bool {
        self.char_offset <= self.input@.len() && self.position <= self.char_offset
    }

    /// The exact sequence of tokens this scan will still emit.
    pub closed spec fn remaining(self) -> Seq<SpecToken> {
        scan_tokens(self.filter, self.input@, self.char_offset as nat, self.position as nat)
    }

    pub fn new(filter: T, input: &'a str) -> (t: Self)
        ensures
            t.wf(),
            t.remaining() == scan_tokens(filter, input@, 0, 0),
    {
        FilteredTokenizer { filter, input, char_offset: 0, position: 0 }
    }

    /// Produces the next token of the scan, or `None` once the sequence is
    /// exhausted: exactly the head of `remaining()`, which the call then
    /// drops.
    pub fn next(&mut self) -> (r: Option<Token<'a>>)
        requires
            old(self).wf(),
        ensures
            final(self).wf(),
            match r {
                Some(t) => {
                    &&& old(self).remaining().len() > 0
                    &&& t@ == old(self).remaining()[0]
                    &&& final(self).remaining() == old(self).remaining().drop_first()
                },
                None => {
                    &&& old(self).remaining().len() == 0
                    &&& final(self).remaining() == old(self).remaining()
                },
            },
    {
        let n = self.input.unicode_len();
        let mut j: usize = self.char_offset;
        while j < n
            invariant
                self.wf(),
                self.filter == old(self).filter,
                self.input == old(self).input,
                n == self.input@.len(),
                self.char_offset <= j <= n,
                forall|k: int|
                    self.char_offset <= k < j ==> !is_separator(self.filter, self.input@[k]),
                scan_tokens(self.filter, self.input@, self.char_offset as nat, self.position as nat)
                    == old(self).remaining(),
            decreases n - j,
        {
            let c = self.input.get_char(j);
            let (sep, emit) = self.filter.on_char(&c);
            if sep {
                if j == self.char_offset {
                    // A separator with no content before it: consume it, and
                    // emit it alone if the classifier keeps it.
                    if emit {
                        let slice = self.input.substring_char(j, j + 1);
                        let tok = Token::from_str(slice, self.char_offset, self.position);
                        self.char_offset = j + 1;
                        self.position = self.position + 1;
                        proof {
                            assert(old(self).remaining().drop_first() =~= self.remaining());
                        }
                        return Some(tok);
                    } else {
                        self.char_offset = j + 1;
                        j = j + 1;
                    }
                } else {
                    // Ordinary content accumulated in [char_offset, j): emit
                    // it; a discard-only separator is consumed with it, a
                    // self-emitted one starts the next step.
                    proof {
                        lemma_next_sep_at(
                            self.filter,
                            self.input@,
                            self.char_offset as nat,
                            j as nat,
                        );
                    }
                    let slice = self.input.substring_char(self.char_offset, j);
                    let tok = Token::from_str(slice, self.char_offset, self.position);
                    self.position = self.position + 1;
                    if emit {
                        self.char_offset = j;
                    } else {
                        self.char_offset = j + 1;
                    }
                    proof {
                        assert(old(self).remaining().drop_first() =~= self.remaining());
                    }
                    return Some(tok);
                }
            } else {
                j = j + 1;
            }
        }
        // No separator remains at or after the cursor.
        proof {
            lemma_next_sep_at(self.filter, self.input@, self.char_offset as nat, n as nat);
        }
        if self.char_offset < n {
            let slice = self.input.substring_char(self.char_offset, n);
            let tok = Token::from_str(slice, self.char_offset, self.position);
            self.char_offset = n;
            self.position = self.position + 1;
            proof {
                assert(old(self).remaining().drop_first() =~= self.remaining());
            }
            Some(tok)
        } else {
            None
        }
    }

    /// Runs the scan to exhaustion and returns every remaining token in
    /// order. The scan is finite: it always exhausts.
    pub fn collect_tokens(&mut self) -> (toks: Vec<Token<'a>>)
        requires
            old(self).wf(),
        ensures
            final(self).wf(),
            final(self).remaining() == Seq::<SpecToken>::empty(),
            toks.deep_view() == old(self).remaining(),
    {
        let mut toks: Vec<Token<'a>> = Vec::new();
        loop
            invariant
                self.wf(),
                toks.deep_view() + self.remaining() == old(self).remaining(),
            ensures
                self.wf(),
                self.remaining().len() == 0,
                toks.deep_view() + self.remaining() == old(self).remaining(),
            decreases self.remaining().len(),
        {
            let ghost prev = toks.deep_view();
            match self.next() {
                Some(t) => {
                    toks.push(t);
                    proof {
                        assert(toks.deep_view() =~= prev + seq![t@]);
                        assert(toks.deep_view() + self.remaining() =~= old(self).remaining());
                    }
                },
                None => {
                    break;
                },
            }
        }
        proof {
            assert(self.remaining() =~= Seq::<SpecToken>::empty());
            assert(toks.deep_view() =~= old(self).remaining());
        }
        toks
    }
}

} // verus!
