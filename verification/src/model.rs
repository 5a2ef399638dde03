//! The mathematical model of the scanning engine.
//!
//! [`scan_tokens`] gives, for a classifier, an input and a cursor/position pair,
//! the exact sequence of tokens a scan will still emit. The engine's contracts
//! are stated against it, and the laws about every scan are proved of it here.

use vstd::prelude::*;

use crate::filters::Filter;

verus! {

/// The mathematical content of one emitted token: its text as a sequence of
/// chars, its starting char offset in the input, and its ordinal in the scan.
#[verifier::ext_equal]
pub struct SpecToken {
    pub term: Seq<char>,
    pub start_offset: nat,
    pub position: nat,
}

/// Whether the classifier marks this character as a separator: it ends the
/// token being accumulated.
pub open spec fn is_separator<F: Filter>(f: F, c: char) -> bool {
    f.spec_on_char(c).0
}

/// Whether the classifier marks this character as a self-emitted separator:
/// it ends the token being accumulated and is itself emitted as a
/// one-character token. A classifier answer of (false, true) is not
/// meaningful and is normalized to ordinary content, so a character is
/// self-emitted only if it is also a separator.
pub open spec fn is_self_emitted<F: Filter>(f: F, c: char) -> bool {
    f.spec_on_char(c).0 && f.spec_on_char(c).1
}

/// A separator that is consumed without being emitted.
pub open spec fn is_discarded<F: Filter>(f: F, c: char) -> bool {
    is_separator(f, c) && !is_self_emitted(f, c)
}

/// The index of the first separator character at or after `i`, or `s.len()`
/// if none remains.
pub open spec fn next_sep<F: Filter>(f: F, s: Seq<char>, i: nat) -> nat
    recommends
        i <= s.len(),
    decreases s.len() - i,
    when i <= s.len()
{
    if i >= s.len() {
        s.len()
    } else if is_separator(f, s[i as int]) {
        i
    } else {
        next_sep(f, s, i + 1)
    }
}

/// The sequence of tokens a scan over `s` with classifier `f` still emits,
/// starting from char cursor `i` with next position counter `pos`.
pub open spec fn scan_tokens<F: Filter>(f: F, s: Seq<char>, i: nat, pos: nat) -> Seq<SpecToken>
    recommends
        i <= s.len(),
    decreases s.len() - i,
    when i <= s.len()
    via scan_tokens_decreases::<F>
{
    if i >= s.len() {
        Seq::<SpecToken>::empty()
    } else {
        let j = next_sep(f, s, i);
        if j == i {
            // A separator with no accumulated content before it.
            if is_self_emitted(f, s[i as int]) {
                seq![SpecToken { term: s.subrange(i as int, i as int + 1), start_offset: i, position: pos }]
                    + scan_tokens(f, s, i + 1, pos + 1)
            } else {
                scan_tokens(f, s, i + 1, pos)
            }
        } else if j >= s.len() {
            // No separator remains: one final token with the whole suffix.
            seq![SpecToken { term: s.subrange(i as int, s.len() as int), start_offset: i, position: pos }]
        } else {
            // Content in [i, j), then the separator at j: emit the content;
            // a discard-only separator is consumed with it, a self-emitted
            // one is left to start the next step.
            let ni = if is_self_emitted(f, s[j as int]) { j } else { j + 1 };
            seq![SpecToken { term: s.subrange(i as int, j as int), start_offset: i, position: pos }]
                + scan_tokens(f, s, ni, pos + 1)
        }
    }
}

#[via_fn]
proof fn scan_tokens_decreases<F: Filter>(f: F, s: Seq<char>, i: nat, pos: nat) {
    if i < s.len() {
        lemma_next_sep_bounds(f, s, i);
    }
}

/// `next_sep` stays within bounds, lands on a separator unless it is the
/// input's end, and passes over no separator.
pub proof fn lemma_next_sep_bounds<F: Filter>(f: F, s: Seq<char>, i: nat)
    requires
        i <= s.len(),
    ensures
        i <= next_sep(f, s, i) <= s.len(),
        next_sep(f, s, i) < s.len() ==> is_separator(f, s[next_sep(f, s, i) as int]),
        forall|k: int| i <= k < next_sep(f, s, i) ==> !is_separator(f, s[k]),
    decreases s.len() - i,
{
    if i < s.len() && !is_separator(f, s[i as int]) {
        lemma_next_sep_bounds(f, s, i + 1);
    }
}

/// Where every character of `[i, j)` is ordinary content and `j` is a
/// separator or the input's end, the first separator at or after `i` is `j`.
pub proof fn lemma_next_sep_at<F: Filter>(f: F, s: Seq<char>, i: nat, j: nat)
    requires
        i <= j <= s.len(),
        forall|k: int| i <= k < j ==> !is_separator(f, s[k]),
        j < s.len() ==> is_separator(f, s[j as int]),
    ensures
        next_sep(f, s, i) == j,
    decreases j - i,
{
    if i < j {
        lemma_next_sep_at(f, s, i + 1, j);
    }
}

/// The concatenation, in order, of the contents of a sequence of tokens.
pub open spec fn concat_terms(ts: Seq<SpecToken>) -> Seq<char>
    decreases ts.len(),
{
    if ts.len() == 0 {
        Seq::<char>::empty()
    } else {
        ts[0].term + concat_terms(ts.drop_first())
    }
}

proof fn lemma_concat_terms_cons(t: SpecToken, ts: Seq<SpecToken>)
    ensures
        concat_terms(seq![t] + ts) == t.term + concat_terms(ts),
{
    let c = seq![t] + ts;
    assert(c[0] == t);
    assert(c.drop_first() =~= ts);
}

/// The characters of `s` from `i` on that a scan does not discard: everything
/// but the discard-only separators, in their original order.
pub open spec fn undiscarded_chars<F: Filter>(f: F, s: Seq<char>, i: nat) -> Seq<char>
    recommends
        i <= s.len(),
    decreases s.len() - i,
    when i <= s.len()
{
    if i >= s.len() {
        Seq::<char>::empty()
    } else if is_discarded(f, s[i as int]) {
        undiscarded_chars(f, s, i + 1)
    } else {
        seq![s[i as int]] + undiscarded_chars(f, s, i + 1)
    }
}

proof fn lemma_undiscarded_through_content<F: Filter>(f: F, s: Seq<char>, i: nat, j: nat)
    requires
        i <= j <= s.len(),
        forall|k: int| i <= k < j ==> !is_separator(f, s[k]),
    ensures
        undiscarded_chars(f, s, i) == s.subrange(i as int, j as int) + undiscarded_chars(f, s, j),
    decreases j - i,
{
    if i < j {
        lemma_undiscarded_through_content(f, s, i + 1, j);
        assert(undiscarded_chars(f, s, i) == seq![s[i as int]] + undiscarded_chars(f, s, i + 1));
        assert(seq![s[i as int]] + (s.subrange(i as int + 1, j as int) + undiscarded_chars(f, s, j))
            =~= s.subrange(i as int, j as int) + undiscarded_chars(f, s, j));
    } else {
        assert(s.subrange(i as int, j as int) + undiscarded_chars(f, s, j) =~= undiscarded_chars(
            f,
            s,
            j,
        ));
    }
}

/// Coverage law: concatenating the contents of every token the scan emits, in
/// order, yields exactly the input from the cursor on with its discard-only
/// separators removed — so putting each discarded separator back in its
/// original position reconstructs the input.
pub proof fn lemma_coverage<F: Filter>(f: F, s: Seq<char>, i: nat, pos: nat)
    requires
        i <= s.len(),
    ensures
        concat_terms(scan_tokens(f, s, i, pos)) == undiscarded_chars(f, s, i),
    decreases s.len() - i,
{
    if i >= s.len() {
    } else {
        lemma_next_sep_bounds(f, s, i);
        let j = next_sep(f, s, i);
        if j == i {
            if is_self_emitted(f, s[i as int]) {
                let t = SpecToken {
                    term: s.subrange(i as int, i as int + 1),
                    start_offset: i,
                    position: pos,
                };
                lemma_coverage(f, s, i + 1, pos + 1);
                lemma_concat_terms_cons(t, scan_tokens(f, s, i + 1, pos + 1));
                assert(t.term =~= seq![s[i as int]]);
            } else {
                lemma_coverage(f, s, i + 1, pos);
            }
        } else if j >= s.len() {
            let t = SpecToken {
                term: s.subrange(i as int, s.len() as int),
                start_offset: i,
                position: pos,
            };
            lemma_concat_terms_cons(t, Seq::<SpecToken>::empty());
            assert(seq![t] + Seq::<SpecToken>::empty() =~= seq![t]);
            lemma_undiscarded_through_content(f, s, i, s.len());
            assert(t.term + concat_terms(Seq::<SpecToken>::empty()) =~= t.term);
            assert(s.subrange(i as int, s.len() as int) + undiscarded_chars(f, s, s.len())
                =~= s.subrange(i as int, s.len() as int));
        } else {
            let ni: nat = if is_self_emitted(f, s[j as int]) { j } else { (j + 1) as nat };
            let t = SpecToken {
                term: s.subrange(i as int, j as int),
                start_offset: i,
                position: pos,
            };
            lemma_coverage(f, s, ni, pos + 1);
            lemma_concat_terms_cons(t, scan_tokens(f, s, ni, pos + 1));
            lemma_undiscarded_through_content(f, s, i, j);
        }
    }
}

proof fn lemma_scan_shape<F: Filter>(f: F, s: Seq<char>, i: nat, pos: nat)
    requires
        i <= s.len(),
    ensures
        forall|k: int|
            0 <= k < scan_tokens(f, s, i, pos).len() ==> {
                let t = #[trigger] scan_tokens(f, s, i, pos)[k];
                t.position == pos + k && t.start_offset >= i && t.term.len() > 0
            },
    decreases s.len() - i,
{
    if i >= s.len() {
    } else {
        lemma_next_sep_bounds(f, s, i);
        let j = next_sep(f, s, i);
        let whole = scan_tokens(f, s, i, pos);
        if j == i && !is_self_emitted(f, s[i as int]) {
            lemma_scan_shape(f, s, i + 1, pos);
            assert(whole == scan_tokens(f, s, i + 1, pos));
        } else if j > i && j >= s.len() {
            let t = SpecToken {
                term: s.subrange(i as int, s.len() as int),
                start_offset: i,
                position: pos,
            };
            assert(whole == seq![t]);
            assert(whole[0] == t);
        } else {
            // Either a self-emitted separator at the cursor or accumulated
            // content before a separator: one head token, then the scan from
            // the advanced state.
            let ni: nat = if j == i {
                (i + 1) as nat
            } else if is_self_emitted(f, s[j as int]) {
                j
            } else {
                (j + 1) as nat
            };
            let t = if j == i {
                SpecToken { term: s.subrange(i as int, i as int + 1), start_offset: i, position: pos }
            } else {
                SpecToken { term: s.subrange(i as int, j as int), start_offset: i, position: pos }
            };
            let rest = scan_tokens(f, s, ni, pos + 1);
            lemma_scan_shape(f, s, ni, pos + 1);
            assert(whole == seq![t] + rest);
            assert forall|k: int| 0 <= k < whole.len() implies {
                let t2 = #[trigger] whole[k];
                t2.position == pos + k && t2.start_offset >= i && t2.term.len() > 0
            } by {
                if k == 0 {
                    assert(whole[0] == t);
                } else {
                    assert(whole[k] == rest[k - 1]);
                }
            }
        }
    }
}

/// Position and offset law: in one scan the emitted tokens' positions
/// increase by exactly one per token, starting at the scan's counter, and
/// their start offsets, all at or after the cursor, never decrease.
pub proof fn lemma_positions_and_offsets<F: Filter>(f: F, s: Seq<char>, i: nat, pos: nat)
    requires
        i <= s.len(),
    ensures
        forall|k: int|
            0 <= k < scan_tokens(f, s, i, pos).len() ==> (#[trigger] scan_tokens(f, s, i, pos)[k]).position
                == pos + k,
        forall|k: int|
            0 <= k < scan_tokens(f, s, i, pos).len() ==> (#[trigger] scan_tokens(f, s, i, pos)[k]).start_offset
                >= i,
        forall|k1: int, k2: int|
            0 <= k1 <= k2 < scan_tokens(f, s, i, pos).len() ==> (#[trigger] scan_tokens(
                f,
                s,
                i,
                pos,
            )[k1]).start_offset <= (#[trigger] scan_tokens(f, s, i, pos)[k2]).start_offset,
    decreases s.len() - i,
{
    lemma_scan_shape(f, s, i, pos);
    if i >= s.len() {
    } else {
        lemma_next_sep_bounds(f, s, i);
        let j = next_sep(f, s, i);
        let whole = scan_tokens(f, s, i, pos);
        if j == i && !is_self_emitted(f, s[i as int]) {
            lemma_positions_and_offsets(f, s, i + 1, pos);
            assert(whole == scan_tokens(f, s, i + 1, pos));
        } else if j > i && j >= s.len() {
        } else {
            let ni: nat = if j == i {
                (i + 1) as nat
            } else if is_self_emitted(f, s[j as int]) {
                j
            } else {
                (j + 1) as nat
            };
            let rest = scan_tokens(f, s, ni, pos + 1);
            lemma_positions_and_offsets(f, s, ni, pos + 1);
            lemma_scan_shape(f, s, ni, pos + 1);
            assert forall|k1: int, k2: int| 0 <= k1 <= k2 < whole.len() implies (#[trigger] whole[k1]).start_offset
                <= (#[trigger] whole[k2]).start_offset by {
                if k1 > 0 {
                    assert(whole[k1] == rest[k1 - 1]);
                    assert(whole[k2] == rest[k2 - 1]);
                } else if k2 > 0 {
                    assert(whole[k2] == rest[k2 - 1]);
                    assert(rest[k2 - 1].start_offset >= ni >= i);
                }
            }
        }
    }
}

/// Non-emptiness law: no token the scan emits has empty content.
pub proof fn lemma_nonempty<F: Filter>(f: F, s: Seq<char>, i: nat, pos: nat)
    requires
        i <= s.len(),
    ensures
        forall|k: int|
            0 <= k < scan_tokens(f, s, i, pos).len() ==> (#[trigger] scan_tokens(f, s, i, pos)[k]).term.len()
                > 0,
{
    lemma_scan_shape(f, s, i, pos);
}

proof fn lemma_next_sep_ext<F1: Filter, F2: Filter>(f1: F1, f2: F2, s: Seq<char>, i: nat)
    requires
        i <= s.len(),
        forall|c: char| #[trigger] f1.spec_on_char(c) == f2.spec_on_char(c),
    ensures
        next_sep(f1, s, i) == next_sep(f2, s, i),
    decreases s.len() - i,
{
    if i < s.len() && !is_separator(f1, s[i as int]) {
        lemma_next_sep_ext(f1, f2, s, i + 1);
    }
}

/// Re-scan law: the token sequence is a function of the classifier's
/// decisions and the input alone, so running a fresh scan over the same pair
/// — or over any classifier that decides every character the same way —
/// yields the identical sequence of tokens.
pub proof fn lemma_rescan_deterministic<F1: Filter, F2: Filter>(
    f1: F1,
    f2: F2,
    s: Seq<char>,
    i: nat,
    pos: nat,
)
    requires
        i <= s.len(),
        forall|c: char| #[trigger] f1.spec_on_char(c) == f2.spec_on_char(c),
    ensures
        scan_tokens(f1, s, i, pos) == scan_tokens(f2, s, i, pos),
    decreases s.len() - i,
{
    if i < s.len() {
        lemma_next_sep_bounds(f1, s, i);
        lemma_next_sep_ext(f1, f2, s, i);
        let j = next_sep(f1, s, i);
        if j == i {
            if is_self_emitted(f1, s[i as int]) {
                lemma_rescan_deterministic(f1, f2, s, i + 1, pos + 1);
            } else {
                lemma_rescan_deterministic(f1, f2, s, i + 1, pos);
            }
        } else if j < s.len() {
            let ni: nat = if is_self_emitted(f1, s[j as int]) { j } else { (j + 1) as nat };
            lemma_rescan_deterministic(f1, f2, s, ni, pos + 1);
        }
    }
}

/// Termination law: the scan emits at most one token per remaining character,
/// so the token sequence is finite and the scan exhausts on any finite input.
pub proof fn lemma_token_count_bounded<F: Filter>(f: F, s: Seq<char>, i: nat, pos: nat)
    requires
        i <= s.len(),
    ensures
        scan_tokens(f, s, i, pos).len() <= s.len() - i,
    decreases s.len() - i,
{
    if i >= s.len() {
    } else {
        lemma_next_sep_bounds(f, s, i);
        let j = next_sep(f, s, i);
        if j == i {
            if is_self_emitted(f, s[i as int]) {
                lemma_token_count_bounded(f, s, i + 1, pos + 1);
            } else {
                lemma_token_count_bounded(f, s, i + 1, pos);
            }
        } else if j >= s.len() {
        } else {
            let ni: nat = if is_self_emitted(f, s[j as int]) { j } else { (j + 1) as nat };
            lemma_token_count_bounded(f, s, ni, pos + 1);
        }
    }
}

} // verus!
