//! Literal find-and-replace, the one substitution rule of rendering.
//!
//! Replacement walks the text once, left to right: at each position it either
//! recognises the exact pattern, emits the replacement and resumes after the
//! match, or emits the character and moves on. Substituted text is never
//! rescanned, so no recursive expansion can occur. `replace_all_seq` states
//! this rule for a single pattern; rendering applies it to all keys in one
//! shared pass over the document.

use vstd::prelude::*;

verus! {

/// The pattern occurs in `s` starting at position `i`.
pub open spec fn occurs_at(s: Seq<char>, i: int, pat: Seq<char>) -> bool {
    0 <= i && i + pat.len() <= s.len() && s.subrange(i, i + pat.len()) == pat
}

/// The text with every non-overlapping occurrence of `pat`, found left to
/// right, replaced by `val`; all other text is kept verbatim. Empty patterns
/// never arise (a marker is at least five characters), so the text is then
/// returned unchanged.
pub open spec fn replace_all_seq(s: Seq<char>, pat: Seq<char>, val: Seq<char>) -> Seq<char>
    decreases s.len(),
{
    if pat.len() == 0 || s.len() == 0 {
        s
    } else if occurs_at(s, 0, pat) {
        val + replace_all_seq(s.subrange(pat.len() as int, s.len() as int), pat, val)
    } else {
        seq![s[0]] + replace_all_seq(s.subrange(1, s.len() as int), pat, val)
    }
}

/// The marker that binds and renders a placeholder named `name`: the opening
/// delimiter, the name verbatim, the closing delimiter.
pub open spec fn marker_seq(name: Seq<char>) -> Seq<char> {
    seq!['@', '['] + name + seq![']', '@']
}

/// Text in which the pattern never occurs is left verbatim by replacement.
pub proof fn lemma_replace_all_absent(s: Seq<char>, pat: Seq<char>, val: Seq<char>)
    requires
        forall|i: int| !occurs_at(s, i, pat),
    ensures
        replace_all_seq(s, pat, val) == s,
    decreases s.len(),
{
    if pat.len() == 0 || s.len() == 0 {
    } else {
        assert(!occurs_at(s, 0, pat));
        let rest = s.subrange(1, s.len() as int);
        assert forall|i: int| !occurs_at(rest, i, pat) by {
            if 0 <= i && i + pat.len() <= rest.len() {
                assert(rest.subrange(i, i + pat.len()) =~= s.subrange(i + 1, i + 1 + pat.len()));
                assert(!occurs_at(s, i + 1, pat));
            }
        }
        lemma_replace_all_absent(rest, pat, val);
        assert(seq![s[0]] + rest =~= s);
    }
}

/// Whether `pat` occurs in `text` at position `i`.
pub(crate) fn matches_at(text: &str, i: usize, pat: &str, p: usize, n: usize) -> (r: bool)
    requires
        p == pat@.len(),
        n == text@.len(),
        i + p <= n,
    ensures
        r == occurs_at(text@, i as int, pat@),
{
    let mut k: usize = 0;
    while k < p
        invariant
            p == pat@.len(),
            n == text@.len(),
            i + p <= n,
            k <= p,
            forall|m: int| 0 <= m < k ==> text@[i + m] == pat@[m],
        decreases p - k,
    {
        if text.get_char(i + k) != pat.get_char(k) {
            assert(text@.subrange(i as int, i + p)[k as int] != pat@[k as int]);
            return false;
        }
        k = k + 1;
    }
    assert(text@.subrange(i as int, i + p) =~= pat@);
    true
}

} // verus!
