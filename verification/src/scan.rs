//! The placeholder scanner.
//!
//! A marker is the exact five-part shape `@[`, a non-empty run of characters
//! other than `]`, then `]@`. The name of the placeholder is that run with
//! surrounding whitespace trimmed. Scanning walks the document left to right,
//! recognises markers at the earliest position possible, resumes after each
//! one, and collects the distinct names in order of first occurrence.

use vstd::prelude::*;

verus! {

/// A character with the Unicode `White_Space` property, the characters that
/// trimming removes from the ends of a captured name.
pub open spec fn is_space_char(c: char) -> bool {
    ||| c == '\u{0009}'
    ||| c == '\u{000A}'
    ||| c == '\u{000B}'
    ||| c == '\u{000C}'
    ||| c == '\u{000D}'
    ||| c == ' '
    ||| c == '\u{0085}'
    ||| c == '\u{00A0}'
    ||| c == '\u{1680}'
    ||| c == '\u{2000}'
    ||| c == '\u{2001}'
    ||| c == '\u{2002}'
    ||| c == '\u{2003}'
    ||| c == '\u{2004}'
    ||| c == '\u{2005}'
    ||| c == '\u{2006}'
    ||| c == '\u{2007}'
    ||| c == '\u{2008}'
    ||| c == '\u{2009}'
    ||| c == '\u{200A}'
    ||| c == '\u{2028}'
    ||| c == '\u{2029}'
    ||| c == '\u{202F}'
    ||| c == '\u{205F}'
    ||| c == '\u{3000}'
}

/// Decides `is_space_char` on a concrete character.
pub fn is_space(c: char) -> (r: bool)
    ensures
        r == is_space_char(c),
{
    c == '\u{0009}' || c == '\u{000A}' || c == '\u{000B}' || c == '\u{000C}' || c == '\u{000D}'
        || c == ' ' || c == '\u{0085}' || c == '\u{00A0}' || c == '\u{1680}' || c == '\u{2000}'
        || c == '\u{2001}' || c == '\u{2002}' || c == '\u{2003}' || c == '\u{2004}'
        || c == '\u{2005}' || c == '\u{2006}' || c == '\u{2007}' || c == '\u{2008}'
        || c == '\u{2009}' || c == '\u{200A}' || c == '\u{2028}' || c == '\u{2029}'
        || c == '\u{202F}' || c == '\u{205F}' || c == '\u{3000}'
}

/// The text with leading whitespace characters removed.
pub open spec fn trim_start_seq(s: Seq<char>) -> Seq<char>
    decreases s.len(),
{
    if s.len() > 0 && is_space_char(s[0]) {
        trim_start_seq(s.subrange(1, s.len() as int))
    } else {
        s
    }
}

/// The text with trailing whitespace characters removed.
pub open spec fn trim_end_seq(s: Seq<char>) -> Seq<char>
    decreases s.len(),
{
    if s.len() > 0 && is_space_char(s[s.len() - 1]) {
        trim_end_seq(s.subrange(0, s.len() - 1))
    } else {
        s
    }
}

/// The text with whitespace removed from both ends, the name a marker's
/// capture denotes.
pub open spec fn trim_seq(s: Seq<char>) -> Seq<char> {
    trim_end_seq(trim_start_seq(s))
}

/// The position of the first `]` at or after `k`, or `-1` if none remains.
pub open spec fn first_close(s: Seq<char>, k: int) -> int
    decreases s.len() - k,
{
    if k < 0 || k >= s.len() {
        -1
    } else if s[k] == ']' {
        k
    } else {
        first_close(s, k + 1)
    }
}

/// A marker occurrence starts at position `i`: the opening `@[`, at least one
/// character before the first following `]`, and `@` right after that `]`.
pub open spec fn marker_at(s: Seq<char>, i: int) -> bool {
    let j = first_close(s, i + 2);
    &&& 0 <= i
    &&& i + 1 < s.len()
    &&& s[i] == '@'
    &&& s[i + 1] == '['
    &&& j >= i + 3
    &&& j + 1 < s.len()
    &&& s[j + 1] == '@'
}

/// The trimmed names of the markers found from position `i` on, in the order
/// scanning meets them, one entry per occurrence. Scanning resumes right
/// after each recognised marker and never looks inside substituted or
/// captured text.
pub open spec fn raw_names(s: Seq<char>, i: int) -> Seq<Seq<char>>
    decreases s.len() - i,
{
    if i < 0 || i >= s.len() {
        Seq::<Seq<char>>::empty()
    } else if marker_at(s, i) {
        let j = first_close(s, i + 2);
        seq![trim_seq(s.subrange(i + 2, j))] + raw_names(s, j + 2)
    } else {
        raw_names(s, i + 1)
    }
}

/// The distinct names of a scan, each kept at its first occurrence, in that
/// order: the frozen key set of a template built from the document.
pub open spec fn dedup_names(s: Seq<Seq<char>>) -> Seq<Seq<char>>
    decreases s.len(),
{
    if s.len() == 0 {
        s
    } else {
        let rest = dedup_names(s.drop_last());
        if rest.contains(s.last()) {
            rest
        } else {
            rest.push(s.last())
        }
    }
}

/// Keeping only first occurrences loses no name and invents none: the
/// distinct names are exactly the names of the scan.
pub proof fn lemma_dedup_same_names(s: Seq<Seq<char>>)
    ensures
        forall|x: Seq<char>| #[trigger] dedup_names(s).contains(x) <==> s.contains(x),
    decreases s.len(),
{
    if s.len() > 0 {
        lemma_dedup_same_names(s.drop_last());
        assert forall|x: Seq<char>| #[trigger] s.contains(x) implies dedup_names(s).contains(x) by {
            let rest = dedup_names(s.drop_last());
            if x == s.last() {
                if rest.contains(x) {
                    assert(dedup_names(s) == rest);
                } else {
                    assert(dedup_names(s) == rest.push(x));
                    assert(dedup_names(s)[rest.len() as int] == x);
                }
            } else {
                let k = choose|k: int| 0 <= k < s.len() && s[k] == x;
                assert(k < s.len() - 1);
                assert(s.drop_last()[k] == x);
                assert(s.drop_last().contains(x));
                assert(rest.contains(x));
                let m = choose|m: int| 0 <= m < rest.len() && rest[m] == x;
                if rest.contains(s.last()) {
                    assert(dedup_names(s) == rest);
                } else {
                    assert(dedup_names(s) == rest.push(s.last()));
                    assert(dedup_names(s)[m] == x);
                }
            }
        };
        assert forall|x: Seq<char>| #[trigger] dedup_names(s).contains(x) implies s.contains(x) by {
            let rest = dedup_names(s.drop_last());
            if rest.contains(x) {
                let k = choose|k: int| 0 <= k < s.drop_last().len() && s.drop_last()[k] == x;
                assert(s[k] == x);
            } else {
                let m = choose|m: int| 0 <= m < dedup_names(s).len() && dedup_names(s)[m] == x;
                if m < rest.len() {
                    assert(rest[m] == x);
                    let k = choose|k: int| 0 <= k < s.drop_last().len() && s.drop_last()[k] == x;
                    assert(s[k] == x);
                } else {
                    assert(x == s.last());
                    assert(s[s.len() - 1] == x);
                }
            }
        };
    }
}

/// No name appears twice among the distinct names of a scan.
pub proof fn lemma_dedup_no_duplicates(s: Seq<Seq<char>>)
    ensures
        dedup_names(s).no_duplicates(),
    decreases s.len(),
{
    if s.len() > 0 {
        lemma_dedup_no_duplicates(s.drop_last());
        let rest = dedup_names(s.drop_last());
        if !rest.contains(s.last()) {
            assert forall|p: int, q: int|
                0 <= p < rest.push(s.last()).len() && 0 <= q < rest.push(s.last()).len() && p
                    != q implies rest.push(s.last())[p] != rest.push(s.last())[q] by {
                if p < rest.len() && q < rest.len() {
                    assert(rest.push(s.last())[p] == rest[p]);
                    assert(rest.push(s.last())[q] == rest[q]);
                } else if p < rest.len() {
                    assert(rest.push(s.last())[p] == rest[p]);
                    assert(rest.contains(rest[p]));
                    assert(rest.push(s.last())[q] == s.last());
                } else {
                    assert(rest.push(s.last())[q] == rest[q]);
                    assert(rest.contains(rest[q]));
                    assert(rest.push(s.last())[p] == s.last());
                }
            };
        }
    }
}

/// The views of a vector of strings, element by element.
pub open spec fn views_of(v: Seq<String>) -> Seq<Seq<char>> {
    Seq::new(v.len(), |i: int| v[i]@)
}

proof fn lemma_views_of_push(v: Seq<String>, x: String)
    ensures
        views_of(v.push(x)) == views_of(v).push(x@),
{
    assert(views_of(v.push(x)) =~= views_of(v).push(x@));
}

/// Whether one of the strings of `v` reads as `s`.
pub fn contains_string(v: &Vec<String>, s: &String) -> (r: bool)
    ensures
        r == views_of(v@).contains(s@),
{
    let n = v.len();
    let mut i: usize = 0;
    while i < n
        invariant
            n == v@.len(),
            i <= n,
            forall|m: int| 0 <= m < i ==> views_of(v@)[m] != s@,
        decreases n - i,
    {
        if v[i].eq(s) {
            assert(views_of(v@)[i as int] == s@);
            return true;
        }
        i = i + 1;
    }
    false
}

/// If a marker starts at position `i` of `content`, the position of its
/// closing `]`; `None` if no marker starts there.
fn marker_close_at(content: &str, i: usize, n: usize) -> (r: Option<usize>)
    requires
        n == content@.len(),
        i < n,
    ensures
        match r {
            Some(j) => marker_at(content@, i as int) && j == first_close(content@, i + 2) && i + 3
                <= j && j + 1 < n,
            None => !marker_at(content@, i as int),
        },
{
    let s = content;
    if s.get_char(i) != '@' {
        return None;
    }
    if i + 1 >= n || s.get_char(i + 1) != '[' {
        return None;
    }
    let mut k: usize = i + 2;
    while k < n && s.get_char(k) != ']'
        invariant
            n == s@.len(),
            i + 2 <= k <= n,
            first_close(s@, i + 2) == first_close(s@, k as int),
        decreases n - k,
    {
        assert(first_close(s@, k as int) == first_close(s@, k + 1));
        k = k + 1;
    }
    if k >= n {
        assert(first_close(s@, k as int) == -1);
        return None;
    }
    let j = k;
    assert(first_close(s@, j as int) == j);
    if j < i + 3 {
        return None;
    }
    if j + 1 >= n || s.get_char(j + 1) != '@' {
        return None;
    }
    Some(j)
}

/// The captured name of the marker whose capture spans positions `a0` to
/// `b0` of `content`, trimmed of surrounding whitespace.
fn trimmed_name(content: &str, a0: usize, b0: usize) -> (r: String)
    requires
        a0 <= b0 <= content@.len(),
    ensures
        r@ == trim_seq(content@.subrange(a0 as int, b0 as int)),
{
    let s = content;
    let ghost orig = s@.subrange(a0 as int, b0 as int);
    let mut a: usize = a0;
    while a < b0 && is_space(s.get_char(a))
        invariant
            a0 <= a <= b0 <= s@.len(),
            trim_start_seq(orig) == trim_start_seq(s@.subrange(a as int, b0 as int)),
        decreases b0 - a,
    {
        let ghost cur = s@.subrange(a as int, b0 as int);
        assert(cur[0] == s@[a as int]);
        assert(cur.subrange(1, cur.len() as int) =~= s@.subrange(a + 1, b0 as int));
        a = a + 1;
    }
    assert(trim_start_seq(s@.subrange(a as int, b0 as int)) == s@.subrange(a as int, b0 as int));
    let ghost started = s@.subrange(a as int, b0 as int);
    let mut b: usize = b0;
    while b > a && is_space(s.get_char(b - 1))
        invariant
            a <= b <= b0 <= s@.len(),
            trim_end_seq(started) == trim_end_seq(s@.subrange(a as int, b as int)),
        decreases b,
    {
        let ghost cur = s@.subrange(a as int, b as int);
        assert(cur[cur.len() - 1] == s@[b - 1]);
        assert(cur.subrange(0, cur.len() - 1) =~= s@.subrange(a as int, b - 1));
        b = b - 1;
    }
    assert(trim_end_seq(s@.subrange(a as int, b as int)) == s@.subrange(a as int, b as int));
    let name = s.substring_char(a, b);
    name.to_owned()
}

/// Scans a document and returns its distinct placeholder names, each at its
/// first occurrence, in scanning order.
pub fn scan_placeholders(content: &str) -> (keys: Vec<String>)
    ensures
        views_of(keys@) == dedup_names(raw_names(content@, 0)),
{
    let s = content;
    let n = s.unicode_len();
    let mut keys: Vec<String> = Vec::new();
    let ghost mut raw: Seq<Seq<char>> = Seq::<Seq<char>>::empty();
    let mut i: usize = 0;
    proof {
        assert(raw + raw_names(s@, 0) =~= raw_names(s@, 0));
    }
    while i < n
        invariant
            n == s@.len(),
            i <= n,
            raw + raw_names(s@, i as int) == raw_names(s@, 0),
            views_of(keys@) == dedup_names(raw),
        decreases n - i,
    {
        match marker_close_at(s, i, n) {
            Some(j) => {
                let name = trimmed_name(s, i + 2, j);
                let ghost nv = name@;
                proof {
                    assert(raw_names(s@, i as int) == seq![nv] + raw_names(s@, j + 2));
                    assert(raw.push(nv) + raw_names(s@, j + 2) =~= raw + (seq![nv] + raw_names(
                        s@,
                        j + 2,
                    )));
                    assert(raw.push(nv).drop_last() =~= raw);
                    assert(raw.push(nv).last() == nv);
                }
                if !contains_string(&keys, &name) {
                    let ghost old_keys = keys@;
                    keys.push(name);
                    proof {
                        lemma_views_of_push(old_keys, keys@.last());
                    }
                } else {
                    proof {
                        assert(dedup_names(raw.push(nv)) == dedup_names(raw));
                    }
                }
                proof {
                    raw = raw.push(nv);
                }
                i = j + 2;
            },
            None => {
                proof {
                    assert(raw_names(s@, i as int) == raw_names(s@, i + 1));
                }
                i = i + 1;
            },
        }
    }
    proof {
        assert(raw_names(s@, i as int) == Seq::<Seq<char>>::empty());
        assert(raw + raw_names(s@, i as int) =~= raw);
    }
    keys
}

} // verus!
