//! Mathematical model of the shortening transformation.
//!
//! A qualified name is a sequence of characters.  Segments are joined by the
//! two-character separator `::`; generics, tuples and arrays are delimited by
//! a fixed set of nine boundary characters.  `collapse_spec` drops the module
//! prefix of a single fragment; `shorten_spec` walks the whole name once,
//! collapsing the fragment before every boundary character.

use vstd::prelude::*;

verus! {

/// The nine structural boundary characters: space, angle brackets,
/// parentheses, square brackets, comma and semicolon.
pub open spec fn is_special(c: char) -> bool {
    c == ' ' || c == '<' || c == '>' || c == '(' || c == ')' || c == '[' || c == ']' || c == ','
        || c == ';'
}

/// The three closing delimiters, after which a qualified path may continue.
pub open spec fn is_closing(c: char) -> bool {
    c == '>' || c == ')' || c == ']'
}

/// An ASCII uppercase letter.  A segment that begins with one is taken for a
/// type (an enum, say) rather than a module, and is not stripped.
pub open spec fn is_upper_ascii(c: char) -> bool {
    65 <= c as u32 && c as u32 <= 90
}

/// The two-character path separator `::` occurs at position `i` of `s`.
pub open spec fn sep_at(s: Seq<char>, i: int) -> bool {
    0 <= i && i + 2 <= s.len() && s[i] == ':' && s[i + 1] == ':'
}

/// `s` contains the path separator somewhere.
pub open spec fn has_sep(s: Seq<char>) -> bool {
    exists|i: int| sep_at(s, i)
}

/// The position of the last occurrence of the path separator in `s`,
/// or `-1` when there is none.
pub open spec fn last_sep(s: Seq<char>) -> int
    decreases s.len(),
{
    if s.len() < 2 {
        -1
    } else if s[s.len() - 2] == ':' && s[s.len() - 1] == ':' {
        s.len() - 2
    } else {
        last_sep(s.take(s.len() - 1))
    }
}

/// The start of the segment that precedes the last separator: just after the
/// separator before it, or the start of `s` when that separator is the first.
pub open spec fn second_start(s: Seq<char>) -> int {
    if last_sep(s.take(last_sep(s))) >= 0 {
        last_sep(s.take(last_sep(s))) + 2
    } else {
        0
    }
}

/// The index at which the collapsed form of `s` begins.
///
/// With no separator nothing is dropped.  Otherwise the text up to and
/// including the last separator is dropped, except that a preceding segment
/// beginning with an ASCII uppercase letter is kept together with its
/// separator (so an enum path such as `Option::None` survives).
pub open spec fn collapse_start(s: Seq<char>) -> int {
    let l = last_sep(s);
    if l < 0 {
        0
    } else {
        let p = second_start(s);
        if p < l && is_upper_ascii(s[p]) {
            p
        } else {
            l + 2
        }
    }
}

/// The collapsed form of one fragment: the suffix of `s` that remains after
/// the module prefix is dropped.
pub open spec fn collapse_spec(s: Seq<char>) -> Seq<char> {
    s.skip(collapse_start(s))
}

/// `s` contains a boundary character somewhere.
pub open spec fn has_special(s: Seq<char>) -> bool {
    exists|i: int| 0 <= i < s.len() && is_special(s[i])
}

/// The position of the first boundary character of `s`, or `s.len()` when
/// there is none.
pub open spec fn first_special(s: Seq<char>) -> int
    decreases s.len(),
{
    if s.len() == 0 {
        0
    } else if is_special(s[0]) {
        0
    } else {
        1 + first_special(s.skip(1))
    }
}

/// The shortened form of a whole qualified name.
///
/// The scan finds the first boundary character, collapses the fragment up to
/// and including it, and continues on the rest.  When a closing delimiter is
/// followed immediately by the path separator, the separator is kept and the
/// scan resumes after it, so a path that continues after a bracket
/// (`Assets<Scene>::event_system`) stays qualified.  A fragment with no
/// boundary character is collapsed whole.
pub open spec fn shorten_spec(s: Seq<char>) -> Seq<char>
    decreases s.len(),
    via shorten_spec_decreases
{
    if !has_special(s) {
        collapse_spec(s)
    } else {
        let k = first_special(s);
        let pre = s.take(k + 1);
        let post = s.skip(k + 1);
        if is_closing(s[k]) && post.len() >= 2 && post[0] == ':' && post[1] == ':' {
            collapse_spec(pre) + seq![':', ':'] + shorten_spec(post.skip(2))
        } else {
            collapse_spec(pre) + shorten_spec(post)
        }
    }
}

#[via_fn]
proof fn shorten_spec_decreases(s: Seq<char>) {
    if has_special(s) {
        lemma_first_special(s);
    }
}

/// `last_sep` finds a separator position, the greatest one.
pub proof fn lemma_last_sep(s: Seq<char>)
    ensures
        last_sep(s) >= -1,
        last_sep(s) >= 0 ==> last_sep(s) + 2 <= s.len(),
        last_sep(s) >= 0 ==> sep_at(s, last_sep(s)),
        forall|j: int| j > last_sep(s) ==> !sep_at(s, j),
    decreases s.len(),
{
    if s.len() < 2 {
    } else if s[s.len() - 2] == ':' && s[s.len() - 1] == ':' {
        assert forall|j: int| j > s.len() - 2 implies !sep_at(s, j) by {}
    } else {
        let t = s.take(s.len() - 1);
        lemma_last_sep(t);
        assert forall|j: int| j > last_sep(s) implies !sep_at(s, j) by {
            if j + 2 <= s.len() - 1 {
                assert(sep_at(s, j) ==> sep_at(t, j));
            } else if j == s.len() - 2 {
                assert(!sep_at(s, j));
            }
        }
        if last_sep(t) >= 0 {
            assert(sep_at(t, last_sep(t)));
            assert(sep_at(s, last_sep(s)));
        }
    }
}

/// A separator position with none after it is the last one.
pub proof fn lemma_last_sep_unique(s: Seq<char>, l: int)
    requires
        sep_at(s, l),
        forall|j: int| j > l ==> !sep_at(s, j),
    ensures
        last_sep(s) == l,
{
    lemma_last_sep(s);
    if last_sep(s) < l {
        assert(!sep_at(s, l));
    }
    if last_sep(s) > l {
        assert(sep_at(s, last_sep(s)));
    }
}

/// With no separator anywhere, `last_sep` reports none.
pub proof fn lemma_last_sep_none(s: Seq<char>)
    requires
        forall|j: int| !sep_at(s, j),
    ensures
        last_sep(s) == -1,
{
    lemma_last_sep(s);
    if last_sep(s) >= 0 {
        assert(sep_at(s, last_sep(s)));
    }
}

/// `first_special` finds a boundary position, the least one.
pub proof fn lemma_first_special(s: Seq<char>)
    ensures
        0 <= first_special(s) <= s.len(),
        first_special(s) < s.len() ==> is_special(s[first_special(s)]),
        forall|j: int| 0 <= j < first_special(s) ==> !is_special(s[j]),
        (first_special(s) == s.len()) == !has_special(s),
    decreases s.len(),
{
    if s.len() == 0 {
    } else if is_special(s[0]) {
    } else {
        let t = s.skip(1);
        lemma_first_special(t);
        assert forall|j: int| 0 <= j < first_special(s) implies !is_special(s[j]) by {
            if j > 0 {
                assert(s[j] == t[j - 1]);
            }
        }
        if first_special(s) < s.len() {
            assert(s[first_special(s)] == t[first_special(s) - 1]);
        }
        if first_special(s) == s.len() {
            assert forall|i: int| 0 <= i < s.len() implies !is_special(s[i]) by {}
        } else {
            assert(has_special(s));
        }
    }
}

/// A boundary position with none before it is the first one.
pub proof fn lemma_first_special_unique(s: Seq<char>, k: int)
    requires
        0 <= k < s.len(),
        is_special(s[k]),
        forall|j: int| 0 <= j < k ==> !is_special(s[j]),
    ensures
        first_special(s) == k,
{
    lemma_first_special(s);
    if first_special(s) < k {
        assert(!is_special(s[first_special(s)]));
    }
    if first_special(s) > k {
        assert(!is_special(s[k]));
    }
}

/// The shape of a collapsed fragment: the result is a suffix, a fragment
/// whose last character is no colon loses at most its prefix, and a result
/// that lost anything cannot begin with a colon.
pub proof fn lemma_collapse_props(s: Seq<char>)
    ensures
        0 <= collapse_start(s) <= s.len(),
        collapse_spec(s) == s.skip(collapse_start(s)),
        s.len() > 0 && s[s.len() - 1] != ':' ==> collapse_start(s) < s.len(),
        collapse_start(s) > 0 ==> collapse_spec(s).len() == 0 || collapse_spec(s)[0] != ':',
{
    lemma_last_sep(s);
    let l = last_sep(s);
    if l >= 0 {
        lemma_last_sep(s.take(l));
        let p = second_start(s);
        if l + 2 == s.len() {
            assert(s[s.len() - 1] == ':');
        }
        if !(p < l && is_upper_ascii(s[p])) && l + 2 < s.len() && s[l + 2] == ':' {
            assert(sep_at(s, l + 1));
            assert(false);
        }
    }
}

/// Collapsing is idempotent: a collapsed fragment collapses to itself.
pub proof fn lemma_collapse_idempotent(s: Seq<char>)
    ensures
        collapse_spec(collapse_spec(s)) == collapse_spec(s),
{
    lemma_last_sep(s);
    let l = last_sep(s);
    if l < 0 {
        assert(s.skip(0) =~= s);
    } else {
        lemma_last_sep(s.take(l));
        let p = second_start(s);
        if p < l && is_upper_ascii(s[p]) {
            let r = s.skip(p);
            assert(r[l - p] == s[l] && r[l - p + 1] == s[l + 1]);
            assert(sep_at(r, l - p));
            assert forall|q: int| q > l - p implies !sep_at(r, q) by {
                if 0 <= q && q + 2 <= r.len() {
                    assert(r[q] == s[p + q] && r[q + 1] == s[p + q + 1]);
                    assert(!sep_at(s, p + q));
                }
            }
            lemma_last_sep_unique(r, l - p);
            let rt = r.take(l - p);
            assert forall|j: int| !sep_at(rt, j) by {
                if 0 <= j && j + 2 <= rt.len() {
                    assert(rt[j] == s[p + j] && rt[j + 1] == s[p + j + 1]);
                    if sep_at(rt, j) {
                        assert(sep_at(s.take(l), p + j));
                        assert(p + j > last_sep(s.take(l)));
                    }
                }
            }
            lemma_last_sep_none(rt);
            assert(r[0] == s[p]);
            assert(collapse_start(r) == 0);
            assert(r.skip(0) =~= r);
        } else {
            let r = s.skip(l + 2);
            assert forall|q: int| !sep_at(r, q) by {
                if 0 <= q && q + 2 <= r.len() {
                    assert(r[q] == s[l + 2 + q] && r[q + 1] == s[l + 2 + q + 1]);
                    if sep_at(r, q) {
                        assert(sep_at(s, l + 2 + q));
                    }
                }
            }
            lemma_last_sep_none(r);
            assert(collapse_start(r) == 0);
            assert(r.skip(0) =~= r);
        }
    }
}

} // verus!
