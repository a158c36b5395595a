//! General properties of the shortening transformation, stated over the
//! model and proved once for all inputs.

use vstd::prelude::*;

use crate::model::collapse_spec;
use crate::model::collapse_start;
use crate::model::first_special;
use crate::model::has_sep;
use crate::model::has_special;
use crate::model::is_closing;
use crate::model::is_special;
use crate::model::is_upper_ascii;
use crate::model::last_sep;
use crate::model::lemma_collapse_idempotent;
use crate::model::lemma_collapse_props;
use crate::model::lemma_first_special;
use crate::model::lemma_first_special_unique;
use crate::model::lemma_last_sep;
use crate::model::lemma_last_sep_none;
use crate::model::second_start;
use crate::model::sep_at;
use crate::model::shorten_spec;

verus! {

/// In one step of the scan the fragment runs up to and including the first
/// boundary character.  Collapsing such a fragment keeps the boundary as its
/// last character, keeps the result non-empty, and leaves no boundary
/// character anywhere before the end.
proof fn lemma_fragment_shape(s: Seq<char>)
    requires
        s.len() > 0,
        is_special(s[s.len() - 1]),
        forall|j: int| 0 <= j < s.len() - 1 ==> !is_special(s[j]),
    ensures
        0 <= collapse_start(s) < s.len(),
        collapse_spec(s) == s.skip(collapse_start(s)),
        collapse_spec(s).len() >= 1,
        collapse_spec(s)[collapse_spec(s).len() - 1] == s[s.len() - 1],
        forall|j: int|
            0 <= j < collapse_spec(s).len() - 1 ==> !is_special(collapse_spec(s)[j]),
{
    assert(!is_special(':'));
    lemma_collapse_props(s);
    let c = collapse_spec(s);
    let cs = collapse_start(s);
    assert forall|j: int| 0 <= j < c.len() - 1 implies !is_special(c[j]) by {
        assert(c[j] == s[cs + j]);
    }
}

/// The subsequence of boundary characters of `s`, in their original order.
pub open spec fn specials_of(s: Seq<char>) -> Seq<char>
    decreases s.len(),
{
    if s.len() == 0 {
        Seq::empty()
    } else if is_special(s[0]) {
        seq![s[0]] + specials_of(s.skip(1))
    } else {
        specials_of(s.skip(1))
    }
}

proof fn lemma_specials_concat(a: Seq<char>, b: Seq<char>)
    ensures
        specials_of(a + b) == specials_of(a) + specials_of(b),
    decreases a.len(),
{
    if a.len() == 0 {
        assert(a + b =~= b);
        assert(specials_of(a) + specials_of(b) =~= specials_of(b));
    } else {
        lemma_specials_concat(a.skip(1), b);
        assert((a + b).skip(1) =~= a.skip(1) + b);
        assert((a + b)[0] == a[0]);
        if is_special(a[0]) {
            assert(seq![a[0]] + (specials_of(a.skip(1)) + specials_of(b)) =~= (seq![a[0]]
                + specials_of(a.skip(1))) + specials_of(b));
        }
    }
}

proof fn lemma_specials_none(s: Seq<char>)
    requires
        forall|j: int| 0 <= j < s.len() ==> !is_special(s[j]),
    ensures
        specials_of(s) == Seq::<char>::empty(),
    decreases s.len(),
{
    if s.len() > 0 {
        lemma_specials_none(s.skip(1));
    }
}

/// Boundary preservation: the boundary characters of the shortened name are
/// exactly those of the input, in the same order (and so with the same
/// multiplicity).
pub proof fn lemma_shorten_preserves_specials(s: Seq<char>)
    ensures
        specials_of(shorten_spec(s)) == specials_of(s),
    decreases s.len(),
{
    if !has_special(s) {
        lemma_collapse_props(s);
        let cs = collapse_start(s);
        lemma_specials_none(s);
        assert forall|j: int| 0 <= j < shorten_spec(s).len() implies !is_special(
            shorten_spec(s)[j],
        ) by {
            assert(shorten_spec(s)[j] == s[cs + j]);
        }
        lemma_specials_none(shorten_spec(s));
    } else {
        lemma_first_special(s);
        let k = first_special(s);
        let pre = s.take(k + 1);
        let post = s.skip(k + 1);
        assert(s =~= pre + post);
        lemma_specials_concat(pre, post);
        lemma_fragment_shape(pre);
        let c = collapse_spec(pre);
        let cs = collapse_start(pre);
        assert(pre =~= pre.take(cs) + pre.skip(cs));
        lemma_specials_concat(pre.take(cs), pre.skip(cs));
        assert forall|j: int| 0 <= j < pre.take(cs).len() implies !is_special(
            pre.take(cs)[j],
        ) by {
            assert(pre.take(cs)[j] == s[j]);
        }
        lemma_specials_none(pre.take(cs));
        assert(specials_of(pre) =~= specials_of(c));
        if is_closing(s[k]) && post.len() >= 2 && post[0] == ':' && post[1] == ':' {
            let t = post.skip(2);
            lemma_shorten_preserves_specials(t);
            let sep = seq![':', ':'];
            assert(post =~= post.take(2) + t);
            lemma_specials_concat(post.take(2), t);
            assert(post.take(2) =~= sep);
            assert(!is_special(':'));
            lemma_specials_none(sep);
            lemma_specials_concat(c + sep, shorten_spec(t));
            lemma_specials_concat(c, sep);
            assert(specials_of(shorten_spec(s)) =~= specials_of(s));
        } else {
            lemma_shorten_preserves_specials(post);
            lemma_specials_concat(c, shorten_spec(post));
            assert(specials_of(shorten_spec(s)) =~= specials_of(s));
        }
    }
}

/// `a` is a subsequence of `b`: the characters of `a` all occur in `b`, in
/// the same order.
pub open spec fn is_subseq_of(a: Seq<char>, b: Seq<char>) -> bool
    decreases b.len(),
{
    if a.len() == 0 {
        true
    } else if b.len() == 0 {
        false
    } else {
        (a[0] == b[0] && is_subseq_of(a.skip(1), b.skip(1))) || is_subseq_of(a, b.skip(1))
    }
}

proof fn lemma_subseq_refl(a: Seq<char>)
    ensures
        is_subseq_of(a, a),
    decreases a.len(),
{
    if a.len() > 0 {
        lemma_subseq_refl(a.skip(1));
    }
}

proof fn lemma_subseq_prepend(a: Seq<char>, b1: Seq<char>, b2: Seq<char>)
    requires
        is_subseq_of(a, b2),
    ensures
        is_subseq_of(a, b1 + b2),
    decreases b1.len(),
{
    if b1.len() == 0 {
        assert(b1 + b2 =~= b2);
    } else if a.len() > 0 {
        lemma_subseq_prepend(a, b1.skip(1), b2);
        assert((b1 + b2).skip(1) =~= b1.skip(1) + b2);
    }
}

proof fn lemma_subseq_skip(b: Seq<char>, m: int)
    requires
        0 <= m <= b.len(),
    ensures
        is_subseq_of(b.skip(m), b),
{
    lemma_subseq_refl(b.skip(m));
    lemma_subseq_prepend(b.skip(m), b.take(m), b.skip(m));
    assert(b.take(m) + b.skip(m) =~= b);
}

proof fn lemma_subseq_concat(a1: Seq<char>, a2: Seq<char>, b1: Seq<char>, b2: Seq<char>)
    requires
        is_subseq_of(a1, b1),
        is_subseq_of(a2, b2),
    ensures
        is_subseq_of(a1 + a2, b1 + b2),
    decreases b1.len(),
{
    if a1.len() == 0 {
        assert(a1 + a2 =~= a2);
        lemma_subseq_prepend(a2, b1, b2);
    } else {
        assert(b1.len() > 0);
        assert((a1 + a2).skip(1) =~= a1.skip(1) + a2);
        assert((b1 + b2).skip(1) =~= b1.skip(1) + b2);
        if a1[0] == b1[0] && is_subseq_of(a1.skip(1), b1.skip(1)) {
            lemma_subseq_concat(a1.skip(1), a2, b1.skip(1), b2);
            assert((a1 + a2)[0] == (b1 + b2)[0]);
        } else {
            lemma_subseq_concat(a1, a2, b1.skip(1), b2);
        }
    }
}

/// Text safety: the shortened name is a subsequence of the input.  Every
/// character of the output, the multi-byte ones included, occurs unmodified
/// in the input, in the original order; nothing is invented.
pub proof fn lemma_shorten_subseq(s: Seq<char>)
    ensures
        is_subseq_of(shorten_spec(s), s),
    decreases s.len(),
{
    if !has_special(s) {
        lemma_collapse_props(s);
        lemma_subseq_skip(s, collapse_start(s));
    } else {
        lemma_first_special(s);
        let k = first_special(s);
        let pre = s.take(k + 1);
        let post = s.skip(k + 1);
        lemma_fragment_shape(pre);
        let c = collapse_spec(pre);
        lemma_subseq_skip(pre, collapse_start(pre));
        if is_closing(s[k]) && post.len() >= 2 && post[0] == ':' && post[1] == ':' {
            let t = post.skip(2);
            lemma_shorten_subseq(t);
            let sep = seq![':', ':'];
            assert(post.take(2) =~= sep);
            lemma_subseq_refl(sep);
            lemma_subseq_concat(c, sep, pre, post.take(2));
            lemma_subseq_concat(c + sep, shorten_spec(t), pre + post.take(2), t);
            assert((pre + post.take(2)) + t =~= s);
        } else {
            lemma_shorten_subseq(post);
            lemma_subseq_concat(c, shorten_spec(post), pre, post);
            assert(pre + post =~= s);
        }
    }
}

/// A shortened name begins with the path separator only where the input
/// itself did: shortening never moves a separator to the front.
proof fn lemma_shorten_head(s: Seq<char>)
    ensures
        shorten_spec(s).len() >= 2 && shorten_spec(s)[0] == ':' && shorten_spec(s)[1] == ':'
            ==> s.len() >= 2 && s[0] == ':' && s[1] == ':',
{
    let out = shorten_spec(s);
    if out.len() >= 2 && out[0] == ':' && out[1] == ':' {
        if !has_special(s) {
            lemma_collapse_props(s);
            if collapse_start(s) == 0 {
                assert(s.skip(0) =~= s);
            } else {
                assert(out[0] != ':');
            }
        } else {
            lemma_first_special(s);
            let k = first_special(s);
            let pre = s.take(k + 1);
            lemma_fragment_shape(pre);
            lemma_collapse_props(pre);
            let c = collapse_spec(pre);
            let cs = collapse_start(pre);
            assert(out[0] == c[0]);
            if c.len() == 1 {
                assert(c[0] == s[k]);
                assert(!is_special(':'));
                assert(false);
            } else {
                assert(out[1] == c[1]);
                if cs > 0 {
                    assert(c[0] != ':');
                    assert(false);
                }
                assert(c[0] == s[0] && c[1] == s[1]);
            }
        }
    }
}

/// Idempotence: shortening an already shortened name changes nothing.
pub proof fn lemma_shorten_idempotent(s: Seq<char>)
    ensures
        shorten_spec(shorten_spec(s)) == shorten_spec(s),
    decreases s.len(),
{
    let out = shorten_spec(s);
    if !has_special(s) {
        lemma_collapse_props(s);
        let cs = collapse_start(s);
        lemma_collapse_idempotent(s);
        assert forall|i: int| 0 <= i < out.len() implies !is_special(out[i]) by {
            assert(out[i] == s[cs + i]);
        }
        assert(!has_special(out));
    } else {
        lemma_first_special(s);
        let k = first_special(s);
        let pre = s.take(k + 1);
        let post = s.skip(k + 1);
        lemma_fragment_shape(pre);
        lemma_collapse_idempotent(pre);
        let c = collapse_spec(pre);
        let m = c.len() as int;
        if is_closing(s[k]) && post.len() >= 2 && post[0] == ':' && post[1] == ':' {
            let t = post.skip(2);
            lemma_shorten_idempotent(t);
            let tt = shorten_spec(t);
            let sep = seq![':', ':'];
            assert(out == c + sep + tt);
            assert(out[m - 1] == c[m - 1]);
            assert forall|j: int| 0 <= j < m - 1 implies !is_special(out[j]) by {
                assert(out[j] == c[j]);
            }
            lemma_first_special_unique(out, m - 1);
            assert(has_special(out));
            let pre2 = out.take(m);
            let post2 = out.skip(m);
            assert(pre2 =~= c);
            assert(post2 =~= sep + tt);
            assert(post2[0] == ':' && post2[1] == ':');
            assert(is_closing(out[m - 1]));
            assert(post2.skip(2) =~= tt);
            assert(shorten_spec(out) == collapse_spec(pre2) + sep + shorten_spec(tt));
            assert(shorten_spec(out) =~= out);
        } else {
            lemma_shorten_idempotent(post);
            let tt = shorten_spec(post);
            assert(out == c + tt);
            assert(out[m - 1] == c[m - 1]);
            assert forall|j: int| 0 <= j < m - 1 implies !is_special(out[j]) by {
                assert(out[j] == c[j]);
            }
            lemma_first_special_unique(out, m - 1);
            assert(has_special(out));
            let pre2 = out.take(m);
            let post2 = out.skip(m);
            assert(pre2 =~= c);
            assert(post2 =~= tt);
            if is_closing(out[m - 1]) && post2.len() >= 2 && post2[0] == ':' && post2[1] == ':' {
                lemma_shorten_head(post);
                assert(post[0] == ':' && post[1] == ':');
                assert(false);
            }
            assert(shorten_spec(out) == collapse_spec(pre2) + shorten_spec(post2));
            assert(shorten_spec(out) =~= out);
        }
    }
}

/// Identity: text with no separator and no boundary character shortens to
/// itself.
pub proof fn lemma_shorten_identity(s: Seq<char>)
    requires
        forall|i: int| 0 <= i < s.len() ==> !is_special(s[i]),
        forall|i: int| !sep_at(s, i),
    ensures
        shorten_spec(s) == s,
{
    assert(!has_special(s));
    lemma_last_sep_none(s);
    assert(collapse_start(s) == 0);
    assert(s.skip(0) =~= s);
}

/// A qualified path with no boundary character shortens to its final
/// segment: everything after the last separator, which contains no further
/// separator.  The one exception is a path whose second-to-last segment
/// begins with an ASCII uppercase letter (an enum type such as
/// `Option::None`); there that segment is kept, so the requirement excludes
/// it.
pub proof fn lemma_shorten_last_segment(s: Seq<char>)
    requires
        forall|i: int| 0 <= i < s.len() ==> !is_special(s[i]),
        has_sep(s),
        !(second_start(s) < last_sep(s) && is_upper_ascii(s[second_start(s)])),
    ensures
        shorten_spec(s) == s.skip(last_sep(s) + 2),
        sep_at(s, last_sep(s)),
        forall|j: int| j > last_sep(s) ==> !sep_at(s, j),
{
    assert(!has_special(s));
    lemma_last_sep(s);
    if last_sep(s) < 0 {
        let i = choose|i: int| sep_at(s, i);
        assert(!sep_at(s, i));
    }
}

} // verus!
