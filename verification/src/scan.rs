//! The scanner/formatter: one pass over the whole qualified name.
//!
//! The scan finds each boundary character in turn, collapses the fragment up
//! to and including it, and appends the result to an accumulator.  When a
//! closing delimiter is followed immediately by the path separator, the
//! separator is kept and the scan resumes after it.  The final fragment is
//! collapsed whole.

use vstd::prelude::*;
use vstd::string::StrSliceExecFns;
use vstd::string::StringExecFns;

use crate::collapse::collapse_type_name;
use crate::model::first_special;
use crate::model::has_special;
use crate::model::is_closing;
use crate::model::is_special;
use crate::model::lemma_first_special_unique;
use crate::model::shorten_spec;

verus! {

/// The position of the first boundary character of `s`, found by one scan
/// over the characters.
fn find_first_special(s: &str) -> (r: Option<usize>)
    ensures
        match r {
            Some(k) => k < s@.len() && k == first_special(s@) && has_special(s@),
            None => !has_special(s@),
        },
{
    let n = s.unicode_len();
    let mut i: usize = 0;
    while i < n
        invariant
            n == s@.len(),
            i <= n,
            forall|j: int| 0 <= j < i ==> !is_special(s@[j]),
        decreases n - i,
    {
        let c = s.get_char(i);
        if c == ' ' || c == '<' || c == '>' || c == '(' || c == ')' || c == '[' || c == ']' || c
            == ',' || c == ';' {
            proof {
                lemma_first_special_unique(s@, i as int);
                assert(has_special(s@));
            }
            return Some(i);
        }
        i += 1;
    }
    None
}

/// The shortened form of a whole qualified name, assembled fragment by
/// fragment.
pub fn shorten(input: &str) -> (out: String)
    ensures
        out@ == shorten_spec(input@),
{
    let mut out = String::new();
    let mut rem: &str = input;
    proof {
        assert(out@ + shorten_spec(rem@) =~= shorten_spec(input@));
    }
    loop
        invariant
            out@ + shorten_spec(rem@) == shorten_spec(input@),
        decreases rem@.len(),
    {
        let n = rem.unicode_len();
        match find_first_special(rem) {
            None => {
                let tail = collapse_type_name(rem);
                out.append(tail);
                proof {
                    assert(out@ =~= shorten_spec(input@));
                }
                return out;
            },
            Some(k) => {
                let ghost prev = rem@;
                let pre = rem.substring_char(0, k + 1);
                let frag = collapse_type_name(pre);
                out.append(frag);
                let c = rem.get_char(k);
                let closing = c == '>' || c == ')' || c == ']';
                let mut cont = false;
                if closing && n - k > 2 {
                    cont = rem.get_char(k + 1) == ':' && rem.get_char(k + 2) == ':';
                }
                proof {
                    assert(pre@ =~= prev.take(k + 1));
                    assert(prev.skip(k + 1).len() == n - k - 1);
                    if cont {
                        assert(prev.skip(k + 1)[0] == prev[k + 1]);
                        assert(prev.skip(k + 1)[1] == prev[k + 2]);
                    }
                }
                if cont {
                    out.append("::");
                    rem = rem.substring_char(k + 3, n);
                    proof {
                        reveal_strlit("::");
                        assert(("::")@ =~= seq![':', ':']);
                        assert(rem@ =~= prev.skip(k + 1).skip(2));
                        assert(prev.skip(k + 1)[0] == ':' && prev.skip(k + 1)[1] == ':');
                        assert(shorten_spec(prev) == crate::model::collapse_spec(prev.take(k + 1))
                            + seq![':', ':'] + shorten_spec(prev.skip(k + 1).skip(2)));
                        assert(out@ + shorten_spec(rem@) =~= shorten_spec(input@));
                    }
                } else {
                    rem = rem.substring_char(k + 1, n);
                    proof {
                        let post = prev.skip(k + 1);
                        assert(rem@ =~= post);
                        assert(closing == is_closing(prev[k as int]));
                        if is_closing(prev[k as int]) && post.len() >= 2 {
                            assert(n - k > 2);
                            assert(post[0] == prev[k + 1]);
                            assert(post[1] == prev[k + 2]);
                            assert(!(post[0] == ':' && post[1] == ':'));
                        }
                        assert(shorten_spec(prev) == crate::model::collapse_spec(prev.take(k + 1))
                            + shorten_spec(post));
                        assert(out@ + shorten_spec(rem@) =~= shorten_spec(input@));
                    }
                }
            },
        }
    }
}

} // verus!
