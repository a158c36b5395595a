//! The collapser: drops the module prefix of one fragment.
//!
//! A fragment is scanned for the last occurrence of the path separator `::`;
//! what follows it is kept.  A preceding segment that begins with an ASCII
//! uppercase letter is taken for a type rather than a module and is kept as
//! well, together with its separator.

use vstd::prelude::*;
use vstd::string::StrSliceExecFns;

use crate::model::collapse_spec;
use crate::model::collapse_start;
use crate::model::is_upper_ascii;
use crate::model::last_sep;
use crate::model::lemma_last_sep;
use crate::model::lemma_last_sep_none;
use crate::model::lemma_last_sep_unique;
use crate::model::second_start;
use crate::model::sep_at;

verus! {

/// The position of the last occurrence of the path separator in `s`, found
/// by one scan over the characters.
fn find_last_sep(s: &str) -> (r: Option<usize>)
    ensures
        match r {
            Some(l) => l == last_sep(s@),
            None => last_sep(s@) == -1,
        },
{
    let n = s.unicode_len();
    if n < 2 {
        proof {
            lemma_last_sep_none(s@);
        }
        return None;
    }
    let mut i: usize = 0;
    let mut found: Option<usize> = None;
    while i < n - 1
        invariant
            n == s@.len(),
            2 <= n,
            i <= n - 1,
            match found {
                Some(l) => sep_at(s@, l as int) && l < i && (forall|j: int|
                    l < j < i ==> !sep_at(s@, j)),
                None => forall|j: int| 0 <= j < i ==> !sep_at(s@, j),
            },
        decreases n - i,
    {
        let c1 = s.get_char(i);
        let c2 = s.get_char(i + 1);
        if c1 == ':' && c2 == ':' {
            found = Some(i);
        }
        i += 1;
    }
    proof {
        match found {
            Some(l) => {
                assert forall|j: int| j > l implies !sep_at(s@, j) by {
                    if j + 2 <= n {
                        assert(j < n - 1);
                    }
                }
                lemma_last_sep_unique(s@, l as int);
            },
            None => {
                assert forall|j: int| !sep_at(s@, j) by {
                    if 0 <= j && j + 2 <= n {
                        assert(j < n - 1);
                    }
                }
                lemma_last_sep_none(s@);
            },
        }
    }
    found
}

/// The collapsed form of one fragment: the suffix after the last path
/// separator, with an uppercase-initial preceding segment kept.
pub fn collapse_type_name<'a>(s: &'a str) -> (r: &'a str)
    ensures
        r@ == collapse_spec(s@),
{
    proof {
        lemma_last_sep(s@);
    }
    let n = s.unicode_len();
    match find_last_sep(s) {
        None => {
            proof {
                assert(s@.skip(0) =~= s@);
            }
            s
        },
        Some(l) => {
            let head = s.substring_char(0, l);
            proof {
                assert(head@ =~= s@.take(l as int));
                lemma_last_sep(head@);
            }
            let p: usize = match find_last_sep(head) {
                None => 0,
                Some(q) => q + 2,
            };
            proof {
                assert(p as int == second_start(s@));
            }
            let mut keep = false;
            if p < l {
                let c = s.get_char(p);
                let u = c as u32;
                keep = 65 <= u && u <= 90;
            }
            proof {
                assert(keep == (p < l && is_upper_ascii(s@[p as int])));
                assert(collapse_start(s@) == if keep {
                    p as int
                } else {
                    l + 2
                });
            }
            if keep {
                s.substring_char(p, n)
            } else {
                s.substring_char(l + 2, n)
            }
        },
    }
}

} // verus!
