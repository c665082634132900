//! Case-insensitive subsequence search: the needle's characters must appear
//! in the haystack in order, with gaps allowed, ignoring ASCII case.

use vstd::prelude::*;
use crate::text::chars_of;

verus! {

/// ASCII lower-casing: `A`..`Z` become `a`..`z`, every other character
/// stays.
pub open spec fn fold_case(c: char) -> char {
    if 'A' <= c <= 'Z' {
        (((c as u8) + 32) as u8) as char
    } else {
        c
    }
}

fn fold_char(c: char) -> (r: char)
    ensures
        r == fold_case(c),
{
    if 'A' <= c && c <= 'Z' {
        ((c as u8) + 32) as char
    } else {
        c
    }
}

/// `p` lists, for each needle character in turn, a strictly later
/// haystack position holding the same character up to case.
pub open spec fn is_embedding(p: Seq<int>, needle: Seq<char>, hay: Seq<char>) -> bool {
    &&& p.len() == needle.len()
    &&& forall|k: int|
        0 <= k < p.len() ==> 0 <= #[trigger] p[k] < hay.len() && fold_case(hay[p[k]])
            == fold_case(needle[k])
    &&& forall|a: int, b: int| 0 <= a < b < p.len() ==> #[trigger] p[a] < #[trigger] p[b]
}

/// Each position is the first one after the previous position (or from
/// the start) holding the needle's character up to case.
pub open spec fn leftmost(p: Seq<int>, needle: Seq<char>, hay: Seq<char>) -> bool {
    forall|k: int, m: int|
        0 <= k < p.len() && (if k == 0 {
            0
        } else {
            p[k - 1] + 1
        }) <= m < p[k] ==> fold_case(#[trigger] hay[m]) != fold_case(#[trigger] needle[k])
}

/// Whether `needle` is a subsequence of `hay`, ignoring ASCII case.
pub open spec fn subseq_ci(needle: Seq<char>, hay: Seq<char>) -> bool {
    exists|p: Seq<int>| is_embedding(p, needle, hay)
}

/// The positions as integers.
pub open spec fn positions(p: Seq<usize>) -> Seq<int> {
    p.map_values(|x: usize| x as int)
}

/// Matches `needle` against `hay` as a case-insensitive subsequence. On a
/// match, gives the leftmost haystack position of each needle character.
pub fn subseq_match_ci(hay: &str, needle: &str) -> (r: Option<Vec<usize>>)
    ensures
        match r {
            Some(p) => is_embedding(positions(p@), needle@, hay@) && leftmost(
                positions(p@),
                needle@,
                hay@,
            ),
            None => !subseq_ci(needle@, hay@),
        },
{
    let h = chars_of(hay);
    let n = chars_of(needle);
    let mut pos: Vec<usize> = Vec::new();
    let mut i: usize = 0;
    while i < h.len() && pos.len() < n.len()
        invariant
            h@ == hay@,
            n@ == needle@,
            i <= h.len(),
            pos.len() <= n.len(),
            forall|k: int|
                0 <= k < pos.len() ==> 0 <= #[trigger] pos@[k] < i && fold_case(h@[pos@[k] as int])
                    == fold_case(n@[k]),
            forall|a: int, b: int| 0 <= a < b < pos.len() ==> #[trigger] pos@[a] < #[trigger] pos@[b],
            leftmost(positions(pos@), n@, h@),
            pos.len() < n.len() ==> forall|m: int|
                (if pos.len() == 0 {
                    0
                } else {
                    pos@[pos.len() - 1] + 1
                }) <= m < i ==> fold_case(#[trigger] h@[m]) != fold_case(n@[pos.len() as int]),
            forall|p: Seq<int>|
                #[trigger] is_embedding(p, n@, h@) ==> (pos.len() < n.len() ==> p[pos.len() as int]
                    >= i),
        decreases h.len() - i,
    {
        let j = pos.len();
        if fold_char(h[i]) == fold_char(n[j]) {
            pos.push(i);
            proof {
                assert forall|p: Seq<int>|
                    #[trigger] is_embedding(p, n@, h@) && pos.len() < n.len() implies p[pos.len() as int]
                    >= i + 1 by {
                    assert(p[j as int] < p[j as int + 1]);
                }
            }
        } else {
            proof {
                assert forall|p: Seq<int>|
                    #[trigger] is_embedding(p, n@, h@) && pos.len() < n.len() implies p[pos.len() as int]
                    >= i + 1 by {
                    assert(fold_case(h@[p[j as int]]) == fold_case(n@[j as int]));
                }
            }
        }
        i = i + 1;
    }
    if pos.len() == n.len() {
        proof {
            assert(positions(pos@).len() == n@.len());
            assert forall|k: int| 0 <= k < positions(pos@).len() implies 0
                <= #[trigger] positions(pos@)[k] < h@.len() && fold_case(h@[positions(pos@)[k]])
                == fold_case(n@[k]) by {
                assert(positions(pos@)[k] == pos@[k] as int);
            }
            assert forall|a: int, b: int| 0 <= a < b < positions(pos@).len() implies #[trigger] positions(
                pos@,
            )[a] < #[trigger] positions(pos@)[b] by {
                assert(pos@[a] < pos@[b]);
            }
        }
        Some(pos)
    } else {
        proof {
            if subseq_ci(n@, h@) {
                let p = choose|p: Seq<int>| is_embedding(p, n@, h@);
                assert(p[pos.len() as int] >= i);
                assert(0 <= p[pos.len() as int] < h@.len());
            }
        }
        None
    }
}


/// The empty needle matches every haystack.
pub proof fn law_empty_needle_matches(hay: Seq<char>)
    ensures
        subseq_ci(seq![], hay),
{
    assert(is_embedding(seq![], seq![], hay));
}

} // verus!
