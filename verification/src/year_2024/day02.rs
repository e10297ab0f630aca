//! Counting runic words in inscription lines.

use vstd::prelude::*;

verus! {

/// The needle appears at position `i` of the haystack.
pub open spec fn match_at(h: Seq<char>, nd: Seq<char>, i: int) -> bool {
    0 <= i && i + nd.len() <= h.len() && h.subrange(i, i + nd.len()) == nd
}

/// The number of positions at or after `i` where the needle appears.
pub open spec fn count_matches_from(h: Seq<char>, nd: Seq<char>, i: int) -> int
    decreases h.len() - i when i >= 0
{
    if nd.len() <= 0 || i + nd.len() > h.len() {
        0
    } else {
        (if match_at(h, nd, i) {
            1int
        } else {
            0int
        }) + count_matches_from(h, nd, i + 1)
    }
}

/// The number of appearances in the haystack of the needles from `j` on.
pub open spec fn count_needles_from(h: Seq<char>, nds: Seq<Seq<char>>, j: int) -> int
    decreases nds.len() - j when j >= 0
{
    if j >= nds.len() {
        0
    } else {
        count_matches_from(h, nds[j], 0) + count_needles_from(h, nds, j + 1)
    }
}

/// The number of appearances of any needle in the haystacks from `i` on.
pub open spec fn count_words_spec(hs: Seq<Seq<char>>, nds: Seq<Seq<char>>, i: int) -> int
    decreases hs.len() - i when i >= 0
{
    if i >= hs.len() {
        0
    } else {
        count_needles_from(hs[i], nds, 0) + count_words_spec(hs, nds, i + 1)
    }
}

proof fn lemma_count_matches_nonneg(h: Seq<char>, nd: Seq<char>, i: int)
    requires
        i >= 0,
    ensures
        count_matches_from(h, nd, i) >= 0,
    decreases h.len() - i,
{
    if !(nd.len() <= 0 || i + nd.len() > h.len()) {
        lemma_count_matches_nonneg(h, nd, i + 1);
    }
}

proof fn lemma_count_needles_nonneg(h: Seq<char>, nds: Seq<Seq<char>>, j: int)
    requires
        j >= 0,
    ensures
        count_needles_from(h, nds, j) >= 0,
    decreases nds.len() - j,
{
    if j < nds.len() {
        lemma_count_matches_nonneg(h, nds[j], 0);
        lemma_count_needles_nonneg(h, nds, j + 1);
    }
}

proof fn lemma_count_words_nonneg(hs: Seq<Seq<char>>, nds: Seq<Seq<char>>, i: int)
    requires
        i >= 0,
    ensures
        count_words_spec(hs, nds, i) >= 0,
    decreases hs.len() - i,
{
    if i < hs.len() {
        lemma_count_needles_nonneg(hs[i], nds, 0);
        lemma_count_words_nonneg(hs, nds, i + 1);
    }
}

/// Whether the needle appears at position `i` of the haystack.
#[verifier::loop_isolation(false)]
fn matches_at(haystack: &Vec<char>, needle: &Vec<char>, i: usize) -> (r: bool)
    requires
        i + needle@.len() <= haystack@.len(),
    ensures
        r == match_at(haystack@, needle@, i as int),
{
    let hlen = haystack.len();
    let nlen = needle.len();
    proof {
        assert(i + nlen <= hlen);
    }
    let mut k: usize = 0;
    while k < nlen
        invariant
            0 <= k <= needle@.len(),
            forall|x: int| 0 <= x < k ==> haystack@[i + x] == needle@[x],
        decreases needle@.len() - k,
    {
        if haystack[i + k] != needle[k] {
            proof {
                assert(haystack@.subrange(i as int, i + needle@.len())[k as int] != needle@[k as int]);
            }
            return false;
        }
        k = k + 1;
    }
    proof {
        assert(haystack@.subrange(i as int, i + needle@.len()) =~= needle@);
    }
    true
}

/// Counts how often each runic word appears in each inscription line;
/// overlapping appearances all count.
#[verifier::loop_isolation(false)]
pub fn count_words(haystacks: &Vec<Vec<char>>, needles: &Vec<Vec<char>>) -> (r: i32)
    requires
        forall|j: int| 0 <= j < needles@.len() ==> (#[trigger] needles@[j])@.len() > 0,
        count_words_spec(haystacks.deep_view(), needles.deep_view(), 0) <= i32::MAX,
    ensures
        r == count_words_spec(haystacks.deep_view(), needles.deep_view(), 0),
{
    let ghost hs = haystacks.deep_view();
    let ghost nds = needles.deep_view();
    proof {
        assert forall|i: int| 0 <= i < hs.len() implies (#[trigger] haystacks@[i])@ =~= hs[i] by {
            assert(hs[i] == haystacks@[i].deep_view());
        }
        assert forall|j: int| 0 <= j < nds.len() implies (#[trigger] needles@[j])@ =~= nds[j] by {
            assert(nds[j] == needles@[j].deep_view());
        }
        lemma_count_words_nonneg(hs, nds, 0);
    }
    let mut ans: i32 = 0;
    let mut i: usize = 0;
    while i < haystacks.len()
        invariant
            0 <= i <= hs.len(),
            count_words_spec(hs, nds, 0) == ans + count_words_spec(hs, nds, i as int),
            0 <= ans,
        decreases hs.len() - i,
    {
        let haystack = &haystacks[i];
        let mut j: usize = 0;
        while j < needles.len()
            invariant
                0 <= j <= nds.len(),
                count_words_spec(hs, nds, 0) == ans + count_needles_from(hs[i as int], nds, j as int)
                    + count_words_spec(hs, nds, i + 1),
                0 <= ans,
            decreases nds.len() - j,
        {
            let needle = &needles[j];
            let ghost base = ans;
            let mut pos: usize = 0;
            while pos < haystack.len() && haystack.len() - pos >= needle.len()
                invariant
                    0 <= pos,
                    count_words_spec(hs, nds, 0) == base + count_needles_from(
                        hs[i as int],
                        nds,
                        j as int,
                    ) + count_words_spec(hs, nds, i + 1),
                    count_needles_from(hs[i as int], nds, j as int) == count_matches_from(
                        hs[i as int],
                        nds[j as int],
                        0,
                    ) + count_needles_from(hs[i as int], nds, j + 1),
                    ans == base + count_matches_from(hs[i as int], nds[j as int], 0)
                        - count_matches_from(hs[i as int], nds[j as int], pos as int),
                    0 <= ans,
                decreases hs[i as int].len() - pos,
            {
                if matches_at(haystack, needle, pos) {
                    proof {
                        lemma_count_matches_nonneg(hs[i as int], nds[j as int], pos + 1);
                        lemma_count_needles_nonneg(hs[i as int], nds, j + 1);
                        lemma_count_words_nonneg(hs, nds, i + 1);
                    }
                    ans = ans + 1;
                }
                pos = pos + 1;
            }
            proof {
                assert(count_matches_from(hs[i as int], nds[j as int], pos as int) == 0);
            }
            j = j + 1;
        }
        i = i + 1;
    }
    ans
}

} // verus!
