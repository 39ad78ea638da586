//! Outcast detection: the noun least related to the others.

use vstd::prelude::*;
use crate::sap::{is_shortest_ancestral, lemma_shortest_ancestral_unique};
use crate::wordnet::WordNet;

verus! {

/// The length of a shortest ancestral path between the synsets of nouns `a` and `b`.
pub open spec fn distance_between(w: WordNet, a: Seq<char>, b: Seq<char>) -> int {
    choose|len: int| is_shortest_ancestral(w.graph(), w.ids_of(a), w.ids_of(b), len)
}

/// The sum of the distances from noun `i` to each of the first `m` nouns (an equal noun adds nothing).
pub open spec fn outcast_score(w: WordNet, nouns: Seq<Seq<char>>, i: int, m: int) -> int
    decreases m,
{
    if m <= 0 {
        0
    } else {
        outcast_score(w, nouns, i, m - 1) + if nouns[i] != nouns[m - 1] {
            distance_between(w, nouns[i], nouns[m - 1])
        } else {
            0
        }
    }
}

/// The strings of `nouns`.
pub open spec fn noun_strings(nouns: Seq<String>) -> Seq<Seq<char>> {
    Seq::new(nouns.len(), |i: int| nouns[i]@)
}

/// The noun whose distances to the other nouns sum highest; of several, the last.
pub fn find_outcast<'n>(wordnet: &WordNet, nouns: &'n Vec<String>) -> (r: &'n String)
    requires
        wordnet.wf(),
        0 < nouns@.len() <= 0x1_0000_0000,
        forall|i: int, j: int|
            0 <= i < nouns@.len() && 0 <= j < nouns@.len() && nouns@[i]@ != nouns@[j]@ ==> wordnet.related(
                #[trigger] nouns@[i]@,
                #[trigger] nouns@[j]@,
            ),
    ensures
        exists|i: int|
            0 <= i < nouns@.len() && r == nouns@[i] && (forall|j: int|
                0 <= j < nouns@.len() ==> #[trigger] outcast_score(*wordnet, noun_strings(nouns@), j, nouns@.len() as int)
                    <= outcast_score(*wordnet, noun_strings(nouns@), i, nouns@.len() as int)) && (forall|j: int|
                i < j < nouns@.len() ==> #[trigger] outcast_score(*wordnet, noun_strings(nouns@), j, nouns@.len() as int)
                    < outcast_score(*wordnet, noun_strings(nouns@), i, nouns@.len() as int)),
{
    let ghost names = noun_strings(nouns@);
    let ghost n = nouns@.len() as int;
    let mut best: usize = 0;
    let mut best_total: i64 = -1;
    let mut i: usize = 0;
    while i < nouns.len()
        invariant
            names == noun_strings(nouns@),
            n == nouns@.len(),
            wordnet.wf(),
            0 < n <= 0x1_0000_0000,
            forall|a: int, b: int|
                0 <= a < n && 0 <= b < n && nouns@[a]@ != nouns@[b]@ ==> wordnet.related(
                    #[trigger] nouns@[a]@,
                    #[trigger] nouns@[b]@,
                ),
            i <= n,
            best < n,
            i == 0 ==> best_total == -1,
            i > 0 ==> best < i && best_total == outcast_score(*wordnet, names, best as int, n),
            forall|j: int| 0 <= j < i ==> #[trigger] outcast_score(*wordnet, names, j, n) <= best_total,
            forall|j: int| best < j < i ==> #[trigger] outcast_score(*wordnet, names, j, n) < best_total,
        decreases n - i,
    {
        let mut total: i64 = 0;
        let mut j: usize = 0;
        while j < nouns.len()
            invariant
                names == noun_strings(nouns@),
                n == nouns@.len(),
                wordnet.wf(),
                0 < n <= 0x1_0000_0000,
                forall|a: int, b: int|
                    0 <= a < n && 0 <= b < n && nouns@[a]@ != nouns@[b]@ ==> wordnet.related(
                        #[trigger] nouns@[a]@,
                        #[trigger] nouns@[b]@,
                    ),
                i < n,
                j <= n,
                total == outcast_score(*wordnet, names, i as int, j as int),
                0 <= total <= j * 0x8000_0000,
            decreases n - j,
        {
            let d: i32 = if nouns[i] != nouns[j] {
                let d = wordnet.relationship(&nouns[i], &nouns[j]);
                proof {
                    let len = distance_between(*wordnet, names[i as int], names[j as int]);
                    assert(is_shortest_ancestral(wordnet.graph(), wordnet.ids_of(names[i as int]), wordnet.ids_of(names[j as int]), d as int));
                    lemma_shortest_ancestral_unique(
                        wordnet.graph(),
                        wordnet.ids_of(names[i as int]),
                        wordnet.ids_of(names[j as int]),
                        d as int,
                        len,
                    );
                }
                d
            } else {
                0
            };
            proof {
                assert(d >= 0) by {
                    if nouns@[i as int]@ != nouns@[j as int]@ {
                        let (t, a, b) = choose|t: usize, a: nat, b: nat|
                            (t as int) < wordnet.graph().len() && #[trigger] crate::bfdp::is_distance(wordnet.graph(), wordnet.ids_of(names[i as int]), t, a)
                                && #[trigger] crate::bfdp::is_distance(wordnet.graph(), wordnet.ids_of(names[j as int]), t, b) && d as int == a + b;
                    }
                }
                assert(total + d <= (j + 1) * 0x8000_0000) by (nonlinear_arith)
                    requires
                        total <= j * 0x8000_0000,
                        d < 0x8000_0000,
                ;
                assert((j + 1) * 0x8000_0000 <= 0x1_0000_0000 * 0x8000_0000) by (nonlinear_arith)
                    requires
                        j + 1 <= 0x1_0000_0000,
                ;
            }
            total = total + d as i64;
            j += 1;
        }
        if total >= best_total {
            best = i;
            best_total = total;
        }
        i += 1;
    }
    proof {
        assert(forall|j: int| 0 <= j < n ==> #[trigger] outcast_score(*wordnet, names, j, n) <= best_total);
    }
    &nouns[best]
}

} // verus!
