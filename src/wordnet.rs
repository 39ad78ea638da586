//! WordNet: nouns grouped into synonym sets, linked by hypernym edges.

use vstd::prelude::*;
use crate::digraph::Digraph;
use crate::sap::{self, have_common_ancestor, is_shortest_ancestral};

verus! {

/// A set of synonymous nouns.
#[derive(PartialEq, Eq, Debug)]
pub struct Synset {
    nouns: Vec<String>,
}

impl Synset {
    /// The nouns of the synset, in the order given.
    pub closed spec fn noun_seq(&self) -> Seq<Seq<char>> {
        Seq::new(self.nouns@.len(), |i: int| self.nouns@[i]@)
    }

    /// A synset of the given nouns, with no gloss.
    pub fn new(nouns: Vec<String>) -> (r: Synset)
        ensures
            r.noun_seq() == Seq::new(nouns@.len(), |i: int| nouns@[i]@),
    {
        Synset { nouns }
    }
}

/// The nouns of each synset of `synsets`.
pub open spec fn synset_nouns(synsets: Seq<Synset>) -> Seq<Seq<Seq<char>>> {
    Seq::new(synsets.len(), |i: int| synsets[i].noun_seq())
}

/// Synset `id` of `syn` lists the noun `s`.
pub open spec fn lists_noun(syn: Seq<Seq<Seq<char>>>, id: int, s: Seq<char>) -> bool {
    0 <= id < syn.len() && syn[id].contains(s)
}

/// `s` is one of `nouns`.
pub open spec fn noun_known(nouns: Seq<String>, s: Seq<char>) -> bool {
    exists|k: int| 0 <= k < nouns.len() && #[trigger] nouns[k]@ == s
}

/// One of the first `n` synsets of `syn` lists `s`.
pub open spec fn listed_before(syn: Seq<Seq<Seq<char>>>, n: int, s: Seq<char>) -> bool {
    exists|id: int| 0 <= id < n && #[trigger] lists_noun(syn, id, s)
}

/// The hypernym graph over `n` synsets after adding `edges` in order.
pub open spec fn graph_of(n: nat, edges: Seq<(usize, usize)>) -> Seq<Seq<usize>>
    decreases edges.len(),
{
    if edges.len() == 0 {
        Seq::new(n, |i: int| Seq::<usize>::empty())
    } else {
        let g = graph_of(n, edges.drop_last());
        let e = edges[edges.len() - 1];
        g.update(e.0 as int, g[e.0 as int].push(e.1))
    }
}

/// A WordNet: which synsets each noun belongs to, and the hypernym graph over synsets.
pub struct WordNet {
    nouns: Vec<String>,
    synset_ids: Vec<Vec<usize>>,
    hypernyms: Digraph,
}

impl WordNet {
    /// The known nouns, each once.
    pub closed spec fn noun_list(&self) -> Seq<Seq<char>> {
        Seq::new(self.nouns@.len(), |i: int| self.nouns@[i]@)
    }

    /// The synsets that the noun `s` belongs to.
    pub closed spec fn ids_of(&self, s: Seq<char>) -> Seq<usize> {
        self.synset_ids@[choose|k: int| 0 <= k < self.nouns@.len() && self.nouns@[k]@ == s]@
    }

    /// The hypernym graph: an edge from each synset to each of its hypernyms.
    pub closed spec fn graph(&self) -> Seq<Seq<usize>> {
        self.hypernyms@
    }

    /// Well-formed: nouns are distinct, synset ids and edges stay within the graph.
    pub closed spec fn wf(&self) -> bool {
        &&& self.synset_ids@.len() == self.nouns@.len()
        &&& self.hypernyms.wf()
        &&& self.hypernyms@.len() <= 0x4000_0000
        &&& forall|i: int, j: int|
            0 <= i < self.nouns@.len() && 0 <= j < self.nouns@.len() && i != j ==> self.nouns@[i]@
                != self.nouns@[j]@
        &&& forall|k: int, m: int|
            0 <= k < self.synset_ids@.len() && 0 <= m < self.synset_ids@[k]@.len() ==> #[trigger] self.synset_ids@[k]@[m]
                < self.hypernyms@.len()
    }

    /// Both nouns are known, and some synset is an ancestor of a synset of `a` and of one of `b`.
    pub open spec fn related(&self, a: Seq<char>, b: Seq<char>) -> bool {
        &&& self.noun_list().contains(a)
        &&& self.noun_list().contains(b)
        &&& have_common_ancestor(self.graph(), self.ids_of(a), self.ids_of(b))
    }

    /// Builds a WordNet from its synsets, numbered by position, and its hypernym edges
    /// `(synset, hypernym)`.
    pub fn create_from_synsets_and_hypernyms(synsets: Vec<Synset>, hypernyms_edges: Vec<(usize, usize)>) -> (r: WordNet)
        requires
            synsets@.len() <= 0x4000_0000,
            forall|k: int|
                0 <= k < hypernyms_edges@.len() ==> (#[trigger] hypernyms_edges@[k]).0 < synsets@.len()
                    && hypernyms_edges@[k].1 < synsets@.len(),
        ensures
            r.wf(),
            forall|s: Seq<char>|
                #[trigger] r.noun_list().contains(s) <==> exists|id: int| lists_noun(synset_nouns(synsets@), id, s),
            forall|s: Seq<char>, id: usize|
                r.noun_list().contains(s) ==> (#[trigger] r.ids_of(s).contains(id) <==> lists_noun(
                    synset_nouns(synsets@),
                    id as int,
                    s,
                )),
            r.graph() == graph_of(synsets@.len(), hypernyms_edges@),
    {
        let ghost syn = synset_nouns(synsets@);
        let mut nouns: Vec<String> = Vec::new();
        let mut synset_ids: Vec<Vec<usize>> = Vec::new();
        let mut synset_id: usize = 0;
        while synset_id < synsets.len()
            invariant
                syn == synset_nouns(synsets@),
                synset_id <= synsets@.len(),
                synset_ids@.len() == nouns@.len(),
                forall|i: int, j: int|
                    0 <= i < nouns@.len() && 0 <= j < nouns@.len() && i != j ==> nouns@[i]@ != nouns@[j]@,
                forall|s: Seq<char>|
                    #[trigger] noun_known(nouns@, s) <==> listed_before(syn, synset_id as int, s),
                forall|k: int, id: usize|
                    0 <= k < nouns@.len() ==> (#[trigger] synset_ids@[k]@.contains(id) <==> (id < synset_id
                        && lists_noun(syn, id as int, nouns@[k]@))),
            decreases synsets@.len() - synset_id,
        {
            let synset = &synsets[synset_id];
            let ghost here = syn[synset_id as int];
            let mut j: usize = 0;
            while j < synset.nouns.len()
                invariant
                    syn == synset_nouns(synsets@),
                    synset_id < synsets@.len(),
                    here == syn[synset_id as int],
                    here == synset.noun_seq(),
                    j <= here.len(),
                    synset_ids@.len() == nouns@.len(),
                    forall|i: int, i2: int|
                        0 <= i < nouns@.len() && 0 <= i2 < nouns@.len() && i != i2 ==> nouns@[i]@ != nouns@[i2]@,
                    forall|s: Seq<char>|
                        #[trigger] noun_known(nouns@, s) <==> (listed_before(syn, synset_id as int, s) || here.subrange(0, j as int).contains(s)),
                    forall|k: int, id: usize|
                        0 <= k < nouns@.len() ==> (#[trigger] synset_ids@[k]@.contains(id) <==> ((id < synset_id
                            && lists_noun(syn, id as int, nouns@[k]@)) || (id == synset_id && here.subrange(0, j as int).contains(nouns@[k]@)))),
                decreases here.len() - j,
            {
                let noun = &synset.nouns[j];
                let found = index_of_noun(&nouns, noun);
                let ghost old_nouns = nouns@;
                let ghost old_ids = synset_ids@;
                assert(here[j as int] == noun@);
                match found {
                    Some(k) => {
                        let mut ids = synset_ids[k].clone();
                        ids.push(synset_id);
                        synset_ids.set(k, ids);
                    },
                    None => {
                        nouns.push(noun.clone());
                        synset_ids.push(vec![synset_id]);
                    },
                }
                let ghost upto = here.subrange(0, j + 1);
                proof {
                    assert(upto =~= here.subrange(0, j as int).push(noun@));
                    assert forall|s: Seq<char>|
                        #[trigger] noun_known(nouns@, s) <==> (listed_before(syn, synset_id as int, s) || upto.contains(s)) by {
                        if s == noun@ {
                            if found is None {
                                assert(nouns@[nouns@.len() - 1]@ == s);
                            } else {
                                let k = found->Some_0;
                                assert(nouns@[k as int]@ == s);
                            }
                            assert(upto[j as int] == s);
                        } else {
                            if noun_known(nouns@, s) {
                                let k = choose|k: int| 0 <= k < nouns@.len() && #[trigger] nouns@[k]@ == s;
                                assert(old_nouns[k]@ == s);
                                assert(noun_known(old_nouns, s));
                            }
                            if noun_known(old_nouns, s) {
                                let k = choose|k: int| 0 <= k < old_nouns.len() && #[trigger] old_nouns[k]@ == s;
                                assert(nouns@[k]@ == s);
                            }
                            if upto.contains(s) {
                                let p = choose|p: int| 0 <= p < j + 1 && #[trigger] upto[p] == s;
                                assert(here.subrange(0, j as int)[p] == s);
                            }
                        }
                    }
                    assert forall|k: int, id: usize|
                        0 <= k < nouns@.len() implies (#[trigger] synset_ids@[k]@.contains(id) <==> ((id < synset_id
                            && lists_noun(syn, id as int, nouns@[k]@)) || (id == synset_id && upto.contains(nouns@[k]@)))) by {
                        let s = nouns@[k]@;
                        assert(upto[j as int] == noun@);
                        if upto.contains(s) && s != noun@ {
                            let p = choose|p: int| 0 <= p < j + 1 && #[trigger] upto[p] == s;
                            assert(here.subrange(0, j as int)[p] == s);
                        }
                        if k < old_nouns.len() {
                            assert(nouns@[k] == old_nouns[k]);
                            if s == noun@ {
                                assert(found == Some(k as usize));
                                assert(synset_ids@[k]@ == old_ids[k]@.push(synset_id));
                                if synset_ids@[k]@.contains(id) && id != synset_id {
                                    let p = choose|p: int| 0 <= p < synset_ids@[k]@.len() && #[trigger] synset_ids@[k]@[p] == id;
                                    assert(old_ids[k]@[p] == id);
                                }
                                if old_ids[k]@.contains(id) {
                                    let p = choose|p: int| 0 <= p < old_ids[k]@.len() && #[trigger] old_ids[k]@[p] == id;
                                    assert(synset_ids@[k]@[p] == id);
                                }
                                assert(synset_ids@[k]@[old_ids[k]@.len() as int] == synset_id);
                            } else {
                                assert(synset_ids@[k] == old_ids[k]);
                                if here.subrange(0, j as int).contains(s) {
                                    let p = choose|p: int| 0 <= p < j && #[trigger] here.subrange(0, j as int)[p] == s;
                                    assert(upto[p] == s);
                                }
                            }
                        } else {
                            assert(s == noun@);
                            assert(synset_ids@[k]@ =~= seq![synset_id]);
                            if lists_noun(syn, id as int, s) && id < synset_id {
                                assert(listed_before(syn, synset_id as int, s));
                                assert(noun_known(old_nouns, s));
                                let k2 = choose|k2: int| 0 <= k2 < old_nouns.len() && #[trigger] old_nouns[k2]@ == s;
                            }
                            assert(upto[j as int] == s);
                        }
                    }
                }
                j += 1;
            }
            proof {
                assert(here.subrange(0, here.len() as int) =~= here);
                assert forall|s: Seq<char>|
                    #[trigger] noun_known(nouns@, s) <==> listed_before(syn, synset_id + 1, s) by {
                    if here.contains(s) {
                        assert(lists_noun(syn, synset_id as int, s));
                    }
                    if listed_before(syn, synset_id + 1, s) {
                        let id = choose|id: int| 0 <= id < synset_id + 1 && #[trigger] lists_noun(syn, id, s);
                        if id < synset_id {
                            assert(listed_before(syn, synset_id as int, s));
                        }
                    }
                    if listed_before(syn, synset_id as int, s) {
                        let id = choose|id: int| 0 <= id < synset_id && #[trigger] lists_noun(syn, id, s);
                        assert(0 <= id < synset_id + 1 && lists_noun(syn, id, s));
                    }
                }
            }
            synset_id += 1;
        }
        let mut hypernyms = Digraph::new(synsets.len());
        let mut e: usize = 0;
        while e < hypernyms_edges.len()
            invariant
                e <= hypernyms_edges@.len(),
                hypernyms.wf(),
                hypernyms.edge_count() == e,
                hypernyms@ == graph_of(synsets@.len(), hypernyms_edges@.subrange(0, e as int)),
                hypernyms@.len() == synsets@.len(),
                forall|k: int|
                    0 <= k < hypernyms_edges@.len() ==> (#[trigger] hypernyms_edges@[k]).0 < synsets@.len()
                        && hypernyms_edges@[k].1 < synsets@.len(),
            decreases hypernyms_edges@.len() - e,
        {
            let (a, b) = hypernyms_edges[e];
            hypernyms.add_edge(a, b);
            proof {
                assert(hypernyms_edges@.subrange(0, e + 1).drop_last() =~= hypernyms_edges@.subrange(0, e as int));
            }
            e += 1;
        }
        assert(hypernyms_edges@.subrange(0, hypernyms_edges@.len() as int) =~= hypernyms_edges@);
        let r = WordNet { nouns, synset_ids, hypernyms };
        proof {
            assert forall|s: Seq<char>|
                #[trigger] r.noun_list().contains(s) <==> exists|id: int| lists_noun(synset_nouns(synsets@), id, s) by {
                if r.noun_list().contains(s) {
                    let k = choose|k: int| 0 <= k < r.noun_list().len() && r.noun_list()[k] == s;
                    assert(r.nouns@[k]@ == s);
                    assert(noun_known(r.nouns@, s));
                    let id = choose|id: int| 0 <= id < synsets@.len() && #[trigger] lists_noun(syn, id, s);
                }
                if exists|id: int| lists_noun(synset_nouns(synsets@), id, s) {
                    let id = choose|id: int| lists_noun(synset_nouns(synsets@), id, s);
                    assert(0 <= id < synsets@.len() && lists_noun(syn, id, s));
                    assert(listed_before(syn, synsets@.len() as int, s));
                    assert(noun_known(r.nouns@, s));
                    let k = choose|k: int| 0 <= k < r.nouns@.len() && #[trigger] r.nouns@[k]@ == s;
                    assert(r.noun_list()[k] == s);
                }
            }
            assert forall|k: int, m: int|
                0 <= k < r.synset_ids@.len() && 0 <= m < r.synset_ids@[k]@.len() implies #[trigger] r.synset_ids@[k]@[m]
                    < r.hypernyms@.len() by {
                assert(r.synset_ids@[k]@.contains(r.synset_ids@[k]@[m]));
            }
            assert forall|s: Seq<char>, id: usize|
                r.noun_list().contains(s) implies (#[trigger] r.ids_of(s).contains(id) <==> lists_noun(
                    synset_nouns(synsets@),
                    id as int,
                    s,
                )) by {
                let k = choose|k: int| 0 <= k < r.noun_list().len() && r.noun_list()[k] == s;
                assert(r.nouns@[k]@ == s);
                let k2 = choose|k2: int| 0 <= k2 < r.nouns@.len() && r.nouns@[k2]@ == s;
                assert(k2 == k);
                assert(r.synset_ids@[k]@.contains(id) <==> (id < synsets@.len() && lists_noun(syn, id as int, s)));
            }
        }
        r
    }

    /// The known nouns.
    pub fn nouns(&self) -> (r: Vec<&String>)
        ensures
            r@.len() == self.noun_list().len(),
            forall|k: int| 0 <= k < r@.len() ==> (#[trigger] r@[k])@ == self.noun_list()[k],
    {
        let mut r: Vec<&String> = Vec::with_capacity(self.nouns.len());
        let mut k: usize = 0;
        while k < self.nouns.len()
            invariant
                k <= self.nouns@.len(),
                r@.len() == k,
                forall|q: int| 0 <= q < k ==> (#[trigger] r@[q])@ == self.nouns@[q]@,
            decreases self.nouns@.len() - k,
        {
            r.push(&self.nouns[k]);
            k += 1;
        }
        r
    }

    /// Whether `word` is a known noun.
    pub fn is_noun(&self, word: &String) -> (r: bool)
        ensures
            r == self.noun_list().contains(word@),
    {
        match index_of_noun(&self.nouns, word) {
            Some(k) => {
                assert(self.noun_list()[k as int] == word@);
                true
            },
            None => {
                assert(!self.noun_list().contains(word@)) by {
                    if self.noun_list().contains(word@) {
                        let k = choose|k: int| 0 <= k < self.noun_list().len() && self.noun_list()[k] == word@;
                        assert(self.nouns@[k]@ == word@);
                    }
                }
                false
            },
        }
    }

    /// The length of a shortest ancestral path between a synset of `noun_a` and one of `noun_b`.
    pub fn relationship(&self, noun_a: &String, noun_b: &String) -> (r: i32)
        requires
            self.wf(),
            self.related(noun_a@, noun_b@),
        ensures
            is_shortest_ancestral(self.graph(), self.ids_of(noun_a@), self.ids_of(noun_b@), r as int),
    {
        let ka = self.position_of(noun_a);
        let kb = self.position_of(noun_b);
        let synsets_for_a = self.synset_ids[ka].clone();
        let synsets_for_b = self.synset_ids[kb].clone();
        proof {
            assert(synsets_for_a@ =~= self.ids_of(noun_a@));
            assert(synsets_for_b@ =~= self.ids_of(noun_b@));
            assert forall|k: int| 0 <= k < synsets_for_a@.len() implies #[trigger] synsets_for_a@[k] < self.hypernyms@.len() by {
                assert(self.synset_ids@[ka as int]@[k] < self.hypernyms@.len());
            }
            assert forall|k: int| 0 <= k < synsets_for_b@.len() implies #[trigger] synsets_for_b@[k] < self.hypernyms@.len() by {
                assert(self.synset_ids@[kb as int]@[k] < self.hypernyms@.len());
            }
        }
        match sap::path_stats_between(&self.hypernyms, synsets_for_a, synsets_for_b) {
            Some(len) => len,
            None => {
                proof {
                    assert(false);
                }
                0
            },
        }
    }

    /// Whether `noun_a` and `noun_b` are both known and have a common ancestor.
    pub fn are_related(&self, noun_a: &String, noun_b: &String) -> (r: bool)
        requires
            self.wf(),
        ensures
            r == self.related(noun_a@, noun_b@),
    {
        if !self.is_noun(noun_a) || !self.is_noun(noun_b) {
            return false;
        }
        let ka = self.position_of(noun_a);
        let kb = self.position_of(noun_b);
        let synsets_for_a = self.synset_ids[ka].clone();
        let synsets_for_b = self.synset_ids[kb].clone();
        proof {
            assert(synsets_for_a@ =~= self.ids_of(noun_a@));
            assert(synsets_for_b@ =~= self.ids_of(noun_b@));
            assert forall|k: int| 0 <= k < synsets_for_a@.len() implies #[trigger] synsets_for_a@[k] < self.hypernyms@.len() by {
                assert(self.synset_ids@[ka as int]@[k] < self.hypernyms@.len());
            }
            assert forall|k: int| 0 <= k < synsets_for_b@.len() implies #[trigger] synsets_for_b@[k] < self.hypernyms@.len() by {
                assert(self.synset_ids@[kb as int]@[k] < self.hypernyms@.len());
            }
        }
        sap::path_stats_between(&self.hypernyms, synsets_for_a, synsets_for_b).is_some()
    }

    /// The position of a known noun.
    fn position_of(&self, word: &String) -> (k: usize)
        requires
            self.wf(),
            self.noun_list().contains(word@),
        ensures
            k < self.nouns@.len(),
            self.nouns@[k as int]@ == word@,
            self.ids_of(word@) == self.synset_ids@[k as int]@,
    {
        match index_of_noun(&self.nouns, word) {
            Some(k) => {
                let ghost k2 = choose|k2: int| 0 <= k2 < self.nouns@.len() && self.nouns@[k2]@ == word@;
                assert(k2 == k as int);
                k
            },
            None => {
                proof {
                    let k = choose|k: int| 0 <= k < self.noun_list().len() && self.noun_list()[k] == word@;
                    assert(self.nouns@[k]@ == word@);
                }
                0
            },
        }
    }
}

/// The position of `word` in `nouns`, if it is there.
fn index_of_noun(nouns: &Vec<String>, word: &String) -> (r: Option<usize>)
    ensures
        match r {
            Some(k) => k < nouns@.len() && nouns@[k as int]@ == word@,
            None => forall|k: int| 0 <= k < nouns@.len() ==> nouns@[k]@ != word@,
        },
{
    let mut k: usize = 0;
    while k < nouns.len()
        invariant
            k <= nouns@.len(),
            forall|q: int| 0 <= q < k ==> nouns@[q]@ != word@,
        decreases nouns@.len() - k,
    {
        if nouns[k] == *word {
            return Some(k);
        }
        k += 1;
    }
    None
}

} // verus!
