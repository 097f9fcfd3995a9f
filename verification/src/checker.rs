//! The spell checker: a frequency model trained from a corpus, queried for
//! the most probable correction of a word.

use vstd::prelude::*;
use vstd::string::*;
use crate::edits::{EditSet, edits1, edits1_set};
use crate::model::{FrequencyModel, train, train_spec, count_or_one};
use crate::text::{get_words, words_of};

verus! {

/// The set `s` has at least one member.
pub open spec fn some_member(s: Set<Seq<char>>) -> bool {
    exists|x: Seq<char>| s.contains(x)
}

/// The members of `ws` that are known words of `m`.
pub open spec fn known_filter(ws: Set<Seq<char>>, m: Map<Seq<char>, nat>) -> Set<Seq<char>> {
    Set::new(|s: Seq<char>| ws.contains(s) && m.contains_key(s))
}

/// The known words within one edit of `w`.
pub open spec fn known1_set(w: Seq<char>, m: Map<Seq<char>, nat>) -> Set<Seq<char>> {
    known_filter(edits1_set(w), m)
}

/// The known words within two edits of `w`: an edit of an edit of `w`.
pub open spec fn known2_set(w: Seq<char>, m: Map<Seq<char>, nat>) -> Set<Seq<char>> {
    Set::new(
        |s: Seq<char>|
            m.contains_key(s) && exists|e: Seq<char>| #[trigger]
                edits1_set(w).contains(e) && edits1_set(e).contains(s),
    )
}

/// The candidates ranked for the correction of `w`: `w` itself if it is
/// known; otherwise the known words one edit away, if any; otherwise the
/// known words two edits away, if any; otherwise `w` itself as a fallback.
pub open spec fn candidates_of(w: Seq<char>, m: Map<Seq<char>, nat>) -> Set<Seq<char>> {
    if m.contains_key(w) {
        set![w]
    } else if some_member(known1_set(w, m)) {
        known1_set(w, m)
    } else if some_member(known2_set(w, m)) {
        known2_set(w, m)
    } else {
        set![w]
    }
}

/// A spelling corrector holding a word-frequency model trained once from a
/// corpus and read-only afterwards.
pub struct SimpleSpellChecker {
    nwords: FrequencyModel,
}

impl SimpleSpellChecker {
    /// The held model is well formed.
    pub closed spec fn wf(&self) -> bool {
        self.nwords.wf()
    }

    /// The trained frequency map.
    pub closed spec fn model(&self) -> Map<Seq<char>, nat> {
        self.nwords@
    }

    /// Trains a checker from a corpus: the corpus is tokenized into lowercase
    /// words and the frequency model is built from the word list.
    pub fn new(corpus: &str) -> (checker: SimpleSpellChecker)
        requires
            corpus@.len() < u64::MAX,
        ensures
            checker.wf(),
            checker.model() == train_spec(words_of(corpus@)),
    {
        let words = get_words(corpus);
        proof {
            crate::text::lemma_words_count(corpus@);
        }
        SimpleSpellChecker { nwords: train(&words) }
    }

    /// The members of `words` that are known words of the model.
    fn known(&self, words: &EditSet) -> (r: EditSet)
        requires
            self.wf(),
            words.wf(),
        ensures
            r.wf(),
            r@ == known_filter(words@, self.model()),
    {
        let ghost m = self.model();
        let mut r = EditSet::new();
        let n: usize = words.len();
        let mut i: usize = 0;
        proof {
            assert(r@ =~= known_upto(words.elems(), m, 0)) by {
                assert(forall|s: Seq<char>| !(#[trigger] known_upto(words.elems(), m, 0).contains(s)));
            }
        }
        while i < n
            invariant
                i <= n,
                n == words.elems().len(),
                self.wf(),
                words.wf(),
                r.wf(),
                m == self.model(),
                r@ == known_upto(words.elems(), m, i as int),
            decreases n - i,
        {
            let ghost prev = r@;
            let wi = words.get(i);
            if self.nwords.contains(wi.as_str()) {
                r.insert(wi.clone());
                proof {
                    assert forall|s: Seq<char>| prev.insert(wi@).contains(s) implies known_upto(
                        words.elems(),
                        m,
                        i + 1,
                    ).contains(s) by {
                        if s == wi@ {
                            assert(words.elems()[i as int] == s);
                        }
                    }
                    assert forall|s: Seq<char>|
                        known_upto(words.elems(), m, i + 1).contains(s) implies prev.insert(
                        wi@,
                    ).contains(s) by {
                        let j = choose|j: int| 0 <= j < i + 1 && words.elems()[j] == s;
                        if j < i {
                            assert(known_upto(words.elems(), m, i as int).contains(s));
                        }
                    }
                    assert(r@ =~= known_upto(words.elems(), m, i + 1));
                }
            } else {
                proof {
                    assert forall|s: Seq<char>|
                        known_upto(words.elems(), m, i + 1).contains(s) implies prev.contains(
                        s,
                    ) by {
                        let j = choose|j: int| 0 <= j < i + 1 && words.elems()[j] == s;
                        if j < i {
                            assert(known_upto(words.elems(), m, i as int).contains(s));
                        } else {
                            assert(s == wi@ && m.contains_key(s));
                        }
                    }
                    assert forall|s: Seq<char>| prev.contains(s) implies known_upto(
                        words.elems(),
                        m,
                        i + 1,
                    ).contains(s) by {
                        let j = choose|j: int| 0 <= j < i && words.elems()[j] == s;
                    }
                    assert(r@ =~= known_upto(words.elems(), m, i + 1));
                }
            }
            i = i + 1;
        }
        proof {
            words.lemma_view_elems();
            assert forall|s: Seq<char>| known_upto(words.elems(), m, n as int).contains(s) implies
                known_filter(words@, m).contains(s) by {
                let j = choose|j: int| 0 <= j < n && words.elems()[j] == s;
            }
            assert(r@ =~= known_filter(words@, m));
        }
        r
    }

    /// The known words two edits away from `word`.
    fn known_edits2(&self, word: &str) -> (r: EditSet)
        requires
            self.wf(),
        ensures
            r.wf(),
            r@ == known2_set(word@, self.model()),
    {
        let ghost m = self.model();
        let e1 = edits1(word);
        let ghost outer = e1.elems();
        let mut r = EditSet::new();
        let n: usize = e1.len();
        let mut i: usize = 0;
        proof {
            assert(r@ =~= k2_upto(outer, m, 0)) by {
                assert(forall|s: Seq<char>| !(#[trigger] k2_upto(outer, m, 0).contains(s)));
            }
        }
        while i < n
            invariant
                i <= n,
                n == outer.len(),
                self.wf(),
                e1.wf(),
                outer == e1.elems(),
                m == self.model(),
                r.wf(),
                r@ == k2_upto(outer, m, i as int),
            decreases n - i,
        {
            let e1i = e1.get(i);
            let e2 = edits1(e1i.as_str());
            let ghost inner = e2.elems();
            let n2: usize = e2.len();
            let mut j: usize = 0;
            proof {
                assert(r@ =~= k2_upto(outer, m, i as int).union(k2_part(inner, m, 0))) by {
                    assert(forall|s: Seq<char>| !(#[trigger] k2_part(inner, m, 0).contains(s)));
                }
            }
            while j < n2
                invariant
                    j <= n2,
                    n2 == inner.len(),
                    i < n,
                    n == outer.len(),
                    self.wf(),
                    e2.wf(),
                    inner == e2.elems(),
                    m == self.model(),
                    r.wf(),
                    r@ == k2_upto(outer, m, i as int).union(k2_part(inner, m, j as int)),
                decreases n2 - j,
            {
                let ghost prev = r@;
                let cand = e2.get(j);
                if self.nwords.contains(cand.as_str()) {
                    r.insert(cand.clone());
                    proof {
                        assert forall|s: Seq<char>| prev.insert(cand@).contains(s) implies k2_upto(
                            outer,
                            m,
                            i as int,
                        ).union(k2_part(inner, m, j + 1)).contains(s) by {
                            if s == cand@ {
                                assert(inner[j as int] == s);
                                assert(k2_part(inner, m, j + 1).contains(s));
                            }
                        }
                        assert forall|s: Seq<char>|
                            k2_upto(outer, m, i as int).union(
                                k2_part(inner, m, j + 1),
                            ).contains(s) implies prev.insert(cand@).contains(s) by {
                            if k2_part(inner, m, j + 1).contains(s) {
                                let k = choose|k: int| 0 <= k < j + 1 && inner[k] == s;
                                if k < j {
                                    assert(k2_part(inner, m, j as int).contains(s));
                                }
                            }
                        }
                        assert(r@ =~= k2_upto(outer, m, i as int).union(k2_part(inner, m, j + 1)));
                    }
                } else {
                    proof {
                        assert forall|s: Seq<char>|
                            k2_upto(outer, m, i as int).union(
                                k2_part(inner, m, j + 1),
                            ).contains(s) implies prev.contains(s) by {
                            if k2_part(inner, m, j + 1).contains(s) {
                                let k = choose|k: int| 0 <= k < j + 1 && inner[k] == s;
                                if k < j {
                                    assert(k2_part(inner, m, j as int).contains(s));
                                } else {
                                    assert(s == cand@ && m.contains_key(s));
                                }
                            }
                        }
                        assert forall|s: Seq<char>| prev.contains(s) implies k2_upto(
                            outer,
                            m,
                            i as int,
                        ).union(k2_part(inner, m, j + 1)).contains(s) by {
                            if k2_part(inner, m, j as int).contains(s) {
                                let k = choose|k: int| 0 <= k < j && inner[k] == s;
                            }
                        }
                        assert(r@ =~= k2_upto(outer, m, i as int).union(k2_part(inner, m, j + 1)));
                    }
                }
                j = j + 1;
            }
            proof {
                e2.lemma_view_elems();
                assert forall|s: Seq<char>|
                    k2_upto(outer, m, i as int).union(k2_part(inner, m, n2 as int)).contains(
                    s,
                ) implies k2_upto(outer, m, i + 1).contains(s) by {
                    if k2_upto(outer, m, i as int).contains(s) {
                        let jj = choose|jj: int|
                            0 <= jj < i && #[trigger] edits1_set(outer[jj]).contains(s);
                    } else {
                        let k = choose|k: int| 0 <= k < n2 && inner[k] == s;
                        assert(e2@.contains(s));
                        assert(edits1_set(outer[i as int]).contains(s));
                    }
                }
                assert forall|s: Seq<char>| k2_upto(outer, m, i + 1).contains(s) implies k2_upto(
                    outer,
                    m,
                    i as int,
                ).union(k2_part(inner, m, n2 as int)).contains(s) by {
                    let jj = choose|jj: int|
                        0 <= jj < i + 1 && #[trigger] edits1_set(outer[jj]).contains(s);
                    if jj < i {
                        assert(k2_upto(outer, m, i as int).contains(s));
                    } else {
                        assert(e2@.contains(s));
                        let k = choose|k: int| 0 <= k < inner.len() && inner[k] == s;
                        assert(k2_part(inner, m, n2 as int).contains(s));
                    }
                }
                assert(r@ =~= k2_upto(outer, m, i + 1));
            }
            i = i + 1;
        }
        proof {
            e1.lemma_view_elems();
            assert forall|s: Seq<char>| k2_upto(outer, m, n as int).contains(s) implies known2_set(
                word@,
                m,
            ).contains(s) by {
                let jj = choose|jj: int| 0 <= jj < n && #[trigger] edits1_set(outer[jj]).contains(s);
                assert(e1@.contains(outer[jj]));
                assert(edits1_set(word@).contains(outer[jj]));
            }
            assert forall|s: Seq<char>| known2_set(word@, m).contains(s) implies k2_upto(
                outer,
                m,
                n as int,
            ).contains(s) by {
                let e = choose|e: Seq<char>| #[trigger]
                    edits1_set(word@).contains(e) && edits1_set(e).contains(s);
                assert(e1@.contains(e));
                let jj = choose|jj: int| 0 <= jj < outer.len() && outer[jj] == e;
                assert(edits1_set(outer[jj]).contains(s));
            }
            assert(r@ =~= known2_set(word@, m));
        }
        r
    }

    /// A member of `cands` whose count is maximal; a candidate not in the
    /// model counts as 1 for ranking only.
    fn best(&self, cands: &EditSet) -> (r: String)
        requires
            self.wf(),
            cands.wf(),
            cands.elems().len() > 0,
        ensures
            cands@.contains(r@),
            forall|s: Seq<char>| #[trigger]
                cands@.contains(s) ==> count_or_one(self.model(), s) <= count_or_one(
                    self.model(),
                    r@,
                ),
    {
        let n: usize = cands.len();
        let mut best_i: usize = 0;
        let mut best_c: u64 = self.nwords.count(cands.get(0).as_str());
        let mut j: usize = 1;
        while j < n
            invariant
                1 <= j <= n,
                n == cands.elems().len(),
                best_i < n,
                self.wf(),
                cands.wf(),
                best_c as nat == count_or_one(self.model(), cands.elems()[best_i as int]),
                forall|k: int|
                    0 <= k < j ==> count_or_one(self.model(), #[trigger] cands.elems()[k])
                        <= best_c as nat,
            decreases n - j,
        {
            let c: u64 = self.nwords.count(cands.get(j).as_str());
            if c > best_c {
                best_i = j;
                best_c = c;
            }
            j = j + 1;
        }
        let r = cands.get(best_i).clone();
        proof {
            cands.lemma_view_elems();
            assert(cands.elems().contains(cands.elems()[best_i as int]));
            assert forall|s: Seq<char>| #[trigger] cands@.contains(s) implies count_or_one(
                self.model(),
                s,
            ) <= count_or_one(self.model(), r@) by {
                let k = choose|k: int| 0 <= k < cands.elems().len() && cands.elems()[k] == s;
            }
        }
        r
    }

    /// The most probable correction of `word`: `word` itself if it is known;
    /// otherwise the most frequent known word within one edit, if any;
    /// otherwise the most frequent known word within two edits, if any;
    /// otherwise `word` itself. The caller is responsible for handing in a
    /// word of lowercase ASCII letters; any string is accepted and corrected
    /// against the same candidate sets.
    pub fn correct(&self, word: &str) -> (r: String)
        requires
            self.wf(),
        ensures
            candidates_of(word@, self.model()).contains(r@),
            forall|s: Seq<char>| #[trigger]
                candidates_of(word@, self.model()).contains(s) ==> count_or_one(self.model(), s)
                    <= count_or_one(self.model(), r@),
            self.model().contains_key(word@) ==> r@ == word@,
            (!self.model().contains_key(word@) && !some_member(known1_set(word@, self.model()))
                && !some_member(known2_set(word@, self.model()))) ==> r@ == word@,
    {
        let ghost m = self.model();
        let ghost w = word@;
        if self.nwords.contains(word) {
            let r = String::from_str(word);
            proof {
                assert(candidates_of(w, m) == set![w]);
                assert(set![w].contains(w));
                assert(forall|s: Seq<char>| #[trigger] set![w].contains(s) ==> s == w);
            }
            return r;
        }
        let e1 = edits1(word);
        let ks1 = self.known(&e1);
        let n1: usize = ks1.len();
        if n1 > 0 {
            proof {
                assert(ks1@ =~= known1_set(w, m));
                ks1.lemma_view_elems();
                assert(ks1@.contains(ks1.elems()[0]));
                assert(some_member(known1_set(w, m)));
                assert(candidates_of(w, m) == known1_set(w, m));
            }
            return self.best(&ks1);
        }
        proof {
            assert(ks1@ =~= known1_set(w, m));
            ks1.lemma_view_elems();
            assert forall|x: Seq<char>| !(#[trigger] known1_set(w, m).contains(x)) by {
                if ks1@.contains(x) {
                    let k = choose|k: int| 0 <= k < ks1.elems().len() && ks1.elems()[k] == x;
                }
            }
            assert(!some_member(known1_set(w, m)));
        }
        let ks2 = self.known_edits2(word);
        let n2: usize = ks2.len();
        if n2 > 0 {
            proof {
                ks2.lemma_view_elems();
                assert(ks2@.contains(ks2.elems()[0]));
                assert(some_member(known2_set(w, m)));
                assert(candidates_of(w, m) == known2_set(w, m));
            }
            return self.best(&ks2);
        }
        let r = String::from_str(word);
        proof {
            ks2.lemma_view_elems();
            assert forall|x: Seq<char>| !(#[trigger] known2_set(w, m).contains(x)) by {
                if ks2@.contains(x) {
                    let k = choose|k: int| 0 <= k < ks2.elems().len() && ks2.elems()[k] == x;
                }
            }
            assert(!some_member(known2_set(w, m)));
            assert(candidates_of(w, m) == set![w]);
            assert(set![w].contains(w));
            assert(forall|s: Seq<char>| #[trigger] set![w].contains(s) ==> s == w);
        }
        r
    }
}

/// The known members among the first `k` of `words`.
spec fn known_upto(words: Seq<Seq<char>>, m: Map<Seq<char>, nat>, k: int) -> Set<Seq<char>> {
    Set::new(
        |s: Seq<char>|
            (exists|j: int| 0 <= j < k && words[j] == s) && m.contains_key(s),
    )
}

/// The known words one edit away from the first `k` members of `outer`.
spec fn k2_upto(outer: Seq<Seq<char>>, m: Map<Seq<char>, nat>, k: int) -> Set<Seq<char>> {
    Set::new(
        |s: Seq<char>|
            m.contains_key(s) && exists|j: int|
                0 <= j < k && #[trigger] edits1_set(outer[j]).contains(s),
    )
}

/// The known words among the first `k` members of `inner`.
spec fn k2_part(inner: Seq<Seq<char>>, m: Map<Seq<char>, nat>, k: int) -> Set<Seq<char>> {
    Set::new(
        |s: Seq<char>|
            m.contains_key(s) && exists|j: int| 0 <= j < k && inner[j] == s,
    )
}

} // verus!
