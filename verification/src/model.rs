//! The word-frequency model: a mapping from each distinct word to an
//! occurrence count, built once from a word list and read-only afterwards.
//!
//! A word seen `n` times is stored with count `n + 1`: the first occurrence is
//! recorded as 2 and each further occurrence adds 1. This uniform bias is a
//! defined part of the model, not an accident, and the contracts state it.

use vstd::prelude::*;
use crate::text::views_of;

verus! {

/// One training step: record one more occurrence of `w` in `m`.
pub open spec fn train_step(m: Map<Seq<char>, nat>, w: Seq<char>) -> Map<Seq<char>, nat> {
    if m.contains_key(w) {
        m.insert(w, m[w] + 1)
    } else {
        m.insert(w, 2)
    }
}

/// The frequency map obtained by recording the words of `ws` in order.
pub open spec fn train_spec(ws: Seq<Seq<char>>) -> Map<Seq<char>, nat>
    decreases ws.len(),
{
    if ws.len() == 0 {
        Map::empty()
    } else {
        train_step(train_spec(ws.drop_last()), ws.last())
    }
}

/// How many entries of `ws` equal `w`.
pub open spec fn occurrences(ws: Seq<Seq<char>>, w: Seq<char>) -> nat
    decreases ws.len(),
{
    if ws.len() == 0 {
        0
    } else {
        occurrences(ws.drop_last(), w) + (if ws.last() == w {
            1nat
        } else {
            0nat
        })
    }
}

/// A word is a key of the trained map exactly when it occurs in the word
/// list, and its stored count is its number of occurrences plus one.
pub proof fn lemma_train_counts(ws: Seq<Seq<char>>, w: Seq<char>)
    ensures
        train_spec(ws).contains_key(w) <==> ws.contains(w),
        ws.contains(w) ==> train_spec(ws)[w] == occurrences(ws, w) + 1,
        !ws.contains(w) ==> occurrences(ws, w) == 0,
    decreases ws.len(),
{
    if ws.len() > 0 {
        lemma_train_counts(ws.drop_last(), w);
        if ws.contains(w) && !(ws.last() == w) {
            let k = choose|k: int| 0 <= k < ws.len() && ws[k] == w;
            assert(ws.drop_last()[k] == w);
            assert(ws.drop_last().contains(w));
        }
        if ws.drop_last().contains(w) {
            let k = choose|k: int| 0 <= k < ws.drop_last().len() && ws.drop_last()[k] == w;
            assert(ws[k] == w);
            assert(ws.contains(w));
        }
        if ws.last() == w {
            assert(ws[ws.len() - 1] == w);
            assert(ws.contains(w));
        }
    }
}

/// The frequency map held by a list of distinct words and their counts.
pub open spec fn map_of(ws: Seq<String>, cs: Seq<u64>) -> Map<Seq<char>, nat> {
    Map::new(
        (|w: Seq<char>| exists|i: int| 0 <= i < ws.len() && ws[i]@ == w),
        (|w: Seq<char>| cs[choose|i: int| 0 <= i < ws.len() && ws[i]@ == w] as nat),
    )
}

/// The views of the words of `ws` are pairwise distinct.
pub open spec fn distinct_views(ws: Seq<String>) -> bool {
    forall|i: int, j: int| 0 <= i < j < ws.len() ==> ws[i]@ != ws[j]@
}

/// A word-to-count mapping with every key a distinct word; the count stored
/// for a word seen `n` times during training is `n + 1`.
pub struct FrequencyModel {
    words: Vec<String>,
    counts: Vec<u64>,
}

impl View for FrequencyModel {
    type V = Map<Seq<char>, nat>;

    closed spec fn view(&self) -> Map<Seq<char>, nat> {
        map_of(self.words@, self.counts@)
    }
}

impl FrequencyModel {
    /// The internal word and count tables line up and hold each word once.
    pub closed spec fn wf(&self) -> bool {
        &&& self.counts@.len() == self.words@.len()
        &&& distinct_views(self.words@)
    }

    /// How many distinct words the model holds.
    pub fn len(&self) -> (n: usize)
        requires
            self.wf(),
        ensures
            n == self@.dom().len(),
    {
        proof {
            lemma_map_of_cardinality(self.words@, self.counts@);
        }
        self.words.len()
    }

    /// Whether `w` is a known word.
    pub fn contains(&self, w: &str) -> (r: bool)
        requires
            self.wf(),
        ensures
            r == self@.contains_key(w@),
    {
        match self.find(w) {
            Some(_) => true,
            None => false,
        }
    }

    /// The stored count of `w`, or `None` if `w` is unknown.
    pub fn get(&self, w: &str) -> (r: Option<u64>)
        requires
            self.wf(),
        ensures
            match r {
                Some(c) => self@.contains_key(w@) && c as nat == self@[w@],
                None => !self@.contains_key(w@),
            },
    {
        match self.find(w) {
            Some(i) => {
                proof {
                    let j = choose|j: int|
                        0 <= j < self.words@.len() && self.words@[j]@ == w@;
                    assert(j == i);
                }
                Some(self.counts[i])
            },
            None => None,
        }
    }

    /// The stored count of `w`, or 1 if `w` is unknown; the default is used
    /// only for ranking and never marks a word as known.
    pub fn count(&self, w: &str) -> (r: u64)
        requires
            self.wf(),
        ensures
            r as nat == count_or_one(self@, w@),
    {
        match self.get(w) {
            Some(c) => c,
            None => 1,
        }
    }

    /// The index of `w` in the word table, if `w` is known.
    fn find(&self, w: &str) -> (r: Option<usize>)
        requires
            self.wf(),
        ensures
            match r {
                Some(i) => i < self.words@.len() && self.words@[i as int]@ == w@,
                None => !self@.contains_key(w@),
            },
    {
        crate::text::find_in(&self.words, w)
    }
}

/// The count of a candidate for ranking purposes: its stored count if it is
/// known, and 1 otherwise.
pub open spec fn count_or_one(m: Map<Seq<char>, nat>, w: Seq<char>) -> nat {
    if m.contains_key(w) {
        m[w]
    } else {
        1
    }
}

proof fn lemma_map_of_cardinality(ws: Seq<String>, cs: Seq<u64>)
    requires
        distinct_views(ws),
    ensures
        map_of(ws, cs).dom().len() == ws.len(),
{
    let vs = views_of(ws);
    assert forall|w: Seq<char>| map_of(ws, cs).dom().contains(w) == vs.to_set().contains(w) by {
        if map_of(ws, cs).dom().contains(w) {
            let i = choose|i: int| 0 <= i < ws.len() && ws[i]@ == w;
            assert(vs[i] == w);
            assert(vs.contains(w));
        }
        if vs.to_set().contains(w) {
            let i = choose|i: int| 0 <= i < vs.len() && vs[i] == w;
            assert(ws[i]@ == w);
            assert(map_of(ws, cs).dom().contains(w));
        }
    }
    assert(map_of(ws, cs).dom() =~= vs.to_set());
    assert forall|i: int, j: int| 0 <= i < vs.len() && 0 <= j < vs.len() && i != j implies vs[i]
        != vs[j] by {
        assert(vs[i] == ws[i]@ && vs[j] == ws[j]@);
    }
    assert(vs.no_duplicates());
    vs.unique_seq_to_set();
}

proof fn lemma_map_of_update(ws: Seq<String>, cs: Seq<u64>, j: int, v: u64)
    requires
        distinct_views(ws),
        cs.len() == ws.len(),
        0 <= j < ws.len(),
    ensures
        map_of(ws, cs.update(j, v)) == map_of(ws, cs).insert(ws[j]@, v as nat),
{
    let m1 = map_of(ws, cs.update(j, v));
    let m2 = map_of(ws, cs).insert(ws[j]@, v as nat);
    assert forall|w: Seq<char>| m1.contains_key(w) implies m2.contains_key(w) && m1[w] == m2[w] by {
        let i = choose|i: int| 0 <= i < ws.len() && ws[i]@ == w;
        if w == ws[j]@ {
            assert(i == j);
            assert(m1[w] == cs.update(j, v)[j] as nat);
        } else {
            assert(i != j);
            assert(m1[w] == cs.update(j, v)[i] as nat);
            assert(map_of(ws, cs)[w] == cs[i] as nat);
        }
    }
    assert forall|w: Seq<char>| m2.contains_key(w) implies m1.contains_key(w) by {
        if w == ws[j]@ {
            assert(0 <= j < ws.len() && ws[j]@ == w);
        }
    }
    assert(m1 =~= m2);
}

proof fn lemma_map_of_push(ws: Seq<String>, cs: Seq<u64>, w: String, v: u64)
    requires
        distinct_views(ws),
        cs.len() == ws.len(),
        !map_of(ws, cs).contains_key(w@),
    ensures
        map_of(ws.push(w), cs.push(v)) == map_of(ws, cs).insert(w@, v as nat),
        distinct_views(ws.push(w)),
{
    let ws2 = ws.push(w);
    let cs2 = cs.push(v);
    let m1 = map_of(ws2, cs2);
    let m2 = map_of(ws, cs).insert(w@, v as nat);
    assert(forall|i: int| 0 <= i < ws.len() ==> ws[i]@ != w@) by {
        assert forall|i: int| 0 <= i < ws.len() implies ws[i]@ != w@ by {
            if ws[i]@ == w@ {
                assert(map_of(ws, cs).dom().contains(w@));
            }
        }
    }
    assert forall|x: Seq<char>| m1.contains_key(x) implies m2.contains_key(x) && m1[x] == m2[x] by {
        let i = choose|i: int| 0 <= i < ws2.len() && ws2[i]@ == x;
        if x == w@ {
            assert(i == ws.len() as int);
            assert(m1[x] == cs2[i] as nat);
        } else {
            assert(i < ws.len() && ws[i]@ == x);
            assert(m1[x] == cs2[i] as nat);
            let k = choose|k: int| 0 <= k < ws.len() && ws[k]@ == x;
            assert(k == i);
            assert(map_of(ws, cs)[x] == cs[i] as nat);
        }
    }
    assert forall|x: Seq<char>| m2.contains_key(x) implies m1.contains_key(x) by {
        if x == w@ {
            assert(ws2[ws.len() as int]@ == x);
        } else {
            let k = choose|k: int| 0 <= k < ws.len() && ws[k]@ == x;
            assert(ws2[k]@ == x);
        }
    }
    assert(m1 =~= m2);
    assert forall|i: int, j: int| 0 <= i < j < ws2.len() implies ws2[i]@ != ws2[j]@ by {
        if j == ws.len() as int {
            assert(ws2[i]@ == ws[i]@ && ws[i]@ != w@);
        } else {
            assert(ws2[i]@ == ws[i]@ && ws2[j]@ == ws[j]@);
        }
    }
}

/// Builds the frequency model of a word list: a word absent so far is
/// inserted with count 2, and each later occurrence adds 1, so a word seen
/// `n` times ends with count `n + 1`.
pub fn train(words: &Vec<String>) -> (model: FrequencyModel)
    requires
        words@.len() < u64::MAX,
    ensures
        model.wf(),
        model@ == train_spec(views_of(words@)),
{
    let ghost all = views_of(words@);
    let n: usize = words.len();
    let mut ws: Vec<String> = Vec::new();
    let mut cs: Vec<u64> = Vec::new();
    let mut i: usize = 0;
    proof {
        assert(all.take(0) =~= Seq::<Seq<char>>::empty());
        assert(map_of(ws@, cs@) =~= Map::<Seq<char>, nat>::empty());
    }
    while i < n
        invariant
            i <= n,
            n == words@.len() < u64::MAX,
            all == views_of(words@),
            cs@.len() == ws@.len(),
            distinct_views(ws@),
            map_of(ws@, cs@) == train_spec(all.take(i as int)),
            forall|j: int| 0 <= j < cs@.len() ==> #[trigger] cs@[j] <= i + 1,
        decreases n - i,
    {
        let ghost prefix = all.take(i as int);
        proof {
            assert(all.take(i + 1).drop_last() =~= prefix);
            assert(all.take(i + 1).last() == words@[i as int]@);
        }
        let w: &String = &words[i];
        let found: Option<usize> = crate::text::find_in(&ws, w.as_str());
        match found {
            Some(j) => {
                proof {
                    assert(ws@[j as int]@ == w@);
                    assert(map_of(ws@, cs@).contains_key(w@));
                    let x = choose|x: int| 0 <= x < ws@.len() && ws@[x]@ == w@;
                    assert(x == j);
                    assert(map_of(ws@, cs@)[w@] == cs@[j as int] as nat);
                    lemma_map_of_update(ws@, cs@, j as int, (cs@[j as int] + 1) as u64);
                }
                let c: u64 = cs[j];
                cs.set(j, c + 1);
            },
            None => {
                proof {
                    assert(forall|j: int| 0 <= j < ws@.len() ==> ws@[j]@ != w@);
                    assert(!map_of(ws@, cs@).contains_key(w@));
                    lemma_map_of_push(ws@, cs@, *w, 2);
                }
                ws.push(w.clone());
                cs.push(2);
            },
        }
        i = i + 1;
    }
    proof {
        assert(all.take(n as int) =~= all);
    }
    FrequencyModel { words: ws, counts: cs }
}

} // verus!
