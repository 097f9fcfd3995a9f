//! Generation of the candidate strings within one primitive edit (deletion,
//! replacement, transposition, insertion) of a word, collected as a set.

use vstd::prelude::*;
use vstd::string::*;
use crate::text::views_of;

verus! {

/// The fixed 26-letter alphabet used for replacements and insertions.
pub open spec fn alphabet() -> Seq<char> {
    "abcdefghijklmnopqrstuvwxyz"@
}

/// `w` with the character at position `i` removed.
pub open spec fn delete_at(w: Seq<char>, i: int) -> Seq<char> {
    w.subrange(0, i) + w.subrange(i + 1, w.len() as int)
}

/// `w` with the character at position `i` replaced by `c`.
pub open spec fn replace_at(w: Seq<char>, i: int, c: char) -> Seq<char> {
    w.update(i, c)
}

/// `w` with the characters at positions `i` and `i + 1` swapped.
pub open spec fn transpose_at(w: Seq<char>, i: int) -> Seq<char> {
    w.update(i, w[i + 1]).update(i + 1, w[i])
}

/// `w` with `c` inserted before position `i`.
pub open spec fn insert_at(w: Seq<char>, i: int, c: char) -> Seq<char> {
    w.subrange(0, i) + seq![c] + w.subrange(i, w.len() as int)
}

/// `s` is reachable from `w` by exactly one primitive edit. A replacement by
/// the original letter is not special-cased, so a non-empty word is always a
/// member of its own edit set.
pub open spec fn is_edit1(w: Seq<char>, s: Seq<char>) -> bool {
    ||| exists|i: int| 0 <= i < w.len() && s == delete_at(w, i)
    ||| exists|i: int, c: char|
        #![trigger replace_at(w, i, c)]
        0 <= i < w.len() && alphabet().contains(c) && s == replace_at(w, i, c)
    ||| exists|i: int| 0 <= i && i + 1 < w.len() && s == transpose_at(w, i)
    ||| exists|i: int, c: char|
        #![trigger insert_at(w, i, c)]
        0 <= i <= w.len() && alphabet().contains(c) && s == insert_at(w, i, c)
}

/// All strings within one primitive edit of `w`.
pub open spec fn edits1_set(w: Seq<char>) -> Set<Seq<char>> {
    Set::new(|s: Seq<char>| is_edit1(w, s))
}

/// The edits of `w` whose split point lies before `k`.
spec fn is_edit1_upto(w: Seq<char>, s: Seq<char>, k: int) -> bool {
    ||| exists|i: int| 0 <= i < k && i < w.len() && s == delete_at(w, i)
    ||| exists|i: int, c: char|
        #![trigger replace_at(w, i, c)]
        0 <= i < k && i < w.len() && alphabet().contains(c) && s == replace_at(w, i, c)
    ||| exists|i: int| 0 <= i < k && i + 1 < w.len() && s == transpose_at(w, i)
    ||| exists|i: int, c: char|
        #![trigger insert_at(w, i, c)]
        0 <= i < k && i <= w.len() && alphabet().contains(c) && s == insert_at(w, i, c)
}

spec fn edits_upto(w: Seq<char>, k: int) -> Set<Seq<char>> {
    Set::new(|s: Seq<char>| is_edit1_upto(w, s, k))
}

/// The replacements of the character at `i` of `w` by any alphabet letter.
spec fn replace_set_at(w: Seq<char>, i: int) -> Set<Seq<char>> {
    Set::new(
        |s: Seq<char>|
            exists|c: char| #[trigger] alphabet().contains(c) && s == replace_at(w, i, c),
    )
}

/// The insertions of any alphabet letter before position `i` of `w`.
spec fn insert_set_at(w: Seq<char>, i: int) -> Set<Seq<char>> {
    Set::new(
        |s: Seq<char>|
            exists|c: char| #[trigger] alphabet().contains(c) && s == insert_at(w, i, c),
    )
}

/// The replacements at `i` by the first `j` alphabet letters.
spec fn replace_set_upto(w: Seq<char>, i: int, j: int) -> Set<Seq<char>> {
    Set::new(
        |s: Seq<char>| exists|jj: int| 0 <= jj < j && s == replace_at(w, i, alphabet()[jj]),
    )
}

/// The insertions at `i` of the first `j` alphabet letters.
spec fn insert_set_upto(w: Seq<char>, i: int, j: int) -> Set<Seq<char>> {
    Set::new(|s: Seq<char>| exists|jj: int| 0 <= jj < j && s == insert_at(w, i, alphabet()[jj]))
}

/// A set of candidate strings, held as a duplicate-free list.
pub struct EditSet {
    items: Vec<String>,
}

impl View for EditSet {
    type V = Set<Seq<char>>;

    closed spec fn view(&self) -> Set<Seq<char>> {
        views_of(self.items@).to_set()
    }
}

impl EditSet {
    /// The members in insertion order.
    pub closed spec fn elems(&self) -> Seq<Seq<char>> {
        views_of(self.items@)
    }

    /// No string is held twice.
    pub closed spec fn wf(&self) -> bool {
        self.elems().no_duplicates()
    }

    /// The set holds exactly the members of the list.
    pub proof fn lemma_view_elems(&self)
        ensures
            self@ == self.elems().to_set(),
            forall|s: Seq<char>|
                #[trigger] self@.contains(s) <==> exists|i: int|
                    0 <= i < self.elems().len() && self.elems()[i] == s,
    {
        assert forall|s: Seq<char>| #[trigger] self@.contains(s) implies exists|i: int|
            0 <= i < self.elems().len() && self.elems()[i] == s by {
            assert(self.elems().contains(s));
        }
        assert forall|s: Seq<char>|
            (exists|i: int| 0 <= i < self.elems().len() && self.elems()[i] == s) implies #[trigger]
            self@.contains(s) by {
            assert(self.elems().contains(s));
        }
    }

    pub fn new() -> (r: EditSet)
        ensures
            r.wf(),
            r@ == Set::<Seq<char>>::empty(),
            r.elems() == Seq::<Seq<char>>::empty(),
    {
        let r = EditSet { items: Vec::new() };
        proof {
            assert(r.elems() =~= Seq::<Seq<char>>::empty());
            assert forall|s: Seq<char>| !(#[trigger] r@.contains(s)) by {
                if r.elems().contains(s) {
                    let i = choose|i: int| 0 <= i < r.elems().len() && r.elems()[i] == s;
                }
            }
            assert(r@ =~= Set::<Seq<char>>::empty());
        }
        r
    }

    /// How many distinct members the set holds.
    pub fn len(&self) -> (n: usize)
        requires
            self.wf(),
        ensures
            n == self.elems().len(),
            n == self@.len(),
    {
        proof {
            self.elems().unique_seq_to_set();
        }
        self.items.len()
    }

    /// Whether the string `w` is a member.
    pub fn contains(&self, w: &str) -> (r: bool)
        requires
            self.wf(),
        ensures
            r == self@.contains(w@),
    {
        match crate::text::find_in(&self.items, w) {
            Some(i) => {
                proof {
                    assert(self.elems()[i as int] == w@);
                    assert(self.elems().contains(w@));
                }
                true
            },
            None => {
                proof {
                    if self@.contains(w@) {
                        assert(self.elems().contains(w@));
                        let j = choose|j: int|
                            0 <= j < self.elems().len() && self.elems()[j] == w@;
                        assert(self.items@[j]@ == w@);
                    }
                }
                false
            },
        }
    }

    /// The member at position `i` of the insertion order.
    pub fn get(&self, i: usize) -> (r: &String)
        requires
            i < self.elems().len(),
        ensures
            r@ == self.elems()[i as int],
            self@.contains(r@),
    {
        proof {
            assert(self.elems().contains(self.elems()[i as int]));
        }
        &self.items[i]
    }

    /// Adds `w` unless an equal string is already held.
    pub fn insert(&mut self, w: String)
        requires
            old(self).wf(),
        ensures
            final(self).wf(),
            final(self)@ == old(self)@.insert(w@),
            final(self).elems() == if old(self)@.contains(w@) {
                old(self).elems()
            } else {
                old(self).elems().push(w@)
            },
    {
        match crate::text::find_in(&self.items, w.as_str()) {
            Some(i) => {
                proof {
                    assert(self.elems()[i as int] == w@);
                    assert(self.elems().contains(w@));
                    assert(self@.contains(w@));
                    assert(self@ =~= self@.insert(w@));
                }
            },
            None => {
                let ghost prev = self.items@;
                proof {
                    if self@.contains(w@) {
                        assert(self.elems().contains(w@));
                        let j = choose|j: int|
                            0 <= j < self.elems().len() && self.elems()[j] == w@;
                        assert(self.items@[j]@ == w@);
                    }
                }
                self.items.push(w);
                proof {
                    assert(self.elems() =~= views_of(prev).push(w@));
                    assert forall|i: int, j: int|
                        0 <= i < j < self.elems().len() implies self.elems()[i]
                        != self.elems()[j] by {
                        if j < views_of(prev).len() {
                        } else {
                            assert(self.elems()[j] == w@);
                            assert(views_of(prev)[i] == prev[i]@);
                            assert(views_of(prev)[i] != w@);
                        }
                    }
                    lemma_push_to_set(views_of(prev), w@);
                }
            },
        }
    }
}

/// The one-character string holding letter `j` of the alphabet.
fn letter(j: usize) -> (r: &'static str)
    requires
        j < 26,
    ensures
        r@.len() == 1,
        r@ == seq![alphabet()[j as int]],
{
    let a: &'static str = "abcdefghijklmnopqrstuvwxyz";
    proof {
        reveal_strlit("abcdefghijklmnopqrstuvwxyz");
        assert(a@.subrange(j as int, j + 1) =~= seq![alphabet()[j as int]]);
    }
    a.substring_char(j, j + 1)
}

/// Adds the deletion of the character at `i`.
fn add_delete(set: &mut EditSet, word: &str, i: usize, n: usize)
    requires
        old(set).wf(),
        n == word@.len(),
        i < n,
    ensures
        final(set).wf(),
        final(set)@ == old(set)@.insert(delete_at(word@, i as int)),
{
    let mut s = String::from_str(word.substring_char(0, i));
    s.append(word.substring_char(i + 1, n));
    proof {
        assert(s@ =~= delete_at(word@, i as int));
    }
    set.insert(s);
}

/// Adds the transposition of the characters at `i` and `i + 1`.
fn add_transpose(set: &mut EditSet, word: &str, i: usize, n: usize)
    requires
        old(set).wf(),
        n == word@.len(),
        i + 1 < n,
    ensures
        final(set).wf(),
        final(set)@ == old(set)@.insert(transpose_at(word@, i as int)),
{
    let mut s = String::from_str(word.substring_char(0, i));
    s.append(word.substring_char(i + 1, i + 2));
    s.append(word.substring_char(i, i + 1));
    s.append(word.substring_char(i + 2, n));
    proof {
        assert(s@ =~= transpose_at(word@, i as int));
    }
    set.insert(s);
}

/// Adds the 26 replacements of the character at `i`.
fn add_replacements(set: &mut EditSet, word: &str, i: usize, n: usize)
    requires
        old(set).wf(),
        n == word@.len(),
        i < n,
    ensures
        final(set).wf(),
        final(set)@ == old(set)@.union(replace_set_at(word@, i as int)),
{
    let ghost w = word@;
    let ghost start = set@;
    let a = word.substring_char(0, i);
    let b = word.substring_char(i + 1, n);
    proof {
        assert(set@ =~= start.union(replace_set_upto(w, i as int, 0))) by {
            assert(forall|s: Seq<char>|
                !(#[trigger] replace_set_upto(w, i as int, 0).contains(s)));
        }
    }
    let mut j: usize = 0;
    while j < 26
        invariant
            j <= 26,
            set.wf(),
            n == word@.len(),
            w == word@,
            i < n,
            a@ == w.subrange(0, i as int),
            b@ == w.subrange(i + 1, n as int),
            set@ == start.union(replace_set_upto(w, i as int, j as int)),
        decreases 26 - j,
    {
        let mut s = String::from_str(a);
        s.append(letter(j));
        s.append(b);
        proof {
            assert(s@ =~= replace_at(w, i as int, alphabet()[j as int]));
            lemma_replace_upto_step(w, i as int, j as int);
            assert(start.union(replace_set_upto(w, i as int, j as int)).insert(s@)
                =~= start.union(replace_set_upto(w, i as int, j + 1)));
        }
        set.insert(s);
        j = j + 1;
    }
    proof {
        lemma_replace_upto_full(w, i as int);
    }
}

/// Adds the 26 insertions before position `i`; `i` may equal the length.
fn add_insertions(set: &mut EditSet, word: &str, i: usize, n: usize)
    requires
        old(set).wf(),
        n == word@.len(),
        i <= n,
    ensures
        final(set).wf(),
        final(set)@ == old(set)@.union(insert_set_at(word@, i as int)),
{
    let ghost w = word@;
    let ghost start = set@;
    let a = word.substring_char(0, i);
    let b = word.substring_char(i, n);
    proof {
        assert(set@ =~= start.union(insert_set_upto(w, i as int, 0))) by {
            assert(forall|s: Seq<char>| !(#[trigger] insert_set_upto(w, i as int, 0).contains(s)));
        }
    }
    let mut j: usize = 0;
    while j < 26
        invariant
            j <= 26,
            set.wf(),
            n == word@.len(),
            w == word@,
            i <= n,
            a@ == w.subrange(0, i as int),
            b@ == w.subrange(i as int, n as int),
            set@ == start.union(insert_set_upto(w, i as int, j as int)),
        decreases 26 - j,
    {
        let mut s = String::from_str(a);
        s.append(letter(j));
        s.append(b);
        proof {
            assert(s@ =~= insert_at(w, i as int, alphabet()[j as int]));
            lemma_insert_upto_step(w, i as int, j as int);
            assert(start.union(insert_set_upto(w, i as int, j as int)).insert(s@)
                =~= start.union(insert_set_upto(w, i as int, j + 1)));
        }
        set.insert(s);
        j = j + 1;
    }
    proof {
        lemma_insert_upto_full(w, i as int);
    }
}

proof fn lemma_replace_upto_step(w: Seq<char>, i: int, j: int)
    requires
        0 <= j,
    ensures
        replace_set_upto(w, i, j + 1) == replace_set_upto(w, i, j).insert(
            replace_at(w, i, alphabet()[j]),
        ),
{
    let lhs = replace_set_upto(w, i, j + 1);
    let rhs = replace_set_upto(w, i, j).insert(replace_at(w, i, alphabet()[j]));
    assert forall|s: Seq<char>| lhs.contains(s) implies rhs.contains(s) by {
        let jj = choose|jj: int| 0 <= jj < j + 1 && s == replace_at(w, i, alphabet()[jj]);
        if jj < j {
            assert(replace_set_upto(w, i, j).contains(s));
        }
    }
    assert forall|s: Seq<char>| rhs.contains(s) implies lhs.contains(s) by {
        if s == replace_at(w, i, alphabet()[j]) {
            assert(0 <= j < j + 1 && s == replace_at(w, i, alphabet()[j]));
        } else {
            let jj = choose|jj: int| 0 <= jj < j && s == replace_at(w, i, alphabet()[jj]);
            assert(0 <= jj < j + 1 && s == replace_at(w, i, alphabet()[jj]));
        }
    }
    assert(lhs =~= rhs);
}

proof fn lemma_insert_upto_step(w: Seq<char>, i: int, j: int)
    requires
        0 <= j,
    ensures
        insert_set_upto(w, i, j + 1) == insert_set_upto(w, i, j).insert(
            insert_at(w, i, alphabet()[j]),
        ),
{
    let lhs = insert_set_upto(w, i, j + 1);
    let rhs = insert_set_upto(w, i, j).insert(insert_at(w, i, alphabet()[j]));
    assert forall|s: Seq<char>| lhs.contains(s) implies rhs.contains(s) by {
        let jj = choose|jj: int| 0 <= jj < j + 1 && s == insert_at(w, i, alphabet()[jj]);
        if jj < j {
            assert(insert_set_upto(w, i, j).contains(s));
        }
    }
    assert forall|s: Seq<char>| rhs.contains(s) implies lhs.contains(s) by {
        if s == insert_at(w, i, alphabet()[j]) {
            assert(0 <= j < j + 1 && s == insert_at(w, i, alphabet()[j]));
        } else {
            let jj = choose|jj: int| 0 <= jj < j && s == insert_at(w, i, alphabet()[jj]);
            assert(0 <= jj < j + 1 && s == insert_at(w, i, alphabet()[jj]));
        }
    }
    assert(lhs =~= rhs);
}

proof fn lemma_replace_upto_full(w: Seq<char>, i: int)
    ensures
        replace_set_upto(w, i, 26) == replace_set_at(w, i),
{
    reveal_strlit("abcdefghijklmnopqrstuvwxyz");
    assert(alphabet().len() == 26);
    assert forall|s: Seq<char>| replace_set_upto(w, i, 26).contains(s)
        implies replace_set_at(w, i).contains(s) by {
        let jj = choose|jj: int| 0 <= jj < 26 && s == replace_at(w, i, alphabet()[jj]);
        assert(alphabet().contains(alphabet()[jj]));
    }
    assert forall|s: Seq<char>| replace_set_at(w, i).contains(s) implies replace_set_upto(
        w,
        i,
        26,
    ).contains(s) by {
        let c = choose|c: char| alphabet().contains(c) && s == replace_at(w, i, c);
        let jj = choose|jj: int| 0 <= jj < alphabet().len() && alphabet()[jj] == c;
        assert(0 <= jj < 26 && s == replace_at(w, i, alphabet()[jj]));
    }
    assert(replace_set_upto(w, i, 26) =~= replace_set_at(w, i));
}

proof fn lemma_insert_upto_full(w: Seq<char>, i: int)
    ensures
        insert_set_upto(w, i, 26) == insert_set_at(w, i),
{
    reveal_strlit("abcdefghijklmnopqrstuvwxyz");
    assert(alphabet().len() == 26);
    assert forall|s: Seq<char>| insert_set_upto(w, i, 26).contains(s) implies insert_set_at(
        w,
        i,
    ).contains(s) by {
        let jj = choose|jj: int| 0 <= jj < 26 && s == insert_at(w, i, alphabet()[jj]);
        assert(alphabet().contains(alphabet()[jj]));
    }
    assert forall|s: Seq<char>| insert_set_at(w, i).contains(s) implies insert_set_upto(
        w,
        i,
        26,
    ).contains(s) by {
        let c = choose|c: char| alphabet().contains(c) && s == insert_at(w, i, c);
        let jj = choose|jj: int| 0 <= jj < alphabet().len() && alphabet()[jj] == c;
        assert(0 <= jj < 26 && s == insert_at(w, i, alphabet()[jj]));
    }
    assert(insert_set_upto(w, i, 26) =~= insert_set_at(w, i));
}

/// What split point `i` contributes to the edit set.
spec fn split_contrib(w: Seq<char>, i: int) -> Set<Seq<char>> {
    Set::new(
        |s: Seq<char>|
            {
                ||| (i < w.len() && s == delete_at(w, i))
                ||| (i < w.len() && replace_set_at(w, i).contains(s))
                ||| (i + 1 < w.len() && s == transpose_at(w, i))
                ||| (i <= w.len() && insert_set_at(w, i).contains(s))
            },
    )
}

proof fn lemma_edits_upto_step(w: Seq<char>, k: int)
    requires
        0 <= k,
    ensures
        edits_upto(w, k + 1) == edits_upto(w, k).union(split_contrib(w, k)),
{
    let lhs = edits_upto(w, k + 1);
    let rhs = edits_upto(w, k).union(split_contrib(w, k));
    assert forall|s: Seq<char>| lhs.contains(s) implies rhs.contains(s) by {
        if exists|i: int| 0 <= i < k + 1 && i < w.len() && s == delete_at(w, i) {
            let i = choose|i: int| 0 <= i < k + 1 && i < w.len() && s == delete_at(w, i);
            if i < k {
                assert(is_edit1_upto(w, s, k));
            } else {
                assert(split_contrib(w, k).contains(s));
            }
        } else if exists|i: int, c: char|
            #![trigger replace_at(w, i, c)]
            0 <= i < k + 1 && i < w.len() && alphabet().contains(c) && s == replace_at(w, i, c) {
            let (i, c) = choose|i: int, c: char|
                #![trigger replace_at(w, i, c)]
                0 <= i < k + 1 && i < w.len() && alphabet().contains(c) && s == replace_at(w, i, c);
            if i < k {
                assert(is_edit1_upto(w, s, k));
            } else {
                assert(replace_set_at(w, k).contains(s));
                assert(split_contrib(w, k).contains(s));
            }
        } else if exists|i: int| 0 <= i < k + 1 && i + 1 < w.len() && s == transpose_at(w, i) {
            let i = choose|i: int| 0 <= i < k + 1 && i + 1 < w.len() && s == transpose_at(w, i);
            if i < k {
                assert(is_edit1_upto(w, s, k));
            } else {
                assert(split_contrib(w, k).contains(s));
            }
        } else {
            let (i, c) = choose|i: int, c: char|
                #![trigger insert_at(w, i, c)]
                0 <= i < k + 1 && i <= w.len() && alphabet().contains(c) && s == insert_at(w, i, c);
            if i < k {
                assert(is_edit1_upto(w, s, k));
            } else {
                assert(insert_set_at(w, k).contains(s));
                assert(split_contrib(w, k).contains(s));
            }
        }
    }
    assert forall|s: Seq<char>| rhs.contains(s) implies lhs.contains(s) by {
        if edits_upto(w, k).contains(s) {
            assert(is_edit1_upto(w, s, k));
            assert(is_edit1_upto(w, s, k + 1));
        } else {
            assert(split_contrib(w, k).contains(s));
            if k < w.len() && s == delete_at(w, k) {
                assert(is_edit1_upto(w, s, k + 1));
            } else if k < w.len() && replace_set_at(w, k).contains(s) {
                let c = choose|c: char| alphabet().contains(c) && s == replace_at(w, k, c);
                assert(is_edit1_upto(w, s, k + 1));
            } else if k + 1 < w.len() && s == transpose_at(w, k) {
                assert(is_edit1_upto(w, s, k + 1));
            } else {
                let c = choose|c: char| alphabet().contains(c) && s == insert_at(w, k, c);
                assert(is_edit1_upto(w, s, k + 1));
            }
        }
    }
    assert(lhs =~= rhs);
}

proof fn lemma_edits_upto_full(w: Seq<char>)
    ensures
        edits_upto(w, w.len() as int).union(insert_set_at(w, w.len() as int)) == edits1_set(w),
{
    let n = w.len() as int;
    let lhs = edits_upto(w, n).union(insert_set_at(w, n));
    assert forall|s: Seq<char>| lhs.contains(s) implies edits1_set(w).contains(s) by {
        if edits_upto(w, n).contains(s) {
            assert(is_edit1_upto(w, s, n));
            assert(is_edit1(w, s));
        } else {
            let c = choose|c: char| alphabet().contains(c) && s == insert_at(w, n, c);
            assert(0 <= n <= w.len() && alphabet().contains(c) && s == insert_at(w, n, c));
            assert(is_edit1(w, s));
        }
    }
    assert forall|s: Seq<char>| edits1_set(w).contains(s) implies lhs.contains(s) by {
        if exists|i: int| 0 <= i < w.len() && s == delete_at(w, i) {
            assert(is_edit1_upto(w, s, n));
        } else if exists|i: int, c: char|
            #![trigger replace_at(w, i, c)]
            0 <= i < w.len() && alphabet().contains(c) && s == replace_at(w, i, c) {
            assert(is_edit1_upto(w, s, n));
        } else if exists|i: int| 0 <= i && i + 1 < w.len() && s == transpose_at(w, i) {
            assert(is_edit1_upto(w, s, n));
        } else {
            let (i, c) = choose|i: int, c: char|
                #![trigger insert_at(w, i, c)]
                0 <= i <= w.len() && alphabet().contains(c) && s == insert_at(w, i, c);
            if i < n {
                assert(is_edit1_upto(w, s, n));
            } else {
                assert(insert_set_at(w, n).contains(s));
            }
        }
    }
    assert(lhs =~= edits1_set(w));
}

/// All strings reachable from `word` by one primitive edit over the 26-letter
/// alphabet: every deletion of one character, every replacement of one
/// character by an alphabet letter, every transposition of two adjacent
/// characters, and every insertion of an alphabet letter at any position.
pub fn edits1(word: &str) -> (r: EditSet)
    ensures
        r.wf(),
        r@ == edits1_set(word@),
{
    let ghost w = word@;
    let n: usize = word.unicode_len();
    let mut r = EditSet::new();
    proof {
        assert(r@ =~= edits_upto(w, 0)) by {
            assert(forall|s: Seq<char>| !(#[trigger] edits_upto(w, 0).contains(s)));
        }
    }
    let mut i: usize = 0;
    while i < n
        invariant
            i <= n,
            n == w.len(),
            w == word@,
            r.wf(),
            r@ == edits_upto(w, i as int),
        decreases n - i,
    {
        let ghost before = r@;
        add_delete(&mut r, word, i, n);
        add_replacements(&mut r, word, i, n);
        if i + 1 < n {
            add_transpose(&mut r, word, i, n);
        }
        add_insertions(&mut r, word, i, n);
        proof {
            lemma_edits_upto_step(w, i as int);
            if i + 1 < n {
                assert(before.insert(delete_at(w, i as int)).union(
                    replace_set_at(w, i as int),
                ).insert(transpose_at(w, i as int)).union(insert_set_at(w, i as int))
                    =~= before.union(split_contrib(w, i as int)));
            } else {
                assert(r@ =~= before.insert(delete_at(w, i as int)).union(
                    replace_set_at(w, i as int),
                ).union(insert_set_at(w, i as int)));
                assert forall|s: Seq<char>| split_contrib(w, i as int).contains(s)
                    && s != delete_at(w, i as int) && !replace_set_at(w, i as int).contains(s)
                    implies insert_set_at(w, i as int).contains(s) by {
                    assert(!(i + 1 < w.len()));
                }
                assert(before.insert(delete_at(w, i as int)).union(
                    replace_set_at(w, i as int),
                ).union(insert_set_at(w, i as int)) =~= before.union(split_contrib(w, i as int)));
            }
        }
        i = i + 1;
    }
    add_insertions(&mut r, word, n, n);
    proof {
        lemma_edits_upto_full(w);
    }
    r
}

/// Every member of the edit set of `w` has length within one of the length of
/// `w`: a deletion is one shorter, a replacement or transposition keeps the
/// length, and an insertion is one longer.
pub proof fn lemma_edits1_lengths(w: Seq<char>)
    ensures
        forall|s: Seq<char>| #[trigger]
            edits1_set(w).contains(s) ==> w.len() - 1 <= s.len() <= w.len() + 1,
{
    assert forall|s: Seq<char>| #[trigger] edits1_set(w).contains(s) implies w.len() - 1 <= s.len()
        <= w.len() + 1 by {
        if exists|i: int| 0 <= i < w.len() && s == delete_at(w, i) {
            let i = choose|i: int| 0 <= i < w.len() && s == delete_at(w, i);
            assert(s.len() == w.len() - 1);
        } else if exists|i: int, c: char|
            #![trigger replace_at(w, i, c)]
            0 <= i < w.len() && alphabet().contains(c) && s == replace_at(w, i, c) {
            assert(s.len() == w.len());
        } else if exists|i: int| 0 <= i && i + 1 < w.len() && s == transpose_at(w, i) {
            assert(s.len() == w.len());
        } else {
            let (i, c) = choose|i: int, c: char|
                #![trigger insert_at(w, i, c)]
                0 <= i <= w.len() && alphabet().contains(c) && s == insert_at(w, i, c);
            assert(s.len() == w.len() + 1);
        }
    }
}

/// The alphabet holds exactly the 26 lowercase ASCII letters, in order.
pub proof fn lemma_alphabet_chars()
    ensures
        alphabet().len() == 26,
        forall|k: int| 0 <= k < 26 ==> (#[trigger] alphabet()[k]) as u32 == 97 + k,
{
    reveal_strlit("abcdefghijklmnopqrstuvwxyz");
    assert forall|k: int| 0 <= k < 26 implies (#[trigger] alphabet()[k]) as u32 == 97 + k by {
        if k == 0 {
            assert(alphabet()[0] == 'a');
        }
        if k == 1 {
            assert(alphabet()[1] == 'b');
        }
        if k == 2 {
            assert(alphabet()[2] == 'c');
        }
        if k == 3 {
            assert(alphabet()[3] == 'd');
        }
        if k == 4 {
            assert(alphabet()[4] == 'e');
        }
        if k == 5 {
            assert(alphabet()[5] == 'f');
        }
        if k == 6 {
            assert(alphabet()[6] == 'g');
        }
        if k == 7 {
            assert(alphabet()[7] == 'h');
        }
        if k == 8 {
            assert(alphabet()[8] == 'i');
        }
        if k == 9 {
            assert(alphabet()[9] == 'j');
        }
        if k == 10 {
            assert(alphabet()[10] == 'k');
        }
        if k == 11 {
            assert(alphabet()[11] == 'l');
        }
        if k == 12 {
            assert(alphabet()[12] == 'm');
        }
        if k == 13 {
            assert(alphabet()[13] == 'n');
        }
        if k == 14 {
            assert(alphabet()[14] == 'o');
        }
        if k == 15 {
            assert(alphabet()[15] == 'p');
        }
        if k == 16 {
            assert(alphabet()[16] == 'q');
        }
        if k == 17 {
            assert(alphabet()[17] == 'r');
        }
        if k == 18 {
            assert(alphabet()[18] == 's');
        }
        if k == 19 {
            assert(alphabet()[19] == 't');
        }
        if k == 20 {
            assert(alphabet()[20] == 'u');
        }
        if k == 21 {
            assert(alphabet()[21] == 'v');
        }
        if k == 22 {
            assert(alphabet()[22] == 'w');
        }
        if k == 23 {
            assert(alphabet()[23] == 'x');
        }
        if k == 24 {
            assert(alphabet()[24] == 'y');
        }
        if k == 25 {
            assert(alphabet()[25] == 'z');
        }
    }
}

/// A character is an alphabet letter exactly when it is a lowercase ASCII
/// letter.
pub proof fn lemma_alphabet_contains(c: char)
    ensures
        alphabet().contains(c) <==> crate::text::is_lower_char(c),
{
    lemma_alphabet_chars();
    if alphabet().contains(c) {
        let k = choose|k: int| 0 <= k < alphabet().len() && alphabet()[k] == c;
        assert(c as u32 == 97 + k);
    }
    if crate::text::is_lower_char(c) {
        let k: int = c as u32 - 97;
        assert(alphabet()[k] as u32 == 97 + k);
        assert(alphabet()[k] as u32 == c as u32);
        vstd::utf8::char_u32_cast(alphabet()[k], alphabet()[k] as u32);
        vstd::utf8::char_u32_cast(c, c as u32);
        assert(alphabet().contains(c));
    }
}

/// A non-empty lowercase word is a member of its own edit set: replacing its
/// first character by the same letter leaves it unchanged.
pub proof fn lemma_word_in_own_edits(w: Seq<char>)
    requires
        w.len() > 0,
        crate::text::all_lower(w),
    ensures
        edits1_set(w).contains(w),
{
    lemma_alphabet_contains(w[0]);
    assert(replace_at(w, 0, w[0]) =~= w);
    assert(is_edit1(w, w));
}

proof fn lemma_push_to_set(s: Seq<Seq<char>>, x: Seq<char>)
    ensures
        s.push(x).to_set() == s.to_set().insert(x),
{
    assert forall|y: Seq<char>| s.push(x).to_set().contains(y) implies s.to_set().insert(
        x,
    ).contains(y) by {
        let i = choose|i: int| 0 <= i < s.push(x).len() && s.push(x)[i] == y;
        if i < s.len() {
            assert(s[i] == y);
            assert(s.contains(y));
        }
    }
    assert forall|y: Seq<char>| s.to_set().insert(x).contains(y) implies s.push(x).to_set().contains(
        y,
    ) by {
        if y == x {
            assert(s.push(x)[s.len() as int] == y);
            assert(s.push(x).contains(y));
        } else {
            let i = choose|i: int| 0 <= i < s.len() && s[i] == y;
            assert(s.push(x)[i] == y);
            assert(s.push(x).contains(y));
        }
    }
    assert(s.push(x).to_set() =~= s.to_set().insert(x));
}

} // verus!
