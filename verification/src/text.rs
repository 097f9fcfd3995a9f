//! Tokenization: extracting the maximal runs of lowercase ASCII letters from a
//! text, and the character-level helpers the rest of the crate builds on.

use vstd::prelude::*;
use vstd::string::*;

verus! {

/// A lowercase ASCII letter, `'a'` through `'z'`.
pub open spec fn is_lower_char(c: char) -> bool {
    97 <= c as u32 <= 122
}

/// Every character of `s` is a lowercase ASCII letter.
pub open spec fn all_lower(s: Seq<char>) -> bool {
    forall|i: int| 0 <= i < s.len() ==> is_lower_char(s[i])
}

/// The views of a sequence of owned strings.
pub open spec fn views_of(ss: Seq<String>) -> Seq<Seq<char>> {
    ss.map_values(|s: String| s@)
}

/// The words of `rest`, given that the letters of `cur` immediately precede
/// `rest` and form the (possibly empty) run read so far.
pub open spec fn tok(cur: Seq<char>, rest: Seq<char>) -> Seq<Seq<char>>
    decreases rest.len(),
{
    if rest.len() == 0 {
        if cur.len() == 0 {
            Seq::empty()
        } else {
            seq![cur]
        }
    } else if is_lower_char(rest[0]) {
        tok(cur.push(rest[0]), rest.skip(1))
    } else if cur.len() == 0 {
        tok(cur, rest.skip(1))
    } else {
        seq![cur] + tok(Seq::<char>::empty(), rest.skip(1))
    }
}

/// The maximal runs of lowercase ASCII letters in `text`, in order of
/// appearance; every other character acts as a separator.
pub open spec fn words_of(text: Seq<char>) -> Seq<Seq<char>> {
    tok(Seq::empty(), text)
}

/// Each extracted word is non-empty and consists of lowercase letters only.
pub proof fn lemma_words_lowercase(text: Seq<char>)
    ensures
        forall|k: int|
            0 <= k < words_of(text).len() ==> (#[trigger] words_of(text)[k]).len() > 0
                && all_lower(words_of(text)[k]),
{
    lemma_tok_lowercase(Seq::empty(), text);
}

proof fn lemma_tok_lowercase(cur: Seq<char>, rest: Seq<char>)
    requires
        all_lower(cur),
    ensures
        forall|k: int|
            0 <= k < tok(cur, rest).len() ==> (#[trigger] tok(cur, rest)[k]).len() > 0 && all_lower(
                tok(cur, rest)[k],
            ),
    decreases rest.len(),
{
    if rest.len() == 0 {
        if cur.len() > 0 {
            assert(tok(cur, rest) == seq![cur]);
            assert(tok(cur, rest)[0] == cur);
        }
    } else if is_lower_char(rest[0]) {
        assert(all_lower(cur.push(rest[0])));
        lemma_tok_lowercase(cur.push(rest[0]), rest.skip(1));
        assert(tok(cur, rest) == tok(cur.push(rest[0]), rest.skip(1)));
    } else if cur.len() == 0 {
        lemma_tok_lowercase(cur, rest.skip(1));
        assert(tok(cur, rest) == tok(cur, rest.skip(1)));
    } else {
        lemma_tok_lowercase(Seq::empty(), rest.skip(1));
        assert forall|k: int| 0 <= k < tok(cur, rest).len() implies (#[trigger] tok(cur, rest)[k]).len()
            > 0 && all_lower(tok(cur, rest)[k]) by {
            assert(tok(cur, rest) == seq![cur] + tok(Seq::<char>::empty(), rest.skip(1)));
            if k > 0 {
                assert(tok(cur, rest)[k] == tok(Seq::<char>::empty(), rest.skip(1))[k - 1]);
            } else {
                assert(tok(cur, rest)[0] == cur);
            }
        }
    }
}

/// There are never more words than characters.
pub proof fn lemma_words_count(text: Seq<char>)
    ensures
        words_of(text).len() <= text.len(),
{
    lemma_tok_count(Seq::empty(), text);
}

proof fn lemma_tok_count(cur: Seq<char>, rest: Seq<char>)
    ensures
        tok(cur, rest).len() <= (if cur.len() == 0 {
            0int
        } else {
            1int
        }) + rest.len(),
    decreases rest.len(),
{
    if rest.len() == 0 {
    } else if is_lower_char(rest[0]) {
        lemma_tok_count(cur.push(rest[0]), rest.skip(1));
    } else if cur.len() == 0 {
        lemma_tok_count(cur, rest.skip(1));
    } else {
        lemma_tok_count(Seq::empty(), rest.skip(1));
    }
}

/// A character outside the lowercase letters acts purely as a separator: the
/// words of a text split at it are the words of the two parts.
pub proof fn lemma_words_separator(a: Seq<char>, c: char, b: Seq<char>)
    requires
        !is_lower_char(c),
    ensures
        words_of(a + seq![c] + b) == words_of(a) + words_of(b),
{
    lemma_tok_separator(Seq::empty(), a, c, b);
}

proof fn lemma_tok_separator(cur: Seq<char>, a: Seq<char>, c: char, b: Seq<char>)
    requires
        !is_lower_char(c),
    ensures
        tok(cur, a + seq![c] + b) == tok(cur, a) + words_of(b),
    decreases a.len(),
{
    let whole = a + seq![c] + b;
    if a.len() == 0 {
        assert(whole =~= seq![c] + b);
        assert(whole[0] == c);
        assert(whole.skip(1) =~= b);
        if cur.len() == 0 {
            assert(cur =~= Seq::<char>::empty());
            assert(tok(cur, whole) == tok(cur, b));
            assert(tok(cur, a) =~= Seq::<Seq<char>>::empty());
            assert(tok(cur, a) + words_of(b) =~= words_of(b));
        } else {
            assert(tok(cur, whole) == seq![cur] + tok(Seq::<char>::empty(), b));
            assert(tok(cur, a) == seq![cur]);
        }
    } else {
        assert(whole[0] == a[0]);
        assert(whole.skip(1) =~= a.skip(1) + seq![c] + b);
        if is_lower_char(a[0]) {
            lemma_tok_separator(cur.push(a[0]), a.skip(1), c, b);
        } else if cur.len() == 0 {
            lemma_tok_separator(cur, a.skip(1), c, b);
        } else {
            lemma_tok_separator(Seq::empty(), a.skip(1), c, b);
            assert(tok(cur, whole) == seq![cur] + (tok(Seq::<char>::empty(), a.skip(1))
                + words_of(b)));
            assert(tok(cur, a) == seq![cur] + tok(Seq::<char>::empty(), a.skip(1)));
            assert(seq![cur] + (tok(Seq::<char>::empty(), a.skip(1)) + words_of(b)) =~= (seq![cur]
                + tok(Seq::<char>::empty(), a.skip(1))) + words_of(b));
        }
    }
}

/// A non-empty text of lowercase letters only is a single maximal run: it is
/// tokenized as exactly one word, itself.
pub proof fn lemma_words_single_run(s: Seq<char>)
    requires
        s.len() > 0,
        all_lower(s),
    ensures
        words_of(s) == seq![s],
{
    lemma_tok_all_lower(Seq::empty(), s);
    assert(Seq::<char>::empty() + s =~= s);
}

proof fn lemma_tok_all_lower(cur: Seq<char>, rest: Seq<char>)
    requires
        all_lower(rest),
        cur.len() + rest.len() > 0,
    ensures
        tok(cur, rest) == seq![cur + rest],
    decreases rest.len(),
{
    if rest.len() == 0 {
        assert(cur + rest =~= cur);
    } else {
        assert(all_lower(rest.skip(1)));
        lemma_tok_all_lower(cur.push(rest[0]), rest.skip(1));
        assert(cur.push(rest[0]) + rest.skip(1) =~= cur + rest);
    }
}

/// Character-by-character string comparison.
pub(crate) fn str_eq(a: &str, b: &str) -> (r: bool)
    ensures
        r == (a@ == b@),
{
    let la: usize = a.unicode_len();
    let lb: usize = b.unicode_len();
    if la != lb {
        return false;
    }
    let mut i: usize = 0;
    while i < la
        invariant
            i <= la,
            la == a@.len(),
            la == b@.len(),
            forall|j: int| 0 <= j < i ==> a@[j] == b@[j],
        decreases la - i,
    {
        if a.get_char(i) != b.get_char(i) {
            return false;
        }
        i = i + 1;
    }
    proof {
        assert(a@ =~= b@);
    }
    true
}

/// The least index whose word reads as `w`, if one exists.
pub(crate) fn find_in(ws: &Vec<String>, w: &str) -> (r: Option<usize>)
    ensures
        match r {
            Some(i) => i < ws@.len() && ws@[i as int]@ == w@,
            None => forall|j: int| 0 <= j < ws@.len() ==> ws@[j]@ != w@,
        },
{
    let n: usize = ws.len();
    let mut i: usize = 0;
    while i < n
        invariant
            i <= n,
            n == ws@.len(),
            forall|j: int| 0 <= j < i ==> ws@[j]@ != w@,
        decreases n - i,
    {
        if str_eq(ws[i].as_str(), w) {
            return Some(i);
        }
        i = i + 1;
    }
    None
}

/// Extracts every maximal run of lowercase ASCII letters of `corpus` as one
/// word, in left-to-right order, duplicates preserved; all other characters
/// only separate words and are dropped.
pub fn get_words(corpus: &str) -> (words: Vec<String>)
    ensures
        views_of(words@) == words_of(corpus@),
{
    let n: usize = corpus.unicode_len();
    let mut words: Vec<String> = Vec::new();
    let mut cur: String = String::new();
    let mut i: usize = 0;
    proof {
        assert(corpus@.skip(0) =~= corpus@);
        assert(views_of(words@) =~= Seq::<Seq<char>>::empty());
        assert(views_of(words@) + tok(cur@, corpus@) =~= tok(cur@, corpus@));
    }
    while i < n
        invariant
            i <= n,
            n == corpus@.len(),
            views_of(words@) + tok(cur@, corpus@.skip(i as int)) == words_of(corpus@),
        decreases n - i,
    {
        let ghost prev_words = words@;
        let ghost prev_cur = cur@;
        let ghost rest = corpus@.skip(i as int);
        let c = corpus.get_char(i);
        let u = c as u32;
        if 97 <= u && u <= 122 {
            let piece = corpus.substring_char(i, i + 1);
            cur.append(piece);
            proof {
                assert(rest[0] == c);
                assert(cur@ =~= prev_cur.push(c));
                assert(rest.skip(1) =~= corpus@.skip(i + 1));
            }
        } else {
            if !cur.as_str().is_empty() {
                words.push(cur);
                cur = String::new();
                proof {
                    assert(views_of(words@) =~= views_of(prev_words).push(prev_cur));
                    assert(rest.skip(1) =~= corpus@.skip(i + 1));
                    assert(views_of(prev_words) + (seq![prev_cur] + tok(
                        Seq::<char>::empty(),
                        corpus@.skip(i + 1),
                    )) =~= views_of(words@) + tok(cur@, corpus@.skip(i + 1)));
                }
            } else {
                proof {
                    assert(rest.skip(1) =~= corpus@.skip(i + 1));
                }
            }
        }
        i = i + 1;
    }
    proof {
        assert(corpus@.skip(n as int) =~= Seq::<char>::empty());
    }
    if !cur.as_str().is_empty() {
        let ghost prev_words = words@;
        let ghost prev_cur = cur@;
        words.push(cur);
        proof {
            assert(views_of(words@) =~= views_of(prev_words).push(prev_cur));
            assert(views_of(prev_words) + seq![prev_cur] =~= views_of(words@));
        }
    } else {
        proof {
            assert(views_of(words@) + tok(cur@, Seq::<char>::empty()) =~= views_of(words@));
        }
    }
    words
}

} // verus!
