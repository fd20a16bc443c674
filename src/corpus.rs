use std::collections::HashMap;
use vstd::prelude::*;

use crate::layout::Layout;

verus! {

broadcast use vstd::std_specs::hash::group_hash_axioms;

/// An index into a `Corpus` table of bigrams, skipgrams or trigrams.
pub type CorpusIndex = usize;

/// An interned character. Index 0 is the sentinel for "no character".
pub type CorpusChar = CorpusIndex;

/// The kind of n-gram a metric draws its frequencies from.
#[derive(Copy, Clone, Debug, PartialEq, Eq, Structural)]
pub enum NgramType {
    Monogram,
    Bigram,
    Skipgram,
    Trigram,
}

/// N-gram frequency tables over an interned alphabet.
///
/// With `N` the alphabet size (sentinel included), the tables are flat:
/// `chars[c]`, `bigrams[c1 * N + c2]`, `skipgrams[c1 * N + c2]` (pairs with
/// exactly one character between them) and
/// `trigrams[c1 * N * N + c2 * N + c3]`.
pub struct Corpus {
    /// Maps the scalar value of each alphabet character to its index.
    pub char_map: HashMap<u32, CorpusChar>,
    pub char_list: Vec<Vec<char>>,
    pub chars: Vec<u32>,
    pub bigrams: Vec<u32>,
    pub skipgrams: Vec<u32>,
    pub trigrams: Vec<u32>,
}

/// Index of the last list in `lists` that holds `c`, or -1 when none does.
pub open spec fn last_holding(lists: Seq<Seq<char>>, c: char) -> int
    decreases lists.len(),
{
    if lists.len() == 0 {
        -1
    } else if lists.last().contains(c) {
        lists.len() - 1
    } else {
        last_holding(lists.drop_last(), c)
    }
}

/// Flat index of the ordered pair `(c1, c2)` over an alphabet of size `n`.
pub open spec fn pair_index(n: int, c1: int, c2: int) -> int {
    c1 * n + c2
}

/// Flat index of the ordered triple `(c1, c2, c3)` over an alphabet of size `n`.
pub open spec fn triple_index(n: int, c1: int, c2: int, c3: int) -> int {
    c1 * n * n + c2 * n + c3
}

/// Number of prefixes of `ids` (the empty one excluded) whose end satisfies `hit`.
pub open spec fn count_ends(ids: Seq<Option<usize>>, hit: spec_fn(Seq<Option<usize>>) -> bool) -> nat
    decreases ids.len(),
{
    if ids.len() == 0 {
        0
    } else {
        count_ends(ids.drop_last(), hit) + if hit(ids) {
            1nat
        } else {
            0nat
        }
    }
}

/// Occurrences of `c` in `ids`.
pub open spec fn unigram_count(ids: Seq<Option<usize>>, c: usize) -> nat {
    count_ends(ids, |p: Seq<Option<usize>>| p.last() == Some(c))
}

/// Occurrences of `c1` immediately followed by `c2` in `ids`.
pub open spec fn bigram_count(ids: Seq<Option<usize>>, c1: usize, c2: usize) -> nat {
    count_ends(
        ids,
        |p: Seq<Option<usize>>| p.len() >= 2 && p[p.len() - 2] == Some(c1) && p.last() == Some(c2),
    )
}

/// Occurrences of `c1` followed by `c2` with exactly one element, of any
/// kind, between them.
pub open spec fn skipgram_count(ids: Seq<Option<usize>>, c1: usize, c2: usize) -> nat {
    count_ends(
        ids,
        |p: Seq<Option<usize>>| p.len() >= 3 && p[p.len() - 3] == Some(c1) && p.last() == Some(c2),
    )
}

/// Occurrences of `c1`, `c2`, `c3` in a row in `ids`.
pub open spec fn trigram_count(ids: Seq<Option<usize>>, c1: usize, c2: usize, c3: usize) -> nat {
    count_ends(
        ids,
        |p: Seq<Option<usize>>|
            p.len() >= 3 && p[p.len() - 3] == Some(c1) && p[p.len() - 2] == Some(c2) && p.last()
                == Some(c3),
    )
}

impl Corpus {
    /// Alphabet size, sentinel included.
    pub open spec fn size(&self) -> int {
        self.char_list@.len() as int
    }

    /// The alphabet as sequences of characters, one per interned index.
    pub open spec fn lists(&self) -> Seq<Seq<char>> {
        Seq::new(self.char_list@.len(), |i: int| self.char_list@[i]@)
    }

    /// The interned index of `c`, if the alphabet holds it. The sentinel
    /// list at index 0 interns nothing.
    pub open spec fn lookup(&self, c: char) -> Option<usize> {
        let k = last_holding(self.lists(), c);
        if k >= 1 {
            Some(k as usize)
        } else {
            None
        }
    }

    /// The interned index of `c`, with the sentinel for characters outside
    /// the alphabet.
    pub open spec fn id_of(&self, c: char) -> usize {
        match self.lookup(c) {
            Some(k) => k,
            None => 0,
        }
    }

    /// The text `s` as interned characters.
    pub open spec fn interned(&self, s: Seq<char>) -> Seq<Option<usize>> {
        s.map_values(|c: char| self.lookup(c))
    }

    /// The tables have the sizes the alphabet calls for, and the
    /// character map agrees with the alphabet.
    pub open spec fn wf(&self) -> bool {
        &&& self.tables_ok()
        &&& forall|c: char|
            #![trigger self.char_map@.contains_key(c as u32)]
            {
                &&& self.char_map@.contains_key(c as u32) <==> self.lookup(c) is Some
                &&& self.char_map@.contains_key(c as u32) ==> self.char_map@[c as u32]
                    == self.lookup(c)->0
            }
    }

    /// The tables have the sizes the alphabet calls for.
    pub open spec fn tables_ok(&self) -> bool {
        let n = self.size();
        &&& 1 <= n
        &&& n * n * n <= usize::MAX
        &&& self.chars@.len() == n
        &&& self.bigrams@.len() == n * n
        &&& self.skipgrams@.len() == n * n
        &&& self.trigrams@.len() == n * n * n
    }

    /// `c` is an interned character of this corpus.
    pub open spec fn valid_char(&self, c: int) -> bool {
        0 <= c < self.size()
    }
}

/// Pair indices over an alphabet of size `n` are in range and determine the pair.
pub proof fn lemma_pair_index(n: int, c1: int, c2: int, d1: int, d2: int)
    requires
        0 <= c1 < n,
        0 <= c2 < n,
        0 <= d1 < n,
        0 <= d2 < n,
    ensures
        0 <= pair_index(n, c1, c2) < n * n,
        pair_index(n, c1, c2) == pair_index(n, d1, d2) ==> c1 == d1 && c2 == d2,
{
    assert(0 <= c1 * n + c2 < n * n) by (nonlinear_arith)
        requires
            0 <= c1 < n,
            0 <= c2 < n,
    ;
    if c1 * n + c2 == d1 * n + d2 {
        assert(c1 == d1) by (nonlinear_arith)
            requires
                c1 * n + c2 == d1 * n + d2,
                0 <= c2 < n,
                0 <= d2 < n,
                0 <= c1,
                0 <= d1,
        ;
    }
}

/// Triple indices over an alphabet of size `n` are in range and determine the triple.
pub proof fn lemma_triple_index(n: int, c1: int, c2: int, c3: int, d1: int, d2: int, d3: int)
    requires
        0 <= c1 < n,
        0 <= c2 < n,
        0 <= c3 < n,
        0 <= d1 < n,
        0 <= d2 < n,
        0 <= d3 < n,
    ensures
        0 <= triple_index(n, c1, c2, c3) < n * n * n,
        triple_index(n, c1, c2, c3) == triple_index(n, d1, d2, d3) ==> c1 == d1 && c2 == d2 && c3
            == d3,
{
    assert(c1 * n * n + c2 * n + c3 == (c1 * n + c2) * n + c3) by (nonlinear_arith);
    assert(d1 * n * n + d2 * n + d3 == (d1 * n + d2) * n + d3) by (nonlinear_arith);
    assert(n * n * n == (n * n) * n) by (nonlinear_arith);
    lemma_pair_index(n, c1, c2, d1, d2);
    assert(0 <= (c1 * n + c2) * n + c3 < (n * n) * n) by (nonlinear_arith)
        requires
            0 <= c1 * n + c2 < n * n,
            0 <= c3 < n,
    ;
    if (c1 * n + c2) * n + c3 == (d1 * n + d2) * n + d3 {
        assert(c1 * n + c2 == d1 * n + d2) by (nonlinear_arith)
            requires
                (c1 * n + c2) * n + c3 == (d1 * n + d2) * n + d3,
                0 <= c3 < n,
                0 <= d3 < n,
                0 <= c1 * n + c2,
                0 <= d1 * n + d2,
        ;
    }
}

/// Distinct characters have distinct scalar values.
proof fn lemma_scalar_injective(x: char, y: char)
    ensures
        (x as u32) == (y as u32) ==> x == y,
{
}

impl Corpus {
    /// Makes an empty corpus over the given alphabet. Each inner list holds
    /// the characters that intern to one index; the sentinel list `['\0']`
    /// is put in front, so the list at position `i` gets index `i + 1`.
    /// Index 0 means "no character": it interns nothing, and characters
    /// outside every list are ignored when counting.
    #[must_use]
    pub fn with_char_list(mut char_list: Vec<Vec<char>>) -> (r: Self)
        requires
            (char_list.len() + 1) * (char_list.len() + 1) * (char_list.len() + 1) <= usize::MAX,
        ensures
            r.wf(),
            r.size() == char_list.len() + 1,
            r.char_list@[0]@ == seq!['\0'],
            forall|i: int| 0 <= i < char_list.len() ==> r.char_list@[i + 1]@ == char_list@[i]@,
            forall|k: int| 0 <= k < r.chars@.len() ==> r.chars@[k] == 0,
            forall|k: int| 0 <= k < r.bigrams@.len() ==> r.bigrams@[k] == 0,
            forall|k: int| 0 <= k < r.skipgrams@.len() ==> r.skipgrams@[k] == 0,
            forall|k: int| 0 <= k < r.trigrams@.len() ==> r.trigrams@[k] == 0,
    {
        let ghost given = char_list@;
        let mut list: Vec<Vec<char>> = vec![vec!['\0']];
        list.append(&mut char_list);
        let n = list.len();
        assert(n * n <= n * n * n) by (nonlinear_arith)
            requires
                n >= 1,
        ;
        let mut c = Corpus {
            char_map: HashMap::new(),
            char_list: list,
            chars: vec![0; n],
            bigrams: vec![0; n * n],
            skipgrams: vec![0; n * n],
            trigrams: vec![0; n * n * n],
        };
        let ghost lists = c.lists();
        proof {
            assert(lists.take(1).drop_last() =~= Seq::<Seq<char>>::empty());
            assert forall|ch: char| last_holding(lists.take(1), ch) < 1 by {
                assert(last_holding(lists.take(1).drop_last(), ch) == -1);
            }
        }
        let mut i: usize = 1;
        while i < n
            invariant
                n == c.char_list.len(),
                lists == c.lists(),
                c.char_list@ == list@,
                c.tables_ok(),
                forall|k: int| 0 <= k < c.chars@.len() ==> c.chars@[k] == 0,
                forall|k: int| 0 <= k < c.bigrams@.len() ==> c.bigrams@[k] == 0,
                forall|k: int| 0 <= k < c.skipgrams@.len() ==> c.skipgrams@[k] == 0,
                forall|k: int| 0 <= k < c.trigrams@.len() ==> c.trigrams@[k] == 0,
                1 <= i <= n,
                forall|ch: char|
                    #![trigger c.char_map@.contains_key(ch as u32)]
                    {
                        &&& c.char_map@.contains_key(ch as u32) <==> last_holding(
                            lists.take(i as int),
                            ch,
                        ) >= 1
                        &&& c.char_map@.contains_key(ch as u32) ==> c.char_map@[ch as u32]
                            == last_holding(lists.take(i as int), ch)
                    },
            decreases n - i,
        {
            let mut j: usize = 0;
            while j < c.char_list[i].len()
                invariant
                    n == c.char_list.len(),
                    lists == c.lists(),
                    c.char_list@ == list@,
                    c.tables_ok(),
                    forall|k: int| 0 <= k < c.chars@.len() ==> c.chars@[k] == 0,
                    forall|k: int| 0 <= k < c.bigrams@.len() ==> c.bigrams@[k] == 0,
                    forall|k: int| 0 <= k < c.skipgrams@.len() ==> c.skipgrams@[k] == 0,
                    forall|k: int| 0 <= k < c.trigrams@.len() ==> c.trigrams@[k] == 0,
                    1 <= i < n,
                    j <= lists[i as int].len(),
                    forall|ch: char|
                        #![trigger c.char_map@.contains_key(ch as u32)]
                        {
                            &&& c.char_map@.contains_key(ch as u32) <==> (last_holding(
                                lists.take(i as int),
                                ch,
                            ) >= 1 || lists[i as int].take(j as int).contains(ch))
                            &&& c.char_map@.contains_key(ch as u32) ==> c.char_map@[ch as u32]
                                == if lists[i as int].take(j as int).contains(ch) {
                                i as int
                            } else {
                                last_holding(lists.take(i as int), ch)
                            }
                        },
                decreases lists[i as int].len() - j,
            {
                let ch = c.char_list[i][j];
                c.char_map.insert(ch as u32, i);
                proof {
                    assert forall|x: char| #[trigger] (x as u32) == (ch as u32) implies x == ch by {
                        lemma_scalar_injective(x, ch);
                    }
                    let before = lists[i as int].take(j as int);
                    let after = lists[i as int].take(j as int + 1);
                    assert(after =~= before.push(ch));
                    assert forall|x: char| #[trigger] after.contains(x) <==> (before.contains(x) || x == ch) by {
                        if before.contains(x) {
                            let w = choose|w: int| 0 <= w < before.len() && before[w] == x;
                            assert(after[w] == x);
                        }
                        if x == ch {
                            assert(after[j as int] == x);
                        }
                        if after.contains(x) && x != ch {
                            let w = choose|w: int| 0 <= w < after.len() && after[w] == x;
                            assert(before[w] == x);
                        }
                    }
                }
                j += 1;
            }
            proof {
                assert(lists[i as int].take(j as int) =~= lists[i as int]);
                assert(lists.take(i as int + 1).drop_last() =~= lists.take(i as int));
                assert(lists.take(i as int + 1).last() == lists[i as int]);
            }
            i += 1;
        }
        proof {
            assert(lists.take(n as int) =~= lists);
            assert(c.char_list@[0]@ == seq!['\0']);
            assert forall|k: int| 0 <= k < given.len() implies c.char_list@[k + 1]@ == given[k]@ by {
                assert(c.char_list@[k + 1] == list@[k + 1]);
            }
        }
        c
    }

    /// The interned index of `c`, if the alphabet holds it.
    fn lookup_char(&self, c: char) -> (r: Option<CorpusChar>)
        requires
            self.wf(),
        ensures
            r == self.lookup(c),
    {
        let key: u32 = c as u32;
        assert(self.char_map@.contains_key(c as u32) ==> self.char_map@[c as u32] == self.lookup(
            c,
        )->0);
        match self.char_map.get(&key) {
            Some(k) => Some(*k),
            None => None,
        }
    }

    /// Counts the n-grams of `s` into the tables. Characters outside the
    /// alphabet break unigrams, bigrams and trigrams, but a skipgram only
    /// looks at its two ends, so one unknown character in the middle still
    /// counts. No count may pass `u32::MAX`.
    pub fn add_str(&mut self, s: &str)
        requires
            old(self).wf(),
            forall|c: usize|
                #![trigger unigram_count(old(self).interned(s@), c)]
                c < old(self).size() ==> old(self).chars@[c as int] + unigram_count(
                    old(self).interned(s@),
                    c,
                ) <= u32::MAX,
            forall|c1: usize, c2: usize|
                #![trigger bigram_count(old(self).interned(s@), c1, c2)]
                c1 < old(self).size() && c2 < old(self).size() ==> old(self).bigrams@[pair_index(
                    old(self).size(),
                    c1 as int,
                    c2 as int,
                )] + bigram_count(old(self).interned(s@), c1, c2) <= u32::MAX,
            forall|c1: usize, c2: usize|
                #![trigger skipgram_count(old(self).interned(s@), c1, c2)]
                c1 < old(self).size() && c2 < old(self).size() ==> old(self).skipgrams@[pair_index(
                    old(self).size(),
                    c1 as int,
                    c2 as int,
                )] + skipgram_count(old(self).interned(s@), c1, c2) <= u32::MAX,
            forall|c1: usize, c2: usize, c3: usize|
                #![trigger trigram_count(old(self).interned(s@), c1, c2, c3)]
                c1 < old(self).size() && c2 < old(self).size() && c3 < old(self).size()
                    ==> old(self).trigrams@[triple_index(
                    old(self).size(),
                    c1 as int,
                    c2 as int,
                    c3 as int,
                )] + trigram_count(old(self).interned(s@), c1, c2, c3) <= u32::MAX,
        ensures
            final(self).wf(),
            final(self).char_list == old(self).char_list,
            final(self).char_map == old(self).char_map,
            final(self).chars@[0] == old(self).chars@[0],
            forall|c: usize|
                c < old(self).size() ==> {
                    &&& #[trigger] final(self).bigrams@[pair_index(old(self).size(), 0, c as int)]
                        == old(self).bigrams@[pair_index(old(self).size(), 0, c as int)]
                    &&& final(self).bigrams@[pair_index(old(self).size(), c as int, 0)]
                        == old(self).bigrams@[pair_index(old(self).size(), c as int, 0)]
                    &&& final(self).skipgrams@[pair_index(old(self).size(), 0, c as int)]
                        == old(self).skipgrams@[pair_index(old(self).size(), 0, c as int)]
                    &&& final(self).skipgrams@[pair_index(old(self).size(), c as int, 0)]
                        == old(self).skipgrams@[pair_index(old(self).size(), c as int, 0)]
                },
            forall|c1: usize, c2: usize|
                c1 < old(self).size() && c2 < old(self).size() ==> {
                    &&& #[trigger] final(self).trigrams@[triple_index(
                        old(self).size(),
                        0,
                        c1 as int,
                        c2 as int,
                    )] == old(self).trigrams@[triple_index(old(self).size(), 0, c1 as int, c2 as int)]
                    &&& final(self).trigrams@[triple_index(old(self).size(), c1 as int, 0, c2 as int)]
                        == old(self).trigrams@[triple_index(old(self).size(), c1 as int, 0, c2 as int)]
                    &&& final(self).trigrams@[triple_index(old(self).size(), c1 as int, c2 as int, 0)]
                        == old(self).trigrams@[triple_index(old(self).size(), c1 as int, c2 as int, 0)]
                },
            forall|c: usize|
                #![trigger unigram_count(old(self).interned(s@), c)]
                c < old(self).size() ==> final(self).chars@[c as int] == old(self).chars@[c as int]
                    + unigram_count(old(self).interned(s@), c),
            forall|c1: usize, c2: usize|
                #![trigger bigram_count(old(self).interned(s@), c1, c2)]
                c1 < old(self).size() && c2 < old(self).size() ==> final(self).bigrams@[pair_index(
                    old(self).size(),
                    c1 as int,
                    c2 as int,
                )] == old(self).bigrams@[pair_index(old(self).size(), c1 as int, c2 as int)]
                    + bigram_count(old(self).interned(s@), c1, c2),
            forall|c1: usize, c2: usize|
                #![trigger skipgram_count(old(self).interned(s@), c1, c2)]
                c1 < old(self).size() && c2 < old(self).size() ==> final(self).skipgrams@[pair_index(
                    old(self).size(),
                    c1 as int,
                    c2 as int,
                )] == old(self).skipgrams@[pair_index(old(self).size(), c1 as int, c2 as int)]
                    + skipgram_count(old(self).interned(s@), c1, c2),
            forall|c1: usize, c2: usize, c3: usize|
                #![trigger trigram_count(old(self).interned(s@), c1, c2, c3)]
                c1 < old(self).size() && c2 < old(self).size() && c3 < old(self).size()
                    ==> final(self).trigrams@[triple_index(
                    old(self).size(),
                    c1 as int,
                    c2 as int,
                    c3 as int,
                )] == old(self).trigrams@[triple_index(
                    old(self).size(),
                    c1 as int,
                    c2 as int,
                    c3 as int,
                )] + trigram_count(old(self).interned(s@), c1, c2, c3),
    {
        let ghost ids = old(self).interned(s@);
        let ghost n = old(self).size();
        let mut prev2: Option<CorpusChar> = None;
        let mut prev1: Option<CorpusChar> = None;
        let ghost mut i: int = 0;
        for ch in it: s.chars()
            invariant
                it.seq() == s@,
                i == it.index(),
                ids == old(self).interned(s@),
                n == old(self).size(),
                self.wf(),
                self.char_list == old(self).char_list,
                self.char_map == old(self).char_map,
                prev1 == if i >= 1 {
                    ids[i - 1]
                } else {
                    None
                },
                prev2 == if i >= 2 {
                    ids[i - 2]
                } else {
                    None
                },
                forall|c: usize|
                    #![trigger unigram_count(ids, c)]
                    c < n ==> old(self).chars@[c as int] + unigram_count(ids, c) <= u32::MAX,
                forall|c1: usize, c2: usize|
                    #![trigger bigram_count(ids, c1, c2)]
                    c1 < n && c2 < n ==> old(self).bigrams@[pair_index(n, c1 as int, c2 as int)]
                        + bigram_count(ids, c1, c2) <= u32::MAX,
                forall|c1: usize, c2: usize|
                    #![trigger skipgram_count(ids, c1, c2)]
                    c1 < n && c2 < n ==> old(self).skipgrams@[pair_index(n, c1 as int, c2 as int)]
                        + skipgram_count(ids, c1, c2) <= u32::MAX,
                forall|c1: usize, c2: usize, c3: usize|
                    #![trigger trigram_count(ids, c1, c2, c3)]
                    c1 < n && c2 < n && c3 < n ==> old(self).trigrams@[triple_index(
                        n,
                        c1 as int,
                        c2 as int,
                        c3 as int,
                    )] + trigram_count(ids, c1, c2, c3) <= u32::MAX,
                forall|c: usize|
                    #![trigger unigram_count(ids.take(i as int), c)]
                    c < n ==> self.chars@[c as int] == old(self).chars@[c as int] + unigram_count(
                        ids.take(i as int),
                        c,
                    ),
                forall|c1: usize, c2: usize|
                    #![trigger bigram_count(ids.take(i as int), c1, c2)]
                    c1 < n && c2 < n ==> self.bigrams@[pair_index(n, c1 as int, c2 as int)]
                        == old(self).bigrams@[pair_index(n, c1 as int, c2 as int)] + bigram_count(
                        ids.take(i as int),
                        c1,
                        c2,
                    ),
                forall|c1: usize, c2: usize|
                    #![trigger skipgram_count(ids.take(i as int), c1, c2)]
                    c1 < n && c2 < n ==> self.skipgrams@[pair_index(n, c1 as int, c2 as int)]
                        == old(self).skipgrams@[pair_index(n, c1 as int, c2 as int)]
                        + skipgram_count(ids.take(i as int), c1, c2),
                forall|c1: usize, c2: usize, c3: usize|
                    #![trigger trigram_count(ids.take(i as int), c1, c2, c3)]
                    c1 < n && c2 < n && c3 < n ==> self.trigrams@[triple_index(
                        n,
                        c1 as int,
                        c2 as int,
                        c3 as int,
                    )] == old(self).trigrams@[triple_index(n, c1 as int, c2 as int, c3 as int)]
                        + trigram_count(ids.take(i as int), c1, c2, c3),
        {
            let cur = self.lookup_char(ch);
            let ghost chars0 = self.chars@;
            let ghost bigrams0 = self.bigrams@;
            let ghost skipgrams0 = self.skipgrams@;
            let ghost trigrams0 = self.trigrams@;
            proof {
                assert(ids[i as int] == cur);
                lemma_counts_step(ids, i as int);
                lemma_counts_prefix(ids, i as int + 1);
                lemma_last_holding_range(self.lists(), ch);
                if i >= 1 {
                    lemma_last_holding_range(self.lists(), s@[i - 1]);
                }
                if i >= 2 {
                    lemma_last_holding_range(self.lists(), s@[i - 2]);
                }
            }
            if let Some(c3) = cur {
                proof {
                    assert(unigram_count(ids.take(i as int + 1), c3) <= unigram_count(ids, c3));
                }
                bump(&mut self.chars, c3);
                if let Some(c2) = prev1 {
                    let k = self.bigram_idx(c2, c3);
                    proof {
                        assert(bigram_count(ids.take(i as int + 1), c2, c3) <= bigram_count(
                            ids,
                            c2,
                            c3,
                        ));
                    }
                    bump(&mut self.bigrams, k);
                }
                if let Some(c1) = prev2 {
                    let k = self.bigram_idx(c1, c3);
                    proof {
                        assert(skipgram_count(ids.take(i as int + 1), c1, c3) <= skipgram_count(
                            ids,
                            c1,
                            c3,
                        ));
                    }
                    bump(&mut self.skipgrams, k);
                    if let Some(c2) = prev1 {
                        let k = self.trigram_idx(c1, c2, c3);
                        proof {
                            assert(trigram_count(ids.take(i as int + 1), c1, c2, c3)
                                <= trigram_count(ids, c1, c2, c3));
                        }
                        bump(&mut self.trigrams, k);
                    }
                }
            }
            proof {
                let t = ids.take(i as int + 1);
                assert forall|c: usize| #![trigger unigram_count(t, c)] c < n implies self.chars@[c as int]
                    == old(self).chars@[c as int] + unigram_count(t, c) by {
                    if cur != Some(c) {
                        assert(self.chars@[c as int] == chars0[c as int]);
                    }
                }
                assert forall|c1: usize, c2: usize|
                    #![trigger bigram_count(t, c1, c2)]
                    c1 < n && c2 < n implies self.bigrams@[pair_index(n, c1 as int, c2 as int)]
                        == old(self).bigrams@[pair_index(n, c1 as int, c2 as int)] + bigram_count(
                        t,
                        c1,
                        c2,
                    ) by {
                    if let (Some(x), Some(y)) = (prev1, cur) {
                        lemma_pair_index(n, c1 as int, c2 as int, x as int, y as int);
                    }
                    if !(prev1 == Some(c1) && cur == Some(c2)) {
                        assert(self.bigrams@[pair_index(n, c1 as int, c2 as int)]
                            == bigrams0[pair_index(n, c1 as int, c2 as int)]);
                    }
                }
                assert forall|c1: usize, c2: usize|
                    #![trigger skipgram_count(t, c1, c2)]
                    c1 < n && c2 < n implies self.skipgrams@[pair_index(n, c1 as int, c2 as int)]
                        == old(self).skipgrams@[pair_index(n, c1 as int, c2 as int)]
                        + skipgram_count(t, c1, c2) by {
                    if let (Some(x), Some(y)) = (prev2, cur) {
                        lemma_pair_index(n, c1 as int, c2 as int, x as int, y as int);
                    }
                    if !(prev2 == Some(c1) && cur == Some(c2)) {
                        assert(self.skipgrams@[pair_index(n, c1 as int, c2 as int)]
                            == skipgrams0[pair_index(n, c1 as int, c2 as int)]);
                    }
                }
                assert forall|c1: usize, c2: usize, c3: usize|
                    #![trigger trigram_count(t, c1, c2, c3)]
                    c1 < n && c2 < n && c3 < n implies self.trigrams@[triple_index(
                        n,
                        c1 as int,
                        c2 as int,
                        c3 as int,
                    )] == old(self).trigrams@[triple_index(n, c1 as int, c2 as int, c3 as int)]
                        + trigram_count(t, c1, c2, c3) by {
                    if let (Some(x), Some(y), Some(z)) = (prev2, prev1, cur) {
                        lemma_triple_index(
                            n,
                            c1 as int,
                            c2 as int,
                            c3 as int,
                            x as int,
                            y as int,
                            z as int,
                        );
                    }
                    if !(prev2 == Some(c1) && prev1 == Some(c2) && cur == Some(c3)) {
                        assert(self.trigrams@[triple_index(n, c1 as int, c2 as int, c3 as int)]
                            == trigrams0[triple_index(n, c1 as int, c2 as int, c3 as int)]);
                    }
                }
            }
            prev2 = prev1;
            prev1 = cur;
            proof {
                i = i + 1;
            }
        }
        proof {
            assert(ids.take(i as int) =~= ids);
            assert forall|k: int| 0 <= k < ids.len() implies #[trigger] ids[k] != Some(0usize) by {
                assert(ids[k] == old(self).lookup(s@[k]));
                lemma_last_holding_range(old(self).lists(), s@[k]);
                assert(old(self).lists().len() == old(self).char_list.len());
            }
            lemma_counts_without_sentinel(ids);
            assert(unigram_count(ids, 0) == 0);
            assert forall|c: usize| c < n implies {
                &&& #[trigger] self.bigrams@[pair_index(n, 0, c as int)] == old(self).bigrams@[pair_index(n, 0, c as int)]
                &&& self.bigrams@[pair_index(n, c as int, 0)] == old(self).bigrams@[pair_index(n, c as int, 0)]
                &&& self.skipgrams@[pair_index(n, 0, c as int)] == old(self).skipgrams@[pair_index(n, 0, c as int)]
                &&& self.skipgrams@[pair_index(n, c as int, 0)] == old(self).skipgrams@[pair_index(n, c as int, 0)]
            } by {
                assert(bigram_count(ids, 0, c) == 0 && skipgram_count(ids, 0, c) == 0);
                assert(bigram_count(ids, c, 0) == 0 && skipgram_count(ids, c, 0) == 0);
            }
            assert forall|c1: usize, c2: usize| c1 < n && c2 < n implies {
                &&& #[trigger] self.trigrams@[triple_index(n, 0, c1 as int, c2 as int)] == old(self).trigrams@[triple_index(n, 0, c1 as int, c2 as int)]
                &&& self.trigrams@[triple_index(n, c1 as int, 0, c2 as int)] == old(self).trigrams@[triple_index(n, c1 as int, 0, c2 as int)]
                &&& self.trigrams@[triple_index(n, c1 as int, c2 as int, 0)] == old(self).trigrams@[triple_index(n, c1 as int, c2 as int, 0)]
            } by {
                assert(trigram_count(ids, 0, c1, c2) == 0);
                assert(trigram_count(ids, c1, 0, c2) == 0 && trigram_count(ids, c1, c2, 0) == 0);
            }
        }
    }

    /// The first character of the list at interned index `unigram`;
    /// index 0 is the sentinel `'\0'`.
    #[must_use]
    pub fn uncorpus_unigram(&self, unigram: CorpusIndex) -> (r: char)
        requires
            self.valid_char(unigram as int),
            self.char_list@[unigram as int]@.len() > 0,
        ensures
            r == self.char_list@[unigram as int]@[0],
    {
        self.char_list[unigram][0]
    }

    /// The characters of the bigram (or skipgram) at flat index `bigram`.
    #[must_use]
    pub fn uncorpus_bigram(&self, bigram: CorpusIndex) -> (r: Vec<char>)
        requires
            self.tables_ok(),
            bigram < self.size() * self.size(),
            self.char_list@[bigram as int / self.size()]@.len() > 0,
            self.char_list@[bigram as int % self.size()]@.len() > 0,
        ensures
            r@ == seq![
                self.char_list@[bigram as int / self.size()]@[0],
                self.char_list@[bigram as int % self.size()]@[0],
            ],
    {
        let len = self.char_list.len();
        proof {
            vstd::arithmetic::div_mod::lemma_multiply_divide_lt(bigram as int, len as int, len as int);
            vstd::arithmetic::div_mod::lemma_mod_pos_bound(bigram as int, len as int);
        }
        let c1 = bigram / len;
        let c2 = bigram % len;
        let r = vec![self.char_list[c1][0], self.char_list[c2][0]];
        assert(r@ =~= seq![self.char_list@[c1 as int]@[0], self.char_list@[c2 as int]@[0]]);
        r
    }

    /// The characters of the trigram at flat index `trigram`.
    #[must_use]
    pub fn uncorpus_trigram(&self, trigram: CorpusIndex) -> (r: Vec<char>)
        requires
            self.tables_ok(),
            trigram < self.size() * self.size() * self.size(),
            self.char_list@[trigram as int / (self.size() * self.size())]@.len() > 0,
            self.char_list@[trigram as int % (self.size() * self.size()) / self.size()]@.len() > 0,
            self.char_list@[trigram as int % self.size()]@.len() > 0,
        ensures
            r@ == seq![
                self.char_list@[trigram as int / (self.size() * self.size())]@[0],
                self.char_list@[trigram as int % (self.size() * self.size()) / self.size()]@[0],
                self.char_list@[trigram as int % self.size()]@[0],
            ],
    {
        let len = self.char_list.len();
        assert(len * len <= len * len * len) by (nonlinear_arith)
            requires
                len >= 1,
        ;
        let sq = len * len;
        proof {
            assert(len * len * len == sq * len) by (nonlinear_arith)
                requires
                    sq == len * len,
            ;
            assert(sq > 0) by (nonlinear_arith)
                requires
                    sq == len * len,
                    len >= 1,
            ;
            vstd::arithmetic::div_mod::lemma_multiply_divide_lt(trigram as int, sq as int, len as int);
            vstd::arithmetic::div_mod::lemma_mod_pos_bound(trigram as int, sq as int);
            vstd::arithmetic::div_mod::lemma_multiply_divide_lt(
                (trigram % sq) as int,
                len as int,
                len as int,
            );
            vstd::arithmetic::div_mod::lemma_mod_pos_bound(trigram as int, len as int);
        }
        let c1 = trigram / sq;
        let c2 = trigram % sq / len;
        let c3 = trigram % len;
        let r = vec![self.char_list[c1][0], self.char_list[c2][0], self.char_list[c3][0]];
        assert(r@ =~= seq![
            self.char_list@[c1 as int]@[0],
            self.char_list@[c2 as int]@[0],
            self.char_list@[c3 as int]@[0],
        ]);
        r
    }

    /// Flat index of the bigram of two characters.
    #[must_use]
    pub fn corpus_bigram(&self, chars: &[char; 2]) -> (r: CorpusIndex)
        requires
            self.wf(),
        ensures
            r == pair_index(self.size(), self.id_of(chars@[0]) as int, self.id_of(chars@[1]) as int),
    {
        self.bigram_idx(self.corpus_char(chars[0]), self.corpus_char(chars[1]))
    }

    /// Flat index of the trigram of three characters.
    #[must_use]
    pub fn corpus_trigram(&self, chars: &[char; 3]) -> (r: CorpusIndex)
        requires
            self.wf(),
        ensures
            r == triple_index(
                self.size(),
                self.id_of(chars@[0]) as int,
                self.id_of(chars@[1]) as int,
                self.id_of(chars@[2]) as int,
            ),
    {
        self.trigram_idx(
            self.corpus_char(chars[0]),
            self.corpus_char(chars[1]),
            self.corpus_char(chars[2]),
        )
    }

    /// The layout that puts the characters of `s` on consecutive positions.
    #[must_use]
    pub fn layout_from_str(&self, s: &str) -> (r: Layout)
        requires
            self.wf(),
        ensures
            r@ == s@.map_values(|c: char| self.id_of(c)),
            forall|i: int| 0 <= i < r@.len() ==> #[trigger] self.valid_char(r@[i] as int),
    {
        let mut v: Vec<CorpusChar> = Vec::new();
        for ch in it: s.chars()
            invariant
                self.wf(),
                it.seq() == s@,
                v@ == s@.take(it.index() as int).map_values(|c: char| self.id_of(c)),
                forall|i: int| 0 <= i < v@.len() ==> #[trigger] self.valid_char(v@[i] as int),
        {
            let ghost i = it.index() as int;
            let c = self.corpus_char(ch);
            v.push(c);
            assert(v@ =~= s@.take(i + 1).map_values(|c: char| self.id_of(c)));
        }
        assert(s@.take(s@.len() as int) =~= s@);
        Layout(v)
    }

    /// Converts a `char` to its interned index; characters outside the
    /// alphabet give the sentinel 0.
    #[must_use]
    pub fn corpus_char(&self, c: char) -> (r: CorpusChar)
        requires
            self.wf(),
        ensures
            r == self.id_of(c),
            self.valid_char(r as int),
    {
        proof {
            lemma_last_holding_range(self.lists(), c);
        }
        match self.lookup_char(c) {
            Some(k) => k,
            None => 0,
        }
    }

    /// Flat index of the bigram (or skipgram) `(c1, c2)`.
    #[must_use]
    pub fn bigram_idx(&self, c1: CorpusChar, c2: CorpusChar) -> (r: CorpusIndex)
        requires
            self.tables_ok(),
            self.valid_char(c1 as int),
            self.valid_char(c2 as int),
        ensures
            r == pair_index(self.size(), c1 as int, c2 as int),
            r < self.size() * self.size(),
    {
        let len = self.char_list.len();
        proof {
            lemma_pair_index(len as int, c1 as int, c2 as int, c1 as int, c2 as int);
            assert(len * len <= len * len * len) by (nonlinear_arith)
                requires
                    len >= 1,
            ;
        }
        (c1 * len) + c2
    }

    /// Flat index of the trigram `(c1, c2, c3)`.
    #[must_use]
    pub fn trigram_idx(&self, c1: CorpusChar, c2: CorpusChar, c3: CorpusChar) -> (r: CorpusIndex)
        requires
            self.tables_ok(),
            self.valid_char(c1 as int),
            self.valid_char(c2 as int),
            self.valid_char(c3 as int),
        ensures
            r == triple_index(self.size(), c1 as int, c2 as int, c3 as int),
            r < self.size() * self.size() * self.size(),
    {
        let len = self.char_list.len();
        proof {
            lemma_triple_index(
                len as int,
                c1 as int,
                c2 as int,
                c3 as int,
                c1 as int,
                c2 as int,
                c3 as int,
            );
            assert(c1 * len * len <= c1 * len * len + c2 * len + c3) by (nonlinear_arith)
                requires
                    c2 >= 0,
                    c3 >= 0,
                    len >= 0,
            ;
            assert(c1 * len <= c1 * len * len) by (nonlinear_arith)
                requires
                    len >= 1,
                    c1 >= 0,
            ;
            assert(c2 * len <= c1 * len * len + c2 * len + c3) by (nonlinear_arith)
                requires
                    c1 >= 0,
                    c3 >= 0,
                    len >= 0,
            ;
        }
        (c1 * len * len) + (c2 * len) + c3
    }
}

/// Counting the prefix one element longer adds the windows that end there.
pub proof fn lemma_counts_step(ids: Seq<Option<usize>>, i: int)
    requires
        0 <= i < ids.len(),
    ensures
        forall|c: usize|
            #[trigger] unigram_count(ids.take(i + 1), c) == unigram_count(ids.take(i), c) + if ids[i]
                == Some(c) {
                1int
            } else {
                0int
            },
        forall|c1: usize, c2: usize|
            #[trigger] bigram_count(ids.take(i + 1), c1, c2) == bigram_count(ids.take(i), c1, c2)
                + if i >= 1 && ids[i - 1] == Some(c1) && ids[i] == Some(c2) {
                1int
            } else {
                0int
            },
        forall|c1: usize, c2: usize|
            #[trigger] skipgram_count(ids.take(i + 1), c1, c2) == skipgram_count(ids.take(i), c1, c2)
                + if i >= 2 && ids[i - 2] == Some(c1) && ids[i] == Some(c2) {
                1int
            } else {
                0int
            },
        forall|c1: usize, c2: usize, c3: usize|
            #[trigger] trigram_count(ids.take(i + 1), c1, c2, c3) == trigram_count(
                ids.take(i),
                c1,
                c2,
                c3,
            ) + if i >= 2 && ids[i - 2] == Some(c1) && ids[i - 1] == Some(c2) && ids[i] == Some(c3) {
                1int
            } else {
                0int
            },
{
    let p = ids.take(i + 1);
    assert(p.drop_last() =~= ids.take(i));
    assert(p.last() == ids[i]);
    assert(i >= 1 ==> p[p.len() - 2] == ids[i - 1]);
    assert(i >= 2 ==> p[p.len() - 3] == ids[i - 2]);
}

/// Counts over a prefix never exceed counts over the whole sequence.
pub proof fn lemma_counts_prefix(ids: Seq<Option<usize>>, i: int)
    requires
        0 <= i <= ids.len(),
    ensures
        forall|c: usize| #[trigger] unigram_count(ids.take(i), c) <= unigram_count(ids, c),
        forall|c1: usize, c2: usize|
            #[trigger] bigram_count(ids.take(i), c1, c2) <= bigram_count(ids, c1, c2),
        forall|c1: usize, c2: usize|
            #[trigger] skipgram_count(ids.take(i), c1, c2) <= skipgram_count(ids, c1, c2),
        forall|c1: usize, c2: usize, c3: usize|
            #[trigger] trigram_count(ids.take(i), c1, c2, c3) <= trigram_count(ids, c1, c2, c3),
    decreases ids.len() - i,
{
    if i < ids.len() {
        lemma_counts_prefix(ids, i + 1);
        lemma_counts_step(ids, i);
        let t = ids.take(i + 1);
        assert forall|c: usize| #[trigger] unigram_count(ids.take(i), c) <= unigram_count(ids, c) by {
            assert(unigram_count(t, c) <= unigram_count(ids, c));
        }
        assert forall|c1: usize, c2: usize|
            #[trigger] bigram_count(ids.take(i), c1, c2) <= bigram_count(ids, c1, c2) by {
            assert(bigram_count(t, c1, c2) <= bigram_count(ids, c1, c2));
        }
        assert forall|c1: usize, c2: usize|
            #[trigger] skipgram_count(ids.take(i), c1, c2) <= skipgram_count(ids, c1, c2) by {
            assert(skipgram_count(t, c1, c2) <= skipgram_count(ids, c1, c2));
        }
        assert forall|c1: usize, c2: usize, c3: usize|
            #[trigger] trigram_count(ids.take(i), c1, c2, c3) <= trigram_count(ids, c1, c2, c3) by {
            assert(trigram_count(t, c1, c2, c3) <= trigram_count(ids, c1, c2, c3));
        }
    } else {
        assert(ids.take(i) =~= ids);
    }
}

/// A sequence that never holds the sentinel counts no n-gram with a
/// sentinel in it.
pub proof fn lemma_counts_without_sentinel(ids: Seq<Option<usize>>)
    requires
        forall|i: int| 0 <= i < ids.len() ==> #[trigger] ids[i] != Some(0usize),
    ensures
        unigram_count(ids, 0) == 0,
        forall|c: usize| #[trigger] bigram_count(ids, 0, c) == 0,
        forall|c: usize| #[trigger] bigram_count(ids, c, 0) == 0,
        forall|c: usize| #[trigger] skipgram_count(ids, 0, c) == 0,
        forall|c: usize| #[trigger] skipgram_count(ids, c, 0) == 0,
        forall|c1: usize, c2: usize| #[trigger] trigram_count(ids, 0, c1, c2) == 0,
        forall|c1: usize, c2: usize| #[trigger] trigram_count(ids, c1, 0, c2) == 0,
        forall|c1: usize, c2: usize| #[trigger] trigram_count(ids, c1, c2, 0) == 0,
    decreases ids.len(),
{
    if ids.len() > 0 {
        let p = ids.drop_last();
        assert forall|i: int| 0 <= i < p.len() implies #[trigger] p[i] != Some(0usize) by {
            assert(p[i] == ids[i]);
        }
        lemma_counts_without_sentinel(p);
        assert(ids.last() != Some(0usize));
        if ids.len() >= 2 {
            assert(ids[ids.len() - 2] != Some(0usize));
        }
        if ids.len() >= 3 {
            assert(ids[ids.len() - 3] != Some(0usize));
        }
        assert forall|c: usize| #[trigger] bigram_count(ids, 0, c) == 0 by {
            assert(bigram_count(p, 0, c) == 0);
        }
        assert forall|c: usize| #[trigger] bigram_count(ids, c, 0) == 0 by {
            assert(bigram_count(p, c, 0) == 0);
        }
        assert forall|c: usize| #[trigger] skipgram_count(ids, 0, c) == 0 by {
            assert(skipgram_count(p, 0, c) == 0);
        }
        assert forall|c: usize| #[trigger] skipgram_count(ids, c, 0) == 0 by {
            assert(skipgram_count(p, c, 0) == 0);
        }
        assert forall|c1: usize, c2: usize| #[trigger] trigram_count(ids, 0, c1, c2) == 0 by {
            assert(trigram_count(p, 0, c1, c2) == 0);
        }
        assert forall|c1: usize, c2: usize| #[trigger] trigram_count(ids, c1, 0, c2) == 0 by {
            assert(trigram_count(p, c1, 0, c2) == 0);
        }
        assert forall|c1: usize, c2: usize| #[trigger] trigram_count(ids, c1, c2, 0) == 0 by {
            assert(trigram_count(p, c1, c2, 0) == 0);
        }
    }
}

/// Adds one to entry `k` of a count table.
fn bump(t: &mut Vec<u32>, k: usize)
    requires
        k < old(t).len(),
        old(t)@[k as int] < u32::MAX,
    ensures
        final(t)@ == old(t)@.update(k as int, (old(t)@[k as int] + 1) as u32),
{
    let v = t[k];
    t.set(k, v + 1);
}

/// The last list that holds `c` is one of `lists`.
proof fn lemma_last_holding_range(lists: Seq<Seq<char>>, c: char)
    ensures
        -1 <= last_holding(lists, c) < lists.len(),
        last_holding(lists, c) >= 0 ==> lists[last_holding(lists, c)].contains(c),
    decreases lists.len(),
{
    if lists.len() > 0 && !lists.last().contains(c) {
        lemma_last_holding_range(lists.drop_last(), c);
    }
}

} // verus!
