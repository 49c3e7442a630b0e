use vstd::prelude::*;
use vstd::seq_lib::group_to_multiset_ensures;

use crate::counts::{lists_entries, WordCounts};
use crate::tally::occurrences;

verus! {

/// Counts never increase along `r`.
pub open spec fn by_count_desc(r: Seq<(Seq<char>, u32)>) -> bool {
    forall|i: int, j: int| 0 <= i < j < r.len() ==> #[trigger] r[i].1 >= #[trigger] r[j].1
}

/// `r` lists every word of `ws` once, with its number of occurrences.
pub open spec fn lists_words(r: Seq<(Seq<char>, u32)>, ws: Seq<Seq<char>>) -> bool {
    &&& forall|i: int, j: int| 0 <= i < r.len() && 0 <= j < r.len() && i != j
        ==> #[trigger] r[i].0 != #[trigger] r[j].0
    &&& forall|i: int| 0 <= i < r.len()
        ==> #[trigger] r[i].1 == occurrences(ws, r[i].0) && r[i].1 >= 1
    &&& forall|w: Seq<char>| #[trigger] occurrences(ws, w) > 0
        ==> exists|i: int| 0 <= i < r.len() && r[i].0 == w
}

/// The sum of the counts along `r`.
pub open spec fn sum_counts(r: Seq<(Seq<char>, u32)>) -> nat
    decreases r.len(),
{
    if r.len() == 0 {
        0
    } else {
        sum_counts(r.drop_last()) + r.last().1 as nat
    }
}

/// `ws` without any occurrence of `k`.
pub open spec fn without(ws: Seq<Seq<char>>, k: Seq<char>) -> Seq<Seq<char>>
    decreases ws.len(),
{
    if ws.len() == 0 {
        ws
    } else if ws.last() == k {
        without(ws.drop_last(), k)
    } else {
        without(ws.drop_last(), k).push(ws.last())
    }
}

proof fn lemma_without(ws: Seq<Seq<char>>, k: Seq<char>)
    ensures
        without(ws, k).len() + occurrences(ws, k) == ws.len(),
        forall|w: Seq<char>| #[trigger] occurrences(without(ws, k), w) == if w == k {
            0
        } else {
            occurrences(ws, w)
        },
    decreases ws.len(),
{
    if ws.len() > 0 {
        lemma_without(ws.drop_last(), k);
        let d = without(ws.drop_last(), k);
        if ws.last() != k {
            assert(d.push(ws.last()).drop_last() =~= d);
        }
        assert forall|w: Seq<char>| #[trigger] occurrences(without(ws, k), w) == if w == k {
            0
        } else {
            occurrences(ws, w)
        } by {
            assert(occurrences(d, w) == if w == k {
                0
            } else {
                occurrences(ws.drop_last(), w)
            });
        }
    }
}

/// The counts of a listing of a word sequence add up to the number of words
/// in it: no word is lost or counted twice.
pub proof fn lemma_total_count(r: Seq<(Seq<char>, u32)>, ws: Seq<Seq<char>>)
    requires
        lists_words(r, ws),
    ensures
        sum_counts(r) == ws.len(),
    decreases r.len(),
{
    if r.len() == 0 {
        if ws.len() > 0 {
            assert(occurrences(ws.drop_last(), ws.last()) >= 0);
            assert(occurrences(ws, ws.last()) > 0);
        }
    } else {
        let k = r.last().0;
        let rest = r.drop_last();
        let ws2 = without(ws, k);
        lemma_without(ws, k);
        assert forall|w: Seq<char>| #[trigger] occurrences(ws2, w) > 0
            implies exists|i: int| 0 <= i < rest.len() && rest[i].0 == w by {
            assert(occurrences(ws, w) > 0);
            let i = choose|i: int| 0 <= i < r.len() && r[i].0 == w;
            assert(i != r.len() - 1);
            assert(rest[i].0 == w);
        }
        assert forall|i: int| 0 <= i < rest.len()
            implies #[trigger] rest[i].1 == occurrences(ws2, rest[i].0) && rest[i].1 >= 1 by {
            assert(r[i].0 != r[r.len() - 1].0);
        }
        assert forall|i: int, j: int| 0 <= i < rest.len() && 0 <= j < rest.len() && i != j
            implies #[trigger] rest[i].0 != #[trigger] rest[j].0 by {
            assert(r[i].0 != r[j].0);
        }
        lemma_total_count(rest, ws2);
        assert(r[r.len() - 1].1 == occurrences(ws, k));
    }
}

/// `a` equals `b` or comes before it in the dictionary order of their
/// characters' code points.
pub open spec fn word_le(a: Seq<char>, b: Seq<char>) -> bool
    decreases a.len(),
{
    if a.len() == 0 {
        true
    } else if b.len() == 0 {
        false
    } else if a[0] != b[0] {
        (a[0] as u32) < (b[0] as u32)
    } else {
        word_le(a.drop_first(), b.drop_first())
    }
}

/// Entry `a` may stand before entry `b` in a ranking: a higher count first,
/// and among equal counts the words in dictionary order.
pub open spec fn entry_le(a: (Seq<char>, u32), b: (Seq<char>, u32)) -> bool {
    a.1 > b.1 || (a.1 == b.1 && word_le(a.0, b.0))
}

/// The entries of `r` stand in ranking order.
pub open spec fn in_rank_order(r: Seq<(Seq<char>, u32)>) -> bool {
    forall|i: int, j: int| 0 <= i < j < r.len() ==> entry_le(#[trigger] r[i], #[trigger] r[j])
}

proof fn lemma_word_le_skip(a: Seq<char>, b: Seq<char>, i: int)
    requires
        0 <= i <= a.len(),
        i <= b.len(),
        forall|k: int| 0 <= k < i ==> a[k] == b[k],
    ensures
        word_le(a, b) == word_le(a.skip(i), b.skip(i)),
    decreases i,
{
    if i == 0 {
        assert(a.skip(0) =~= a);
        assert(b.skip(0) =~= b);
    } else {
        lemma_word_le_skip(a.drop_first(), b.drop_first(), i - 1);
        assert(a.drop_first().skip(i - 1) =~= a.skip(i));
        assert(b.drop_first().skip(i - 1) =~= b.skip(i));
    }
}

proof fn lemma_word_le_antisymmetric(a: Seq<char>, b: Seq<char>)
    requires
        word_le(a, b),
        word_le(b, a),
    ensures
        a == b,
    decreases a.len(),
{
    if a.len() > 0 && b.len() > 0 && a[0] == b[0] {
        lemma_word_le_antisymmetric(a.drop_first(), b.drop_first());
        assert(a =~= seq![a[0]] + a.drop_first());
        assert(b =~= seq![b[0]] + b.drop_first());
    } else if a.len() == 0 && b.len() == 0 {
        assert(a =~= b);
    }
}

/// A table has exactly one ranking: two sequences that each list the
/// entries of `m` once, in ranking order, are equal. The order among words
/// of equal count is thus fixed.
pub proof fn lemma_ranking_unique(r1: Seq<(Seq<char>, u32)>, r2: Seq<(Seq<char>, u32)>, m: Map<Seq<char>, u32>)
    requires
        lists_entries(r1, m),
        lists_entries(r2, m),
        in_rank_order(r1),
        in_rank_order(r2),
    ensures
        r1 == r2,
    decreases r1.len(),
{
    if r1.len() == 0 {
        if r2.len() > 0 {
            assert(m.contains_key(r2[0].0));
        }
        assert(r1 =~= r2);
    } else {
        if r2.len() == 0 {
            assert(m.contains_key(r1[0].0));
        }
        let a = r1[0];
        let b = r2[0];
        assert(m.contains_key(a.0) && m.contains_key(b.0));
        let j1 = choose|i: int| 0 <= i < r1.len() && r1[i].0 == b.0;
        let j2 = choose|i: int| 0 <= i < r2.len() && r2[i].0 == a.0;
        assert(r1[j1] == b);
        assert(r2[j2] == a);
        if j1 > 0 {
            assert(entry_le(r1[0], r1[j1]));
        } else {
            assert(a == b);
        }
        if j2 > 0 {
            assert(entry_le(r2[0], r2[j2]));
        }
        if a != b {
            lemma_word_le_antisymmetric(a.0, b.0);
        }
        assert(a == b);
        let k = a.0;
        let m2 = m.remove(k);
        let t1 = r1.drop_first();
        let t2 = r2.drop_first();
        assert forall|i: int| 0 <= i < t1.len() implies m2.contains_key(#[trigger] t1[i].0) && m2[t1[i].0] == t1[i].1 by {
            assert(r1[i + 1].0 != r1[0].0);
        }
        assert forall|i: int| 0 <= i < t2.len() implies m2.contains_key(#[trigger] t2[i].0) && m2[t2[i].0] == t2[i].1 by {
            assert(r2[i + 1].0 != r2[0].0);
        }
        assert forall|w: Seq<char>| #[trigger] m2.contains_key(w) implies exists|i: int| 0 <= i < t1.len() && t1[i].0 == w by {
            let i = choose|i: int| 0 <= i < r1.len() && r1[i].0 == w;
            assert(i > 0);
            assert(t1[i - 1].0 == w);
        }
        assert forall|w: Seq<char>| #[trigger] m2.contains_key(w) implies exists|i: int| 0 <= i < t2.len() && t2[i].0 == w by {
            let i = choose|i: int| 0 <= i < r2.len() && r2[i].0 == w;
            assert(i > 0);
            assert(t2[i - 1].0 == w);
        }
        assert forall|i: int, j: int| 0 <= i < t1.len() && 0 <= j < t1.len() && i != j implies #[trigger] t1[i].0 != #[trigger] t1[j].0 by {
            assert(r1[i + 1].0 != r1[j + 1].0);
        }
        assert forall|i: int, j: int| 0 <= i < t2.len() && 0 <= j < t2.len() && i != j implies #[trigger] t2[i].0 != #[trigger] t2[j].0 by {
            assert(r2[i + 1].0 != r2[j + 1].0);
        }
        assert forall|i: int, j: int| 0 <= i < j < t1.len() implies entry_le(#[trigger] t1[i], #[trigger] t1[j]) by {
            assert(entry_le(r1[i + 1], r1[j + 1]));
        }
        assert forall|i: int, j: int| 0 <= i < j < t2.len() implies entry_le(#[trigger] t2[i], #[trigger] t2[j]) by {
            assert(entry_le(r2[i + 1], r2[j + 1]));
        }
        lemma_ranking_unique(t1, t2, m2);
        assert(r1 =~= r2) by {
            assert forall|i: int| 0 <= i < r1.len() implies r1[i] == r2[i] by {
                if i > 0 {
                    assert(r1[i] == t1[i - 1]);
                    assert(r2[i] == t2[i - 1]);
                }
            }
        }
    }
}

/// Compares two words in the dictionary order of their characters.
fn compare_words(a: &str, b: &str) -> (r: std::cmp::Ordering)
    ensures
        (r != std::cmp::Ordering::Greater) == word_le(a@, b@),
        (r == std::cmp::Ordering::Equal) == (a@ == b@),
{
    let la = a.unicode_len();
    let lb = b.unicode_len();
    let mut i: usize = 0;
    while i < la && i < lb
        invariant
            la == a@.len(),
            lb == b@.len(),
            i <= la,
            i <= lb,
            forall|k: int| 0 <= k < i ==> a@[k] == b@[k],
        decreases la - i,
    {
        let ca = a.get_char(i);
        let cb = b.get_char(i);
        if ca != cb {
            proof {
                lemma_word_le_skip(a@, b@, i as int);
                assert(a@.skip(i as int)[0] == ca);
                assert(b@.skip(i as int)[0] == cb);
                assert(a@[i as int] != b@[i as int]);
            }
            if (ca as u32) < (cb as u32) {
                return std::cmp::Ordering::Less;
            } else {
                return std::cmp::Ordering::Greater;
            }
        }
        i = i + 1;
    }
    proof {
        lemma_word_le_skip(a@, b@, i as int);
    }
    if la == lb {
        assert(a@ =~= b@);
        std::cmp::Ordering::Equal
    } else if la < lb {
        std::cmp::Ordering::Less
    } else {
        std::cmp::Ordering::Greater
    }
}

/// Compares two entries in ranking order: the higher count first, then the
/// words in dictionary order.
pub fn compare_entries(a: &(String, u32), b: &(String, u32)) -> (r: std::cmp::Ordering)
    ensures
        (r != std::cmp::Ordering::Greater) == entry_le((a.0@, a.1), (b.0@, b.1)),
        (r == std::cmp::Ordering::Equal) == (a.0@ == b.0@ && a.1 == b.1),
{
    if a.1 > b.1 {
        std::cmp::Ordering::Less
    } else if a.1 < b.1 {
        std::cmp::Ordering::Greater
    } else {
        compare_words(a.0.as_str(), b.0.as_str())
    }
}

/// Relies on slice::sort_by: the entries are reordered, none added or lost,
/// so that the comparator, a total order, never finds an entry greater than
/// one after it.
#[verifier::external_body]
fn sort_ranked(v: &mut Vec<(String, u32)>)
    ensures
        final(v).deep_view().to_multiset() == old(v).deep_view().to_multiset(),
        in_rank_order(final(v).deep_view()),
{
    v.sort_by(|a, b| compare_entries(a, b));
}

impl WordCounts {
    /// The entries of the table, by descending count, and words of equal
    /// count in dictionary order.
    pub fn into_ranked(self) -> (r: Vec<(String, u32)>)
        requires
            self.wf(),
        ensures
            lists_entries(r.deep_view(), self@),
            in_rank_order(r.deep_view()),
            by_count_desc(r.deep_view()),
    {
        broadcast use group_to_multiset_ensures;

        let ghost m = self@;
        let mut v = self.into_entries();
        let ghost ev = v.deep_view();
        sort_ranked(&mut v);
        let ghost rv = v.deep_view();
        proof {
            assert forall|i: int, j: int| 0 <= i < j < rv.len() implies #[trigger] rv[i].1 >= #[trigger] rv[j].1 by {
                assert(entry_le(rv[i], rv[j]));
            }
            assert forall|i: int| 0 <= i < rv.len()
                implies m.contains_key(#[trigger] rv[i].0) && m[rv[i].0] == rv[i].1 by {
                assert(rv.to_multiset().count(rv[i]) > 0);
                assert(ev.contains(rv[i]));
            }
            assert forall|w: Seq<char>| #[trigger] m.contains_key(w)
                implies exists|i: int| 0 <= i < rv.len() && rv[i].0 == w by {
                let j = choose|j: int| 0 <= j < ev.len() && ev[j].0 == w;
                assert(ev.contains(ev[j]));
                assert(rv.to_multiset().count(ev[j]) > 0);
                assert(rv.contains(ev[j]));
            }
            assert(ev.no_duplicates()) by {
                assert forall|i: int, j: int| 0 <= i < ev.len() && 0 <= j < ev.len() && i != j
                    implies ev[i] != ev[j] by {
                    assert(ev[i].0 != ev[j].0);
                }
            }
            ev.lemma_multiset_has_no_duplicates();
            rv.lemma_multiset_has_no_duplicates_conv();
            assert forall|i: int, j: int| 0 <= i < rv.len() && 0 <= j < rv.len() && i != j
                implies #[trigger] rv[i].0 != #[trigger] rv[j].0 by {
                assert(rv[i] != rv[j]);
                assert(m[rv[i].0] == rv[i].1);
                assert(m[rv[j].0] == rv[j].1);
            }
        }
        v
    }
}

} // verus!
