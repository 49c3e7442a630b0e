use vstd::prelude::*;

use crate::counts::{count_in, lists_entries, CountError, WordCounts};
use crate::rank::{by_count_desc, in_rank_order, lemma_total_count, lists_words, sum_counts};
use crate::tally::{
    all_words, count_batch, count_chunked, counts_fit, counts_words, merge_counts, occurrences,
};
use crate::text::{file_words, utf8_decode, Tokenizer};

verus! {

/// The summed count of `w` over the tables `ps`.
pub open spec fn total_count(ps: Seq<Map<Seq<char>, u32>>, w: Seq<char>) -> nat
    decreases ps.len(),
{
    if ps.len() == 0 {
        0
    } else {
        total_count(ps.drop_last(), w) + count_in(ps.last(), w)
    }
}

/// No word's summed count over `ps` exceeds what 32 bits hold.
pub open spec fn totals_fit(ps: Seq<Map<Seq<char>, u32>>) -> bool {
    forall|w: Seq<char>| #[trigger] total_count(ps, w) <= u32::MAX
}

/// The contents of each table in `ps`.
pub open spec fn tables_of(ps: Seq<WordCounts>) -> Seq<Map<Seq<char>, u32>> {
    ps.map_values(|c: WordCounts| c@)
}

proof fn lemma_total_prefix(ps: Seq<Map<Seq<char>, u32>>, i: int, w: Seq<char>)
    requires
        0 <= i <= ps.len(),
    ensures
        total_count(ps.take(i), w) <= total_count(ps, w),
    decreases ps.len(),
{
    if i < ps.len() {
        lemma_total_prefix(ps.drop_last(), i, w);
        assert(ps.drop_last().take(i) =~= ps.take(i));
    } else {
        assert(ps.take(i) =~= ps);
    }
}

/// Merges the partial tables of all workers into one: each word's count is
/// the sum of its counts in the partial tables. Fails where a sum would not
/// fit in 32 bits.
pub fn merge_all(partials: Vec<WordCounts>) -> (r: Result<WordCounts, CountError>)
    requires
        forall|i: int| 0 <= i < partials.len() ==> #[trigger] partials[i].wf(),
    ensures
        r is Ok <==> totals_fit(tables_of(partials@)),
        r matches Ok(c) ==> c.wf() && forall|w: Seq<char>|
            #[trigger] count_in(c@, w) == total_count(tables_of(partials@), w),
{
    let ghost ps = tables_of(partials@);
    let ghost n = partials.len() as int;
    let mut rest = partials;
    let mut acc = WordCounts::new();
    let mut i: usize = 0;
    proof {
        assert(ps.take(0) =~= Seq::empty());
        assert(rest@ =~= partials@.skip(0));
    }
    while rest.len() > 0
        invariant
            n == ps.len(),
            n <= usize::MAX,
            ps == tables_of(partials@),
            i + rest.len() == n,
            rest@ == partials@.skip(i as int),
            forall|j: int| 0 <= j < partials.len() ==> #[trigger] partials[j].wf(),
            acc.wf(),
            forall|w: Seq<char>| #[trigger] count_in(acc@, w) == total_count(ps.take(i as int), w),
        decreases rest.len(),
    {
        let part = rest.remove(0);
        assert(part == partials@[i as int]);
        assert(part@ == ps[i as int]);
        let ghost prev = acc@;
        proof {
            assert(ps.take(i as int + 1).drop_last() =~= ps.take(i as int));
        }
        match merge_counts(acc, part) {
            Ok(m) => {
                acc = m;
            },
            Err(e) => {
                proof {
                    let w = choose|w: Seq<char>| !(count_in(prev, w) + count_in(ps[i as int], w) <= u32::MAX);
                    assert(total_count(ps.take(i as int + 1), w) > u32::MAX);
                    lemma_total_prefix(ps, i as int + 1, w);
                    assert(!totals_fit(ps));
                }
                return Err(e);
            },
        }
        proof {
            assert(rest@ =~= partials@.skip(i as int + 1));
        }
        i = i + 1;
    }
    proof {
        assert(ps.take(n) =~= ps);
        assert forall|w: Seq<char>| #[trigger] total_count(ps, w) <= u32::MAX by {
            assert(count_in(acc@, w) == total_count(ps.take(n), w));
        }
    }
    Ok(acc)
}

/// Lists a table whose counts are those of `ws` by descending count, and
/// shows that what it lists holds every word of `ws` once, with counts that
/// add up to the number of words.
fn rank_counted(c: WordCounts, Ghost(ws): Ghost<Seq<Seq<char>>>) -> (r: Vec<(String, u32)>)
    requires
        c.wf(),
        counts_words(c@, ws),
    ensures
        lists_words(r.deep_view(), ws),
        in_rank_order(r.deep_view()),
        by_count_desc(r.deep_view()),
        sum_counts(r.deep_view()) == ws.len(),
{
    let ghost m = c@;
    let r = c.into_ranked();
    let ghost rv = r.deep_view();
    proof {
        assert(lists_entries(rv, m));
        assert forall|i: int| 0 <= i < rv.len()
            implies #[trigger] rv[i].1 == occurrences(ws, rv[i].0) && rv[i].1 >= 1 by {
            assert(m.contains_key(rv[i].0));
            assert(count_in(m, rv[i].0) == occurrences(ws, rv[i].0));
        }
        assert forall|w: Seq<char>| #[trigger] occurrences(ws, w) > 0
            implies exists|i: int| 0 <= i < rv.len() && rv[i].0 == w by {
            assert(count_in(m, w) == occurrences(ws, w));
            assert(m.contains_key(w));
        }
        lemma_total_count(rv, ws);
    }
    r
}

/// Counts the words of all files with one worker and lists them by
/// descending count, words of equal count in dictionary order. `None` stands for a file that could not be read; it,
/// and any file that is not valid UTF-8, contributes nothing.
pub fn count_words(tok: &Tokenizer, files: &[Option<Vec<u8>>]) -> (r: Result<Vec<(String, u32)>, CountError>)
    ensures
        r is Ok <==> counts_fit(all_words(files.deep_view())),
        r matches Ok(v) ==> lists_words(v.deep_view(), all_words(files.deep_view())),
        r matches Ok(v) ==> by_count_desc(v.deep_view()),
        r matches Ok(v) ==> in_rank_order(v.deep_view()),
        r matches Ok(v) ==> sum_counts(v.deep_view()) == all_words(files.deep_view()).len(),
{
    match count_batch(tok, files) {
        Ok(c) => Ok(rank_counted(c, Ghost(all_words(files.deep_view())))),
        Err(e) => Err(e),
    }
}

/// Counts the words of all files in contiguous chunks of `chunk_size` files,
/// merges the partial tables and lists the words as `count_words` does. The
/// counts are those that `count_words` gives, whatever the chunk size.
pub fn count_words_chunked(tok: &Tokenizer, files: &[Option<Vec<u8>>], chunk_size: usize) -> (r: Result<Vec<(String, u32)>, CountError>)
    requires
        chunk_size >= 1,
    ensures
        r is Ok <==> counts_fit(all_words(files.deep_view())),
        r matches Ok(v) ==> lists_words(v.deep_view(), all_words(files.deep_view())),
        r matches Ok(v) ==> by_count_desc(v.deep_view()),
        r matches Ok(v) ==> in_rank_order(v.deep_view()),
        r matches Ok(v) ==> sum_counts(v.deep_view()) == all_words(files.deep_view()).len(),
{
    match count_chunked(tok, files, chunk_size) {
        Ok(c) => Ok(rank_counted(c, Ghost(all_words(files.deep_view())))),
        Err(e) => Err(e),
    }
}

/// Merges the partial tables of all workers and lists the words by
/// descending count, words of equal count in dictionary order.
pub fn rank_partials(partials: Vec<WordCounts>) -> (r: Result<Vec<(String, u32)>, CountError>)
    requires
        forall|i: int| 0 <= i < partials.len() ==> #[trigger] partials[i].wf(),
    ensures
        r is Ok <==> totals_fit(tables_of(partials@)),
        r matches Ok(v) ==> lists_entries(v.deep_view(), merged_tables(tables_of(partials@))),
        r matches Ok(v) ==> by_count_desc(v.deep_view()),
        r matches Ok(v) ==> in_rank_order(v.deep_view()),
{
    match merge_all(partials) {
        Ok(c) => {
            let ghost m = c@;
            let r = c.into_ranked();
            proof {
                assert(m =~= merged_tables(tables_of(partials@))) by {
                    assert forall|w: Seq<char>| #[trigger] m.contains_key(w) <==> merged_tables(tables_of(partials@)).contains_key(w) by {
                        assert(count_in(m, w) == total_count(tables_of(partials@), w));
                    }
                    assert forall|w: Seq<char>| #[trigger] m.contains_key(w) implies m[w] == merged_tables(tables_of(partials@))[w] by {
                        assert(count_in(m, w) == total_count(tables_of(partials@), w));
                    }
                }
            }
            Ok(r)
        },
        Err(e) => Err(e),
    }
}

/// The table of the summed counts over `ps`, where they fit.
pub open spec fn merged_tables(ps: Seq<Map<Seq<char>, u32>>) -> Map<Seq<char>, u32> {
    Map::new(|w: Seq<char>| total_count(ps, w) > 0, |w: Seq<char>| total_count(ps, w) as u32)
}

/// A file that is not valid UTF-8 adds nothing to the words of a file set,
/// wherever it stands among the files, exactly as a file that could not be
/// read.
pub proof fn lemma_invalid_file_adds_nothing(files: Seq<Option<Seq<u8>>>, i: int, bytes: Seq<u8>)
    requires
        0 <= i <= files.len(),
        utf8_decode(bytes) is None,
    ensures
        all_words(files.insert(i, Some(bytes))) == all_words(files),
        all_words(files.insert(i, None)) == all_words(files),
    decreases files.len(),
{
    if i == files.len() {
        assert(files.insert(i, Some(bytes)).drop_last() =~= files);
        assert(files.insert(i, None).drop_last() =~= files);
        assert(file_words(Some(bytes)) =~= Seq::empty());
        assert(all_words(files) + Seq::empty() =~= all_words(files));
    } else {
        lemma_invalid_file_adds_nothing(files.drop_last(), i, bytes);
        assert(files.insert(i, Some(bytes)).drop_last() =~= files.drop_last().insert(i, Some(bytes)));
        assert(files.insert(i, None).drop_last() =~= files.drop_last().insert(i, None));
    }
}

} // verus!
