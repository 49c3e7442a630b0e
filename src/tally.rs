use vstd::prelude::*;

use crate::counts::{count_in, lists_entries, positive_counts, CountError, WordCounts};
use crate::text::{file_words, Tokenizer};

verus! {

/// How many times `w` occurs in `ws`.
pub open spec fn occurrences(ws: Seq<Seq<char>>, w: Seq<char>) -> nat
    decreases ws.len(),
{
    if ws.len() == 0 {
        0
    } else {
        occurrences(ws.drop_last(), w) + if ws.last() == w {
            1nat
        } else {
            0nat
        }
    }
}

/// The words of all files, file after file.
pub open spec fn all_words(files: Seq<Option<Seq<u8>>>) -> Seq<Seq<char>>
    decreases files.len(),
{
    if files.len() == 0 {
        Seq::empty()
    } else {
        all_words(files.drop_last()) + file_words(files.last())
    }
}

/// `m` holds exactly the words of `ws`, each with its number of occurrences.
pub open spec fn counts_words(m: Map<Seq<char>, u32>, ws: Seq<Seq<char>>) -> bool {
    forall|w: Seq<char>|
        #![trigger m.contains_key(w)]
        #![trigger occurrences(ws, w)]
        count_in(m, w) == occurrences(ws, w)
}

/// No word occurs in `ws` more often than a 32-bit count can hold.
pub open spec fn counts_fit(ws: Seq<Seq<char>>) -> bool {
    forall|w: Seq<char>| #[trigger] occurrences(ws, w) <= u32::MAX
}

/// The table that merging `a` and `b` gives: counts of shared words add up.
pub open spec fn merged(a: Map<Seq<char>, u32>, b: Map<Seq<char>, u32>) -> Map<Seq<char>, u32> {
    Map::new(
        |w: Seq<char>| a.contains_key(w) || b.contains_key(w),
        |w: Seq<char>| (count_in(a, w) + count_in(b, w)) as u32,
    )
}

/// No word's summed count in `a` and `b` exceeds what 32 bits hold.
pub open spec fn merge_fits(a: Map<Seq<char>, u32>, b: Map<Seq<char>, u32>) -> bool {
    forall|w: Seq<char>|
        #![trigger count_in(a, w)]
        #![trigger count_in(b, w)]
        count_in(a, w) + count_in(b, w) <= u32::MAX
}

/// Occurrences in a concatenation add up.
pub proof fn lemma_occurrences_append(a: Seq<Seq<char>>, b: Seq<Seq<char>>, w: Seq<char>)
    ensures
        occurrences(a + b, w) == occurrences(a, w) + occurrences(b, w),
    decreases b.len(),
{
    if b.len() == 0 {
        assert(a + b =~= a);
    } else {
        assert((a + b).drop_last() =~= a + b.drop_last());
        lemma_occurrences_append(a, b.drop_last(), w);
    }
}

/// The words of a file sequence are the words of any prefix followed by the
/// words of the rest.
pub proof fn lemma_all_words_split(files: Seq<Option<Seq<u8>>>, i: int)
    requires
        0 <= i <= files.len(),
    ensures
        all_words(files) == all_words(files.take(i)) + all_words(files.skip(i)),
    decreases files.len(),
{
    if i == files.len() {
        assert(files.take(i) =~= files);
        assert(files.skip(i).len() == 0);
        assert(all_words(files) + Seq::empty() =~= all_words(files));
    } else {
        let d = files.drop_last();
        lemma_all_words_split(d, i);
        assert(d.take(i) =~= files.take(i));
        assert(files.skip(i).drop_last() =~= d.skip(i));
        assert(files.skip(i).last() == files.last());
        assert(all_words(files) =~= all_words(files.take(i)) + all_words(files.skip(i)));
    }
}

/// Counting the words of a partition of the files, part by part, gives for
/// every word the count that counting all files at once gives: where the
/// parts are cut does not matter.
pub proof fn lemma_partition_counts(files: Seq<Option<Seq<u8>>>, i: int, w: Seq<char>)
    requires
        0 <= i <= files.len(),
    ensures
        occurrences(all_words(files), w)
            == occurrences(all_words(files.take(i)), w) + occurrences(all_words(files.skip(i)), w),
{
    lemma_all_words_split(files, i);
    lemma_occurrences_append(all_words(files.take(i)), all_words(files.skip(i)), w);
}

/// Each file contributes its words exactly once: the count of any word over
/// all files is its count over the other files plus its count in that file.
pub proof fn lemma_each_file_once(files: Seq<Option<Seq<u8>>>, i: int, w: Seq<char>)
    requires
        0 <= i < files.len(),
    ensures
        occurrences(all_words(files), w)
            == occurrences(all_words(files.remove(i)), w) + occurrences(file_words(files[i]), w),
{
    let rest = files.remove(i);
    let tail = files.skip(i);
    lemma_partition_counts(files, i, w);
    lemma_partition_counts(tail, 1, w);
    lemma_partition_counts(rest, i, w);
    assert(rest.take(i) =~= files.take(i));
    assert(rest.skip(i) =~= tail.skip(1));
    let one = tail.take(1);
    assert(one.drop_last().len() == 0);
    assert(all_words(one.drop_last()) == Seq::<Seq<char>>::empty());
    assert(one.last() == files[i]);
    assert(all_words(one) =~= file_words(files[i]));
}

/// Merging is commutative: the merged table does not depend on which
/// partial table arrives first.
pub proof fn lemma_merge_commutes(a: Map<Seq<char>, u32>, b: Map<Seq<char>, u32>)
    ensures
        merged(a, b) == merged(b, a),
        merge_fits(a, b) == merge_fits(b, a),
{
    assert(merged(a, b) =~= merged(b, a));
}

/// Merging is associative: the grouping of partial tables does not matter
/// where no count overflows.
pub proof fn lemma_merge_associates(
    a: Map<Seq<char>, u32>,
    b: Map<Seq<char>, u32>,
    c: Map<Seq<char>, u32>,
)
    requires
        merge_fits(a, b),
        merge_fits(merged(a, b), c),
    ensures
        merge_fits(b, c),
        merge_fits(a, merged(b, c)),
        merged(merged(a, b), c) == merged(a, merged(b, c)),
{
    assert forall|w: Seq<char>| #[trigger] count_in(b, w) + count_in(c, w) <= u32::MAX by {
        assert(count_in(a, w) + count_in(b, w) <= u32::MAX);
        assert(count_in(merged(a, b), w) + count_in(c, w) <= u32::MAX);
    }
    assert forall|w: Seq<char>| #[trigger] count_in(a, w) + count_in(merged(b, c), w) <= u32::MAX by {
        assert(count_in(a, w) + count_in(b, w) <= u32::MAX);
        assert(count_in(merged(a, b), w) + count_in(c, w) <= u32::MAX);
    }
    assert forall|w: Seq<char>| #[trigger] merged(merged(a, b), c).contains_key(w)
        implies merged(merged(a, b), c)[w] == merged(a, merged(b, c))[w] by {
        assert(count_in(a, w) + count_in(b, w) <= u32::MAX);
        assert(count_in(merged(a, b), w) + count_in(c, w) <= u32::MAX);
    }
    assert(merged(merged(a, b), c) =~= merged(a, merged(b, c)));
}

/// Counts the words of `files[lo..hi]` into `counts`.
fn count_range(
    tok: &Tokenizer,
    files: &[Option<Vec<u8>>],
    start: usize,
    lo: usize,
    hi: usize,
    counts: &mut WordCounts,
) -> (r: Result<(), CountError>)
    requires
        start <= lo <= hi <= files.len(),
        old(counts).wf(),
        counts_words(old(counts)@, all_words(files.deep_view().subrange(start as int, lo as int))),
    ensures
        final(counts).wf(),
        r is Ok <==> counts_fit(all_words(files.deep_view().subrange(start as int, hi as int))),
        r is Ok ==> counts_words(final(counts)@, all_words(files.deep_view().subrange(start as int, hi as int))),
{
    let ghost fs = files.deep_view();
    let mut i: usize = lo;
    while i < hi
        invariant
            start <= lo <= i <= hi <= files.len(),
            fs == files.deep_view(),
            counts.wf(),
            counts_words(counts@, all_words(fs.subrange(start as int, i as int))),
            counts_fit(all_words(fs.subrange(start as int, i as int))),
        decreases hi - i,
    {
        let ws = tok.file_words(&files[i]);
        let ghost done = all_words(fs.subrange(start as int, i as int));
        let mut k: usize = 0;
        while k < ws.len()
            invariant
                0 <= k <= ws.len(),
                start <= lo <= i < hi <= files.len(),
                fs == files.deep_view(),
                ws.deep_view() == file_words(fs[i as int]),
                done == all_words(fs.subrange(start as int, i as int)),
                counts.wf(),
                counts_words(counts@, done + ws.deep_view().take(k as int)),
                counts_fit(done + ws.deep_view().take(k as int)),
            decreases ws.len() - k,
        {
            let ghost before = done + ws.deep_view().take(k as int);
            let ghost after = done + ws.deep_view().take(k as int + 1);
            assert(after.drop_last() =~= before);
            assert(after.last() == ws[k as int]@);
            let word = ws[k].clone();
            let ghost old_map = counts@;
            match counts.add(word, 1) {
                Ok(()) => {},
                Err(e) => {
                    proof {
                        assert(occurrences(after, ws[k as int]@) > u32::MAX);
                        let upto = fs.subrange(start as int, hi as int);
                        assert(upto.subrange(0, i - start) =~= fs.subrange(start as int, i as int));
                        assert(upto[i - start] == fs[i as int]);
                        lemma_prefix_occurrences(upto, i - start, ws.deep_view(), k as int + 1, ws[k as int]@);
                    }
                    return Err(e);
                },
            }
            assert(counts_words(counts@, after)) by {
                assert forall|w: Seq<char>| #[trigger] occurrences(after, w) == count_in(counts@, w) by {
                    assert(count_in(old_map, w) == occurrences(before, w));
                }
            }
            k = k + 1;
        }
        proof {
            assert(ws.deep_view().take(ws.len() as int) =~= ws.deep_view());
            assert(fs.subrange(start as int, i as int + 1).drop_last() =~= fs.subrange(start as int, i as int));
        }
        i = i + 1;
    }
    Ok(())
}

/// A prefix of the word sequence has no more occurrences than the whole.
proof fn lemma_prefix_occurrences(
    fs: Seq<Option<Seq<u8>>>,
    i: int,
    ws: Seq<Seq<char>>,
    k: int,
    w: Seq<char>,
)
    requires
        0 <= i < fs.len(),
        ws == file_words(fs[i]),
        0 <= k <= ws.len(),
    ensures
        occurrences(all_words(fs.subrange(0, i)) + ws.take(k), w) <= occurrences(all_words(fs), w),
{
    let head = fs.subrange(0, i + 1);
    assert(head.drop_last() =~= fs.subrange(0, i));
    assert(ws =~= ws.take(k) + ws.skip(k));
    lemma_occurrences_append(ws.take(k), ws.skip(k), w);
    lemma_occurrences_append(all_words(fs.subrange(0, i)), ws.take(k), w);
    lemma_occurrences_append(all_words(fs.subrange(0, i)), ws, w);
    lemma_partition_counts(fs, i + 1, w);
    assert(fs.take(i + 1) =~= head);
}

/// Counts the words of a batch of files: the partial result of one worker.
/// `None` stands for a file that could not be read; it contributes nothing,
/// as does a file that is not valid UTF-8.
pub fn count_batch(tok: &Tokenizer, files: &[Option<Vec<u8>>]) -> (r: Result<WordCounts, CountError>)
    ensures
        r is Ok <==> counts_fit(all_words(files.deep_view())),
        r matches Ok(c) ==> c.wf() && counts_words(c@, all_words(files.deep_view())),
{
    let mut counts = WordCounts::new();
    proof {
        assert(files.deep_view().subrange(0, 0) =~= Seq::empty());
        assert(files.deep_view().subrange(0, files.len() as int) =~= files.deep_view());
    }
    match count_range(tok, files, 0, 0, files.len(), &mut counts) {
        Ok(()) => Ok(counts),
        Err(e) => Err(e),
    }
}

/// Merges two partial tables: counts of shared words add up, other words
/// are kept. Fails where a summed count would not fit in 32 bits.
pub fn merge_counts(a: WordCounts, b: WordCounts) -> (r: Result<WordCounts, CountError>)
    requires
        a.wf(),
        b.wf(),
    ensures
        r is Ok <==> merge_fits(a@, b@),
        r matches Ok(c) ==> c.wf() && c@ == merged(a@, b@),
{
    let ghost am = a@;
    let ghost bm = b@;
    let es = b.into_entries();
    let ghost ev = es.deep_view();
    let mut acc = a;
    let mut i: usize = 0;
    while i < es.len()
        invariant
            0 <= i <= es.len(),
            ev == es.deep_view(),
            am == a@,
            bm == b@,
            lists_entries(ev, bm),
            positive_counts(bm),
            acc.wf(),
            forall|j: int| 0 <= j < i ==> #[trigger] count_in(acc@, ev[j].0) == count_in(am, ev[j].0) + ev[j].1,
            forall|j: int| i <= j < ev.len() ==> #[trigger] count_in(acc@, ev[j].0) == count_in(am, ev[j].0),
            forall|w: Seq<char>| !bm.contains_key(w) ==> #[trigger] count_in(acc@, w) == count_in(am, w),
        decreases es.len() - i,
    {
        let word = es[i].0.clone();
        let n: u32 = es[i].1;
        let ghost before = acc@;
        assert(ev[i as int].0 == word@ && ev[i as int].1 == n);
        assert(count_in(before, ev[i as int].0) == count_in(am, ev[i as int].0));
        assert(bm.contains_key(ev[i as int].0) && count_in(bm, word@) == n);
        match acc.add(word, n) {
            Ok(()) => {},
            Err(e) => {
                assert(count_in(am, word@) + count_in(bm, word@) > u32::MAX);
                assert(!merge_fits(am, bm));
                return Err(e);
            },
        }
        proof {
            assert forall|w: Seq<char>| !bm.contains_key(w) implies #[trigger] count_in(acc@, w) == count_in(before, w) by {
                assert(bm.contains_key(ev[i as int].0));
            }
            assert forall|j: int| 0 <= j < ev.len() && j != i implies #[trigger] count_in(acc@, ev[j].0) == count_in(before, ev[j].0) by {
                assert(ev[j].0 != ev[i as int].0);
            }
        }
        i = i + 1;
    }
    proof {
        assert forall|w: Seq<char>| #[trigger] count_in(am, w) + count_in(bm, w) <= u32::MAX by {
            if bm.contains_key(w) {
                let j = choose|j: int| 0 <= j < ev.len() && ev[j].0 == w;
                assert(count_in(acc@, ev[j].0) == count_in(am, w) + count_in(bm, w));
            }
        }
        assert forall|w: Seq<char>| #[trigger] count_in(acc@, w) == count_in(am, w) + count_in(bm, w) by {
            if bm.contains_key(w) {
                let j = choose|j: int| 0 <= j < ev.len() && ev[j].0 == w;
                assert(count_in(acc@, ev[j].0) == count_in(am, ev[j].0) + ev[j].1);
            }
        }
        assert forall|w: Seq<char>| #[trigger] acc@.contains_key(w) <==> merged(am, bm).contains_key(w) by {
            assert(count_in(acc@, w) == count_in(am, w) + count_in(bm, w));
        }
        assert forall|w: Seq<char>| #[trigger] acc@.contains_key(w) implies acc@[w] == merged(am, bm)[w] by {
            assert(count_in(acc@, w) == count_in(am, w) + count_in(bm, w));
        }
        assert(acc@ =~= merged(am, bm));
    }
    Ok(acc)
}

/// The words of a contiguous run of files occur no more often than the
/// words of all files.
proof fn lemma_subrange_occurrences(fs: Seq<Option<Seq<u8>>>, lo: int, hi: int, w: Seq<char>)
    requires
        0 <= lo <= hi <= fs.len(),
    ensures
        occurrences(all_words(fs.subrange(lo, hi)), w) <= occurrences(all_words(fs), w),
{
    let upto = fs.subrange(0, hi);
    lemma_partition_counts(fs, hi, w);
    assert(fs.take(hi) =~= upto);
    lemma_partition_counts(upto, lo, w);
    assert(upto.skip(lo) =~= fs.subrange(lo, hi));
}

/// The static chunking policy: the files are cut into contiguous chunks of
/// `chunk_size` files, each chunk is counted on its own, and the partial
/// tables are merged. The counts do not depend on `chunk_size`.
pub fn count_chunked(tok: &Tokenizer, files: &[Option<Vec<u8>>], chunk_size: usize) -> (r: Result<WordCounts, CountError>)
    requires
        chunk_size >= 1,
    ensures
        r is Ok <==> counts_fit(all_words(files.deep_view())),
        r matches Ok(c) ==> c.wf() && counts_words(c@, all_words(files.deep_view())),
{
    let ghost fs = files.deep_view();
    let mut acc = WordCounts::new();
    let mut lo: usize = 0;
    proof {
        assert(fs.subrange(0, 0) =~= Seq::empty());
    }
    while lo < files.len()
        invariant
            lo <= files.len(),
            chunk_size >= 1,
            fs == files.deep_view(),
            acc.wf(),
            counts_words(acc@, all_words(fs.subrange(0, lo as int))),
        decreases files.len() - lo,
    {
        let hi: usize = if files.len() - lo > chunk_size { lo + chunk_size } else { files.len() };
        let mut part = WordCounts::new();
        proof {
            assert(fs.subrange(lo as int, lo as int) =~= Seq::empty());
        }
        match count_range(tok, files, lo, lo, hi, &mut part) {
            Ok(()) => {},
            Err(e) => {
                proof {
                    assert forall|w: Seq<char>| #[trigger] occurrences(all_words(fs.subrange(lo as int, hi as int)), w)
                        <= occurrences(all_words(fs), w) by {
                        lemma_subrange_occurrences(fs, lo as int, hi as int, w);
                    }
                    assert(fs.subrange(0, fs.len() as int) =~= fs);
                }
                return Err(e);
            },
        }
        let ghost upto = fs.subrange(0, hi as int);
        proof {
            assert(upto.take(lo as int) =~= fs.subrange(0, lo as int));
            assert(upto.skip(lo as int) =~= fs.subrange(lo as int, hi as int));
            assert forall|w: Seq<char>| #[trigger] occurrences(all_words(upto), w)
                == count_in(acc@, w) + count_in(part@, w) by {
                lemma_partition_counts(upto, lo as int, w);
            }
        }
        let ghost am = acc@;
        let ghost pm = part@;
        match merge_counts(acc, part) {
            Ok(m) => {
                acc = m;
            },
            Err(e) => {
                proof {
                    let w = choose|w: Seq<char>| !(count_in(am, w) + count_in(pm, w) <= u32::MAX);
                    assert(occurrences(all_words(upto), w) == count_in(am, w) + count_in(pm, w));
                    lemma_subrange_occurrences(fs, 0, hi as int, w);
                    assert(fs.subrange(0, fs.len() as int) =~= fs);
                    assert(occurrences(all_words(fs), w) > u32::MAX);
                }
                return Err(e);
            },
        }
        lo = hi;
    }
    proof {
        assert(fs.subrange(0, fs.len() as int) =~= fs);
    }
    Ok(acc)
}

} // verus!
