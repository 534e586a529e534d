//! Ranking: orders a document's entries by descending snippet count with a
//! stable insertion order for ties, then truncates to the eleven entries at
//! indices zero through ten.

use vstd::prelude::*;
use crate::windows::EntrySeq;

verus! {

/// Stable descending insertion: `x` lands before the first entry with fewer
/// snippets than it, so entries with equal counts keep their arrival order.
pub open spec fn insert_desc(s: EntrySeq, x: (Seq<char>, Seq<Seq<char>>)) -> EntrySeq
    decreases s.len(),
{
    if s.len() == 0 {
        seq![x]
    } else if x.1.len() > s[0].1.len() {
        seq![x] + s
    } else {
        seq![s[0]] + insert_desc(s.drop_first(), x)
    }
}

/// Stable sort by descending snippet count: entries are inserted in their
/// arrival order, so ties keep it.
pub open spec fn sort_desc(s: EntrySeq) -> EntrySeq
    decreases s.len(),
{
    if s.len() == 0 {
        Seq::empty()
    } else {
        insert_desc(sort_desc(s.drop_last()), s.last())
    }
}

/// The ranked entries: sorted by descending count and, when more than ten
/// entries exist, cut to the entries at indices zero through ten — eleven
/// survive, deliberately.
pub open spec fn rank_spec(s: EntrySeq) -> EntrySeq {
    let t = sort_desc(s);
    if t.len() > 10 {
        t.subrange(0, 11)
    } else {
        t
    }
}

/// Non-strict descending order by snippet count.
pub open spec fn sorted_desc(s: EntrySeq) -> bool {
    forall|i: int, j: int|
        0 <= i <= j < s.len() ==> (#[trigger] s[i]).1.len() >= (#[trigger] s[j]).1.len()
}

proof fn lemma_insert_desc_at(s: EntrySeq, x: (Seq<char>, Seq<Seq<char>>), pos: int)
    requires
        0 <= pos <= s.len(),
        forall|j: int| 0 <= j < pos ==> (#[trigger] s[j]).1.len() >= x.1.len(),
        pos < s.len() ==> s[pos].1.len() < x.1.len(),
    ensures
        insert_desc(s, x) == s.insert(pos, x),
    decreases pos,
{
    if pos == 0 {
        if s.len() == 0 {
            assert(insert_desc(s, x) =~= s.insert(0, x));
        } else {
            assert(x.1.len() > s[0].1.len());
            assert(seq![x] + s =~= s.insert(0, x));
        }
    } else {
        let d = s.drop_first();
        assert forall|j: int| 0 <= j < pos - 1 implies (#[trigger] d[j]).1.len() >= x.1.len() by {
            assert(d[j] == s[j + 1]);
        }
        if pos - 1 < d.len() {
            assert(d[pos - 1] == s[pos]);
        }
        lemma_insert_desc_at(d, x, pos - 1);
        assert(seq![s[0]] + d.insert(pos - 1, x) =~= s.insert(pos, x));
    }
}

proof fn lemma_insert_desc_len(s: EntrySeq, x: (Seq<char>, Seq<Seq<char>>))
    ensures
        insert_desc(s, x).len() == s.len() + 1,
    decreases s.len(),
{
    if s.len() == 0 {
    } else if x.1.len() > s[0].1.len() {
    } else {
        lemma_insert_desc_len(s.drop_first(), x);
    }
}

pub proof fn lemma_sort_desc_len(s: EntrySeq)
    ensures
        sort_desc(s).len() == s.len(),
    decreases s.len(),
{
    if s.len() == 0 {
    } else {
        lemma_sort_desc_len(s.drop_last());
        lemma_insert_desc_len(sort_desc(s.drop_last()), s.last());
    }
}

proof fn lemma_insert_desc_sorted(s: EntrySeq, x: (Seq<char>, Seq<Seq<char>>))
    requires
        sorted_desc(s),
    ensures
        sorted_desc(insert_desc(s, x)),
    decreases s.len(),
{
    lemma_insert_desc_len(s, x);
    if s.len() == 0 {
    } else if x.1.len() > s[0].1.len() {
        let r = seq![x] + s;
        assert forall|i: int, j: int|
            0 <= i <= j < r.len() implies (#[trigger] r[i]).1.len() >= (#[trigger] r[j]).1.len() by {
            if i > 0 {
                assert(r[i] == s[i - 1]);
                assert(r[j] == s[j - 1]);
            } else if j > 0 {
                assert(r[j] == s[j - 1]);
                assert(s[0].1.len() >= s[j - 1].1.len());
            }
        }
    } else {
        let d = s.drop_first();
        assert forall|i: int, j: int|
            0 <= i <= j < d.len() implies (#[trigger] d[i]).1.len() >= (#[trigger] d[j]).1.len() by {
            assert(d[i] == s[i + 1]);
            assert(d[j] == s[j + 1]);
        }
        lemma_insert_desc_sorted(d, x);
        lemma_insert_desc_len(d, x);
        let t = insert_desc(d, x);
        let r = seq![s[0]] + t;
        assert forall|i: int, j: int|
            0 <= i <= j < r.len() implies (#[trigger] r[i]).1.len() >= (#[trigger] r[j]).1.len() by {
            if i > 0 {
                assert(r[i] == t[i - 1]);
                assert(r[j] == t[j - 1]);
            } else if j > 0 {
                assert(r[j] == t[j - 1]);
                lemma_insert_desc_elem(d, x, j - 1);
                if t[j - 1] != x {
                    let k = choose|k: int| 0 <= k < d.len() && t[j - 1] == #[trigger] d[k];
                    assert(d[k] == s[k + 1]);
                    assert(s[0].1.len() >= s[k + 1].1.len());
                }
            }
        }
    }
}

proof fn lemma_insert_desc_elem(s: EntrySeq, x: (Seq<char>, Seq<Seq<char>>), j: int)
    requires
        0 <= j < insert_desc(s, x).len(),
    ensures
        insert_desc(s, x)[j] == x || exists|k: int|
            0 <= k < s.len() && insert_desc(s, x)[j] == #[trigger] s[k],
    decreases s.len(),
{
    lemma_insert_desc_len(s, x);
    if s.len() == 0 {
    } else if x.1.len() > s[0].1.len() {
        if j > 0 {
            assert((seq![x] + s)[j] == s[j - 1]);
        }
    } else {
        let d = s.drop_first();
        let t = insert_desc(d, x);
        if j == 0 {
            assert((seq![s[0]] + t)[0] == s[0]);
        } else {
            assert((seq![s[0]] + t)[j] == t[j - 1]);
            lemma_insert_desc_len(d, x);
            lemma_insert_desc_elem(d, x, j - 1);
            if t[j - 1] != x {
                let k = choose|k: int| 0 <= k < d.len() && t[j - 1] == #[trigger] d[k];
                assert(d[k] == s[k + 1]);
            }
        }
    }
}

/// Ranking truncation: the ranked list is sorted by non-increasing snippet
/// count, and holds exactly eleven entries when more than ten words were
/// accumulated, all of them otherwise.
pub proof fn lemma_rank_sorted(s: EntrySeq)
    ensures
        sorted_desc(rank_spec(s)),
        rank_spec(s).len() == if s.len() > 10 {
            11int
        } else {
            s.len() as int
        },
    decreases s.len(),
{
    lemma_sort_desc_len(s);
    lemma_sort_sorted(s);
    let t = sort_desc(s);
    if t.len() > 10 {
        assert forall|i: int, j: int|
            0 <= i <= j < rank_spec(s).len() implies (#[trigger] rank_spec(s)[i]).1.len() >= (
        #[trigger] rank_spec(s)[j]).1.len() by {
            assert(rank_spec(s)[i] == t[i]);
            assert(rank_spec(s)[j] == t[j]);
        }
    }
}

proof fn lemma_sort_sorted(s: EntrySeq)
    ensures
        sorted_desc(sort_desc(s)),
    decreases s.len(),
{
    if s.len() == 0 {
    } else {
        lemma_sort_sorted(s.drop_last());
        lemma_insert_desc_sorted(sort_desc(s.drop_last()), s.last());
    }
}

/// Pairwise distinct snippet counts.
pub open spec fn counts_distinct(s: EntrySeq) -> bool {
    forall|i: int, j: int|
        0 <= i < j < s.len() ==> (#[trigger] s[i]).1.len() != (#[trigger] s[j]).1.len()
}

/// Strictly descending order by snippet count.
pub open spec fn sorted_strict(s: EntrySeq) -> bool {
    forall|i: int, j: int|
        0 <= i < j < s.len() ==> (#[trigger] s[i]).1.len() > (#[trigger] s[j]).1.len()
}

proof fn lemma_sort_desc_elem(s: EntrySeq, j: int)
    requires
        0 <= j < sort_desc(s).len(),
    ensures
        exists|k: int| 0 <= k < s.len() && sort_desc(s)[j] == #[trigger] s[k],
    decreases s.len(),
{
    lemma_sort_desc_len(s);
    let d = s.drop_last();
    lemma_sort_desc_len(d);
    lemma_insert_desc_elem(sort_desc(d), s.last(), j);
    if sort_desc(s)[j] == s.last() {
        assert(sort_desc(s)[j] == s[s.len() - 1]);
    } else {
        let k0 = choose|k0: int| 0 <= k0 < sort_desc(d).len() && sort_desc(s)[j] == #[trigger] sort_desc(d)[k0];
        lemma_sort_desc_elem(d, k0);
        let k = choose|k: int| 0 <= k < d.len() && sort_desc(d)[k0] == #[trigger] d[k];
        assert(d[k] == s[k]);
    }
}

proof fn lemma_insert_desc_strict(s: EntrySeq, x: (Seq<char>, Seq<Seq<char>>))
    requires
        sorted_strict(s),
        forall|j: int| 0 <= j < s.len() ==> (#[trigger] s[j]).1.len() != x.1.len(),
    ensures
        sorted_strict(insert_desc(s, x)),
    decreases s.len(),
{
    lemma_insert_desc_len(s, x);
    if s.len() == 0 {
    } else if x.1.len() > s[0].1.len() {
        let r = seq![x] + s;
        assert forall|i: int, j: int|
            0 <= i < j < r.len() implies (#[trigger] r[i]).1.len() > (#[trigger] r[j]).1.len() by {
            if i > 0 {
                assert(r[i] == s[i - 1] && r[j] == s[j - 1]);
            } else {
                assert(r[j] == s[j - 1]);
                if j > 1 {
                    assert(s[0].1.len() > s[j - 1].1.len());
                }
            }
        }
    } else {
        let d = s.drop_first();
        assert(x.1.len() < s[0].1.len());
        assert forall|i: int, j: int|
            0 <= i < j < d.len() implies (#[trigger] d[i]).1.len() > (#[trigger] d[j]).1.len() by {
            assert(d[i] == s[i + 1] && d[j] == s[j + 1]);
        }
        assert forall|j: int| 0 <= j < d.len() implies (#[trigger] d[j]).1.len() != x.1.len() by {
            assert(d[j] == s[j + 1]);
        }
        lemma_insert_desc_strict(d, x);
        lemma_insert_desc_len(d, x);
        let t = insert_desc(d, x);
        let r = seq![s[0]] + t;
        assert forall|i: int, j: int|
            0 <= i < j < r.len() implies (#[trigger] r[i]).1.len() > (#[trigger] r[j]).1.len() by {
            if i > 0 {
                assert(r[i] == t[i - 1] && r[j] == t[j - 1]);
            } else {
                assert(r[j] == t[j - 1]);
                lemma_insert_desc_elem(d, x, j - 1);
                if t[j - 1] == x {
                } else {
                    let k = choose|k: int| 0 <= k < d.len() && t[j - 1] == #[trigger] d[k];
                    assert(d[k] == s[k + 1]);
                    assert(s[0].1.len() > s[k + 1].1.len());
                }
            }
        }
    }
}

proof fn lemma_sort_desc_strict(s: EntrySeq)
    requires
        counts_distinct(s),
    ensures
        sorted_strict(sort_desc(s)),
    decreases s.len(),
{
    if s.len() == 0 {
    } else {
        let d = s.drop_last();
        assert forall|i: int, j: int|
            0 <= i < j < d.len() implies (#[trigger] d[i]).1.len() != (#[trigger] d[j]).1.len() by {
            assert(d[i] == s[i] && d[j] == s[j]);
        }
        lemma_sort_desc_strict(d);
        lemma_sort_desc_len(d);
        assert forall|j: int|
            0 <= j < sort_desc(d).len() implies (#[trigger] sort_desc(d)[j]).1.len()
            != s.last().1.len() by {
            lemma_sort_desc_elem(d, j);
            let k = choose|k: int| 0 <= k < d.len() && sort_desc(d)[j] == #[trigger] d[k];
            assert(d[k] == s[k]);
            assert(s[k].1.len() != s[s.len() - 1].1.len());
        }
        lemma_insert_desc_strict(sort_desc(d), s.last());
    }
}

/// Every ranked entry is one of the input entries.
pub proof fn lemma_rank_elem(s: EntrySeq, j: int)
    requires
        0 <= j < rank_spec(s).len(),
    ensures
        exists|k: int| 0 <= k < s.len() && rank_spec(s)[j] == #[trigger] s[k],
{
    lemma_sort_desc_len(s);
    let t = sort_desc(s);
    if t.len() > 10 {
        assert(rank_spec(s)[j] == t[j]);
    }
    lemma_sort_desc_elem(s, j);
}

/// Ranking truncation, strict form: when all snippet counts are pairwise
/// distinct, the ranked list is sorted by strictly descending snippet count.
pub proof fn lemma_rank_strict(s: EntrySeq)
    requires
        counts_distinct(s),
    ensures
        sorted_strict(rank_spec(s)),
{
    lemma_sort_desc_strict(s);
    let t = sort_desc(s);
    if t.len() > 10 {
        assert forall|i: int, j: int|
            0 <= i < j < rank_spec(s).len() implies (#[trigger] rank_spec(s)[i]).1.len() > (
        #[trigger] rank_spec(s)[j]).1.len() by {
            assert(rank_spec(s)[i] == t[i] && rank_spec(s)[j] == t[j]);
        }
    }
}

/// Ranks a document's entries: sorts them by descending snippet count with
/// stable ties, then keeps at most the first eleven.
pub fn map_vec(m: Vec<(String, Vec<String>)>) -> (r: Vec<(String, Vec<String>)>)
    ensures
        r.deep_view() == rank_spec(m.deep_view()),
{
    let ghost mdv = m.deep_view();
    let mut src = m;
    let mut sorted: Vec<(String, Vec<String>)> = Vec::new();
    proof {
        assert(mdv.take(0) =~= Seq::<(Seq<char>, Seq<Seq<char>>)>::empty());
        assert(sorted.deep_view() =~= sort_desc(mdv.take(0)));
    }
    while src.len() > 0
        invariant
            src.len() <= mdv.len(),
            src.deep_view() =~= mdv.skip(mdv.len() - src.len()),
            sorted.deep_view() == sort_desc(mdv.take(mdv.len() - src.len())),
        decreases src.len(),
    {
        let ghost k = mdv.len() - src.deep_view().len();
        let ghost sdv = sorted.deep_view();
        let ghost sv0 = src@;
        let ghost dv0 = src.deep_view();
        let x = src.remove(0);
        proof {
            assert(x.deep_view() == dv0[0]);
            assert(mdv.skip(k)[0] == mdv[k]);
            assert(x.deep_view() == mdv[k]);
            assert(src@ =~= sv0.skip(1));
            assert forall|j: int| 0 <= j < src.deep_view().len() implies src.deep_view()[j]
                == mdv.skip(k + 1)[j] by {
                assert(src@[j] == sv0[j + 1]);
                assert(src.deep_view()[j] == sv0[j + 1].deep_view());
                assert(dv0[j + 1] == sv0[j + 1].deep_view());
                assert(mdv.skip(k)[j + 1] == mdv[k + 1 + j]);
                assert(mdv.skip(k + 1)[j] == mdv[k + 1 + j]);
            }
            assert(src.deep_view() =~= mdv.skip(k + 1));
        }
        let c = x.1.len();
        let mut pos: usize = 0;
        while pos < sorted.len() && sorted[pos].1.len() >= c
            invariant
                pos <= sorted.len(),
                c == x.1.len(),
                sdv == sorted.deep_view(),
                forall|j: int| 0 <= j < pos ==> (#[trigger] sdv[j]).1.len() >= c,
            decreases sorted.len() - pos,
        {
            proof {
                assert(sdv[pos as int].1.len() == sorted@[pos as int].1@.len());
            }
            pos += 1;
        }
        proof {
            if (pos as int) < sdv.len() {
                assert(sdv[pos as int].1.len() == sorted@[pos as int].1@.len());
            }
            lemma_insert_desc_at(sdv, x.deep_view(), pos as int);
        }
        sorted.insert(pos, x);
        proof {
            assert(sorted.deep_view() =~= sdv.insert(pos as int, mdv[k]));
            assert(mdv.take(k + 1).drop_last() =~= mdv.take(k));
            assert(mdv.take(k + 1).last() == mdv[k]);
        }
    }
    proof {
        assert(mdv.take(mdv.len() as int) =~= mdv);
    }
    if sorted.len() > 10 {
        sorted.truncate(11);
        proof {
            assert(sorted.deep_view() =~= sort_desc(mdv).subrange(0, 11));
        }
    }
    sorted
}

} // verus!
