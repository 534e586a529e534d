//! Context-window extraction: for each surviving word occurrence in a page,
//! a snippet of up to three tokens before and three after is captured, and
//! snippets accumulate per word, in first-occurrence order, across the pages
//! of one document.

use vstd::prelude::*;
use vstd::string::*;
use crate::text::{join_spaces, split_spaces, split_spaces_exec, join_range};
use crate::tokenize::{word_of, stopped, find_word, f_the};

verus! {

/// One document's accumulated entries: a word with its snippets, in
/// first-occurrence order of the words.
pub type EntrySeq = Seq<(Seq<char>, Seq<Seq<char>>)>;

/// Lower bound of the context window around token index `i`.
pub open spec fn win_lo(i: int) -> int {
    if i < 3 {
        0
    } else {
        i - 3
    }
}

/// Upper bound (exclusive) of the context window around token index `i` in a
/// page of `l` tokens. Near the start of the page the window reaches only two
/// tokens past `i`; elsewhere three.
pub open spec fn win_hi(i: int, l: int) -> int {
    if i < 3 {
        if l <= i + 3 {
            l
        } else {
            i + 3
        }
    } else {
        if l <= i + 4 {
            l
        } else {
            i + 4
        }
    }
}

/// The snippet captured for token index `i`: the window's tokens joined with
/// single spaces.
pub open spec fn snippet_at(toks: Seq<Seq<char>>, i: int) -> Seq<char> {
    join_spaces(toks.subrange(win_lo(i), win_hi(i, toks.len() as int)))
}

/// Window clamping: the window for index `i` of a page of `l` tokens starts
/// at `max(0, i - 3)`, stays within `max(0, i - 3) .. min(l, i + 4)`, always
/// contains `i`, and spans exactly seven tokens when `i` is at least three
/// tokens from both page edges.
pub proof fn lemma_window_bounds(i: int, l: int)
    requires
        0 <= i < l,
    ensures
        win_lo(i) == if i < 3 { 0 } else { i - 3 },
        0 <= win_lo(i) <= i < win_hi(i, l) <= l,
        win_hi(i, l) <= if l <= i + 4 { l } else { i + 4 },
        3 <= i && i + 4 <= l ==> win_hi(i, l) - win_lo(i) == 7,
{
}

/// Appends snippet `s` to the entry of word `w`, or appends a fresh entry at
/// the end when `w` has none yet.
pub open spec fn add_snippet(m: EntrySeq, w: Seq<char>, s: Seq<char>) -> EntrySeq
    decreases m.len(),
{
    if m.len() == 0 {
        seq![(w, seq![s])]
    } else if m[0].0 == w {
        seq![(m[0].0, m[0].1.push(s))] + m.drop_first()
    } else {
        seq![m[0]] + add_snippet(m.drop_first(), w, s)
    }
}

/// The effect of token `i` of a page on the accumulated entries: nothing when
/// the token yields no word or the word is stopped, otherwise its snippet is
/// recorded.
pub open spec fn page_step(m: EntrySeq, toks: Seq<Seq<char>>, i: int) -> EntrySeq {
    match word_of(toks[i]) {
        Some(w) => if !stopped(w) {
            add_snippet(m, w, snippet_at(toks, i))
        } else {
            m
        },
        None => m,
    }
}

/// The entries after the first `n` tokens of a page.
pub open spec fn page_fold(m: EntrySeq, toks: Seq<Seq<char>>, n: int) -> EntrySeq
    decreases n,
{
    if n <= 0 {
        m
    } else {
        page_step(page_fold(m, toks, n - 1), toks, n - 1)
    }
}

/// The entries after the first `n` pages of a document.
pub open spec fn pages_fold(m: EntrySeq, pages: Seq<Seq<char>>, n: int) -> EntrySeq
    decreases n,
{
    if n <= 0 {
        m
    } else {
        let toks = split_spaces(pages[n - 1]);
        page_fold(pages_fold(m, pages, n - 1), toks, toks.len() as int)
    }
}

/// A document's word-to-snippets entries, in first-occurrence order.
pub open spec fn doc_entries(pages: Seq<Seq<char>>) -> EntrySeq {
    pages_fold(Seq::empty(), pages, pages.len() as int)
}

proof fn lemma_add_snippet_found(m: EntrySeq, w: Seq<char>, s: Seq<char>, idx: int)
    requires
        0 <= idx < m.len(),
        m[idx].0 == w,
        forall|j: int| 0 <= j < idx ==> m[j].0 != w,
    ensures
        add_snippet(m, w, s) == m.update(idx, (m[idx].0, m[idx].1.push(s))),
    decreases idx,
{
    if idx == 0 {
        assert(seq![(m[0].0, m[0].1.push(s))] + m.drop_first() =~= m.update(
            0,
            (m[0].0, m[0].1.push(s)),
        ));
    } else {
        let d = m.drop_first();
        assert forall|j: int| 0 <= j < idx - 1 implies d[j].0 != w by {
            assert(d[j] == m[j + 1]);
        }
        assert(d[idx - 1] == m[idx]);
        lemma_add_snippet_found(d, w, s, idx - 1);
        assert(seq![m[0]] + d.update(idx - 1, (d[idx - 1].0, d[idx - 1].1.push(s))) =~= m.update(
            idx,
            (m[idx].0, m[idx].1.push(s)),
        ));
    }
}

proof fn lemma_add_snippet_missing(m: EntrySeq, w: Seq<char>, s: Seq<char>)
    requires
        forall|j: int| 0 <= j < m.len() ==> m[j].0 != w,
    ensures
        add_snippet(m, w, s) == m.push((w, seq![s])),
    decreases m.len(),
{
    if m.len() == 0 {
        assert(add_snippet(m, w, s) =~= m.push((w, seq![s])));
    } else {
        let d = m.drop_first();
        assert forall|j: int| 0 <= j < d.len() implies d[j].0 != w by {
            assert(d[j] == m[j + 1]);
        }
        lemma_add_snippet_missing(d, w, s);
        assert(seq![m[0]] + d.push((w, seq![s])) =~= m.push((w, seq![s])));
    }
}

/// Records snippet `s` for word `w`: appended to the word's existing entry,
/// or opening a fresh entry at the end.
fn add_snippet_exec(m: &mut Vec<(String, Vec<String>)>, w: String, s: String)
    ensures
        final(m).deep_view() == add_snippet(old(m).deep_view(), w@, s@),
{
    let ghost m0 = m.deep_view();
    let mut idx: usize = 0;
    while idx < m.len()
        invariant
            *m == *old(m),
            m0 == m.deep_view(),
            idx <= m.len(),
            forall|j: int| 0 <= j < idx ==> m.deep_view()[j].0 != w@,
        decreases m.len() - idx,
    {
        if m[idx].0 == w {
            proof {
                assert(m.deep_view()[idx as int].0 == w@);
            }
            let (ew, mut el) = m.remove(idx);
            let ghost el0 = el.deep_view();
            el.push(s);
            proof {
                assert(el.deep_view() =~= el0.push(s@));
            }
            m.insert(idx, (ew, el));
            proof {
                lemma_add_snippet_found(m0, w@, s@, idx as int);
                assert(m.deep_view() =~= m0.update(
                    idx as int,
                    (m0[idx as int].0, m0[idx as int].1.push(s@)),
                ));
            }
            return ;
        }
        idx += 1;
    }
    let mut sv: Vec<String> = Vec::new();
    sv.push(s);
    proof {
        assert(sv.deep_view() =~= seq![s@]);
    }
    m.push((w, sv));
    proof {
        lemma_add_snippet_missing(m0, w@, s@);
        assert(m.deep_view() =~= m0.push((w@, seq![s@])));
    }
}

/// Parses a document's pages and accumulates, per surviving word, the list of
/// its context snippets in occurrence order.
pub fn generate_map(text: &Vec<String>) -> (r: Vec<(String, Vec<String>)>)
    ensures
        r.deep_view() == doc_entries(text.deep_view()),
{
    let ghost tdv = text.deep_view();
    let mut m: Vec<(String, Vec<String>)> = Vec::new();
    proof {
        assert(m.deep_view() =~= Seq::<(Seq<char>, Seq<Seq<char>>)>::empty());
    }
    let mut p: usize = 0;
    while p < text.len()
        invariant
            tdv == text.deep_view(),
            p <= text.len(),
            m.deep_view() == pages_fold(Seq::empty(), tdv, p as int),
        decreases text.len() - p,
    {
        let page_vec = split_spaces_exec(text[p].as_str());
        let ghost toks = split_spaces(tdv[p as int]);
        proof {
            assert(text@[p as int]@ == tdv[p as int]);
            assert(page_vec.deep_view() == toks);
        }
        let l = page_vec.len();
        proof {
            assert(toks.len() == l);
        }
        let mut i: usize = 0;
        while i < l
            invariant
                tdv == text.deep_view(),
                p < text.len(),
                toks == split_spaces(tdv[p as int]),
                toks == page_vec.deep_view(),
                l == page_vec.len(),
                l == toks.len(),
                i <= l,
                m.deep_view() == page_fold(pages_fold(Seq::empty(), tdv, p as int), toks, i as int),
            decreases l - i,
        {
            let ghost m0 = m.deep_view();
            let wopt = find_word(page_vec[i].as_str());
            proof {
                assert(page_vec@[i as int]@ == toks[i as int]);
            }
            if let Some(word) = wopt {
                if f_the(word.as_str()) {
                    let lo = if i < 3 {
                        0
                    } else {
                        i - 3
                    };
                    let hi = if i < 3 {
                        if l - i <= 3 {
                            l
                        } else {
                            i + 3
                        }
                    } else {
                        if l - i <= 4 {
                            l
                        } else {
                            i + 4
                        }
                    };
                    proof {
                        assert(lo == win_lo(i as int));
                        assert(hi == win_hi(i as int, l as int));
                    }
                    let snip = join_range(&page_vec, lo, hi);
                    proof {
                        assert(snip@ == snippet_at(toks, i as int));
                    }
                    add_snippet_exec(&mut m, word, snip);
                }
            }
            proof {
                assert(m.deep_view() == page_step(m0, toks, i as int));
                assert(page_fold(
                    pages_fold(Seq::empty(), tdv, p as int),
                    toks,
                    i as int + 1,
                ) == page_step(m0, toks, i as int));
            }
            i += 1;
        }
        proof {
            assert(pages_fold(Seq::empty(), tdv, p as int + 1) == page_fold(
                pages_fold(Seq::empty(), tdv, p as int),
                toks,
                toks.len() as int,
            ));
        }
        p += 1;
    }
    m
}

/// Every word kept by the accumulation survives the stopword filter.
pub open spec fn all_unstopped(m: EntrySeq) -> bool {
    forall|j: int| 0 <= j < m.len() ==> !stopped(#[trigger] m[j].0)
}

proof fn lemma_add_snippet_unstopped(m: EntrySeq, w: Seq<char>, s: Seq<char>)
    requires
        all_unstopped(m),
        !stopped(w),
    ensures
        all_unstopped(add_snippet(m, w, s)),
    decreases m.len(),
{
    if m.len() == 0 {
    } else if m[0].0 == w {
        let r = seq![(m[0].0, m[0].1.push(s))] + m.drop_first();
        assert forall|j: int| 0 <= j < r.len() implies !stopped(r[j].0) by {
            if j > 0 {
                assert(r[j] == m[j]);
            }
        }
    } else {
        assert(all_unstopped(m.drop_first())) by {
            assert(forall|j: int|
                0 <= j < m.drop_first().len() ==> #[trigger] m.drop_first()[j] == m[j + 1]);
        }
        lemma_add_snippet_unstopped(m.drop_first(), w, s);
        let r = seq![m[0]] + add_snippet(m.drop_first(), w, s);
        assert forall|j: int| 0 <= j < r.len() implies !stopped(r[j].0) by {
            if j > 0 {
                assert(r[j] == add_snippet(m.drop_first(), w, s)[j - 1]);
            }
        }
    }
}

proof fn lemma_page_fold_unstopped(m: EntrySeq, toks: Seq<Seq<char>>, n: int)
    requires
        all_unstopped(m),
    ensures
        all_unstopped(page_fold(m, toks, n)),
    decreases n,
{
    if n <= 0 {
    } else {
        lemma_page_fold_unstopped(m, toks, n - 1);
        let prev = page_fold(m, toks, n - 1);
        match word_of(toks[n - 1]) {
            Some(w) => {
                if !stopped(w) {
                    lemma_add_snippet_unstopped(prev, w, snippet_at(toks, n - 1));
                }
            },
            None => {},
        }
    }
}

proof fn lemma_pages_fold_unstopped(m: EntrySeq, pages: Seq<Seq<char>>, n: int)
    requires
        all_unstopped(m),
    ensures
        all_unstopped(pages_fold(m, pages, n)),
    decreases n,
{
    if n <= 0 {
    } else {
        lemma_pages_fold_unstopped(m, pages, n - 1);
        let toks = split_spaces(pages[n - 1]);
        lemma_page_fold_unstopped(pages_fold(m, pages, n - 1), toks, toks.len() as int);
    }
}

/// Stopword filtering: no accumulated entry holds a word whose lowercase form
/// is contained in the stoplist blob, whatever the document's pages hold.
pub proof fn lemma_no_stopped_words(pages: Seq<Seq<char>>)
    ensures
        all_unstopped(doc_entries(pages)),
{
    lemma_pages_fold_unstopped(Seq::empty(), pages, pages.len() as int);
}

} // verus!
