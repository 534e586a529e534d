//! A co-occurrence word graph builder: tokenizes document pages into
//! significant words, collects per-word context windows, ranks words per
//! document, places documents and their top words on a 2-D plane with a
//! deterministic square-spiral layout, and resolves links between words
//! whose literal text appears in another word's context snippets.

use vstd::prelude::*;

pub mod graph;
pub mod layout;
pub mod links;
pub mod rank;
pub mod text;
pub mod tokenize;
pub mod windows;

use crate::graph::{GraphNode, WordVec, cords_spec, links_spec, draw};
use crate::links::LinkMap;
use crate::rank::{rank_spec, map_vec, lemma_rank_sorted, lemma_rank_elem};
use crate::windows::{doc_entries, generate_map, all_unstopped, lemma_no_stopped_words};
use crate::tokenize::stopped;

verus! {

/// The per-document ranked word lists: for each document, its entries sorted
/// by descending snippet count and truncated to at most eleven.
pub open spec fn ranked_spec(texts: Seq<Seq<Seq<char>>>) -> WordVec {
    Seq::new(texts.len(), |i: int| rank_spec(doc_entries(texts[i])))
}

/// Stopword filtering carries through ranking: no ranked entry of any
/// document holds a word whose lowercase form is contained in the stoplist
/// blob.
pub proof fn lemma_ranked_words_unstopped(pages: Seq<Seq<char>>)
    ensures
        all_unstopped(rank_spec(doc_entries(pages))),
{
    lemma_no_stopped_words(pages);
    let r = rank_spec(doc_entries(pages));
    assert forall|j: int| 0 <= j < r.len() implies !stopped(#[trigger] r[j].0) by {
        lemma_rank_elem(doc_entries(pages), j);
        let k = choose|k: int|
            0 <= k < doc_entries(pages).len() && r[j] == #[trigger] doc_entries(pages)[k];
        assert(!stopped(doc_entries(pages)[k].0));
    }
}

/// The produced word graph: the link map, the flat placed-node list, and the
/// per-document ranked entries the presentation layer reads snippets from.
pub struct Graph {
    pub links: LinkMap,
    pub nodes: Vec<GraphNode>,
    pub ranked: Vec<Vec<(String, Vec<String>)>>,
}

/// Runs the whole pipeline on a batch of documents, each an ordered list of
/// page strings: tokenize and filter, collect context windows, rank, place,
/// and resolve links.
pub fn build_graph(texts: &Vec<Vec<String>>) -> (g: Graph)
    requires
        texts@.len() <= 1_000_000,
    ensures
        g.ranked.deep_view() == ranked_spec(texts.deep_view()),
        g.nodes.deep_view() == cords_spec(ranked_spec(texts.deep_view())),
        g.links@ == links_spec(cords_spec(ranked_spec(texts.deep_view())), ranked_spec(
            texts.deep_view(),
        )),
        g.links.wf(),
{
    let ghost tv = texts.deep_view();
    let mut ranked: Vec<Vec<(String, Vec<String>)>> = Vec::new();
    let mut d: usize = 0;
    while d < texts.len()
        invariant
            tv == texts.deep_view(),
            tv.len() == texts@.len() <= 1_000_000,
            d <= texts@.len(),
            ranked@.len() == d,
            forall|x: int|
                0 <= x < d ==> (#[trigger] ranked.deep_view()[x]) == rank_spec(
                    doc_entries(tv[x]),
                ),
            forall|x: int| 0 <= x < d ==> (#[trigger] ranked@[x])@.len() <= 1_000_000,
        decreases texts@.len() - d,
    {
        let entries = generate_map(&texts[d]);
        proof {
            assert(texts@[d as int].deep_view() == tv[d as int]);
        }
        let doc_ranked = map_vec(entries);
        proof {
            lemma_rank_sorted(doc_entries(tv[d as int]));
            assert(doc_ranked@.len() == doc_ranked.deep_view().len());
        }
        let ghost r0 = ranked.deep_view();
        ranked.push(doc_ranked);
        proof {
            assert forall|x: int|
                0 <= x < d + 1 implies (#[trigger] ranked.deep_view()[x]) == rank_spec(
                doc_entries(tv[x]),
            ) by {
                if x < d {
                    assert(ranked.deep_view()[x] == r0[x]);
                } else {
                    assert(ranked.deep_view()[x] == doc_ranked.deep_view());
                }
            }
        }
        d += 1;
    }
    proof {
        assert(ranked.deep_view() =~= ranked_spec(tv));
        assert forall|i: int| 0 <= i < ranked@.len() implies (#[trigger] ranked@[i])@.len()
            <= 1_000_000 by {}
    }
    let (links, nodes) = draw(&ranked);
    Graph { links, nodes, ranked }
}

} // verus!
