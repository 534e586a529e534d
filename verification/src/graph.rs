//! Placement and link resolution: every document is placed on a spiral
//! around the global center, every ranked word on a spiral around its
//! document, and a link is drawn from one placed word to another when the
//! first word's text occurs inside one of the second's context snippets.

use vstd::prelude::*;
use vstd::string::*;
use crate::text::{contains_sub, contains_substr};
use crate::layout::{spiral_pos, surround, lemma_spiral_pos_bounds};
use crate::links::{LinkMap, get_list, append_link, pos_int};

verus! {

/// One placed word: its text, its point, and which document and rank it is.
pub struct GraphNode {
    pub word: String,
    pub pos: (i64, i64),
    pub doc: usize,
    pub rank: usize,
}

/// The mathematical image of a placed word.
pub ghost struct NodeModel {
    pub word: Seq<char>,
    pub pos: (int, int),
    pub doc: int,
    pub rank: int,
}

impl View for GraphNode {
    type V = NodeModel;

    open spec fn view(&self) -> NodeModel {
        NodeModel {
            word: self.word@,
            pos: (self.pos.0 as int, self.pos.1 as int),
            doc: self.doc as int,
            rank: self.rank as int,
        }
    }
}

impl DeepView for GraphNode {
    type V = NodeModel;

    open spec fn deep_view(&self) -> NodeModel {
        self@
    }
}

/// All documents' ranked entries.
pub type WordVec = Seq<Seq<(Seq<char>, Seq<Seq<char>>)>>;

/// The global center and radii of the layout.
pub open spec fn doc_center(i: int) -> (int, int) {
    spiral_pos((220, 110), 150, i as nat)
}

pub open spec fn word_pos(i: int, j: int) -> (int, int) {
    spiral_pos(doc_center(i), 35, j as nat)
}

pub open spec fn node_model(wv: WordVec, i: int, j: int) -> NodeModel {
    NodeModel { word: wv[i][j].0, pos: word_pos(i, j), doc: i, rank: j }
}

pub open spec fn doc_nodes(wv: WordVec, i: int) -> Seq<NodeModel> {
    Seq::new(wv[i].len(), |j: int| node_model(wv, i, j))
}

pub open spec fn cords_upto(wv: WordVec, i: int) -> Seq<NodeModel>
    decreases i,
{
    if i <= 0 {
        Seq::empty()
    } else {
        cords_upto(wv, i - 1) + doc_nodes(wv, i - 1)
    }
}

/// The flat node list: documents in order, each document's ranked words in
/// rank order, every node at its spiral point.
pub open spec fn cords_spec(wv: WordVec) -> Seq<NodeModel> {
    cords_upto(wv, wv.len() as int)
}

/// Rendered label width input: the word's length capped at fifteen.
pub open spec fn wlen(w: Seq<char>) -> int {
    if w.len() > 15 {
        15
    } else {
        w.len() as int
    }
}

/// A link line leaves its source at the label's middle.
pub open spec fn anchor_src(nd: NodeModel) -> (int, int) {
    (nd.pos.0 + (wlen(nd.word) + 6) / 2, nd.pos.1 + 6)
}

/// A link line reaches its target at the label's right edge.
pub open spec fn anchor_tgt(nd: NodeModel) -> (int, int) {
    (nd.pos.0 + wlen(nd.word) + 6, nd.pos.1 + 6)
}

/// How many of the snippets contain the word.
pub open spec fn count_matches(snips: Seq<Seq<char>>, w: Seq<char>) -> nat
    decreases snips.len(),
{
    if snips.len() == 0 {
        0
    } else {
        count_matches(snips.drop_last(), w) + if contains_sub(snips.last(), w) {
            1nat
        } else {
            0nat
        }
    }
}

/// Recording `c` links from `a` to `b`, one per matching snippet.
pub open spec fn append_links(
    m: Map<(int, int), Seq<(int, int)>>,
    a: (int, int),
    b: (int, int),
    c: nat,
) -> Map<(int, int), Seq<(int, int)>>
    decreases c,
{
    if c == 0 {
        m
    } else {
        append_link(append_links(m, a, b, (c - 1) as nat), a, b)
    }
}

pub open spec fn snips_of(wv: WordVec, nd: NodeModel) -> Seq<Seq<char>> {
    wv[nd.doc][nd.rank].1
}

/// The effect of one ordered pair on the link map: nothing when the points
/// coincide or the reverse link between the two anchors is already present;
/// otherwise one link per snippet of the target containing the source's word.
pub open spec fn process_pair(
    m: Map<(int, int), Seq<(int, int)>>,
    s: NodeModel,
    t: NodeModel,
    wv: WordVec,
) -> Map<(int, int), Seq<(int, int)>> {
    let a = anchor_src(s);
    let b = anchor_tgt(t);
    if s.pos == t.pos {
        m
    } else if get_list(m, b).contains(a) {
        m
    } else {
        append_links(m, a, b, count_matches(snips_of(wv, t), s.word))
    }
}

pub open spec fn fold_tgts(
    m: Map<(int, int), Seq<(int, int)>>,
    s: NodeModel,
    cm: Seq<NodeModel>,
    wv: WordVec,
    j: int,
) -> Map<(int, int), Seq<(int, int)>>
    decreases j,
{
    if j <= 0 {
        m
    } else {
        process_pair(fold_tgts(m, s, cm, wv, j - 1), s, cm[j - 1], wv)
    }
}

pub open spec fn fold_srcs(
    m: Map<(int, int), Seq<(int, int)>>,
    cm: Seq<NodeModel>,
    wv: WordVec,
    i: int,
) -> Map<(int, int), Seq<(int, int)>>
    decreases i,
{
    if i <= 0 {
        m
    } else {
        fold_tgts(fold_srcs(m, cm, wv, i - 1), cm[i - 1], cm, wv, cm.len() as int)
    }
}

/// The resolved link map of the whole batch: the pairwise scan in source
/// order, then target order, then snippet order.
pub open spec fn links_spec(cm: Seq<NodeModel>, wv: WordVec) -> Map<(int, int), Seq<(int, int)>> {
    fold_srcs(Map::empty(), cm, wv, cm.len() as int)
}

/// No pair of distinct anchors is linked in both directions.
pub open spec fn no_reverse_links(m: Map<(int, int), Seq<(int, int)>>) -> bool {
    forall|a: (int, int), b: (int, int)|
        #![trigger get_list(m, a).contains(b)]
        a != b && get_list(m, a).contains(b) ==> !get_list(m, b).contains(a)
}

proof fn lemma_push_contains(s: Seq<(int, int)>, b: (int, int), y: (int, int))
    ensures
        s.push(b).contains(y) <==> (s.contains(y) || y == b),
{
    if s.push(b).contains(y) {
        let idx = choose|idx: int| 0 <= idx < s.push(b).len() && s.push(b)[idx] == y;
        if idx < s.len() {
            assert(s[idx] == y);
        }
    }
    if s.contains(y) {
        let idx = choose|idx: int| 0 <= idx < s.len() && s[idx] == y;
        assert(s.push(b)[idx] == y);
    }
    assert(s.push(b)[s.len() as int] == b);
}

proof fn lemma_append_link_preserves(m: Map<(int, int), Seq<(int, int)>>, a: (int, int), b: (
    int,
    int,
))
    requires
        no_reverse_links(m),
        a != b ==> !get_list(m, b).contains(a),
    ensures
        no_reverse_links(append_link(m, a, b)),
        a != b ==> !get_list(append_link(m, a, b), b).contains(a),
{
    let m2 = append_link(m, a, b);
    assert forall|x: (int, int), y: (int, int)|
        x != y && #[trigger] get_list(m2, x).contains(y) implies !get_list(m2, y).contains(x) by {
        if x == a {
            lemma_push_contains(get_list(m, a), b, y);
            if y == b {
                assert(!get_list(m, b).contains(a));
                assert(get_list(m2, b) == get_list(m, b));
            } else {
                assert(get_list(m, a).contains(y));
                assert(!get_list(m, y).contains(a));
                assert(get_list(m2, y) == get_list(m, y));
            }
        } else {
            assert(get_list(m2, x) == get_list(m, x));
            if y == a {
                assert(get_list(m, x).contains(a));
                assert(!get_list(m, a).contains(x));
                lemma_push_contains(get_list(m, a), b, x);
                if x == b {
                    assert(get_list(m, b).contains(a));
                    assert(false);
                }
            } else {
                assert(get_list(m2, y) == get_list(m, y));
            }
        }
    }
}

proof fn lemma_append_links_preserves(
    m: Map<(int, int), Seq<(int, int)>>,
    a: (int, int),
    b: (int, int),
    c: nat,
)
    requires
        no_reverse_links(m),
        a != b ==> !get_list(m, b).contains(a),
    ensures
        no_reverse_links(append_links(m, a, b, c)),
    decreases c,
{
    if c == 0 {
    } else {
        lemma_append_links_preserves_guard(m, a, b, (c - 1) as nat);
        lemma_append_links_preserves(m, a, b, (c - 1) as nat);
        lemma_append_link_preserves(append_links(m, a, b, (c - 1) as nat), a, b);
    }
}

proof fn lemma_append_links_preserves_guard(
    m: Map<(int, int), Seq<(int, int)>>,
    a: (int, int),
    b: (int, int),
    c: nat,
)
    requires
        no_reverse_links(m),
        a != b ==> !get_list(m, b).contains(a),
    ensures
        a != b ==> !get_list(append_links(m, a, b, c), b).contains(a),
    decreases c,
{
    if c == 0 {
    } else {
        lemma_append_links_preserves_guard(m, a, b, (c - 1) as nat);
        lemma_append_links_preserves(m, a, b, (c - 1) as nat);
        lemma_append_link_preserves(append_links(m, a, b, (c - 1) as nat), a, b);
    }
}

proof fn lemma_process_pair_preserves(
    m: Map<(int, int), Seq<(int, int)>>,
    s: NodeModel,
    t: NodeModel,
    wv: WordVec,
)
    requires
        no_reverse_links(m),
    ensures
        no_reverse_links(process_pair(m, s, t, wv)),
{
    let a = anchor_src(s);
    let b = anchor_tgt(t);
    if s.pos == t.pos {
    } else if get_list(m, b).contains(a) {
    } else {
        lemma_append_links_preserves(m, a, b, count_matches(snips_of(wv, t), s.word));
    }
}

proof fn lemma_fold_tgts_preserves(
    m: Map<(int, int), Seq<(int, int)>>,
    s: NodeModel,
    cm: Seq<NodeModel>,
    wv: WordVec,
    j: int,
)
    requires
        no_reverse_links(m),
    ensures
        no_reverse_links(fold_tgts(m, s, cm, wv, j)),
    decreases j,
{
    if j <= 0 {
    } else {
        lemma_fold_tgts_preserves(m, s, cm, wv, j - 1);
        lemma_process_pair_preserves(fold_tgts(m, s, cm, wv, j - 1), s, cm[j - 1], wv);
    }
}

proof fn lemma_fold_srcs_preserves(
    m: Map<(int, int), Seq<(int, int)>>,
    cm: Seq<NodeModel>,
    wv: WordVec,
    i: int,
)
    requires
        no_reverse_links(m),
    ensures
        no_reverse_links(fold_srcs(m, cm, wv, i)),
    decreases i,
{
    if i <= 0 {
    } else {
        lemma_fold_srcs_preserves(m, cm, wv, i - 1);
        lemma_fold_tgts_preserves(
            fold_srcs(m, cm, wv, i - 1),
            cm[i - 1],
            cm,
            wv,
            cm.len() as int,
        );
    }
}

/// No duplicate reverse links: in the resolved link map of any placement,
/// whenever anchor `b` stands in the list of anchor `a`, anchor `a` does not
/// stand in the list of anchor `b`, for all pairs of distinct anchors.
pub proof fn lemma_no_reverse_links(cm: Seq<NodeModel>, wv: WordVec)
    ensures
        no_reverse_links(links_spec(cm, wv)),
{
    let m0 = Map::<(int, int), Seq<(int, int)>>::empty();
    assert forall|a: (int, int), b: (int, int)|
        a != b && #[trigger] get_list(m0, a).contains(b) implies !get_list(m0, b).contains(a) by {
        assert(!m0.contains_key(a));
        assert(!get_list(m0, a).contains(b));
    }
    lemma_fold_srcs_preserves(m0, cm, wv, cm.len() as int);
}

/// Every node names a valid document and rank, carries that entry's word,
/// and sits at its spiral point.
pub open spec fn nodes_ok(cm: Seq<NodeModel>, wv: WordVec) -> bool {
    forall|x: int|
        0 <= x < cm.len() ==> {
            let nd = #[trigger] cm[x];
            &&& 0 <= nd.doc < wv.len()
            &&& 0 <= nd.rank < wv[nd.doc].len()
            &&& nd.word == wv[nd.doc][nd.rank].0
            &&& nd.pos == word_pos(nd.doc, nd.rank)
        }
}

proof fn lemma_cords_upto_ok(wv: WordVec, i: int)
    requires
        0 <= i <= wv.len(),
    ensures
        nodes_ok(cords_upto(wv, i), wv),
    decreases i,
{
    if i <= 0 {
    } else {
        lemma_cords_upto_ok(wv, i - 1);
        let prev = cords_upto(wv, i - 1);
        let cur = cords_upto(wv, i);
        assert forall|x: int| 0 <= x < cur.len() implies {
            let nd = #[trigger] cur[x];
            &&& 0 <= nd.doc < wv.len()
            &&& 0 <= nd.rank < wv[nd.doc].len()
            &&& nd.word == wv[nd.doc][nd.rank].0
            &&& nd.pos == word_pos(nd.doc, nd.rank)
        } by {
            if x < prev.len() {
                assert(cur[x] == prev[x]);
            } else {
                assert(cur[x] == doc_nodes(wv, i - 1)[x - prev.len()]);
            }
        }
    }
}

proof fn lemma_node_pos_bounds(wv: WordVec, nd: NodeModel)
    requires
        wv.len() <= 1_000_000,
        forall|x: int| 0 <= x < wv.len() ==> (#[trigger] wv[x]).len() <= 1_000_000,
        0 <= nd.doc < wv.len(),
        0 <= nd.rank < wv[nd.doc].len(),
        nd.pos == word_pos(nd.doc, nd.rank),
    ensures
        -300_000_000 <= nd.pos.0 <= 300_000_000,
        -300_000_000 <= nd.pos.1 <= 300_000_000,
{
    lemma_spiral_pos_bounds((220, 110), 150, nd.doc as nat);
    lemma_spiral_pos_bounds(doc_center(nd.doc), 35, nd.rank as nat);
    assert(nd.doc * 150 <= 150_000_000 && 0 <= nd.doc * 150) by (nonlinear_arith)
        requires
            0 <= nd.doc <= 1_000_000,
    ;
    assert(nd.rank * 35 <= 35_000_000 && 0 <= nd.rank * 35) by (nonlinear_arith)
        requires
            0 <= nd.rank <= 1_000_000,
    ;
}

/// Places every document and every ranked word, then resolves the links:
/// the node list and the link map are exactly the ones the placement and
/// pairwise-scan models give.
pub fn draw(vec: &Vec<Vec<(String, Vec<String>)>>) -> (r: (LinkMap, Vec<GraphNode>))
    requires
        vec@.len() <= 1_000_000,
        forall|i: int| 0 <= i < vec@.len() ==> (#[trigger] vec@[i])@.len() <= 1_000_000,
    ensures
        r.1.deep_view() == cords_spec(vec.deep_view()),
        r.0@ == links_spec(cords_spec(vec.deep_view()), vec.deep_view()),
        r.0.wf(),
{
    let ghost wv = vec.deep_view();
    proof {
        assert(wv.len() == vec@.len());
        assert forall|x: int| 0 <= x < wv.len() implies (#[trigger] wv[x]).len()
            <= 1_000_000 by {
            assert(wv[x].len() == vec@[x]@.len());
        }
    }
    let doc_pos = surround((220, 110), 150, vec.len());
    let mut cords: Vec<GraphNode> = Vec::new();
    proof {
        assert(cords.deep_view() =~= cords_upto(wv, 0));
    }
    let mut i: usize = 0;
    while i < vec.len()
        invariant
            wv == vec.deep_view(),
            wv.len() == vec@.len() <= 1_000_000,
            forall|x: int| 0 <= x < wv.len() ==> (#[trigger] wv[x]).len() <= 1_000_000,
            i <= vec@.len(),
            doc_pos@.len() == vec@.len(),
            forall|x: int|
                0 <= x < doc_pos@.len() ==> ((#[trigger] doc_pos@[x]).0 as int,
                doc_pos@[x].1 as int) == doc_center(x),
            cords.deep_view() =~= cords_upto(wv, i as int),
        decreases vec@.len() - i,
    {
        let curr = doc_pos[i];
        proof {
            lemma_spiral_pos_bounds((220, 110), 150, i as nat);
            assert(i * 150 <= 150_000_000 && 0 <= i * 150) by (nonlinear_arith)
                requires
                    0 <= i <= 1_000_000,
            ;
        }
        let dlen = vec[i].len();
        proof {
            assert(wv[i as int].len() == dlen);
        }
        let curr_pos = surround(curr, 35, dlen);
        let mut j: usize = 0;
        proof {
            assert(cords.deep_view() =~= cords_upto(wv, i as int) + doc_nodes(wv, i as int).take(
                0,
            ));
        }
        while j < dlen
            invariant
                wv == vec.deep_view(),
                wv.len() == vec@.len() <= 1_000_000,
                i < vec@.len(),
                j <= dlen,
                dlen == wv[i as int].len(),
                dlen == vec@[i as int]@.len(),
                curr_pos@.len() == dlen,
                (curr.0 as int, curr.1 as int) == doc_center(i as int),
                forall|x: int|
                    0 <= x < curr_pos@.len() ==> ((#[trigger] curr_pos@[x]).0 as int,
                    curr_pos@[x].1 as int) == spiral_pos(
                        (curr.0 as int, curr.1 as int),
                        35,
                        x as nat,
                    ),
                cords.deep_view() =~= cords_upto(wv, i as int) + doc_nodes(
                    wv,
                    i as int,
                ).take(j as int),
            decreases dlen - j,
        {
            let node = GraphNode {
                word: vec[i][j].0.clone(),
                pos: curr_pos[j],
                doc: i,
                rank: j,
            };
            proof {
                assert(wv[i as int][j as int].0 == vec@[i as int]@[j as int].0@);
                assert(node@ == node_model(wv, i as int, j as int));
            }
            let ghost dv0 = cords.deep_view();
            cords.push(node);
            proof {
                assert(cords.deep_view() =~= dv0.push(node@));
                assert(doc_nodes(wv, i as int).take(j + 1) =~= doc_nodes(wv, i as int).take(
                    j as int,
                ).push(node_model(wv, i as int, j as int)));
                assert(dv0.push(node@) =~= cords_upto(wv, i as int) + doc_nodes(
                    wv,
                    i as int,
                ).take(j + 1));
            }
            j += 1;
        }
        proof {
            assert(doc_nodes(wv, i as int).take(dlen as int) =~= doc_nodes(wv, i as int));
            assert(cords.deep_view() =~= cords_upto(wv, i as int + 1));
        }
        i += 1;
    }
    proof {
        assert(cords.deep_view() =~= cords_spec(wv));
        lemma_cords_upto_ok(wv, wv.len() as int);
    }
    let ghost cm = cords.deep_view();
    let mut lines = LinkMap::new();
    let mut si: usize = 0;
    while si < cords.len()
        invariant
            wv == vec.deep_view(),
            wv.len() == vec@.len() <= 1_000_000,
            forall|x: int| 0 <= x < wv.len() ==> (#[trigger] wv[x]).len() <= 1_000_000,
            cm == cords.deep_view(),
            nodes_ok(cm, wv),
            cm.len() == cords@.len(),
            si <= cords@.len(),
            lines.wf(),
            lines@ == fold_srcs(Map::empty(), cm, wv, si as int),
        decreases cords@.len() - si,
    {
        let my_word = cords[si].word.clone();
        let my_pos = cords[si].pos;
        let ghost s = cm[si as int];
        proof {
            assert(my_word@ == s.word && (my_pos.0 as int, my_pos.1 as int) == s.pos);
        }
        let my_len_full = my_word.unicode_len();
        let my_len = if my_len_full > 15 {
            15
        } else {
            my_len_full
        };
        let ghost m_src = fold_srcs(Map::empty(), cm, wv, si as int);
        let mut ti: usize = 0;
        while ti < cords.len()
            invariant
                wv == vec.deep_view(),
                wv.len() == vec@.len() <= 1_000_000,
                forall|x: int| 0 <= x < wv.len() ==> (#[trigger] wv[x]).len() <= 1_000_000,
                cm == cords.deep_view(),
                nodes_ok(cm, wv),
                cm.len() == cords@.len(),
                si < cords@.len(),
                ti <= cords@.len(),
                s == cm[si as int],
                my_word@ == s.word,
                (my_pos.0 as int, my_pos.1 as int) == s.pos,
                my_len as int == wlen(s.word),
                lines.wf(),
                lines@ == fold_tgts(m_src, s, cm, wv, ti as int),
            decreases cords@.len() - ti,
        {
            let ghost t = cm[ti as int];
            let ghost m_pair = fold_tgts(m_src, s, cm, wv, ti as int);
            let tar_pos = cords[ti].pos;
            let tar_doc = cords[ti].doc;
            let tar_rank = cords[ti].rank;
            let tar_len_full = cords[ti].word.unicode_len();
            let tar_len = if tar_len_full > 15 {
                15
            } else {
                tar_len_full
            };
            proof {
                assert((tar_pos.0 as int, tar_pos.1 as int) == t.pos);
                assert(tar_len as int == wlen(t.word));
                assert(tar_doc as int == t.doc && tar_rank as int == t.rank);
                lemma_node_pos_bounds(wv, s);
                lemma_node_pos_bounds(wv, t);
            }
            let a = (my_pos.0 + ((my_len + 6) / 2) as i64, my_pos.1 + 6);
            let b = (tar_pos.0 + (tar_len + 6) as i64, tar_pos.1 + 6);
            proof {
                assert(pos_int(a) == anchor_src(s));
                assert(pos_int(b) == anchor_tgt(t));
            }
            if (tar_pos.0 != my_pos.0 || tar_pos.1 != my_pos.1) && !lines.has_link(b, a) {
                let snips = &vec[tar_doc][tar_rank].1;
                let ghost sv = snips.deep_view();
                proof {
                    assert(sv == snips_of(wv, t));
                    assert(count_matches(sv.take(0), s.word) == 0);
                    assert(append_links(m_pair, anchor_src(s), anchor_tgt(t), 0) == m_pair);
                }
                let slen = snips.len();
                let mut k: usize = 0;
                while k < slen
                    invariant
                        sv == snips.deep_view(),
                        slen == snips@.len(),
                        k <= slen,
                        s == cm[si as int],
                        t == cm[ti as int],
                        my_word@ == s.word,
                        pos_int(a) == anchor_src(s),
                        pos_int(b) == anchor_tgt(t),
                        lines.wf(),
                        lines@ == append_links(
                            m_pair,
                            anchor_src(s),
                            anchor_tgt(t),
                            count_matches(sv.take(k as int), s.word),
                        ),
                    decreases slen - k,
                {
                    let hit = contains_substr(snips[k].as_str(), my_word.as_str());
                    proof {
                        assert(sv[k as int] == snips@[k as int]@);
                        assert(sv.take(k + 1).drop_last() =~= sv.take(k as int));
                        assert(sv.take(k + 1).last() == sv[k as int]);
                    }
                    if hit {
                        lines.append(a, b);
                    }
                    k += 1;
                }
                proof {
                    assert(sv.take(slen as int) =~= sv);
                    assert(!get_list(m_pair, anchor_tgt(t)).contains(anchor_src(s)));
                    assert(s.pos != t.pos);
                    assert(lines@ == process_pair(m_pair, s, t, wv));
                }
            } else {
                proof {
                    assert(lines@ == process_pair(m_pair, s, t, wv));
                }
            }
            proof {
                assert(fold_tgts(m_src, s, cm, wv, ti as int + 1) == process_pair(
                    m_pair,
                    s,
                    cm[ti as int],
                    wv,
                ));
            }
            ti += 1;
        }
        proof {
            assert(fold_srcs(Map::empty(), cm, wv, si as int + 1) == fold_tgts(
                m_src,
                cm[si as int],
                cm,
                wv,
                cm.len() as int,
            ));
        }
        si += 1;
    }
    (lines, cords)
}

} // verus!
