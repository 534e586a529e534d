//! The link map: a mapping from a source anchor point to the ordered list of
//! target anchor points linked from it, stored as an association list with
//! unique keys and modeled as a `Map` from positions to target sequences.

use vstd::prelude::*;

verus! {

/// A position pair as mathematical integers.
pub open spec fn pos_int(p: (i64, i64)) -> (int, int) {
    (p.0 as int, p.1 as int)
}

/// A list of positions as mathematical integer pairs.
pub open spec fn list_int(s: Seq<(i64, i64)>) -> Seq<(int, int)> {
    Seq::new(s.len(), |i: int| pos_int(s[i]))
}

/// The targets recorded under key `k`, empty when `k` has no entry.
pub open spec fn get_list(m: Map<(int, int), Seq<(int, int)>>, k: (int, int)) -> Seq<(int, int)> {
    if m.contains_key(k) {
        m[k]
    } else {
        Seq::empty()
    }
}

/// Recording one more link from `a` to `b`.
pub open spec fn append_link(
    m: Map<(int, int), Seq<(int, int)>>,
    a: (int, int),
    b: (int, int),
) -> Map<(int, int), Seq<(int, int)>> {
    m.insert(a, get_list(m, a).push(b))
}

pub struct LinkMap {
    pub entries: Vec<((i64, i64), Vec<(i64, i64)>)>,
}

pub open spec fn as_map_rec(s: Seq<((i64, i64), Vec<(i64, i64)>)>) -> Map<
    (int, int),
    Seq<(int, int)>,
>
    decreases s.len(),
{
    if s.len() == 0 {
        Map::empty()
    } else {
        as_map_rec(s.drop_last()).insert(pos_int(s.last().0), list_int(s.last().1@))
    }
}

proof fn lemma_as_map_keys(s: Seq<((i64, i64), Vec<(i64, i64)>)>, k: (int, int))
    ensures
        as_map_rec(s).contains_key(k) <==> exists|i: int|
            0 <= i < s.len() && pos_int((#[trigger] s[i]).0) == k,
    decreases s.len(),
{
    if s.len() == 0 {
    } else {
        lemma_as_map_keys(s.drop_last(), k);
        if as_map_rec(s).contains_key(k) {
            if pos_int(s.last().0) == k {
                assert(pos_int(s[s.len() - 1].0) == k);
            } else {
                let i = choose|i: int|
                    0 <= i < s.drop_last().len() && pos_int((#[trigger] s.drop_last()[i]).0) == k;
                assert(s[i] == s.drop_last()[i]);
            }
        } else {
            if exists|i: int| 0 <= i < s.len() && pos_int((#[trigger] s[i]).0) == k {
                let i = choose|i: int| 0 <= i < s.len() && pos_int((#[trigger] s[i]).0) == k;
                if i < s.len() - 1 {
                    assert(s.drop_last()[i] == s[i]);
                }
                assert(false);
            }
        }
    }
}

proof fn lemma_as_map_at(s: Seq<((i64, i64), Vec<(i64, i64)>)>, i: int)
    requires
        0 <= i < s.len(),
        forall|x: int, y: int|
            0 <= x < y < s.len() ==> pos_int((#[trigger] s[x]).0) != pos_int((#[trigger] s[y]).0),
    ensures
        as_map_rec(s).contains_key(pos_int(s[i].0)),
        as_map_rec(s)[pos_int(s[i].0)] == list_int(s[i].1@),
    decreases s.len(),
{
    if i == s.len() - 1 {
    } else {
        assert forall|x: int, y: int|
            0 <= x < y < s.drop_last().len() implies pos_int(
            (#[trigger] s.drop_last()[x]).0,
        ) != pos_int((#[trigger] s.drop_last()[y]).0) by {
            assert(s.drop_last()[x] == s[x] && s.drop_last()[y] == s[y]);
        }
        assert(s.drop_last()[i] == s[i]);
        lemma_as_map_at(s.drop_last(), i);
        assert(pos_int(s[i].0) != pos_int(s[s.len() - 1].0));
    }
}

impl View for LinkMap {
    type V = Map<(int, int), Seq<(int, int)>>;

    open spec fn view(&self) -> Map<(int, int), Seq<(int, int)>> {
        as_map_rec(self.entries@)
    }
}

impl LinkMap {
    /// Keys are unique, so every key names exactly one target list.
    pub open spec fn wf(&self) -> bool {
        forall|x: int, y: int|
            0 <= x < y < self.entries@.len() ==> pos_int((#[trigger] self.entries@[x]).0)
                != pos_int((#[trigger] self.entries@[y]).0)
    }

    pub fn new() -> (r: LinkMap)
        ensures
            r@ == Map::<(int, int), Seq<(int, int)>>::empty(),
            r.wf(),
            r.entries@.len() == 0,
    {
        LinkMap { entries: Vec::new() }
    }

    fn find(&self, key: (i64, i64)) -> (r: Option<usize>)
        ensures
            match r {
                Some(i) => i < self.entries@.len() && pos_int(self.entries@[i as int].0)
                    == pos_int(key),
                None => forall|i: int|
                    0 <= i < self.entries@.len() ==> pos_int((#[trigger] self.entries@[i]).0)
                        != pos_int(key),
            },
    {
        let mut i: usize = 0;
        while i < self.entries.len()
            invariant
                i <= self.entries@.len(),
                forall|j: int|
                    0 <= j < i ==> pos_int((#[trigger] self.entries@[j]).0) != pos_int(key),
            decreases self.entries@.len() - i,
        {
            let k = self.entries[i].0;
            if k.0 == key.0 && k.1 == key.1 {
                return Some(i);
            }
            i += 1;
        }
        None
    }

    /// Whether a link from `a` to `b` is already recorded.
    pub fn has_link(&self, a: (i64, i64), b: (i64, i64)) -> (r: bool)
        requires
            self.wf(),
        ensures
            r == get_list(self@, pos_int(a)).contains(pos_int(b)),
    {
        match self.find(a) {
            None => {
                proof {
                    lemma_as_map_keys(self.entries@, pos_int(a));
                }
                false
            },
            Some(i) => {
                proof {
                    lemma_as_map_at(self.entries@, i as int);
                }
                let list = &self.entries[i].1;
                let ghost li = list_int(list@);
                let mut j: usize = 0;
                let mut found: bool = false;
                while !found && j < list.len()
                    invariant
                        li == list_int(list@),
                        j <= list@.len(),
                        found ==> li.contains(pos_int(b)),
                        !found ==> forall|x: int| 0 <= x < j ==> #[trigger] li[x] != pos_int(b),
                    decreases list@.len() - j + if found { 0int } else { 1int },
                {
                    let t = list[j];
                    if t.0 == b.0 && t.1 == b.1 {
                        found = true;
                        proof {
                            assert(li[j as int] == pos_int(b));
                        }
                    } else {
                        j += 1;
                    }
                }
                proof {
                    assert(get_list(self@, pos_int(a)) == li);
                    if !found {
                        assert(!li.contains(pos_int(b)));
                    }
                }
                found
            },
        }
    }

    /// Records one more link from `a` to `b`, appended to `a`'s target list.
    pub fn append(&mut self, a: (i64, i64), b: (i64, i64))
        requires
            old(self).wf(),
        ensures
            final(self).wf(),
            final(self)@ == append_link(old(self)@, pos_int(a), pos_int(b)),
    {
        let ghost s0 = self.entries@;
        match self.find(a) {
            Some(i) => {
                proof {
                    lemma_as_map_at(s0, i as int);
                }
                let (key, mut list) = self.entries.remove(i);
                let ghost l0 = list@;
                list.push(b);
                proof {
                    assert(list_int(list@) =~= list_int(l0).push(pos_int(b)));
                }
                self.entries.insert(i, (key, list));
                proof {
                    assert(self.entries@ =~= s0.update(
                        i as int,
                        (s0[i as int].0, self.entries@[i as int].1),
                    ));
                    lemma_as_map_update(s0, i as int, self.entries@[i as int].1);
                    assert(self@ =~= append_link(as_map_rec(s0), pos_int(a), pos_int(b)));
                }
            },
            None => {
                proof {
                    lemma_as_map_keys(s0, pos_int(a));
                }
                let mut nl: Vec<(i64, i64)> = Vec::new();
                nl.push(b);
                proof {
                    assert(list_int(nl@) =~= Seq::<(int, int)>::empty().push(pos_int(b)));
                }
                self.entries.push((a, nl));
                proof {
                    assert(self.entries@.drop_last() =~= s0);
                    assert(self@ =~= append_link(as_map_rec(s0), pos_int(a), pos_int(b)));
                }
            },
        }
    }
}

proof fn lemma_as_map_update(
    s: Seq<((i64, i64), Vec<(i64, i64)>)>,
    i: int,
    nl: Vec<(i64, i64)>,
)
    requires
        0 <= i < s.len(),
        forall|x: int, y: int|
            0 <= x < y < s.len() ==> pos_int((#[trigger] s[x]).0) != pos_int((#[trigger] s[y]).0),
    ensures
        as_map_rec(s.update(i, (s[i].0, nl))) =~= as_map_rec(s).insert(
            pos_int(s[i].0),
            list_int(nl@),
        ),
    decreases s.len(),
{
    let u = s.update(i, (s[i].0, nl));
    if i == s.len() - 1 {
        assert(u.drop_last() =~= s.drop_last());
        assert(u.last() == (s[i].0, nl));
    } else {
        assert forall|x: int, y: int|
            0 <= x < y < s.drop_last().len() implies pos_int(
            (#[trigger] s.drop_last()[x]).0,
        ) != pos_int((#[trigger] s.drop_last()[y]).0) by {
            assert(s.drop_last()[x] == s[x] && s.drop_last()[y] == s[y]);
        }
        assert(s.drop_last()[i] == s[i]);
        lemma_as_map_update(s.drop_last(), i, nl);
        assert(u.drop_last() =~= s.drop_last().update(i, (s[i].0, nl)));
        assert(u.last() == s.last());
        assert(pos_int(s[i].0) != pos_int(s.last().0));
        assert(as_map_rec(u) =~= as_map_rec(s.drop_last().update(i, (s[i].0, nl))).insert(
            pos_int(s.last().0),
            list_int(s.last().1@),
        ));
        assert(as_map_rec(s.drop_last()).insert(pos_int(s[i].0), list_int(nl@)).insert(
            pos_int(s.last().0),
            list_int(s.last().1@),
        ) =~= as_map_rec(s).insert(pos_int(s[i].0), list_int(nl@)));
    }
}

} // verus!
