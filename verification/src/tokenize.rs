//! Word recognition and the stopword filter. A raw token yields a word when
//! it holds at least two ASCII letters: the word is the token's span from its
//! first letter to its last. A word is discarded when its lowercase form
//! occurs as a substring of the stoplist blob.

use vstd::prelude::*;
use vstd::string::*;
use crate::text::{contains_lowered, contains_sub, is_alpha, is_alpha_exec, lower_seq};

verus! {

/// The stoplist blob: common words whose occurrences carry no weight. The
/// filter tests substring containment in this blob, so a word that is a
/// substring of any stoplist entry is discarded as well.
pub open spec fn stoplist() -> Seq<char> {
    "a an the all another any anybody anyone anything as both each either enough everybody everyone everything few he her hers herself him himself his i it its itself many me mine most my myself neither nobody one other others our ours ourself ourselves several she some somebody someone something somewhat such that their theirs them themselves there these they this those us we what whatever where whereby wherein wherever whether which whichever who whoever whom whomever whose you your yours yourself yourselves can could will would shall should may might must do does did have has had get got go goes going be is am are was were been being very too only not no how as at by for from in of per to because of for and nor or so yet as if why when with within without via until through than since onto on into but then"@
}

/// A word is stopped when its lowercase form occurs inside the stoplist blob.
pub open spec fn stopped(w: Seq<char>) -> bool {
    contains_sub(stoplist(), lower_seq(w))
}

/// Keeps a word only when it is not stopped: true means the word survives.
pub fn f_the(s: &str) -> (r: bool)
    ensures
        r == !stopped(s@),
{
    !contains_lowered(
        "a an the all another any anybody anyone anything as both each either enough everybody everyone everything few he her hers herself him himself his i it its itself many me mine most my myself neither nobody one other others our ours ourself ourselves several she some somebody someone something somewhat such that their theirs them themselves there these they this those us we what whatever where whereby wherein wherever whether which whichever who whoever whom whomever whose you your yours yourself yourselves can could will would shall should may might must do does did have has had get got go goes going be is am are was were been being very too only not no how as at by for from in of per to because of for and nor or so yet as if why when with within without via until through than since onto on into but then",
        s,
    )
}

/// Index of the first ASCII letter in `t`, or `t.len()` if there is none.
pub open spec fn first_alpha(t: Seq<char>) -> int
    decreases t.len(),
{
    if t.len() == 0 {
        0
    } else if is_alpha(t[0]) {
        0
    } else {
        1 + first_alpha(t.skip(1))
    }
}

/// Index of the last ASCII letter in `t`, or `-1` if there is none.
pub open spec fn last_alpha(t: Seq<char>) -> int
    decreases t.len(),
{
    if t.len() == 0 {
        -1
    } else if is_alpha(t[t.len() - 1]) {
        t.len() - 1
    } else {
        last_alpha(t.take(t.len() - 1))
    }
}

pub proof fn lemma_first_alpha_is(t: Seq<char>, i: int)
    requires
        0 <= i <= t.len(),
        forall|j: int| 0 <= j < i ==> !is_alpha(t[j]),
        i < t.len() ==> is_alpha(t[i]),
    ensures
        first_alpha(t) == i,
    decreases t.len(),
{
    if i == 0 {
    } else {
        assert(!is_alpha(t[0]));
        assert forall|j: int| 0 <= j < i - 1 implies !is_alpha(t.skip(1)[j]) by {
            assert(t.skip(1)[j] == t[j + 1]);
        }
        if i - 1 < t.skip(1).len() {
            assert(t.skip(1)[i - 1] == t[i]);
        }
        lemma_first_alpha_is(t.skip(1), i - 1);
    }
}

pub proof fn lemma_last_alpha_is(t: Seq<char>, i: int)
    requires
        -1 <= i && i < t.len(),
        forall|j: int| i < j < t.len() ==> !is_alpha(t[j]),
        0 <= i ==> is_alpha(t[i]),
    ensures
        last_alpha(t) == i,
    decreases t.len(),
{
    if t.len() == 0 {
    } else if i == t.len() - 1 {
    } else {
        assert(!is_alpha(t[t.len() - 1]));
        let u = t.take(t.len() - 1);
        assert forall|j: int| i < j < u.len() implies !is_alpha(u[j]) by {
            assert(u[j] == t[j]);
        }
        if 0 <= i {
            assert(u[i] == t[i]);
        }
        lemma_last_alpha_is(u, i);
    }
}

/// The word a raw token yields: its span from first to last ASCII letter,
/// present only when the token holds at least two letters.
pub open spec fn word_of(t: Seq<char>) -> Option<Seq<char>> {
    if first_alpha(t) < last_alpha(t) {
        Some(t.subrange(first_alpha(t), last_alpha(t) + 1))
    } else {
        None
    }
}

/// Extracts the word of a raw token, if it yields one.
pub fn find_word(t: &str) -> (r: Option<String>)
    ensures
        r is Some <==> word_of(t@) is Some,
        r matches Some(w) ==> word_of(t@) == Some(w@),
{
    let n = t.unicode_len();
    let mut fa: usize = 0;
    while fa < n && !is_alpha_exec(t.get_char(fa))
        invariant
            n == t@.len(),
            fa <= n,
            forall|j: int| 0 <= j < fa ==> !is_alpha(t@[j]),
        decreases n - fa,
    {
        fa += 1;
    }
    if fa == n {
        proof {
            lemma_first_alpha_is(t@, n as int);
            lemma_last_alpha_is(t@, -1);
        }
        return None;
    }
    let mut la: usize = n;
    while la > fa && !is_alpha_exec(t.get_char(la - 1))
        invariant
            n == t@.len(),
            fa <= la <= n,
            fa < n,
            is_alpha(t@[fa as int]),
            forall|j: int| la <= j < n ==> !is_alpha(t@[j]),
        decreases la,
    {
        la -= 1;
    }
    proof {
        lemma_first_alpha_is(t@, fa as int);
        lemma_last_alpha_is(t@, la - 1);
    }
    if la - fa >= 2 {
        let w = t.substring_char(fa, la);
        Some(String::from_str(w))
    } else {
        None
    }
}

} // verus!
