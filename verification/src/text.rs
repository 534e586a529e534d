//! Character-level text primitives: alphabetic tests, ASCII lowercasing,
//! substring containment, and splitting/joining page text on single spaces.

use vstd::prelude::*;
use vstd::string::*;

verus! {

/// An ASCII letter, the only characters that may open or close a word.
pub open spec fn is_alpha(c: char) -> bool {
    (65 <= c as u32 && c as u32 <= 90) || (97 <= c as u32 && c as u32 <= 122)
}

/// ASCII lowercasing of one character; other characters are unchanged.
pub open spec fn lower_char(c: char) -> char {
    if 65 <= c as u32 && c as u32 <= 90 {
        (c as u32 + 32) as char
    } else {
        c
    }
}

/// ASCII lowercasing, character by character.
pub open spec fn lower_seq(s: Seq<char>) -> Seq<char> {
    Seq::new(s.len(), |i: int| lower_char(s[i]))
}

/// `needle` occurs contiguously inside `hay`.
pub open spec fn contains_sub(hay: Seq<char>, needle: Seq<char>) -> bool {
    exists|k: int|
        0 <= k && k + needle.len() <= hay.len() && #[trigger] hay.subrange(
            k,
            k + needle.len() as int,
        ) == needle
}

pub fn is_alpha_exec(c: char) -> (r: bool)
    ensures
        r == is_alpha(c),
{
    let u = c as u32;
    (65 <= u && u <= 90) || (97 <= u && u <= 122)
}

pub fn lower_char_exec(c: char) -> (r: char)
    ensures
        r == lower_char(c),
{
    let u = c as u32;
    if 65 <= u && u <= 90 {
        ((u + 32) as u8) as char
    } else {
        c
    }
}

/// Substring search; with `lower` set, the needle is ASCII-lowercased first.
fn contains_core(hay: &str, needle: &str, lower: bool) -> (r: bool)
    ensures
        r == contains_sub(hay@, if lower { lower_seq(needle@) } else { needle@ }),
{
    let ghost nd: Seq<char> = if lower { lower_seq(needle@) } else { needle@ };
    let hlen = hay.unicode_len();
    let nlen = needle.unicode_len();
    if nlen > hlen {
        assert(!contains_sub(hay@, nd));
        return false;
    }
    if nlen == 0 {
        proof {
            assert(hay@.subrange(0, 0 + nd.len() as int) =~= nd);
            assert(contains_sub(hay@, nd));
        }
        return true;
    }
    let mut k: usize = 0;
    while k <= hlen - nlen
        invariant
            0 < nlen <= hlen,
            hlen == hay@.len(),
            nlen == nd.len(),
            k <= hlen - nlen + 1,
            nd == if lower { lower_seq(needle@) } else { needle@ },
            forall|kk: int|
                0 <= kk < k ==> #[trigger] hay@.subrange(kk, kk + nd.len() as int) != nd,
        decreases hlen - nlen - k + 1,
    {
        let mut j: usize = 0;
        let mut ok: bool = true;
        while ok && j < nlen
            invariant
                nlen <= hlen,
                hlen == hay@.len(),
                nlen == nd.len(),
                k + nlen <= hlen,
                j <= nlen,
                nd == if lower { lower_seq(needle@) } else { needle@ },
                ok ==> forall|jj: int| 0 <= jj < j ==> hay@[k as int + jj] == nd[jj],
                !ok ==> hay@.subrange(k as int, k as int + nd.len() as int) != nd,
            decreases nlen - j + if ok { 1int } else { 0int },
        {
            let nc = if lower {
                lower_char_exec(needle.get_char(j))
            } else {
                needle.get_char(j)
            };
            if hay.get_char(k + j) != nc {
                ok = false;
                assert(hay@.subrange(k as int, k as int + nd.len() as int)[j as int] == hay@[k
                    as int + j as int]);
                assert(hay@.subrange(k as int, k as int + nd.len() as int) != nd);
            } else {
                j += 1;
            }
        }
        if ok {
            assert forall|jj: int|
                0 <= jj < nd.len() implies hay@.subrange(
                k as int,
                k as int + nd.len() as int,
            )[jj] == nd[jj] by {
                assert(hay@[k as int + jj] == nd[jj]);
            }
            assert(hay@.subrange(k as int, k as int + nd.len() as int) =~= nd);
            return true;
        }
        k += 1;
    }
    assert(!contains_sub(hay@, nd)) by {
        if contains_sub(hay@, nd) {
            let kk = choose|kk: int|
                0 <= kk && kk + nd.len() <= hay@.len() && #[trigger] hay@.subrange(
                    kk,
                    kk + nd.len() as int,
                ) == nd;
            assert(hay@.subrange(kk, kk + nd.len() as int) != nd);
        }
    }
    false
}

/// Whether `needle` appears inside `hay` as given.
pub fn contains_substr(hay: &str, needle: &str) -> (r: bool)
    ensures
        r == contains_sub(hay@, needle@),
{
    contains_core(hay, needle, false)
}

/// Whether the ASCII-lowercased `needle` appears inside `hay`.
pub fn contains_lowered(hay: &str, needle: &str) -> (r: bool)
    ensures
        r == contains_sub(hay@, lower_seq(needle@)),
{
    contains_core(hay, needle, true)
}

/// Index of the first space in `s`, or `s.len()` if there is none.
pub open spec fn first_space(s: Seq<char>) -> int
    decreases s.len(),
{
    if s.len() == 0 {
        0
    } else if s[0] == ' ' {
        0
    } else {
        1 + first_space(s.skip(1))
    }
}

pub proof fn lemma_first_space_is(s: Seq<char>, i: int)
    requires
        0 <= i <= s.len(),
        forall|j: int| 0 <= j < i ==> s[j] != ' ',
        i < s.len() ==> s[i] == ' ',
    ensures
        first_space(s) == i,
    decreases s.len(),
{
    if i == 0 {
    } else {
        assert(s[0] != ' ');
        assert forall|j: int| 0 <= j < i - 1 implies s.skip(1)[j] != ' ' by {
            assert(s.skip(1)[j] == s[j + 1]);
        }
        if i - 1 < s.skip(1).len() {
            assert(s.skip(1)[i - 1] == s[i]);
        }
        lemma_first_space_is(s.skip(1), i - 1);
    }
}

/// The tokens of a page: the segments of `s` between single spaces, in order,
/// empty segments included, exactly as splitting on one space character gives
/// them.
pub open spec fn split_spaces(s: Seq<char>) -> Seq<Seq<char>>
    decreases s.len(),
{
    let i = first_space(s);
    if 0 <= i < s.len() {
        seq![s.take(i)] + split_spaces(s.skip(i + 1))
    } else {
        seq![s]
    }
}

pub proof fn lemma_split_at(s: Seq<char>, i: int)
    requires
        0 <= i < s.len(),
        s[i] == ' ',
        forall|j: int| 0 <= j < i ==> s[j] != ' ',
    ensures
        split_spaces(s) == seq![s.take(i)] + split_spaces(s.skip(i + 1)),
{
    lemma_first_space_is(s, i);
}

pub proof fn lemma_split_nospace(s: Seq<char>)
    requires
        forall|j: int| 0 <= j < s.len() ==> s[j] != ' ',
    ensures
        split_spaces(s) == seq![s],
{
    lemma_first_space_is(s, s.len() as int);
}

/// The parts joined back with one space between consecutive parts.
pub open spec fn join_spaces(parts: Seq<Seq<char>>) -> Seq<char>
    decreases parts.len(),
{
    if parts.len() == 0 {
        Seq::empty()
    } else if parts.len() == 1 {
        parts[0]
    } else {
        parts[0] + seq![' '] + join_spaces(parts.drop_first())
    }
}

pub proof fn lemma_join_push(parts: Seq<Seq<char>>, x: Seq<char>)
    ensures
        join_spaces(parts.push(x)) == if parts.len() == 0 {
            x
        } else {
            join_spaces(parts) + seq![' '] + x
        },
    decreases parts.len(),
{
    if parts.len() == 0 {
        assert(parts.push(x)[0] == x);
    } else if parts.len() == 1 {
        assert(parts.push(x).drop_first() =~= seq![x]);
        assert(parts.push(x)[0] == parts[0]);
        assert(seq![x][0] == x);
        assert(join_spaces(seq![x]) == x);
        assert(join_spaces(parts.push(x)) == parts[0] + seq![' '] + x);
    } else {
        lemma_join_push(parts.drop_first(), x);
        assert(parts.push(x).drop_first() =~= parts.drop_first().push(x));
        assert(join_spaces(parts) + seq![' '] + x =~= parts[0] + seq![' '] + (join_spaces(
            parts.drop_first(),
        ) + seq![' '] + x));
    }
}

/// Splits a page string on single space characters, keeping empty tokens.
pub fn split_spaces_exec(s: &str) -> (r: Vec<String>)
    ensures
        r.deep_view() == split_spaces(s@),
{
    let n = s.unicode_len();
    let mut r: Vec<String> = Vec::new();
    let mut start: usize = 0;
    let mut i: usize = 0;
    proof {
        assert(s@.skip(0) =~= s@);
        assert(r.deep_view() + split_spaces(s@) =~= split_spaces(s@));
    }
    while i < n
        invariant
            n == s@.len(),
            start <= i <= n,
            forall|j: int| start <= j < i ==> s@[j] != ' ',
            split_spaces(s@) == r.deep_view() + split_spaces(s@.skip(start as int)),
        decreases n - i,
    {
        if s.get_char(i) == ' ' {
            let tok = s.substring_char(start, i);
            let tow = String::from_str(tok);
            proof {
                let rest = s@.skip(start as int);
                assert forall|j: int| 0 <= j < i - start implies rest[j] != ' ' by {
                    assert(rest[j] == s@[start as int + j]);
                }
                assert(rest[i - start as int] == s@[i as int]);
                lemma_split_at(rest, i - start as int);
                assert(rest.take(i - start as int) =~= s@.subrange(start as int, i as int));
                assert(rest.skip(i - start as int + 1) =~= s@.skip(i + 1));
            }
            let ghost old_dv = r.deep_view();
            r.push(tow);
            proof {
                assert(r.deep_view() =~= old_dv.push(tow@));
                assert(old_dv + (seq![tow@] + split_spaces(s@.skip(i + 1))) =~= old_dv.push(tow@)
                    + split_spaces(s@.skip(i + 1)));
            }
            start = i + 1;
        }
        i += 1;
    }
    let tok = s.substring_char(start, n);
    let tow = String::from_str(tok);
    proof {
        let rest = s@.skip(start as int);
        assert forall|j: int| 0 <= j < rest.len() implies rest[j] != ' ' by {
            assert(rest[j] == s@[start as int + j]);
        }
        lemma_split_nospace(rest);
        assert(rest =~= s@.subrange(start as int, n as int));
    }
    let ghost old_dv = r.deep_view();
    r.push(tow);
    proof {
        assert(r.deep_view() =~= old_dv.push(tow@));
        assert(old_dv + seq![tow@] =~= old_dv.push(tow@));
        assert(old_dv + split_spaces(s@.skip(start as int)) =~= old_dv.push(tow@));
    }
    r
}

/// Joins the tokens `toks[lo..hi]` with single spaces.
pub fn join_range(toks: &Vec<String>, lo: usize, hi: usize) -> (r: String)
    requires
        lo <= hi <= toks.len(),
    ensures
        r@ == join_spaces(toks.deep_view().subrange(lo as int, hi as int)),
{
    let ghost dv = toks.deep_view();
    let mut r = String::new();
    let mut idx: usize = lo;
    while idx < hi
        invariant
            lo <= idx <= hi <= toks.len(),
            dv == toks.deep_view(),
            r@ == join_spaces(dv.subrange(lo as int, idx as int)),
        decreases hi - idx,
    {
        let ghost r0 = r@;
        if idx > lo {
            r.append(" ");
        }
        r.append(toks[idx].as_str());
        proof {
            reveal_strlit(" ");
            assert(" "@ =~= seq![' ']);
            let sub = dv.subrange(lo as int, idx as int);
            lemma_join_push(sub, dv[idx as int]);
            assert(dv.subrange(lo as int, idx + 1) =~= sub.push(dv[idx as int]));
            assert(dv[idx as int] == toks@[idx as int]@);
            if idx > lo {
                assert(r@ == r0 + " "@ + toks@[idx as int]@);
            } else {
                assert(sub.len() == 0);
                assert(r@ =~= dv[idx as int]);
            }
        }
        idx += 1;
    }
    r
}

} // verus!
