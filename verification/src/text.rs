//! Helpers on characters and sequences that the rest of the library shares.

use vstd::prelude::*;

verus! {

/// The mathematical content of a result: that of its value, or that of its
/// error.
pub open spec fn view_result<T: DeepView, E: DeepView>(result: Result<T, E>) -> Result<T::V, E::V> {
    match result {
        Ok(value) => Ok(value.deep_view()),
        Err(error) => Err(error.deep_view()),
    }
}

/// The characters of `s`, in order.
pub fn chars_of(s: &str) -> (out: Vec<char>)
    ensures
        out@ == s@,
{
    let mut out: Vec<char> = Vec::new();
    for c in it: s.chars()
        invariant
            it.seq() == s@,
            out@ == s@.take(it.index()),
    {
        out.push(c);
    }
    out
}

/// Builds a `String` with `String::from_iter` over the characters of `chars`;
/// the result holds exactly those characters, in order.
#[verifier::external_body]
pub(crate) fn string_of(chars: &Vec<char>) -> (out: String)
    ensures
        out@ == chars@,
{
    String::from_iter(chars.iter())
}

/// A copy of the characters of `v` from index `lo` up to, not including, `hi`.
pub fn copy_range(v: &Vec<char>, lo: usize, hi: usize) -> (out: Vec<char>)
    requires
        lo <= hi <= v.len(),
    ensures
        out@ == v@.subrange(lo as int, hi as int),
{
    let mut out: Vec<char> = Vec::new();
    let mut i: usize = lo;
    while i < hi
        invariant
            lo <= i <= hi <= v.len(),
            out@ == v@.subrange(lo as int, i as int),
        decreases hi - i,
    {
        out.push(v[i]);
        i = i + 1;
    }
    out
}

/// Space, tab, line feed and carriage return.
pub open spec fn is_blank(c: char) -> bool {
    c == ' ' || c == '\t' || c == '\n' || c == '\r'
}

/// The number of blanks at the front of `s`.
pub open spec fn leading_blanks(s: Seq<char>) -> nat
    decreases s.len(),
{
    if s.len() > 0 && is_blank(s[0]) {
        1 + leading_blanks(s.skip(1))
    } else {
        0
    }
}

/// The number of blanks at the end of `s`.
pub open spec fn trailing_blanks(s: Seq<char>) -> nat
    decreases s.len(),
{
    if s.len() > 0 && is_blank(s.last()) {
        1 + trailing_blanks(s.drop_last())
    } else {
        0
    }
}

/// `s` without the blanks at its front and at its end.
pub open spec fn trimmed(s: Seq<char>) -> Seq<char> {
    let rest = s.skip(leading_blanks(s) as int);
    rest.take(rest.len() - trailing_blanks(rest))
}

fn is_blank_char(c: char) -> (b: bool)
    ensures
        b == is_blank(c),
{
    c == ' ' || c == '\t' || c == '\n' || c == '\r'
}

/// Removes the blanks around `v`.
pub fn trim(v: &Vec<char>) -> (out: Vec<char>)
    ensures
        out@ == trimmed(v@),
{
    let mut lo: usize = 0;
    assert(v@.skip(0) =~= v@);
    while lo < v.len() && is_blank_char(v[lo])
        invariant
            lo <= v.len(),
            leading_blanks(v@) == lo + leading_blanks(v@.skip(lo as int)),
        decreases v.len() - lo,
    {
        assert(v@.skip(lo as int).skip(1) =~= v@.skip(lo as int + 1));
        lo = lo + 1;
    }
    let ghost rest = v@.skip(lo as int);
    let mut hi: usize = v.len();
    assert(rest.take(hi - lo) =~= rest);
    while hi > lo && is_blank_char(v[hi - 1])
        invariant
            lo <= hi <= v.len(),
            rest == v@.skip(lo as int),
            trailing_blanks(rest) == (v.len() - hi) + trailing_blanks(rest.take(hi - lo)),
        decreases hi - lo,
    {
        assert(rest.take(hi - lo).drop_last() =~= rest.take(hi - lo - 1));
        hi = hi - 1;
    }
    proof {
        if hi > lo {
            assert(rest.take(hi - lo).last() == v@[hi - 1]);
        }
        assert(rest.take(hi - lo) =~= v@.subrange(lo as int, hi as int));
    }
    copy_range(v, lo, hi)
}

/// Adds the characters of `tail` to the end of `v`.
pub fn append(v: &mut Vec<char>, tail: &Vec<char>)
    ensures
        final(v)@ == old(v)@ + tail@,
{
    let mut i: usize = 0;
    while i < tail.len()
        invariant
            i <= tail.len(),
            v@ == old(v)@ + tail@.take(i as int),
        decreases tail.len() - i,
    {
        v.push(tail[i]);
        i = i + 1;
    }
    assert(tail@.take(tail.len() as int) =~= tail@);
}

/// The index of the first `x` in `s`, or the length of `s` if there is none.
pub open spec fn first_index<T>(s: Seq<T>, x: T) -> int
    decreases s.len(),
{
    if s.len() == 0 || s[0] == x {
        0
    } else {
        1 + first_index(s.skip(1), x)
    }
}

pub proof fn lemma_first_index<T>(s: Seq<T>, x: T)
    ensures
        0 <= first_index(s, x) <= s.len(),
        first_index(s, x) < s.len() ==> s[first_index(s, x)] == x,
        forall|i: int| 0 <= i < first_index(s, x) ==> s[i] != x,
    decreases s.len(),
{
    if s.len() > 0 && s[0] != x {
        let t = s.skip(1);
        lemma_first_index(t, x);
        assert forall|i: int| 0 <= i < first_index(s, x) implies s[i] != x by {
            if i > 0 {
                assert(s[i] == t[i - 1]);
            }
        }
    }
}

/// `first_index(s, x)` is `i` when `x` stands at `i` and nowhere before.
pub proof fn lemma_first_index_is<T>(s: Seq<T>, x: T, i: int)
    requires
        0 <= i < s.len(),
        s[i] == x,
        forall|k: int| 0 <= k < i ==> s[k] != x,
    ensures
        first_index(s, x) == i,
{
    lemma_first_index(s, x);
}

/// `first_index(s, x)` is the length of `s` when `x` stands nowhere in it.
pub proof fn lemma_first_index_none<T>(s: Seq<T>, x: T)
    requires
        forall|k: int| 0 <= k < s.len() ==> s[k] != x,
    ensures
        first_index(s, x) == s.len(),
{
    lemma_first_index(s, x);
}

/// The pieces of `s` between occurrences of `sep`: one more than there are
/// occurrences, some of them possibly empty.
pub open spec fn split_on(s: Seq<char>, sep: char) -> Seq<Seq<char>>
    decreases s.len(),
    via split_on_decreases
{
    let i = first_index(s, sep);
    if i >= s.len() {
        seq![s]
    } else {
        seq![s.take(i)] + split_on(s.skip(i + 1), sep)
    }
}

#[via_fn]
proof fn split_on_decreases(s: Seq<char>, sep: char) {
    lemma_first_index(s, sep);
}

/// Splits `v` at every `sep`.
pub fn split(v: &Vec<char>, sep: char) -> (pieces: Vec<Vec<char>>)
    ensures
        pieces.deep_view() == split_on(v@, sep),
        pieces.len() > 0,
{
    let mut pieces: Vec<Vec<char>> = Vec::new();
    let mut start: usize = 0;
    let mut k: usize = 0;
    assert(v@.skip(0) =~= v@);
    assert(pieces.deep_view() =~= Seq::<Seq<char>>::empty());
    while k < v.len()
        invariant
            start <= k <= v.len(),
            pieces.deep_view() + split_on(v@.skip(start as int), sep) =~= split_on(v@, sep),
            forall|i: int| start <= i < k ==> v@[i] != sep,
        decreases v.len() - k,
    {
        if v[k] == sep {
            let piece = copy_range(v, start, k);
            proof {
                let rest = v@.skip(start as int);
                lemma_first_index_is(rest, sep, k - start);
                assert(rest.take(k - start) =~= piece@);
                assert(rest.skip(k - start + 1) =~= v@.skip(k as int + 1));
            }
            let ghost before = pieces.deep_view();
            assert(piece.deep_view() =~= piece@);
            pieces.push(piece);
            proof {
                assert(pieces.deep_view() =~= before.push(piece@));
                assert(before.push(piece@) + split_on(v@.skip(k as int + 1), sep) =~= before + (
                seq![piece@] + split_on(v@.skip(k as int + 1), sep)));
            }
            start = k + 1;
        }
        k = k + 1;
    }
    let piece = copy_range(v, start, v.len());
    proof {
        let rest = v@.skip(start as int);
        lemma_first_index_none(rest, sep);
        assert(rest =~= piece@);
    }
    let ghost before = pieces.deep_view();
    assert(piece.deep_view() =~= piece@);
    pieces.push(piece);
    assert(pieces.deep_view() =~= before.push(piece@));
    assert(before.push(piece@) =~= before + seq![piece@]);
    pieces
}

} // verus!
