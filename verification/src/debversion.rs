//! Debian version numbers: their three parts, their total order, and the five
//! relations a dependency can demand between two of them.
//!
//! A part (epoch, upstream version or revision) is ordered by reading it as
//! alternating runs of non-digits and digits.  Non-digit runs are ordered
//! character by character, with `~` before the end of the part, the end
//! before letters, and letters before everything else.  Digit runs are ordered
//! by their numeric value.  `order_key` turns a part into the sequence of
//! integers that this reading yields, and two keys are ordered
//! lexicographically, the shorter one padded with zeros.

use crate::text::{
    append, chars_of, copy_range, first_index, lemma_first_index, string_of,
};
use vstd::prelude::*;

verus! {

/// A relation that a dependency may demand between the version at hand and
/// the version it names.
#[derive(Clone, Copy, Debug, PartialEq, Eq, Structural)]
pub enum VersionRelation {
    StrictlyLess,
    LessOrEqual,
    Equal,
    GreaterOrEqual,
    StrictlyGreater,
}

/// The mathematical content of a version number: its three parts as text.
/// An absent epoch or revision is the empty sequence.
pub struct VersionText {
    pub epoch: Seq<char>,
    pub upstream: Seq<char>,
    pub revision: Seq<char>,
}

/// A parsed Debian version number.
#[derive(Debug)]
pub struct DebianVersionNum {
    epoch: Vec<char>,
    upstream: Vec<char>,
    revision: Vec<char>,
}

impl View for DebianVersionNum {
    type V = VersionText;

    closed spec fn view(&self) -> VersionText {
        VersionText { epoch: self.epoch@, upstream: self.upstream@, revision: self.revision@ }
    }
}

impl DeepView for DebianVersionNum {
    type V = VersionText;

    open spec fn deep_view(&self) -> VersionText {
        self.view()
    }
}

pub open spec fn is_digit(c: char) -> bool {
    '0' <= c && c <= '9'
}

pub open spec fn is_letter(c: char) -> bool {
    ('a' <= c && c <= 'z') || ('A' <= c && c <= 'Z')
}

pub open spec fn all_digits(s: Seq<char>) -> bool {
    forall|i: int| 0 <= i < s.len() ==> is_digit(#[trigger] s[i])
}

pub open spec fn digit_value(c: char) -> int {
    c as int - '0' as int
}

/// Where a non-digit character sorts: `~` first, then letters by code point,
/// then every other character.  Never zero, which is where the end of a part
/// and the start of a digit run sort.
pub open spec fn rank(c: char) -> int {
    if c == '~' {
        -1
    } else if is_letter(c) {
        c as int
    } else {
        c as int + 256
    }
}

/// The number of digits at the front of `s`.
pub open spec fn digit_run(s: Seq<char>) -> nat
    decreases s.len(),
{
    if s.len() > 0 && is_digit(s[0]) {
        1 + digit_run(s.skip(1))
    } else {
        0
    }
}

/// The value of a digit string read in base ten; the empty string is zero.
pub open spec fn decimal(s: Seq<char>) -> nat
    decreases s.len(),
{
    if s.len() == 0 {
        0
    } else {
        (decimal(s.drop_last()) * 10 + digit_value(s.last())) as nat
    }
}

/// The sequence of integers by which a version part is ordered: one entry for
/// each non-digit character, and for each digit run a zero followed by the
/// run's value.
pub open spec fn order_key(s: Seq<char>) -> Seq<int>
    decreases s.len(),
    via order_key_decreases
{
    if s.len() == 0 {
        Seq::empty()
    } else if is_digit(s[0]) {
        let n = digit_run(s) as int;
        seq![0int, decimal(s.take(n)) as int] + order_key(s.skip(n))
    } else {
        seq![rank(s[0])] + order_key(s.skip(1))
    }
}

#[via_fn]
proof fn order_key_decreases(s: Seq<char>) {
    if s.len() > 0 && is_digit(s[0]) {
        lemma_digit_run_bounds(s);
    }
}

pub open spec fn head_or_zero(k: Seq<int>) -> int {
    if k.len() == 0 {
        0
    } else {
        k[0]
    }
}

pub open spec fn tail_or_empty(k: Seq<int>) -> Seq<int> {
    if k.len() == 0 {
        k
    } else {
        k.skip(1)
    }
}

/// Lexicographic order of two keys, the shorter padded with zeros: -1, 0 or 1.
pub open spec fn compare_keys(a: Seq<int>, b: Seq<int>) -> int
    decreases a.len() + b.len(),
{
    if a.len() == 0 && b.len() == 0 {
        0
    } else if head_or_zero(a) < head_or_zero(b) {
        -1
    } else if head_or_zero(a) > head_or_zero(b) {
        1
    } else {
        compare_keys(tail_or_empty(a), tail_or_empty(b))
    }
}

/// Order of two version parts: -1, 0 or 1.
pub open spec fn part_order(a: Seq<char>, b: Seq<char>) -> int {
    compare_keys(order_key(a), order_key(b))
}

/// Order of two versions: by epoch, then upstream version, then revision.
/// The result is -1 when `a` is older, 0 when they rank the same, 1 when `a`
/// is newer.
pub open spec fn version_order(a: VersionText, b: VersionText) -> int {
    if part_order(a.epoch, b.epoch) != 0 {
        part_order(a.epoch, b.epoch)
    } else if part_order(a.upstream, b.upstream) != 0 {
        part_order(a.upstream, b.upstream)
    } else {
        part_order(a.revision, b.revision)
    }
}

/// Whether an order result (-1, 0, 1) meets a relation.
pub open spec fn relation_holds(order: int, relation: VersionRelation) -> bool {
    match relation {
        VersionRelation::StrictlyLess => order < 0,
        VersionRelation::LessOrEqual => order <= 0,
        VersionRelation::Equal => order == 0,
        VersionRelation::GreaterOrEqual => order >= 0,
        VersionRelation::StrictlyGreater => order > 0,
    }
}

/// Whether `a relation b` holds, as in `1.0 << 2.0`.
pub open spec fn satisfies(a: VersionText, relation: VersionRelation, b: VersionText) -> bool {
    relation_holds(version_order(a, b), relation)
}

pub proof fn lemma_digit_run_bounds(s: Seq<char>)
    ensures
        digit_run(s) <= s.len(),
        s.len() > 0 && is_digit(s[0]) ==> digit_run(s) >= 1,
        all_digits(s.take(digit_run(s) as int)),
        digit_run(s) < s.len() ==> !is_digit(s[digit_run(s) as int]),
    decreases s.len(),
{
    if s.len() > 0 && is_digit(s[0]) {
        let t = s.skip(1);
        lemma_digit_run_bounds(t);
        let n = digit_run(s) as int;
        assert forall|i: int| 0 <= i < n implies is_digit(#[trigger] s.take(n)[i]) by {
            if i > 0 {
                assert(s.take(n)[i] == t.take(n - 1)[i - 1]);
            }
        }
        if n < s.len() {
            assert(s[n] == t[n - 1]);
        }
    }
}

pub open spec fn sign(x: int) -> int {
    if x < 0 {
        -1
    } else if x > 0 {
        1
    } else {
        0
    }
}

proof fn lemma_leading_zero(s: Seq<char>)
    requires
        s.len() > 0,
        s[0] == '0',
    ensures
        decimal(s) == decimal(s.skip(1)),
    decreases s.len(),
{
    if s.len() == 1 {
        assert(s.drop_last() =~= Seq::<char>::empty());
        assert(s.skip(1) =~= Seq::<char>::empty());
        assert(decimal(s.drop_last()) == 0);
    } else {
        lemma_leading_zero(s.drop_last());
        assert(s.skip(1).drop_last() =~= s.drop_last().skip(1));
        assert(s.skip(1).last() == s.last());
    }
}

proof fn lemma_decimal_push(s: Seq<char>, c: char)
    requires
        is_digit(c),
    ensures
        decimal(s.push(c)) == decimal(s) * 10 + digit_value(c),
{
    assert(s.push(c).drop_last() =~= s);
}

proof fn lemma_decimal_positive(s: Seq<char>)
    requires
        s.len() > 0,
        all_digits(s),
        s[0] != '0',
    ensures
        decimal(s) > 0,
    decreases s.len(),
{
    if s.len() == 1 {
        assert(s.drop_last() =~= Seq::<char>::empty());
        assert(decimal(s.drop_last()) == 0);
    } else {
        lemma_decimal_positive(s.drop_last());
    }
}

/// A smaller number stays smaller when both get the same count of further digits.
proof fn lemma_decimal_extend(x: Seq<char>, y: Seq<char>, u: Seq<char>, v: Seq<char>)
    requires
        decimal(x) < decimal(y),
        u.len() == v.len(),
        all_digits(u),
        all_digits(v),
    ensures
        decimal(x + u) < decimal(y + v),
    decreases u.len(),
{
    if u.len() == 0 {
        assert(x + u =~= x);
        assert(y + v =~= y);
    } else {
        lemma_decimal_extend(x, y, u.drop_last(), v.drop_last());
        assert((x + u).drop_last() =~= x + u.drop_last());
        assert((y + v).drop_last() =~= y + v.drop_last());
        assert((x + u).last() == u.last());
        assert((y + v).last() == v.last());
        assert(is_digit(u[u.len() - 1]));
        assert(is_digit(v[v.len() - 1]));
    }
}

fn is_digit_char(c: char) -> (b: bool)
    ensures
        b == is_digit(c),
{
    '0' <= c && c <= '9'
}

fn is_letter_char(c: char) -> (b: bool)
    ensures
        b == is_letter(c),
{
    ('a' <= c && c <= 'z') || ('A' <= c && c <= 'Z')
}

fn rank_of(c: char) -> (r: i64)
    ensures
        r == rank(c),
{
    if c == '~' {
        -1
    } else if is_letter_char(c) {
        c as u32 as i64
    } else {
        c as u32 as i64 + 256
    }
}

/// The index just past the digits that start at `from`.
fn digit_run_end(s: &Vec<char>, from: usize) -> (end: usize)
    requires
        from <= s.len(),
    ensures
        from <= end <= s.len(),
        end - from == digit_run(s@.skip(from as int)),
{
    let mut end: usize = from;
    while end < s.len() && is_digit_char(s[end])
        invariant
            from <= end <= s.len(),
            digit_run(s@.skip(from as int)) == (end - from) + digit_run(s@.skip(end as int)),
        decreases s.len() - end,
    {
        assert(s@.skip(end as int)[0] == s@[end as int]);
        assert(s@.skip(end as int).skip(1) =~= s@.skip(end as int + 1));
        end = end + 1;
    }
    proof {
        if end < s.len() {
            assert(s@.skip(end as int)[0] == s@[end as int]);
        }
    }
    end
}

/// Orders two digit strings by value without computing the values, so that
/// no run is too long: leading zeros are skipped, then the longer string is
/// the greater, and strings of one length are ordered by their first
/// difference.
fn compare_digits(
    a: &Vec<char>,
    a_lo: usize,
    a_hi: usize,
    b: &Vec<char>,
    b_lo: usize,
    b_hi: usize,
) -> (r: i8)
    requires
        a_lo <= a_hi <= a.len(),
        b_lo <= b_hi <= b.len(),
        all_digits(a@.subrange(a_lo as int, a_hi as int)),
        all_digits(b@.subrange(b_lo as int, b_hi as int)),
    ensures
        r == sign(
            decimal(a@.subrange(a_lo as int, a_hi as int)) - decimal(
                b@.subrange(b_lo as int, b_hi as int),
            ),
        ),
{
    let mut i: usize = a_lo;
    while i < a_hi && a[i] == '0'
        invariant
            a_lo <= i <= a_hi <= a.len(),
            decimal(a@.subrange(i as int, a_hi as int)) == decimal(
                a@.subrange(a_lo as int, a_hi as int),
            ),
        decreases a_hi - i,
    {
        proof {
            let t = a@.subrange(i as int, a_hi as int);
            lemma_leading_zero(t);
            assert(t.skip(1) =~= a@.subrange(i as int + 1, a_hi as int));
        }
        i = i + 1;
    }
    let mut j: usize = b_lo;
    while j < b_hi && b[j] == '0'
        invariant
            b_lo <= j <= b_hi <= b.len(),
            decimal(b@.subrange(j as int, b_hi as int)) == decimal(
                b@.subrange(b_lo as int, b_hi as int),
            ),
        decreases b_hi - j,
    {
        proof {
            let t = b@.subrange(j as int, b_hi as int);
            lemma_leading_zero(t);
            assert(t.skip(1) =~= b@.subrange(j as int + 1, b_hi as int));
        }
        j = j + 1;
    }
    let ghost x = a@.subrange(i as int, a_hi as int);
    let ghost y = b@.subrange(j as int, b_hi as int);
    proof {
        assert forall|k: int| 0 <= k < x.len() implies is_digit(#[trigger] x[k]) by {
            assert(x[k] == a@.subrange(a_lo as int, a_hi as int)[k + i - a_lo]);
        }
        assert forall|k: int| 0 <= k < y.len() implies is_digit(#[trigger] y[k]) by {
            assert(y[k] == b@.subrange(b_lo as int, b_hi as int)[k + j - b_lo]);
        }
    }
    let len_a = a_hi - i;
    let len_b = b_hi - j;
    if len_a > len_b {
        proof {
            let m = len_a - len_b;
            lemma_decimal_positive(x.take(m));
            lemma_decimal_extend(Seq::<char>::empty(), x.take(m), y, x.skip(m));
            assert(Seq::<char>::empty() + y =~= y);
            assert(x.take(m) + x.skip(m) =~= x);
        }
        return 1;
    }
    if len_a < len_b {
        proof {
            let m = len_b - len_a;
            lemma_decimal_positive(y.take(m));
            lemma_decimal_extend(Seq::<char>::empty(), y.take(m), x, y.skip(m));
            assert(Seq::<char>::empty() + x =~= x);
            assert(y.take(m) + y.skip(m) =~= y);
        }
        return -1;
    }
    let mut k: usize = 0;
    while k < len_a
        invariant
            k <= len_a,
            len_a == len_b,
            len_a == a_hi - i,
            len_b == b_hi - j,
            a_hi <= a.len(),
            b_hi <= b.len(),
            x == a@.subrange(i as int, a_hi as int),
            y == b@.subrange(j as int, b_hi as int),
            all_digits(x),
            all_digits(y),
            decimal(x) == decimal(a@.subrange(a_lo as int, a_hi as int)),
            decimal(y) == decimal(b@.subrange(b_lo as int, b_hi as int)),
            x.take(k as int) =~= y.take(k as int),
        decreases len_a - k,
    {
        let ca = a[i + k];
        let cb = b[j + k];
        if ca != cb {
            proof {
                let p = x.take(k as int);
                assert(x[k as int] == ca && y[k as int] == cb);
                lemma_decimal_push(p, ca);
                lemma_decimal_push(p, cb);
                assert(x.take(k as int + 1) =~= p.push(ca));
                assert(y.take(k as int + 1) =~= p.push(cb));
                assert(x.take(k as int + 1) + x.skip(k as int + 1) =~= x);
                assert(y.take(k as int + 1) + y.skip(k as int + 1) =~= y);
                if ca < cb {
                    lemma_decimal_extend(
                        x.take(k as int + 1),
                        y.take(k as int + 1),
                        x.skip(k as int + 1),
                        y.skip(k as int + 1),
                    );
                } else {
                    lemma_decimal_extend(
                        y.take(k as int + 1),
                        x.take(k as int + 1),
                        y.skip(k as int + 1),
                        x.skip(k as int + 1),
                    );
                }
            }
            return if ca < cb {
                -1
            } else {
                1
            };
        }
        proof {
            assert(x.take(k as int + 1) =~= x.take(k as int).push(ca));
            assert(y.take(k as int + 1) =~= y.take(k as int).push(cb));
        }
        k = k + 1;
    }
    proof {
        assert(x.take(len_a as int) =~= x);
        assert(y.take(len_a as int) =~= y);
    }
    0
}

proof fn lemma_compare_cons(x: int, k1: Seq<int>, y: int, k2: Seq<int>)
    ensures
        compare_keys(seq![x] + k1, seq![y] + k2) == if x < y {
            -1
        } else if x > y {
            1
        } else {
            compare_keys(k1, k2)
        },
{
    assert((seq![x] + k1).skip(1) =~= k1);
    assert((seq![y] + k2).skip(1) =~= k2);
}

proof fn lemma_compare_empty_left(y: int, k2: Seq<int>)
    ensures
        compare_keys(Seq::empty(), seq![y] + k2) == if 0 < y {
            -1
        } else if 0 > y {
            1
        } else {
            compare_keys(Seq::empty(), k2)
        },
{
    assert((seq![y] + k2).skip(1) =~= k2);
}

proof fn lemma_compare_empty_right(x: int, k1: Seq<int>)
    ensures
        compare_keys(seq![x] + k1, Seq::empty()) == if x < 0 {
            -1
        } else if x > 0 {
            1
        } else {
            compare_keys(k1, Seq::empty())
        },
{
    assert((seq![x] + k1).skip(1) =~= k1);
}

/// The key of a part that is empty or starts with a digit, as a number and
/// the key of what follows the number.
proof fn lemma_key_number(s: Seq<char>)
    requires
        s.len() == 0 || is_digit(s[0]),
    ensures
        compare_keys(order_key(s), Seq::empty()) == compare_keys(
            seq![0int] + (seq![decimal(s.take(digit_run(s) as int)) as int] + order_key(
                s.skip(digit_run(s) as int),
            )),
            Seq::empty(),
        ),
        s.len() > 0 ==> order_key(s) == seq![0int] + (seq![
            decimal(s.take(digit_run(s) as int)) as int,
        ] + order_key(s.skip(digit_run(s) as int))),
        s.len() == 0 ==> order_key(s) == Seq::<int>::empty() && digit_run(s) == 0 && decimal(
            s.take(0),
        ) == 0,
{
    let n = digit_run(s) as int;
    let v = decimal(s.take(n)) as int;
    let rest = order_key(s.skip(n));
    if s.len() > 0 {
        assert(seq![0int, v] + rest =~= seq![0int] + (seq![v] + rest));
    } else {
        assert(s.skip(0) =~= s);
        lemma_compare_empty_right(0, seq![v] + rest);
        lemma_compare_empty_right(v, rest);
    }
}

/// Two parts that each are empty or start with a digit are ordered by their
/// leading numbers, then by what follows.
proof fn lemma_number_step(sa: Seq<char>, sb: Seq<char>)
    requires
        sa.len() == 0 || is_digit(sa[0]),
        sb.len() == 0 || is_digit(sb[0]),
    ensures
        part_order(sa, sb) == {
            let va = decimal(sa.take(digit_run(sa) as int));
            let vb = decimal(sb.take(digit_run(sb) as int));
            if va < vb {
                -1
            } else if va > vb {
                1
            } else {
                part_order(sa.skip(digit_run(sa) as int), sb.skip(digit_run(sb) as int))
            }
        },
{
    let va = decimal(sa.take(digit_run(sa) as int)) as int;
    let vb = decimal(sb.take(digit_run(sb) as int)) as int;
    let ra = order_key(sa.skip(digit_run(sa) as int));
    let rb = order_key(sb.skip(digit_run(sb) as int));
    lemma_key_number(sa);
    lemma_key_number(sb);
    if sa.len() > 0 && sb.len() > 0 {
        lemma_compare_cons(0, seq![va] + ra, 0, seq![vb] + rb);
        lemma_compare_cons(va, ra, vb, rb);
    } else if sa.len() > 0 {
        assert(sb.skip(0) =~= sb);
        lemma_compare_empty_right(0, seq![va] + ra);
        lemma_compare_empty_right(va, ra);
    } else if sb.len() > 0 {
        assert(sa.skip(0) =~= sa);
        lemma_compare_empty_left(0, seq![vb] + rb);
        lemma_compare_empty_left(vb, rb);
    } else {
        assert(sa.skip(0) =~= sa);
        assert(sb.skip(0) =~= sb);
    }
}

proof fn lemma_rank_nonzero(c: char)
    ensures
        rank(c) != 0,
{
    assert(c as int >= 0);
}

/// Two parts of which at least one starts with a non-digit are ordered by
/// the ranks at their fronts (zero for an empty part or a digit), then by
/// what follows.
proof fn lemma_text_step(sa: Seq<char>, sb: Seq<char>)
    requires
        (sa.len() > 0 && !is_digit(sa[0])) || (sb.len() > 0 && !is_digit(sb[0])),
    ensures
        part_order(sa, sb) == {
            let x = if sa.len() > 0 && !is_digit(sa[0]) {
                rank(sa[0])
            } else {
                0
            };
            let y = if sb.len() > 0 && !is_digit(sb[0]) {
                rank(sb[0])
            } else {
                0
            };
            if x < y {
                -1
            } else if x > y {
                1
            } else {
                part_order(sa.skip(1), sb.skip(1))
            }
        },
        (sa.len() > 0 && !is_digit(sa[0])) ==> rank(sa[0]) != 0,
        (sb.len() > 0 && !is_digit(sb[0])) ==> rank(sb[0]) != 0,
{
    let a_text = sa.len() > 0 && !is_digit(sa[0]);
    let b_text = sb.len() > 0 && !is_digit(sb[0]);
    if a_text {
        lemma_rank_nonzero(sa[0]);
    }
    if b_text {
        lemma_rank_nonzero(sb[0]);
    }
    if a_text && b_text {
        lemma_compare_cons(rank(sa[0]), order_key(sa.skip(1)), rank(sb[0]), order_key(sb.skip(1)));
    } else if a_text {
        lemma_key_number(sb);
        if sb.len() > 0 {
            let vb = decimal(sb.take(digit_run(sb) as int)) as int;
            let rb = order_key(sb.skip(digit_run(sb) as int));
            lemma_compare_cons(rank(sa[0]), order_key(sa.skip(1)), 0, seq![vb] + rb);
        } else {
            lemma_compare_empty_right(rank(sa[0]), order_key(sa.skip(1)));
        }
    } else {
        lemma_key_number(sa);
        if sa.len() > 0 {
            let va = decimal(sa.take(digit_run(sa) as int)) as int;
            let ra = order_key(sa.skip(digit_run(sa) as int));
            lemma_compare_cons(0, seq![va] + ra, rank(sb[0]), order_key(sb.skip(1)));
        } else {
            lemma_compare_empty_left(rank(sb[0]), order_key(sb.skip(1)));
        }
    }
}

/// Orders two version parts.
fn compare_parts(a: &Vec<char>, b: &Vec<char>) -> (r: i8)
    ensures
        r == part_order(a@, b@),
{
    let mut i: usize = 0;
    let mut j: usize = 0;
    assert(a@.skip(0) =~= a@ && b@.skip(0) =~= b@);
    loop
        invariant
            i <= a.len(),
            j <= b.len(),
            part_order(a@.skip(i as int), b@.skip(j as int)) == part_order(a@, b@),
        decreases (a.len() - i) + (b.len() - j),
    {
        let ghost sa = a@.skip(i as int);
        let ghost sb = b@.skip(j as int);
        let a_text = i < a.len() && !is_digit_char(a[i]);
        let b_text = j < b.len() && !is_digit_char(b[j]);
        if a_text || b_text {
            let x: i64 = if a_text {
                rank_of(a[i])
            } else {
                0
            };
            let y: i64 = if b_text {
                rank_of(b[j])
            } else {
                0
            };
            proof {
                lemma_text_step(sa, sb);
            }
            if x < y {
                return -1;
            }
            if x > y {
                return 1;
            }
            proof {
                assert(sa.skip(1) =~= a@.skip(i as int + 1));
                assert(sb.skip(1) =~= b@.skip(j as int + 1));
            }
            i = i + 1;
            j = j + 1;
        } else {
            if i == a.len() && j == b.len() {
                return 0;
            }
            let i_end = digit_run_end(a, i);
            let j_end = digit_run_end(b, j);
            proof {
                lemma_number_step(sa, sb);
                lemma_digit_run_bounds(sa);
                lemma_digit_run_bounds(sb);
                assert(sa.take(i_end - i) =~= a@.subrange(i as int, i_end as int));
                assert(sb.take(j_end - j) =~= b@.subrange(j as int, j_end as int));
                assert(sa.skip(i_end - i) =~= a@.skip(i_end as int));
                assert(sb.skip(j_end - j) =~= b@.skip(j_end as int));
            }
            let c = compare_digits(a, i, i_end, b, j, j_end);
            if c != 0 {
                return c;
            }
            i = i_end;
            j = j_end;
        }
    }
}

impl DebianVersionNum {
    /// How this version ranks against `other`: -1 when it is older, 0 when
    /// the two rank the same, 1 when it is newer.
    pub fn order_against(&self, other: &DebianVersionNum) -> (r: i8)
        ensures
            r == version_order(self@, other@),
    {
        let by_epoch = compare_parts(&self.epoch, &other.epoch);
        if by_epoch != 0 {
            return by_epoch;
        }
        let by_upstream = compare_parts(&self.upstream, &other.upstream);
        if by_upstream != 0 {
            return by_upstream;
        }
        compare_parts(&self.revision, &other.revision)
    }
}

/// Decides `a relation b`.
pub fn compare(a: &DebianVersionNum, relation: VersionRelation, b: &DebianVersionNum) -> (holds:
    bool)
    ensures
        holds == satisfies(a@, relation, b@),
{
    let order = a.order_against(b);
    match relation {
        VersionRelation::StrictlyLess => order < 0,
        VersionRelation::LessOrEqual => order <= 0,
        VersionRelation::Equal => order == 0,
        VersionRelation::GreaterOrEqual => order >= 0,
        VersionRelation::StrictlyGreater => order > 0,
    }
}

proof fn lemma_keys_range(a: Seq<int>, b: Seq<int>)
    ensures
        -1 <= compare_keys(a, b) <= 1,
    decreases a.len() + b.len(),
{
    if a.len() + b.len() > 0 && head_or_zero(a) == head_or_zero(b) {
        lemma_keys_range(tail_or_empty(a), tail_or_empty(b));
    }
}

proof fn lemma_keys_reflexive(a: Seq<int>)
    ensures
        compare_keys(a, a) == 0,
    decreases a.len(),
{
    if a.len() > 0 {
        lemma_keys_reflexive(tail_or_empty(a));
    }
}

proof fn lemma_keys_antisymmetric(a: Seq<int>, b: Seq<int>)
    ensures
        compare_keys(a, b) == -compare_keys(b, a),
    decreases a.len() + b.len(),
{
    if a.len() + b.len() > 0 && head_or_zero(a) == head_or_zero(b) {
        lemma_keys_antisymmetric(tail_or_empty(a), tail_or_empty(b));
    }
}

proof fn lemma_keys_transitive(a: Seq<int>, b: Seq<int>, c: Seq<int>)
    ensures
        compare_keys(a, b) <= 0 && compare_keys(b, c) <= 0 ==> compare_keys(a, c) <= 0,
        compare_keys(a, b) <= 0 && compare_keys(b, c) <= 0 && compare_keys(a, c) == 0
            ==> compare_keys(a, b) == 0 && compare_keys(b, c) == 0,
    decreases a.len() + b.len() + c.len(),
{
    if a.len() + b.len() + c.len() > 0 {
        if head_or_zero(a) == head_or_zero(b) && head_or_zero(b) == head_or_zero(c) {
            lemma_keys_transitive(tail_or_empty(a), tail_or_empty(b), tail_or_empty(c));
        }
    }
}

/// Of two versions exactly one thing holds: the first is strictly less than
/// the second, or they are equal in rank, or the first is strictly greater.
pub proof fn order_is_total(a: VersionText, b: VersionText)
    ensures
        satisfies(a, VersionRelation::StrictlyLess, b) || satisfies(a, VersionRelation::Equal, b)
            || satisfies(a, VersionRelation::StrictlyGreater, b),
        !(satisfies(a, VersionRelation::StrictlyLess, b) && satisfies(
            a,
            VersionRelation::Equal,
            b,
        )),
        !(satisfies(a, VersionRelation::StrictlyLess, b) && satisfies(
            a,
            VersionRelation::StrictlyGreater,
            b,
        )),
        !(satisfies(a, VersionRelation::Equal, b) && satisfies(
            a,
            VersionRelation::StrictlyGreater,
            b,
        )),
{
}

/// The five relations agree with the order: `<=` is `<<` or `=`, `>=` is
/// `>>` or `=`, and each relation read from left to right is its mirror image
/// read from right to left.
pub proof fn relations_agree_with_order(a: VersionText, b: VersionText)
    ensures
        satisfies(a, VersionRelation::LessOrEqual, b) == (satisfies(
            a,
            VersionRelation::StrictlyLess,
            b,
        ) || satisfies(a, VersionRelation::Equal, b)),
        satisfies(a, VersionRelation::GreaterOrEqual, b) == (satisfies(
            a,
            VersionRelation::StrictlyGreater,
            b,
        ) || satisfies(a, VersionRelation::Equal, b)),
        satisfies(a, VersionRelation::StrictlyLess, b) == satisfies(
            b,
            VersionRelation::StrictlyGreater,
            a,
        ),
        satisfies(a, VersionRelation::LessOrEqual, b) == satisfies(
            b,
            VersionRelation::GreaterOrEqual,
            a,
        ),
        satisfies(a, VersionRelation::Equal, b) == satisfies(b, VersionRelation::Equal, a),
        version_order(a, b) == -version_order(b, a),
        -1 <= version_order(a, b) <= 1,
{
    lemma_keys_antisymmetric(order_key(a.epoch), order_key(b.epoch));
    lemma_keys_antisymmetric(order_key(a.upstream), order_key(b.upstream));
    lemma_keys_antisymmetric(order_key(a.revision), order_key(b.revision));
    lemma_keys_range(order_key(a.epoch), order_key(b.epoch));
    lemma_keys_range(order_key(a.upstream), order_key(b.upstream));
    lemma_keys_range(order_key(a.revision), order_key(b.revision));
}

/// Every version equals itself in rank.
pub proof fn order_is_reflexive(a: VersionText)
    ensures
        satisfies(a, VersionRelation::Equal, a),
{
    lemma_keys_reflexive(order_key(a.epoch));
    lemma_keys_reflexive(order_key(a.upstream));
    lemma_keys_reflexive(order_key(a.revision));
}

/// If `a <= b` and `b <= c` then `a <= c`; and if `a` and `c` are then equal
/// in rank, so are `a` and `b`, and `b` and `c`.
pub proof fn order_is_transitive(a: VersionText, b: VersionText, c: VersionText)
    requires
        satisfies(a, VersionRelation::LessOrEqual, b),
        satisfies(b, VersionRelation::LessOrEqual, c),
    ensures
        satisfies(a, VersionRelation::LessOrEqual, c),
        satisfies(a, VersionRelation::Equal, c) ==> satisfies(a, VersionRelation::Equal, b)
            && satisfies(b, VersionRelation::Equal, c),
{
    lemma_keys_transitive(order_key(a.epoch), order_key(b.epoch), order_key(c.epoch));
    lemma_keys_transitive(order_key(a.upstream), order_key(b.upstream), order_key(c.upstream));
    lemma_keys_transitive(order_key(a.revision), order_key(b.revision), order_key(c.revision));
}

/// A character that may stand in an upstream version and in a revision.
pub open spec fn is_part_char(c: char) -> bool {
    is_digit(c) || is_letter(c) || c == '.' || c == '+' || c == '~'
}

/// Whether `c` may stand in an upstream version, or else in a revision.
pub open spec fn is_allowed(c: char, in_upstream: bool) -> bool {
    is_part_char(c) || (in_upstream && (c == '-' || c == ':'))
}

/// The index of the last `c` in `s`, or -1 if there is none.
pub open spec fn last_index(s: Seq<char>, c: char) -> int
    decreases s.len(),
{
    if s.len() == 0 {
        -1
    } else if s.last() == c {
        s.len() - 1
    } else {
        last_index(s.drop_last(), c)
    }
}

/// Whether every character of `s` may stand in an upstream version, or else
/// in a revision.
pub open spec fn all_allowed(s: Seq<char>, in_upstream: bool) -> bool {
    forall|i: int| 0 <= i < s.len() ==> is_allowed(#[trigger] s[i], in_upstream)
}

/// Whether the text has an epoch, which ends at its first colon.
pub open spec fn has_epoch(s: Seq<char>) -> bool {
    first_index(s, ':') < s.len()
}

/// Where the upstream version starts: after the first colon, if there is one.
pub open spec fn upstream_start(s: Seq<char>) -> int {
    if has_epoch(s) {
        first_index(s, ':') + 1
    } else {
        0
    }
}

/// Whether the text has a revision, which starts after the last hyphen that
/// follows the epoch.
pub open spec fn has_revision(s: Seq<char>) -> bool {
    last_index(s.skip(upstream_start(s)), '-') >= 0
}

/// Where the upstream version ends: at the last hyphen, if there is one.
pub open spec fn upstream_end(s: Seq<char>) -> int {
    if has_revision(s) {
        upstream_start(s) + last_index(s.skip(upstream_start(s)), '-')
    } else {
        s.len() as int
    }
}

/// The three parts of a version number of the form
/// `[epoch:]upstream[-revision]`, whether or not they are well formed.
pub open spec fn split_version(s: Seq<char>) -> VersionText {
    VersionText {
        epoch: if has_epoch(s) {
            s.subrange(0, first_index(s, ':'))
        } else {
            Seq::empty()
        },
        upstream: s.subrange(upstream_start(s), upstream_end(s)),
        revision: if has_revision(s) {
            s.subrange(upstream_end(s) + 1, s.len() as int)
        } else {
            Seq::empty()
        },
    }
}

/// Reads a version number of the form `[epoch:]upstream[-revision]`.
///
/// The epoch ends at the first colon and must be a non-empty digit string.
/// The revision starts after the last hyphen that follows the epoch and must
/// not be empty.  The upstream version lies between them and must not be
/// empty.  Letters, digits, `.`, `+` and `~` may stand in the upstream version
/// and in the revision; the upstream version may also hold `-` and `:`.
pub open spec fn parse_version(s: Seq<char>) -> Option<VersionText> {
    let v = split_version(s);
    if (has_epoch(s) ==> v.epoch.len() > 0 && all_digits(v.epoch)) && v.upstream.len() > 0
        && all_allowed(v.upstream, true) && (has_revision(s) ==> v.revision.len() > 0)
        && all_allowed(v.revision, false) {
        Some(v)
    } else {
        None
    }
}

/// A version number written out: the epoch and a colon if there is an epoch,
/// the upstream version, and a hyphen and the revision if there is a revision.
pub open spec fn render(v: VersionText) -> Seq<char> {
    (if v.epoch.len() > 0 {
        v.epoch.push(':')
    } else {
        Seq::empty()
    }) + v.upstream + (if v.revision.len() > 0 {
        seq!['-'] + v.revision
    } else {
        Seq::empty()
    })
}

/// Reads one of `<<`, `<=`, `=`, `>=`, `>>`.
pub open spec fn parse_relation(s: Seq<char>) -> Option<VersionRelation> {
    if s == seq!['<', '<'] {
        Some(VersionRelation::StrictlyLess)
    } else if s == seq!['<', '='] {
        Some(VersionRelation::LessOrEqual)
    } else if s == seq!['='] {
        Some(VersionRelation::Equal)
    } else if s == seq!['>', '='] {
        Some(VersionRelation::GreaterOrEqual)
    } else if s == seq!['>', '>'] {
        Some(VersionRelation::StrictlyGreater)
    } else {
        None
    }
}

/// How a relation is written.
pub open spec fn relation_symbol(relation: VersionRelation) -> Seq<char> {
    match relation {
        VersionRelation::StrictlyLess => seq!['<', '<'],
        VersionRelation::LessOrEqual => seq!['<', '='],
        VersionRelation::Equal => seq!['='],
        VersionRelation::GreaterOrEqual => seq!['>', '='],
        VersionRelation::StrictlyGreater => seq!['>', '>'],
    }
}

pub proof fn lemma_last_index(s: Seq<char>, c: char)
    ensures
        -1 <= last_index(s, c) < s.len(),
        last_index(s, c) >= 0 ==> s[last_index(s, c)] == c,
        forall|i: int| last_index(s, c) < i < s.len() ==> s[i] != c,
    decreases s.len(),
{
    if s.len() > 0 && s.last() != c {
        let t = s.drop_last();
        lemma_last_index(t, c);
        assert forall|i: int| last_index(s, c) < i < s.len() implies s[i] != c by {
            if i < s.len() - 1 {
                assert(s[i] == t[i]);
            }
        }
    }
}

/// Writing out a version that was read gives back the text it was read from.
pub proof fn render_inverts_parse(s: Seq<char>)
    requires
        parse_version(s) is Some,
    ensures
        render(parse_version(s)->0) == s,
{
    lemma_first_index(s, ':');
    lemma_last_index(s.skip(upstream_start(s)), '-');
    assert(render(parse_version(s)->0) =~= s);
}

fn all_digits_in(s: &Vec<char>, lo: usize, hi: usize) -> (ok: bool)
    requires
        lo <= hi <= s.len(),
    ensures
        ok == all_digits(s@.subrange(lo as int, hi as int)),
{
    let mut i: usize = lo;
    while i < hi
        invariant
            lo <= i <= hi <= s.len(),
            all_digits(s@.subrange(lo as int, i as int)),
        decreases hi - i,
    {
        if !is_digit_char(s[i]) {
            assert(s@.subrange(lo as int, hi as int)[i - lo] == s@[i as int]);
            return false;
        }
        proof {
            let t = s@.subrange(lo as int, i as int + 1);
            assert forall|k: int| 0 <= k < t.len() implies is_digit(#[trigger] t[k]) by {
                if k < i - lo {
                    assert(t[k] == s@.subrange(lo as int, i as int)[k]);
                }
            }
        }
        i = i + 1;
    }
    true
}

fn is_part_character(c: char) -> (b: bool)
    ensures
        b == is_part_char(c),
{
    is_digit_char(c) || is_letter_char(c) || c == '.' || c == '+' || c == '~'
}

fn all_part_chars_in(s: &Vec<char>, lo: usize, hi: usize, in_upstream: bool) -> (ok: bool)
    requires
        lo <= hi <= s.len(),
    ensures
        ok == all_allowed(s@.subrange(lo as int, hi as int), in_upstream),
{
    let mut i: usize = lo;
    while i < hi
        invariant
            lo <= i <= hi <= s.len(),
            forall|k: int| lo <= k < i ==> is_allowed(#[trigger] s@[k], in_upstream),
        decreases hi - i,
    {
        let c = s[i];
        let ok = is_part_character(c) || (in_upstream && (c == '-' || c == ':'));
        if !ok {
            assert(s@.subrange(lo as int, hi as int)[i - lo] == s@[i as int]);
            return false;
        }
        i = i + 1;
    }
    proof {
        assert forall|k: int| 0 <= k < hi - lo implies is_allowed(
            #[trigger] s@.subrange(lo as int, hi as int)[k],
            in_upstream,
        ) by {
            assert(s@.subrange(lo as int, hi as int)[k] == s@[lo + k]);
        }
    }
    true
}

impl VersionRelation {
    /// Reads a relation from the way it is written; anything but the five
    /// relations gives `None`.
    pub fn parse(text: &str) -> (out: Option<VersionRelation>)
        ensures
            out == parse_relation(text@),
    {
        let s = chars_of(text);
        if s.len() == 1 && s[0] == '=' {
            assert(s@ =~= seq!['=']);
            return Some(VersionRelation::Equal);
        }
        if s.len() == 2 {
            let first = s[0];
            let second = s[1];
            let found = if first == '<' && second == '<' {
                Some(VersionRelation::StrictlyLess)
            } else if first == '<' && second == '=' {
                Some(VersionRelation::LessOrEqual)
            } else if first == '>' && second == '=' {
                Some(VersionRelation::GreaterOrEqual)
            } else if first == '>' && second == '>' {
                Some(VersionRelation::StrictlyGreater)
            } else {
                None
            };
            proof {
                assert(s@ =~= seq![first, second]);
                if found is None {
                    assert(seq!['<', '<'][0] == '<' && seq!['<', '<'][1] == '<');
                    assert(seq!['<', '='][0] == '<' && seq!['<', '='][1] == '=');
                    assert(seq!['>', '='][0] == '>' && seq!['>', '='][1] == '=');
                    assert(seq!['>', '>'][0] == '>' && seq!['>', '>'][1] == '>');
                }
            }
            return found;
        }
        proof {
            assert(seq!['<', '<'].len() == 2 && seq!['<', '='].len() == 2);
            assert(seq!['>', '>'].len() == 2 && seq!['>', '='].len() == 2);
            assert(seq!['='].len() == 1 && seq!['='][0] == '=');
        }
        None
    }

    /// The relation as it is written.
    pub fn symbol(&self) -> (out: String)
        ensures
            out@ == relation_symbol(*self),
    {
        let mut chars: Vec<char> = Vec::new();
        match self {
            VersionRelation::StrictlyLess => {
                chars.push('<');
                chars.push('<');
            },
            VersionRelation::LessOrEqual => {
                chars.push('<');
                chars.push('=');
            },
            VersionRelation::Equal => {
                chars.push('=');
            },
            VersionRelation::GreaterOrEqual => {
                chars.push('>');
                chars.push('=');
            },
            VersionRelation::StrictlyGreater => {
                chars.push('>');
                chars.push('>');
            },
        }
        assert(chars@ =~= relation_symbol(*self));
        string_of(&chars)
    }
}

impl Clone for DebianVersionNum {
    fn clone(&self) -> (out: Self)
        ensures
            out@ == self@,
    {
        let epoch = copy_range(&self.epoch, 0, self.epoch.len());
        let upstream = copy_range(&self.upstream, 0, self.upstream.len());
        let revision = copy_range(&self.revision, 0, self.revision.len());
        assert(epoch@ =~= self.epoch@ && upstream@ =~= self.upstream@ && revision@
            =~= self.revision@);
        DebianVersionNum { epoch, upstream, revision }
    }
}

impl DebianVersionNum {
    /// Reads a version number; `None` when `text` is not one.
    pub fn parse(text: &str) -> (out: Option<DebianVersionNum>)
        ensures
            out.deep_view() == parse_version(text@),
    {
        let s = chars_of(text);
        DebianVersionNum::parse_chars(&s)
    }

    /// Reads a version number from its characters; `None` when they are not
    /// one.
    pub fn parse_chars(s: &Vec<char>) -> (out: Option<DebianVersionNum>)
        ensures
            out.deep_view() == parse_version(s@),
    {
        let n = s.len();
        let mut colon: usize = 0;
        assert(s@.skip(0) =~= s@);
        while colon < n && s[colon] != ':'
            invariant
                colon <= n == s.len(),
                first_index(s@, ':') == colon + first_index(s@.skip(colon as int), ':'),
            decreases n - colon,
        {
            assert(s@.skip(colon as int).skip(1) =~= s@.skip(colon as int + 1));
            colon = colon + 1;
        }
        let with_epoch = colon < n;
        let start: usize = if with_epoch {
            colon + 1
        } else {
            0
        };
        assert(start == upstream_start(s@));
        let ghost rest = s@.skip(start as int);
        let mut hyphen: usize = n;
        let mut k: usize = start;
        assert(rest.take(0) =~= Seq::<char>::empty());
        while k < n
            invariant
                start <= k <= n == s.len(),
                rest == s@.skip(start as int),
                hyphen == n || start <= hyphen < k,
                hyphen == n ==> last_index(rest.take(k - start), '-') == -1,
                hyphen != n ==> last_index(rest.take(k - start), '-') == hyphen - start,
            decreases n - k,
        {
            assert(rest.take(k - start + 1).drop_last() =~= rest.take(k - start));
            assert(rest.take(k - start + 1).last() == s@[k as int]);
            if s[k] == '-' {
                hyphen = k;
            }
            k = k + 1;
        }
        assert(rest.take(n - start) =~= rest);
        let with_revision = hyphen < n;
        let end: usize = if with_revision {
            hyphen
        } else {
            n
        };
        assert(with_revision == has_revision(s@));
        assert(end == upstream_end(s@));
        if with_epoch && (colon == 0 || !all_digits_in(s, 0, colon)) {
            return None;
        }
        if end == start || !all_part_chars_in(s, start, end, true) {
            return None;
        }
        let epoch = if with_epoch {
            copy_range(s, 0, colon)
        } else {
            Vec::new()
        };
        let upstream = copy_range(s, start, end);
        if !with_revision {
            let out = DebianVersionNum { epoch, upstream, revision: Vec::new() };
            assert(out@ == split_version(s@));
            return Some(out);
        }
        if end + 1 == n || !all_part_chars_in(s, end + 1, n, false) {
            return None;
        }
        let out = DebianVersionNum { epoch, upstream, revision: copy_range(s, end + 1, n) };
        assert(out@ == split_version(s@));
        Some(out)
    }

    /// The version number written out.
    pub fn to_string(&self) -> (out: String)
        ensures
            out@ == render(self@),
    {
        let mut chars: Vec<char> = Vec::new();
        if self.epoch.len() > 0 {
            append(&mut chars, &self.epoch);
            chars.push(':');
        }
        append(&mut chars, &self.upstream);
        if self.revision.len() > 0 {
            chars.push('-');
            append(&mut chars, &self.revision);
        }
        assert(chars@ =~= render(self@));
        string_of(&chars)
    }
}

} // verus!
