//! Sequence utilities shared by the codec and the move generator: collecting
//! the characters of a string slice, splitting on a separator, rendering and
//! reading unsigned decimal numbers, and membership lemmas for grown
//! sequences.

use vstd::prelude::*;
use vstd::string::StrSliceExecFns;

verus! {

/// Relies on std's `Iterator::collect` for `String` to build a string whose
/// characters are exactly those of the given vector.
#[verifier::external_body]
pub(crate) fn string_from_chars(v: &Vec<char>) -> (r: String)
    ensures
        r@ == v@,
{
    v.iter().collect()
}

/// Collects the characters of a string slice into a vector.
pub fn chars_of(s: &str) -> (r: Vec<char>)
    ensures
        r@ == s@,
{
    let n = s.unicode_len();
    let mut v: Vec<char> = Vec::new();
    let mut i: usize = 0;
    while i < n
        invariant
            i <= n,
            n == s@.len(),
            v@ == s@.subrange(0, i as int),
        decreases n - i,
    {
        v.push(s.get_char(i));
        i = i + 1;
        proof {
            assert(v@ =~= s@.subrange(0, i as int));
        }
    }
    proof {
        assert(v@ =~= s@);
    }
    v
}

/// The parts of `s` between occurrences of `sep`: always at least one part,
/// with empty parts kept.
pub open spec fn spec_split(s: Seq<char>, sep: char) -> Seq<Seq<char>>
    decreases s.len(),
{
    if s.len() == 0 {
        seq![Seq::<char>::empty()]
    } else if s[0] == sep {
        seq![Seq::<char>::empty()] + spec_split(s.drop_first(), sep)
    } else {
        let rest = spec_split(s.drop_first(), sep);
        seq![seq![s[0]] + rest[0]] + rest.drop_first()
    }
}

pub proof fn lemma_split_len(s: Seq<char>, sep: char)
    ensures
        spec_split(s, sep).len() >= 1,
    decreases s.len(),
{
    if s.len() != 0 {
        lemma_split_len(s.drop_first(), sep);
    }
}

/// Appending a non-separator character extends the last part.
pub proof fn lemma_split_push_char(s: Seq<char>, c: char, sep: char)
    requires
        c != sep,
    ensures
        spec_split(s.push(c), sep) =~~= spec_split(s, sep).update(
            spec_split(s, sep).len() - 1,
            spec_split(s, sep).last().push(c),
        ),
    decreases s.len(),
{
    lemma_split_len(s, sep);
    if s.len() == 0 {
        assert(s.push(c).drop_first() =~= Seq::<char>::empty());
        assert(spec_split(Seq::<char>::empty(), sep) == seq![Seq::<char>::empty()]);
        assert(s.push(c)[0] == c);
        assert(spec_split(s.push(c), sep) =~~= seq![seq![c]]);
        assert(spec_split(s, sep).update(0, spec_split(s, sep).last().push(c)) =~~= seq![seq![c]]);
    } else {
        lemma_split_len(s.drop_first(), sep);
        assert(s.push(c).drop_first() =~= s.drop_first().push(c));
        lemma_split_push_char(s.drop_first(), c, sep);
        if s[0] == sep {
            assert(spec_split(s.push(c), sep) =~~= seq![Seq::<char>::empty()] + spec_split(
                s.drop_first().push(c),
                sep,
            ));
        } else {
            let rest = spec_split(s.drop_first(), sep);
            let restc = spec_split(s.drop_first().push(c), sep);
            if rest.len() == 1 {
                assert(restc =~~= rest.update(0, rest.last().push(c)));
                assert(spec_split(s.push(c), sep) =~~= seq![seq![s[0]] + restc[0]]
                    + restc.drop_first());
            } else {
                assert(restc[0] == rest[0]);
                assert(spec_split(s.push(c), sep) =~~= seq![seq![s[0]] + restc[0]]
                    + restc.drop_first());
            }
        }
    }
}

/// Appending the separator starts a fresh empty last part.
pub proof fn lemma_split_push_sep(s: Seq<char>, sep: char)
    ensures
        spec_split(s.push(sep), sep) =~~= spec_split(s, sep) + seq![Seq::<char>::empty()],
    decreases s.len(),
{
    lemma_split_len(s, sep);
    if s.len() == 0 {
        assert(s.push(sep).drop_first() =~= Seq::<char>::empty());
        assert(spec_split(Seq::<char>::empty(), sep) == seq![Seq::<char>::empty()]);
        assert(s.push(sep)[0] == sep);
    } else {
        assert(s.push(sep).drop_first() =~= s.drop_first().push(sep));
        lemma_split_push_sep(s.drop_first(), sep);
        lemma_split_len(s.drop_first(), sep);
        let rest = spec_split(s.drop_first(), sep);
        let restp = spec_split(s.drop_first().push(sep), sep);
        assert(restp =~~= rest + seq![Seq::<char>::empty()]);
        if s[0] == sep {
            assert(spec_split(s.push(sep), sep) =~~= seq![Seq::<char>::empty()] + restp);
            assert(spec_split(s, sep) =~~= seq![Seq::<char>::empty()] + rest);
        } else {
            assert(restp[0] == rest[0]);
            assert(restp.drop_first() =~= rest.drop_first() + seq![Seq::<char>::empty()]);
            assert(spec_split(s.push(sep), sep) =~~= seq![seq![s[0]] + restp[0]]
                + restp.drop_first());
            assert(spec_split(s, sep) =~~= seq![seq![s[0]] + rest[0]] + rest.drop_first());
        }
    }
}

/// Splitting `a + sep + b` where `a` is separator-free yields `a` followed by
/// the parts of `b`.
pub proof fn lemma_split_sep_concat(a: Seq<char>, b: Seq<char>, sep: char)
    requires
        !a.contains(sep),
    ensures
        spec_split(a + seq![sep] + b, sep) =~~= seq![a] + spec_split(b, sep),
    decreases a.len(),
{
    if a.len() == 0 {
        assert((a + seq![sep] + b).len() == 1 + b.len());
        assert((a + seq![sep] + b)[0] == sep);
        assert((a + seq![sep] + b).drop_first() =~= b);
    } else {
        let s = a + seq![sep] + b;
        assert(s[0] == a[0]);
        assert(a[0] != sep) by {
            if a[0] == sep {
                assert(a.contains(sep));
            }
        }
        assert(!a.drop_first().contains(sep)) by {
            if a.drop_first().contains(sep) {
                let i = choose|i: int| 0 <= i < a.drop_first().len() && a.drop_first()[i] == sep;
                assert(a[i + 1] == sep);
            }
        }
        assert(s.drop_first() =~= a.drop_first() + seq![sep] + b);
        lemma_split_sep_concat(a.drop_first(), b, sep);
        lemma_split_len(b, sep);
        assert(seq![a[0]] + (seq![a.drop_first()] + spec_split(b, sep))[0] =~= a);
    }
}

/// Splits a character vector on a separator, keeping empty parts.
pub fn split_chars(v: &Vec<char>, sep: char) -> (r: Vec<Vec<char>>)
    ensures
        r@.len() == spec_split(v@, sep).len(),
        forall|k: int| 0 <= k < r@.len() ==> (#[trigger] r@[k])@ == spec_split(v@, sep)[k],
{
    let mut parts: Vec<Vec<char>> = Vec::new();
    let mut cur: Vec<char> = Vec::new();
    let mut i: usize = 0;
    proof {
        assert(v@.subrange(0, 0) =~= Seq::<char>::empty());
        assert(spec_split(Seq::<char>::empty(), sep) =~= seq![Seq::<char>::empty()]);
    }
    while i < v.len()
        invariant
            i <= v@.len(),
            spec_split(v@.subrange(0, i as int), sep).len() == parts@.len() + 1,
            forall|k: int|
                0 <= k < parts@.len() ==> (#[trigger] parts@[k])@ == spec_split(
                    v@.subrange(0, i as int),
                    sep,
                )[k],
            cur@ == spec_split(v@.subrange(0, i as int), sep).last(),
        decreases v@.len() - i,
    {
        let ghost pre = v@.subrange(0, i as int);
        let c = v[i];
        proof {
            assert(v@.subrange(0, i + 1) =~= pre.push(v@[i as int]));
            lemma_split_len(pre, sep);
        }
        if c == sep {
            proof {
                lemma_split_push_sep(pre, sep);
            }
            parts.push(cur);
            cur = Vec::new();
        } else {
            proof {
                lemma_split_push_char(pre, c, sep);
            }
            cur.push(c);
        }
        i = i + 1;
    }
    proof {
        assert(v@.subrange(0, v@.len() as int) =~= v@);
    }
    parts.push(cur);
    parts
}

/// Membership after appending one element.
pub proof fn lemma_push_contains<A>(s: Seq<A>, c: A)
    ensures
        forall|x: A| #[trigger] s.push(c).contains(x) == (s.contains(x) || x == c),
{
    assert forall|x: A| #[trigger] s.push(c).contains(x) == (s.contains(x) || x == c) by {
        if s.contains(x) {
            let i = choose|i: int| 0 <= i < s.len() && s[i] == x;
            assert(s.push(c)[i] == x);
        }
        if x == c {
            assert(s.push(c)[s.len() as int] == x);
        }
        if s.push(c).contains(x) {
            let i = choose|i: int| 0 <= i < s.push(c).len() && s.push(c)[i] == x;
            if i < s.len() {
                assert(s[i] == x);
            }
        }
    }
}

/// Membership in a concatenation.
pub proof fn lemma_concat_contains<A>(a: Seq<A>, b: Seq<A>)
    ensures
        forall|x: A| #[trigger] (a + b).contains(x) == (a.contains(x) || b.contains(x)),
{
    assert forall|x: A| #[trigger] (a + b).contains(x) == (a.contains(x) || b.contains(x)) by {
        if a.contains(x) {
            let i = choose|i: int| 0 <= i < a.len() && a[i] == x;
            assert((a + b)[i] == x);
        }
        if b.contains(x) {
            let i = choose|i: int| 0 <= i < b.len() && b[i] == x;
            assert((a + b)[a.len() + i] == x);
        }
        if (a + b).contains(x) {
            let i = choose|i: int| 0 <= i < (a + b).len() && (a + b)[i] == x;
            if i < a.len() {
                assert(a[i] == x);
            } else {
                assert(b[i - a.len()] == x);
            }
        }
    }
}

/// The decimal digit character for a value 0 to 9.
pub open spec fn digit_char(d: int) -> char {
    if d == 1 {
        '1'
    } else if d == 2 {
        '2'
    } else if d == 3 {
        '3'
    } else if d == 4 {
        '4'
    } else if d == 5 {
        '5'
    } else if d == 6 {
        '6'
    } else if d == 7 {
        '7'
    } else if d == 8 {
        '8'
    } else if d == 9 {
        '9'
    } else {
        '0'
    }
}

/// Whether `c` is a decimal digit character (code points 48 to 57).
pub open spec fn is_digit_char(c: char) -> bool {
    48 <= (c as u32) && (c as u32) <= 57
}

/// The numeric value of a decimal digit character.
pub open spec fn digit_val(c: char) -> int {
    (c as u32) - 48
}

/// The canonical decimal rendering of a non-negative number: no sign, no
/// leading zero except for the number zero itself.
pub open spec fn spec_dec(n: int) -> Seq<char>
    decreases n,
{
    if n <= 9 {
        seq![digit_char(n)]
    } else {
        spec_dec(n / 10).push(digit_char(n % 10))
    }
}

/// The value of a digit sequence read in base ten.
pub open spec fn spec_dec_val(s: Seq<char>) -> int
    decreases s.len(),
{
    if s.len() == 0 {
        0
    } else {
        10 * spec_dec_val(s.drop_last()) + digit_val(s.last())
    }
}

pub open spec fn all_digits(s: Seq<char>) -> bool {
    forall|i: int| 0 <= i < s.len() ==> is_digit_char(#[trigger] s[i])
}

/// The number a field denotes, if every character is a digit, the field is
/// non-empty, and the value does not exceed `max`.
pub open spec fn spec_parse_dec(s: Seq<char>, max: int) -> Option<int> {
    if s.len() >= 1 && all_digits(s) && spec_dec_val(s) <= max {
        Some(spec_dec_val(s))
    } else {
        None
    }
}

pub proof fn lemma_dec_val_nonneg(s: Seq<char>)
    requires
        all_digits(s),
    ensures
        spec_dec_val(s) >= 0,
    decreases s.len(),
{
    if s.len() > 0 {
        assert(all_digits(s.drop_last()));
        lemma_dec_val_nonneg(s.drop_last());
    }
}

/// A digit sequence is worth at least any of its prefixes.
pub proof fn lemma_dec_val_prefix(s: Seq<char>, j: int)
    requires
        all_digits(s),
        0 <= j <= s.len(),
    ensures
        spec_dec_val(s) >= spec_dec_val(s.subrange(0, j)),
    decreases s.len() - j,
{
    lemma_dec_val_nonneg(s);
    if j < s.len() {
        lemma_dec_val_prefix(s, j + 1);
        assert(s.subrange(0, j + 1).drop_last() =~= s.subrange(0, j));
        assert(all_digits(s.subrange(0, j)));
        lemma_dec_val_nonneg(s.subrange(0, j));
        assert(spec_dec_val(s.subrange(0, j + 1)) == 10 * spec_dec_val(s.subrange(0, j))
            + digit_val(s.subrange(0, j + 1).last()));
    } else {
        assert(s.subrange(0, j) =~= s);
    }
}

/// The canonical rendering consists of digits and reads back to the number.
pub proof fn lemma_dec_roundtrip(n: int)
    requires
        n >= 0,
    ensures
        spec_dec(n).len() >= 1,
        all_digits(spec_dec(n)),
        spec_dec_val(spec_dec(n)) == n,
    decreases n,
{
    if n <= 9 {
        assert(spec_dec_val(seq![digit_char(n)]) == digit_val(digit_char(n))) by {
            assert(seq![digit_char(n)].drop_last() =~= Seq::<char>::empty());
            assert(spec_dec_val(Seq::<char>::empty()) == 0);
        }
    } else {
        lemma_dec_roundtrip(n / 10);
        assert(spec_dec(n / 10).push(digit_char(n % 10)).drop_last() =~= spec_dec(n / 10));
        assert(spec_dec_val(spec_dec(n)) == 10 * (n / 10) + (n % 10));
    }
}

pub(crate) fn exec_digit(d: u16) -> (c: char)
    requires
        d <= 9,
    ensures
        c == digit_char(d as int),
{
    match d {
        0 => '0',
        1 => '1',
        2 => '2',
        3 => '3',
        4 => '4',
        5 => '5',
        6 => '6',
        7 => '7',
        8 => '8',
        _ => '9',
    }
}

/// Appends the canonical decimal rendering of `n`.
pub fn push_decimal(out: &mut Vec<char>, n: u16)
    ensures
        final(out)@ == old(out)@ + spec_dec(n as int),
    decreases n,
{
    if n <= 9 {
        out.push(exec_digit(n));
        proof {
            assert(out@ =~= old(out)@ + spec_dec(n as int));
        }
    } else {
        push_decimal(out, n / 10);
        out.push(exec_digit(n % 10));
        proof {
            assert(out@ =~= old(out)@ + spec_dec(n as int));
        }
    }
}

/// Reads a decimal field, yielding its value when it is a well-formed number
/// not exceeding `max` and `None` otherwise.
pub fn parse_decimal(v: &Vec<char>, max: u16) -> (r: Option<u16>)
    ensures
        r == match spec_parse_dec(v@, max as int) {
            Some(x) => Some(x as u16),
            None => None::<u16>,
        },
{
    if v.len() == 0 {
        return None;
    }
    let mut acc: u32 = 0;
    let mut i: usize = 0;
    while i < v.len()
        invariant
            i <= v@.len(),
            v@.len() >= 1,
            all_digits(v@.subrange(0, i as int)),
            acc == spec_dec_val(v@.subrange(0, i as int)),
            acc <= max,
        decreases v@.len() - i,
    {
        let c = v[i];
        let cu = c as u32;
        if cu < 48 || cu > 57 {
            assert(!all_digits(v@));
            return None;
        }
        let d: u32 = cu - 48;
        proof {
            assert(v@.subrange(0, i + 1).drop_last() =~= v@.subrange(0, i as int));
        }
        acc = acc * 10 + d;
        i = i + 1;
        if acc > max as u32 {
            proof {
                if all_digits(v@) {
                    lemma_dec_val_prefix(v@, i as int);
                }
            }
            return None;
        }
    }
    proof {
        assert(v@.subrange(0, v@.len() as int) =~= v@);
    }
    Some(acc as u16)
}

} // verus!
