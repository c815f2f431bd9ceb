//! Character classes, numerals, and splitting of character sequences.
//!
//! Everything the address parsers say about text is phrased over `Seq<char>`
//! with the spec functions of this module.
use vstd::prelude::*;

verus! {

// ---------------------------------------------------------------------------
// Character classes
// ---------------------------------------------------------------------------

pub open spec fn is_digit(c: char) -> bool {
    '0' <= c && c <= '9'
}

pub open spec fn is_hex_digit(c: char) -> bool {
    is_digit(c) || ('a' <= c && c <= 'f') || ('A' <= c && c <= 'F')
}

pub open spec fn digit_value(c: char) -> int {
    c as int - '0' as int
}

pub open spec fn hex_digit_value(c: char) -> int {
    if is_digit(c) {
        digit_value(c)
    } else if 'a' <= c && c <= 'f' {
        c as int - 'a' as int + 10
    } else {
        c as int - 'A' as int + 10
    }
}

/// The character of a decimal digit `d` (`0 <= d < 10`).
pub open spec fn digit_char(d: int) -> char {
    ('0' as int + d) as char
}

/// The lower-case character of a hexadecimal digit `d` (`0 <= d < 16`).
pub open spec fn hex_char(d: int) -> char {
    if d < 10 {
        digit_char(d)
    } else {
        ('a' as int + (d - 10)) as char
    }
}

pub open spec fn all_digits(s: Seq<char>) -> bool {
    forall|i: int| 0 <= i < s.len() ==> is_digit(#[trigger] s[i])
}

pub open spec fn all_hex_digits(s: Seq<char>) -> bool {
    forall|i: int| 0 <= i < s.len() ==> is_hex_digit(#[trigger] s[i])
}

pub open spec fn contains_char(s: Seq<char>, c: char) -> bool {
    exists|i: int| 0 <= i < s.len() && s[i] == c
}

// ---------------------------------------------------------------------------
// Numerals
// ---------------------------------------------------------------------------

/// The value of a run of decimal digits, most significant first.
pub open spec fn dec_value(s: Seq<char>) -> int
    decreases s.len(),
{
    if s.len() == 0 {
        0
    } else {
        dec_value(s.drop_last()) * 10 + digit_value(s.last())
    }
}

/// The value of a run of hexadecimal digits, most significant first.
pub open spec fn hex_value(s: Seq<char>) -> int
    decreases s.len(),
{
    if s.len() == 0 {
        0
    } else {
        hex_value(s.drop_last()) * 16 + hex_digit_value(s.last())
    }
}

/// The shortest decimal numeral of `n`.
pub open spec fn dec_text(n: nat) -> Seq<char>
    decreases n,
{
    if n < 10 {
        seq![digit_char(n as int)]
    } else {
        dec_text(n / 10).push(digit_char((n % 10) as int))
    }
}

/// The shortest lower-case hexadecimal numeral of `n`.
pub open spec fn hex_text(n: nat) -> Seq<char>
    decreases n,
{
    if n < 16 {
        seq![hex_char(n as int)]
    } else {
        hex_text(n / 16).push(hex_char((n % 16) as int))
    }
}

/// A decimal numeral without a superfluous leading zero.
pub open spec fn canonical_dec(s: Seq<char>) -> bool {
    &&& s.len() >= 1
    &&& all_digits(s)
    &&& (s.len() == 1 || s[0] != '0')
}

// ---------------------------------------------------------------------------
// Splitting and joining
// ---------------------------------------------------------------------------

/// The pieces of `s` between the occurrences of `c`, as `str::split` gives
/// them: one more piece than there are occurrences, empty pieces included.
pub open spec fn split_on(s: Seq<char>, c: char) -> Seq<Seq<char>>
    decreases s.len(),
{
    if s.len() == 0 {
        seq![Seq::<char>::empty()]
    } else {
        let init = split_on(s.drop_last(), c);
        if s.last() == c {
            init.push(Seq::<char>::empty())
        } else {
            init.update(init.len() - 1, init.last().push(s.last()))
        }
    }
}

/// The pieces joined with `c` between neighbours.
pub open spec fn join_with(ps: Seq<Seq<char>>, c: char) -> Seq<char>
    decreases ps.len(),
{
    if ps.len() == 0 {
        Seq::<char>::empty()
    } else if ps.len() == 1 {
        ps[0]
    } else {
        join_with(ps.drop_last(), c).push(c) + ps.last()
    }
}

/// Index of the first occurrence of `c` in `s`, or -1.
pub open spec fn first_index_of(s: Seq<char>, c: char) -> int
    decreases s.len(),
{
    if s.len() == 0 {
        -1
    } else if s[0] == c {
        0
    } else {
        let r = first_index_of(s.drop_first(), c);
        if r < 0 {
            -1
        } else {
            r + 1
        }
    }
}

/// Index of the last occurrence of `c` in `s`, or -1.
pub open spec fn last_index_of(s: Seq<char>, c: char) -> int
    decreases s.len(),
{
    if s.len() == 0 {
        -1
    } else if s.last() == c {
        s.len() - 1
    } else {
        last_index_of(s.drop_last(), c)
    }
}

/// Index of the first occurrence of two consecutive `c`, or -1.
pub open spec fn first_pair_index(s: Seq<char>, c: char) -> int
    decreases s.len(),
{
    if s.len() < 2 {
        -1
    } else if s[0] == c && s[1] == c {
        0
    } else {
        let r = first_pair_index(s.drop_first(), c);
        if r < 0 {
            -1
        } else {
            r + 1
        }
    }
}

// ---------------------------------------------------------------------------
// Lemmas on numerals
// ---------------------------------------------------------------------------

pub proof fn lemma_digit_char(d: int)
    requires
        0 <= d < 10,
    ensures
        is_digit(digit_char(d)),
        digit_value(digit_char(d)) == d,
        is_hex_digit(digit_char(d)),
        hex_digit_value(digit_char(d)) == d,
{
}

pub proof fn lemma_hex_char(d: int)
    requires
        0 <= d < 16,
    ensures
        is_hex_digit(hex_char(d)),
        hex_digit_value(hex_char(d)) == d,
        hex_char(d) != ':',
        hex_char(d) != '.',
{
}

pub proof fn lemma_digit_char_of_value(c: char)
    requires
        is_digit(c),
    ensures
        digit_char(digit_value(c)) == c,
        0 <= digit_value(c) < 10,
{
}

pub proof fn lemma_dec_value_single(c: char)
    ensures
        dec_value(seq![c]) == digit_value(c),
        hex_value(seq![c]) == hex_digit_value(c),
{
    assert(seq![c].drop_last() =~= Seq::<char>::empty());
    assert(dec_value(Seq::<char>::empty()) == 0);
    assert(hex_value(Seq::<char>::empty()) == 0);
}

pub proof fn lemma_dec_value_bounds(s: Seq<char>)
    requires
        all_digits(s),
    ensures
        0 <= dec_value(s),
    decreases s.len(),
{
    if s.len() > 0 {
        lemma_dec_value_bounds(s.drop_last());
    }
}

/// A numeral with a nonzero leading digit is at least `10^(len-1)`; here we
/// only need: one of length at least 2 is at least 10, of length at least 3
/// is at least 100, and so on through the bound `len >= 4 ==> >= 1000`.
pub proof fn lemma_dec_value_leading(s: Seq<char>)
    requires
        all_digits(s),
        s.len() >= 1,
        s[0] != '0',
    ensures
        dec_value(s) >= 1,
        s.len() >= 2 ==> dec_value(s) >= 10,
        s.len() >= 3 ==> dec_value(s) >= 100,
        s.len() >= 4 ==> dec_value(s) >= 1000,
    decreases s.len(),
{
    if s.len() == 1 {
        assert(s =~= seq![s[0]]);
        lemma_dec_value_single(s[0]);
    } else {
        assert(s.drop_last()[0] == s[0]);
        lemma_dec_value_leading(s.drop_last());
        lemma_dec_value_bounds(s.drop_last());
    }
}

/// Reading the shortest numeral of `n` gives `n` back.
pub proof fn lemma_dec_text(n: nat)
    ensures
        canonical_dec(dec_text(n)),
        dec_value(dec_text(n)) == n,
        n < 10 ==> dec_text(n).len() == 1,
        10 <= n < 100 ==> dec_text(n).len() == 2,
        100 <= n < 1000 ==> dec_text(n).len() == 3,
        !contains_char(dec_text(n), '.'),
        !contains_char(dec_text(n), ':'),
    decreases n,
{
    if n < 10 {
        lemma_digit_char(n as int);
        lemma_dec_value_single(digit_char(n as int));
    } else {
        let t = dec_text(n / 10);
        lemma_dec_text(n / 10);
        if t.len() == 1 {
            assert(t =~= seq![t[0]]);
            lemma_dec_value_single(t[0]);
        }
        lemma_digit_char((n % 10) as int);
        let s = t.push(digit_char((n % 10) as int));
        assert(s.drop_last() =~= t);
        assert(s[0] == t[0]);
        assert(n == (n / 10) * 10 + n % 10);
        assert forall|i: int| 0 <= i < s.len() implies is_digit(#[trigger] s[i]) by {
            if i < t.len() {
                assert(s[i] == t[i]);
            }
        }
        assert forall|i: int| 0 <= i < s.len() implies #[trigger] s[i] != '.' && s[i] != ':' by {
            if i < t.len() {
                assert(s[i] == t[i]);
            }
        }
    }
}

/// A numeral without a superfluous leading zero is the shortest numeral of
/// its value.
pub proof fn lemma_canonical_dec(s: Seq<char>)
    requires
        canonical_dec(s),
    ensures
        dec_text(dec_value(s) as nat) == s,
    decreases s.len(),
{
    lemma_dec_value_bounds(s);
    if s.len() == 1 {
        lemma_digit_char_of_value(s[0]);
        assert(s =~= seq![s[0]]);
        lemma_dec_value_single(s[0]);
        assert(dec_text(dec_value(s) as nat) =~= s);
    } else {
        let t = s.drop_last();
        assert(t[0] == s[0]);
        assert(canonical_dec(t));
        lemma_canonical_dec(t);
        lemma_dec_value_leading(t);
        let v = dec_value(t);
        let d = digit_value(s.last());
        lemma_digit_char_of_value(s.last());
        let n = dec_value(s);
        assert(n == v * 10 + d);
        assert(n / 10 == v && n % 10 == d) by (nonlinear_arith)
            requires
                n == v * 10 + d,
                0 <= d < 10,
                v >= 1,
        ;
        assert(dec_text(n as nat) =~= t.push(s.last()));
        assert(t.push(s.last()) =~= s);
    }
}

pub proof fn lemma_hex_text(n: nat)
    ensures
        hex_text(n).len() >= 1,
        n < 0x10 ==> hex_text(n).len() == 1,
        n < 0x100 ==> hex_text(n).len() <= 2,
        n < 0x1000 ==> hex_text(n).len() <= 3,
        n < 0x10000 ==> hex_text(n).len() <= 4,
        all_hex_digits(hex_text(n)),
        hex_value(hex_text(n)) == n,
        !contains_char(hex_text(n), ':'),
        !contains_char(hex_text(n), '.'),
    decreases n,
{
    if n < 16 {
        lemma_hex_char(n as int);
        lemma_dec_value_single(hex_char(n as int));
    } else {
        let t = hex_text(n / 16);
        lemma_hex_text(n / 16);
        lemma_hex_char((n % 16) as int);
        let s = t.push(hex_char((n % 16) as int));
        assert(s.drop_last() =~= t);
        assert(n == (n / 16) * 16 + n % 16);
        assert forall|i: int| 0 <= i < s.len() implies is_hex_digit(#[trigger] s[i]) && s[i]
            != ':' && s[i] != '.' by {
            if i < t.len() {
                assert(s[i] == t[i]);
            }
        }
        assert(n < 0x100 ==> n / 16 < 0x10);
        assert(n < 0x1000 ==> n / 16 < 0x100);
        assert(n < 0x10000 ==> n / 16 < 0x1000);
    }
}

pub proof fn lemma_hex_value_bounds(s: Seq<char>)
    requires
        all_hex_digits(s),
    ensures
        0 <= hex_value(s),
        s.len() <= 4 ==> hex_value(s) < 0x10000,
        s.len() <= 3 ==> hex_value(s) < 0x1000,
        s.len() <= 2 ==> hex_value(s) < 0x100,
        s.len() <= 1 ==> hex_value(s) < 0x10,
    decreases s.len(),
{
    if s.len() > 0 {
        lemma_hex_value_bounds(s.drop_last());
    }
}

// ---------------------------------------------------------------------------
// Lemmas on splitting
// ---------------------------------------------------------------------------

pub proof fn lemma_split_nonempty(s: Seq<char>, c: char)
    ensures
        split_on(s, c).len() >= 1,
    decreases s.len(),
{
    if s.len() > 0 {
        lemma_split_nonempty(s.drop_last(), c);
    }
}

/// Extending the last piece extends the joined text.
proof fn lemma_join_extend_last(ps: Seq<Seq<char>>, c: char, x: char)
    requires
        ps.len() >= 1,
    ensures
        join_with(ps.update(ps.len() - 1, ps.last().push(x)), c) == join_with(ps, c).push(x),
{
    let qs = ps.update(ps.len() - 1, ps.last().push(x));
    if ps.len() == 1 {
        assert(join_with(qs, c) == qs[0]);
    } else {
        assert(qs.drop_last() =~= ps.drop_last());
        assert(join_with(qs, c) =~= join_with(ps, c).push(x));
    }
}

/// Joining the pieces gives the text back.
pub proof fn lemma_join_split(s: Seq<char>, c: char)
    ensures
        join_with(split_on(s, c), c) == s,
    decreases s.len(),
{
    if s.len() == 0 {
        assert(join_with(split_on(s, c), c) =~= s);
    } else {
        let init = split_on(s.drop_last(), c);
        lemma_join_split(s.drop_last(), c);
        lemma_split_nonempty(s.drop_last(), c);
        if s.last() == c {
            let ps = init.push(Seq::<char>::empty());
            assert(ps.drop_last() =~= init);
            assert(join_with(ps, c) =~= s.drop_last().push(c));
            assert(s.drop_last().push(c) =~= s);
        } else {
            lemma_join_extend_last(init, c, s.last());
            assert(s.drop_last().push(s.last()) =~= s);
        }
    }
}

/// A piece free of the separator is a single piece.
pub proof fn lemma_split_single(p: Seq<char>, c: char)
    requires
        !contains_char(p, c),
    ensures
        split_on(p, c) == seq![p],
    decreases p.len(),
{
    if p.len() == 0 {
        assert(p =~= Seq::<char>::empty());
        assert(split_on(p, c) =~= seq![p]);
    } else {
        let q = p.drop_last();
        assert(!contains_char(q, c)) by {
            if contains_char(q, c) {
                let i = choose|i: int| 0 <= i < q.len() && q[i] == c;
                assert(p[i] == c);
            }
        }
        lemma_split_single(q, c);
        assert(p.last() != c) by {
            assert(p[p.len() - 1] == p.last());
        }
        assert(split_on(p, c) =~= seq![q.push(p.last())]);
        assert(q.push(p.last()) =~= p);
    }
}

/// Splitting `t ++ [c] ++ p`, where `p` is free of `c`, adds `p` as one piece.
proof fn lemma_split_append(t: Seq<char>, p: Seq<char>, c: char)
    requires
        !contains_char(p, c),
    ensures
        split_on(t.push(c) + p, c) == split_on(t, c).push(p),
    decreases p.len(),
{
    if p.len() == 0 {
        assert(p =~= Seq::<char>::empty());
        assert(t.push(c) + p =~= t.push(c));
        let s = t.push(c);
        assert(s.drop_last() =~= t);
    } else {
        let q = p.drop_last();
        assert(!contains_char(q, c)) by {
            if contains_char(q, c) {
                let i = choose|i: int| 0 <= i < q.len() && q[i] == c;
                assert(p[i] == c);
            }
        }
        lemma_split_append(t, q, c);
        let s = t.push(c) + p;
        assert(s.drop_last() =~= t.push(c) + q);
        assert(s.last() == p.last());
        assert(p.last() != c) by {
            assert(p[p.len() - 1] == p.last());
        }
        let init = split_on(t, c).push(q);
        assert(split_on(s, c) =~= init.update(init.len() - 1, q.push(p.last())));
        assert(q.push(p.last()) =~= p);
        assert(init.update(init.len() - 1, p) =~= split_on(t, c).push(p));
    }
}

/// Splitting a join of separator-free pieces gives the pieces back.
pub proof fn lemma_split_join(ps: Seq<Seq<char>>, c: char)
    requires
        ps.len() >= 1,
        forall|i: int| 0 <= i < ps.len() ==> !contains_char(#[trigger] ps[i], c),
    ensures
        split_on(join_with(ps, c), c) == ps,
    decreases ps.len(),
{
    if ps.len() == 1 {
        lemma_split_single(ps[0], c);
        assert(seq![ps[0]] =~= ps);
    } else {
        let init = ps.drop_last();
        assert forall|i: int| 0 <= i < init.len() implies !contains_char(#[trigger] init[i], c) by {
            assert(init[i] == ps[i]);
        }
        lemma_split_join(init, c);
        assert(!contains_char(ps.last(), c)) by {
            assert(ps[ps.len() - 1] == ps.last());
        }
        lemma_split_append(join_with(init, c), ps.last(), c);
        assert(init.push(ps.last()) =~= ps);
    }
}

// ---------------------------------------------------------------------------
// Lemmas on searching
// ---------------------------------------------------------------------------

pub proof fn lemma_first_index_of(s: Seq<char>, c: char)
    ensures
        -1 <= first_index_of(s, c) < s.len(),
        first_index_of(s, c) >= 0 ==> s[first_index_of(s, c)] == c,
        forall|j: int|
            0 <= j < s.len() && (first_index_of(s, c) < 0 || j < first_index_of(s, c)) ==> s[j]
                != c,
    decreases s.len(),
{
    if s.len() > 0 && s[0] != c {
        lemma_first_index_of(s.drop_first(), c);
        assert forall|j: int|
            0 <= j < s.len() && (first_index_of(s, c) < 0 || j < first_index_of(s, c)) implies s[j]
            != c by {
            if j > 0 {
                assert(s[j] == s.drop_first()[j - 1]);
            }
        }
    }
}

pub proof fn lemma_last_index_of(s: Seq<char>, c: char)
    ensures
        -1 <= last_index_of(s, c) < s.len(),
        last_index_of(s, c) >= 0 ==> s[last_index_of(s, c)] == c,
        forall|j: int| last_index_of(s, c) < j < s.len() ==> s[j] != c,
    decreases s.len(),
{
    if s.len() > 0 && s.last() != c {
        lemma_last_index_of(s.drop_last(), c);
        assert forall|j: int| last_index_of(s, c) < j < s.len() implies s[j] != c by {
            if j < s.len() - 1 {
                assert(s[j] == s.drop_last()[j]);
            }
        }
    }
}

pub proof fn lemma_first_pair_index(s: Seq<char>, c: char)
    ensures
        -1 <= first_pair_index(s, c) < s.len() - 1 || first_pair_index(s, c) == -1,
        first_pair_index(s, c) >= 0 ==> s[first_pair_index(s, c)] == c && s[first_pair_index(s, c)
            + 1] == c,
        forall|j: int|
            0 <= j < s.len() - 1 && (first_pair_index(s, c) < 0 || j < first_pair_index(s, c))
                ==> !(#[trigger] s[j] == c && s[j + 1] == c),
    decreases s.len(),
{
    if s.len() >= 2 && !(s[0] == c && s[1] == c) {
        lemma_first_pair_index(s.drop_first(), c);
        assert forall|j: int|
            0 <= j < s.len() - 1 && (first_pair_index(s, c) < 0 || j < first_pair_index(s, c))
                implies !(#[trigger] s[j] == c && s[j + 1] == c) by {
            if j > 0 {
                assert(s[j] == s.drop_first()[j - 1]);
                assert(s[j + 1] == s.drop_first()[j]);
            }
        }
    }
}

/// `first_index_of` is characterised by the properties it has.
pub proof fn lemma_first_index_of_unique(s: Seq<char>, c: char, k: int)
    requires
        -1 <= k < s.len(),
        k >= 0 ==> s[k] == c,
        forall|j: int| 0 <= j < s.len() && (k < 0 || j < k) ==> s[j] != c,
    ensures
        first_index_of(s, c) == k,
{
    lemma_first_index_of(s, c);
    let f = first_index_of(s, c);
    if f != k {
        if f >= 0 && (k < 0 || f < k) {
            assert(s[f] != c);
        } else {
            assert(s[k] != c);
        }
    }
}

pub proof fn lemma_last_index_of_unique(s: Seq<char>, c: char, k: int)
    requires
        -1 <= k < s.len(),
        k >= 0 ==> s[k] == c,
        forall|j: int| k < j < s.len() ==> s[j] != c,
    ensures
        last_index_of(s, c) == k,
{
    lemma_last_index_of(s, c);
    let f = last_index_of(s, c);
    if f != k {
        if f > k {
            assert(s[f] != c);
        } else {
            assert(s[k] != c);
        }
    }
}

pub proof fn lemma_first_pair_index_unique(s: Seq<char>, c: char, k: int)
    requires
        k == -1 || 0 <= k < s.len() - 1,
        k >= 0 ==> s[k] == c && s[k + 1] == c,
        forall|j: int|
            0 <= j < s.len() - 1 && (k < 0 || j < k) ==> !(#[trigger] s[j] == c && s[j + 1] == c),
    ensures
        first_pair_index(s, c) == k,
{
    lemma_first_pair_index(s, c);
    let f = first_pair_index(s, c);
    if f != k {
        if f >= 0 && (k < 0 || f < k) {
            assert(!(s[f] == c && s[f + 1] == c));
        } else {
            assert(!(s[k] == c && s[k + 1] == c));
        }
    }
}

// ---------------------------------------------------------------------------
// Executable helpers
// ---------------------------------------------------------------------------

/// The characters of a string, in order.
pub fn chars_of(s: &str) -> (r: Vec<char>)
    ensures
        r@ == s@,
{
    let mut r: Vec<char> = Vec::new();
    for c in it: s.chars()
        invariant
            r@ == it.seq().take(it.index() as int),
            it.seq() == s@,
    {
        r.push(c);
    }
    r
}

/// A string holding the characters `cs[lo..hi]`.
pub fn string_of(cs: &Vec<char>, lo: usize, hi: usize) -> (r: String)
    requires
        lo <= hi <= cs@.len(),
    ensures
        r@ == cs@.subrange(lo as int, hi as int),
{
    let mut r = String::new();
    let mut i = lo;
    while i < hi
        invariant
            lo <= i <= hi <= cs@.len(),
            r@ == cs@.subrange(lo as int, i as int),
        decreases hi - i,
    {
        push_char(&mut r, cs[i]);
        i = i + 1;
        assert(r@ =~= cs@.subrange(lo as int, i as int));
    }
    r
}

/// Calls `String::push`. Trusted: the string gains the character at its
/// end, as the standard library documents.
#[verifier::external_body]
pub(crate) fn push_char(s: &mut String, c: char)
    ensures
        final(s)@ == old(s)@.push(c),
{
    s.push(c)
}

/// The ranges `(start, end)` of the pieces of `cs[lo..hi]` between the
/// occurrences of `c`.
pub fn split_ranges(cs: &Vec<char>, lo: usize, hi: usize, c: char) -> (r: Vec<(usize, usize)>)
    requires
        lo <= hi <= cs@.len(),
    ensures
        r@.len() == split_on(cs@.subrange(lo as int, hi as int), c).len(),
        forall|i: int|
            #![trigger r@[i]]
            0 <= i < r@.len() ==> lo <= r@[i].0 <= r@[i].1 <= hi && cs@.subrange(
                r@[i].0 as int,
                r@[i].1 as int,
            ) == split_on(cs@.subrange(lo as int, hi as int), c)[i],
{
    let mut r: Vec<(usize, usize)> = Vec::new();
    let mut start = lo;
    let mut i = lo;
    while i < hi
        invariant
            lo <= start <= i <= hi <= cs@.len(),
            split_on(cs@.subrange(lo as int, i as int), c).len() == r@.len() + 1,
            forall|k: int|
                #![trigger r@[k]]
                0 <= k < r@.len() ==> lo <= r@[k].0 <= r@[k].1 <= start && cs@.subrange(
                    r@[k].0 as int,
                    r@[k].1 as int,
                ) == split_on(cs@.subrange(lo as int, i as int), c)[k],
            cs@.subrange(start as int, i as int) == split_on(
                cs@.subrange(lo as int, i as int),
                c,
            ).last(),
        decreases hi - i,
    {
        let ghost old_split = split_on(cs@.subrange(lo as int, i as int), c);
        let ghost next = cs@.subrange(lo as int, i + 1);
        assert(next.drop_last() =~= cs@.subrange(lo as int, i as int));
        assert(next.last() == cs@[i as int]);
        if cs[i] == c {
            r.push((start, i));
            start = i + 1;
            assert(cs@.subrange(start as int, i + 1) =~= Seq::<char>::empty());
        } else {
            assert(cs@.subrange(start as int, i + 1) =~= cs@.subrange(start as int, i as int).push(
                cs@[i as int],
            ));
        }
        i = i + 1;
    }
    r.push((start, hi));
    r
}

} // verus!
