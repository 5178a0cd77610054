//! Fixed-width decimal text and the lexicographic order on character sequences.

use vstd::prelude::*;

verus! {

/// Ten to the power `w`.
pub open spec fn pow10(w: nat) -> nat
    decreases w,
{
    if w == 0 {
        1
    } else {
        10 * pow10((w - 1) as nat)
    }
}

/// The character of the decimal digit `d` (for `0 <= d < 10`).
pub open spec fn digit_char(d: int) -> char {
    (48 + d) as char
}

/// Whether `c` is one of the ASCII digits `0` to `9`.
pub open spec fn is_digit(c: char) -> bool {
    48 <= (c as int) && (c as int) <= 57
}

/// Whether every character of `s` is an ASCII digit.
pub open spec fn all_digits(s: Seq<char>) -> bool {
    forall|i: int| 0 <= i < s.len() ==> is_digit(#[trigger] s[i])
}

/// The low `width` decimal digits of `n`, most significant first, padded with zeros.
pub open spec fn decimal_padded(n: nat, width: nat) -> Seq<char>
    decreases width,
{
    if width == 0 {
        Seq::empty()
    } else {
        decimal_padded(n / 10, (width - 1) as nat).push(digit_char((n % 10) as int))
    }
}

/// The number that the digit sequence `s` denotes in base ten.
pub open spec fn decimal_value(s: Seq<char>) -> nat
    decreases s.len(),
{
    if s.len() == 0 {
        0
    } else {
        10 * decimal_value(s.drop_last()) + (s.last() as int - 48) as nat
    }
}

/// Strict lexicographic order on character sequences, comparing code points.
pub open spec fn lex_lt(a: Seq<char>, b: Seq<char>) -> bool
    decreases a.len(),
{
    if a.len() == 0 {
        b.len() > 0
    } else if b.len() == 0 {
        false
    } else if a[0] != b[0] {
        (a[0] as int) < (b[0] as int)
    } else {
        lex_lt(a.drop_first(), b.drop_first())
    }
}

/// Non-strict lexicographic order.
pub open spec fn lex_le(a: Seq<char>, b: Seq<char>) -> bool {
    a == b || lex_lt(a, b)
}

pub proof fn lemma_decimal_padded_shape(n: nat, width: nat)
    ensures
        decimal_padded(n, width).len() == width,
        all_digits(decimal_padded(n, width)),
    decreases width,
{
    if width > 0 {
        lemma_decimal_padded_shape(n / 10, (width - 1) as nat);
        let p = decimal_padded(n / 10, (width - 1) as nat);
        assert forall|i: int| 0 <= i < decimal_padded(n, width).len() implies is_digit(
            #[trigger] decimal_padded(n, width)[i],
        ) by {
            if i < p.len() {
                assert(decimal_padded(n, width)[i] == p[i]);
            }
        }
    }
}

/// Reading back the padded digits of a number that fits gives the number.
pub proof fn lemma_decimal_padded_value(n: nat, width: nat)
    requires
        n < pow10(width),
    ensures
        decimal_value(decimal_padded(n, width)) == n,
    decreases width,
{
    if width > 0 {
        lemma_decimal_padded_value(n / 10, (width - 1) as nat);
        let s = decimal_padded(n, width);
        assert(s.drop_last() == decimal_padded(n / 10, (width - 1) as nat));
    }
}

/// Appending one character to sequences of equal length keeps a strict order
/// between them, and decides it by that character where they were equal.
pub proof fn lemma_lex_lt_push(a: Seq<char>, b: Seq<char>, x: char, y: char)
    requires
        a.len() == b.len(),
    ensures
        lex_lt(a, b) ==> lex_lt(a.push(x), b.push(y)),
        a == b ==> (lex_lt(a.push(x), b.push(y)) <==> (x as int) < (y as int)),
    decreases a.len(),
{
    if a.len() > 0 {
        assert(a.push(x)[0] == a[0]);
        assert(b.push(y)[0] == b[0]);
        assert(a.push(x).drop_first() == a.drop_first().push(x));
        assert(b.push(y).drop_first() == b.drop_first().push(y));
        lemma_lex_lt_push(a.drop_first(), b.drop_first(), x, y);
    } else {
        assert(a.push(x)[0] == x);
        assert(b.push(y)[0] == y);
        assert(a.push(x).drop_first() =~= Seq::<char>::empty());
        assert(b.push(y).drop_first() =~= Seq::<char>::empty());
        assert(!lex_lt(Seq::<char>::empty(), Seq::<char>::empty()));
    }
}

/// Padded decimal text of equal width orders as the numbers do.
pub proof fn lemma_decimal_padded_order(n: nat, m: nat, width: nat)
    requires
        n < m < pow10(width),
    ensures
        lex_lt(decimal_padded(n, width), decimal_padded(m, width)),
    decreases width,
{
    let w1 = (width - 1) as nat;
    lemma_decimal_padded_shape(n / 10, w1);
    lemma_decimal_padded_shape(m / 10, w1);
    assert(n / 10 <= m / 10);
    assert(m / 10 < pow10(w1));
    if n / 10 < m / 10 {
        lemma_decimal_padded_order(n / 10, m / 10, w1);
    }
    lemma_lex_lt_push(
        decimal_padded(n / 10, w1),
        decimal_padded(m / 10, w1),
        digit_char((n % 10) as int),
        digit_char((m % 10) as int),
    );
}

/// A strict order on two sequences of equal length survives appending anything.
pub proof fn lemma_lex_lt_concat(a1: Seq<char>, a2: Seq<char>, b1: Seq<char>, b2: Seq<char>)
    requires
        a1.len() == b1.len(),
    ensures
        lex_lt(a1, b1) ==> lex_lt(a1 + a2, b1 + b2),
        a1 == b1 ==> (lex_lt(a1 + a2, b1 + b2) <==> lex_lt(a2, b2)),
    decreases a1.len(),
{
    if a1.len() > 0 {
        assert((a1 + a2).drop_first() == a1.drop_first() + a2);
        assert((b1 + b2).drop_first() == b1.drop_first() + b2);
        lemma_lex_lt_concat(a1.drop_first(), a2, b1.drop_first(), b2);
    } else {
        assert(a1 + a2 == a2);
        assert(b1 + b2 == b2);
    }
}

/// No sequence comes strictly before itself.
pub proof fn lemma_lex_lt_irreflexive(a: Seq<char>)
    ensures
        !lex_lt(a, a),
    decreases a.len(),
{
    if a.len() > 0 {
        lemma_lex_lt_irreflexive(a.drop_first());
    }
}

/// Two sequences are never each strictly before the other.
pub proof fn lemma_lex_lt_asymmetric(a: Seq<char>, b: Seq<char>)
    ensures
        lex_lt(a, b) ==> !lex_lt(b, a),
    decreases a.len(),
{
    if a.len() > 0 && b.len() > 0 && a[0] == b[0] {
        lemma_lex_lt_asymmetric(a.drop_first(), b.drop_first());
    }
}

/// Strict lexicographic order is transitive.
pub proof fn lemma_lex_lt_transitive(a: Seq<char>, b: Seq<char>, c: Seq<char>)
    requires
        lex_lt(a, b),
        lex_lt(b, c),
    ensures
        lex_lt(a, c),
    decreases a.len(),
{
    if a.len() > 0 && b.len() > 0 && c.len() > 0 && a[0] == b[0] && b[0] == c[0] {
        lemma_lex_lt_transitive(a.drop_first(), b.drop_first(), c.drop_first());
    }
}

/// Of two different sequences one comes strictly before the other.
pub proof fn lemma_lex_lt_total(a: Seq<char>, b: Seq<char>)
    requires
        a != b,
    ensures
        lex_lt(a, b) || lex_lt(b, a),
    decreases a.len(),
{
    if a.len() > 0 && b.len() > 0 {
        if a[0] == b[0] {
            if a.drop_first() == b.drop_first() {
                assert(a =~= seq![a[0]] + a.drop_first());
                assert(b =~= seq![b[0]] + b.drop_first());
            }
            lemma_lex_lt_total(a.drop_first(), b.drop_first());
        } else {
            assert((a[0] as int) != (b[0] as int));
        }
    } else if a.len() == 0 && b.len() == 0 {
        assert(a =~= b);
    }
}

/// Digits read back and padded to their own width give the same digits.
pub proof fn lemma_decimal_value_padded(s: Seq<char>)
    requires
        all_digits(s),
    ensures
        decimal_padded(decimal_value(s), s.len()) == s,
        decimal_value(s) < pow10(s.len()),
    decreases s.len(),
{
    if s.len() > 0 {
        let d = s.drop_last();
        assert forall|i: int| 0 <= i < d.len() implies is_digit(#[trigger] d[i]) by {
            assert(d[i] == s[i]);
        }
        lemma_decimal_value_padded(d);
        assert(is_digit(s[s.len() - 1]));
        let c = s.last();
        let v = decimal_value(s);
        let k = (c as int - 48) as nat;
        assert(v == 10 * decimal_value(d) + k);
        assert(v / 10 == decimal_value(d) && v % 10 == k);
        assert(digit_char(k as int) == c);
        assert(decimal_padded(v, s.len()) =~= d.push(c));
        assert(d.push(c) =~= s);
    }
}

/// The text of the single digit `d`.
pub fn digit_str(d: u128) -> (r: &'static str)
    requires
        d < 10,
    ensures
        r@ == seq![digit_char(d as int)],
{
    proof {
        reveal_strlit("0");
        reveal_strlit("1");
        reveal_strlit("2");
        reveal_strlit("3");
        reveal_strlit("4");
        reveal_strlit("5");
        reveal_strlit("6");
        reveal_strlit("7");
        reveal_strlit("8");
        reveal_strlit("9");
    }
    if d == 0 {
        "0"
    } else if d == 1 {
        "1"
    } else if d == 2 {
        "2"
    } else if d == 3 {
        "3"
    } else if d == 4 {
        "4"
    } else if d == 5 {
        "5"
    } else if d == 6 {
        "6"
    } else if d == 7 {
        "7"
    } else if d == 8 {
        "8"
    } else {
        "9"
    }
}

/// The low `width` decimal digits of `n`, zero-padded on the left.
pub fn padded_decimal(n: u128, width: usize) -> (r: String)
    ensures
        r@ == decimal_padded(n as nat, width as nat),
    decreases width,
{
    if width == 0 {
        String::new()
    } else {
        let mut s = padded_decimal(n / 10, width - 1);
        s.append(digit_str(n % 10));
        s
    }
}

} // verus!
