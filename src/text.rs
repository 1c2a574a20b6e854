//! Text order and the small character rules that group keys are made of.
use vstd::prelude::*;

verus! {

/// Strict lexicographic order on character sequences, by code point.
/// This is the order of `str`'s `Ord`, since UTF-8 keeps code point order.
pub open spec fn lex_lt(a: Seq<char>, b: Seq<char>) -> bool
    decreases a.len(),
{
    if a.len() == 0 {
        b.len() > 0
    } else if b.len() == 0 {
        false
    } else if a[0] != b[0] {
        a[0] < b[0]
    } else {
        lex_lt(a.drop_first(), b.drop_first())
    }
}

pub proof fn lemma_lex_irreflexive(a: Seq<char>)
    ensures
        !lex_lt(a, a),
    decreases a.len(),
{
    if a.len() > 0 {
        lemma_lex_irreflexive(a.drop_first());
    }
}

pub proof fn lemma_lex_transitive(a: Seq<char>, b: Seq<char>, c: Seq<char>)
    requires
        lex_lt(a, b),
        lex_lt(b, c),
    ensures
        lex_lt(a, c),
    decreases a.len(),
{
    if a.len() > 0 && b.len() > 0 && c.len() > 0 {
        if a[0] == b[0] && b[0] == c[0] {
            lemma_lex_transitive(a.drop_first(), b.drop_first(), c.drop_first());
        }
    }
}

pub proof fn lemma_lex_total(a: Seq<char>, b: Seq<char>)
    ensures
        lex_lt(a, b) || lex_lt(b, a) || a == b,
    decreases a.len(),
{
    if a.len() > 0 && b.len() > 0 {
        if a[0] == b[0] {
            lemma_lex_total(a.drop_first(), b.drop_first());
            if a.drop_first() == b.drop_first() {
                assert(a =~= seq![a[0]] + a.drop_first());
                assert(b =~= seq![b[0]] + b.drop_first());
            }
        } else {
            assert(a[0] < b[0] || b[0] < a[0]);
        }
    } else if a.len() == 0 && b.len() == 0 {
        assert(a =~= b);
    }
}

/// Compares two texts in `lex_lt` order: -1, 0 or 1.
pub fn compare_text(a: &str, b: &str) -> (r: i8)
    ensures
        r == -1 <==> lex_lt(a@, b@),
        r == 0 <==> a@ == b@,
        r == 1 <==> lex_lt(b@, a@),
{
    proof {
        lemma_lex_irreflexive(a@);
        lemma_lex_total(a@, b@);
    }
    let n = a.unicode_len();
    let m = b.unicode_len();
    let mut i: usize = 0;
    while i < n && i < m
        invariant
            n == a@.len(),
            m == b@.len(),
            i <= n,
            i <= m,
            a@.subrange(0, i as int) == b@.subrange(0, i as int),
        decreases n - i,
    {
        let x = a.get_char(i);
        let y = b.get_char(i);
        if x != y {
            proof {
                lemma_lex_at(a@, b@, i as int);
            }
            if x < y {
                return -1;
            } else {
                return 1;
            }
        }
        proof {
            assert(a@.subrange(0, i + 1) =~= a@.subrange(0, i as int).push(x));
            assert(b@.subrange(0, i + 1) =~= b@.subrange(0, i as int).push(y));
        }
        i = i + 1;
    }
    proof {
        lemma_lex_prefix(a@, b@, i as int);
    }
    if n < m {
        -1
    } else if m < n {
        1
    } else {
        proof {
            assert(a@ =~= a@.subrange(0, i as int));
            assert(b@ =~= b@.subrange(0, i as int));
        }
        0
    }
}

/// Where two texts first differ at `i`, that character decides the order.
proof fn lemma_lex_at(a: Seq<char>, b: Seq<char>, i: int)
    requires
        0 <= i < a.len(),
        i < b.len(),
        a.subrange(0, i) == b.subrange(0, i),
        a[i] != b[i],
    ensures
        lex_lt(a, b) == (a[i] < b[i]),
        lex_lt(b, a) == (b[i] < a[i]),
    decreases i,
{
    if i > 0 {
        assert(a[0] == a.subrange(0, i)[0]);
        assert(b[0] == b.subrange(0, i)[0]);
        assert(a.drop_first().subrange(0, i - 1) =~= a.subrange(0, i).drop_first());
        assert(b.drop_first().subrange(0, i - 1) =~= b.subrange(0, i).drop_first());
        lemma_lex_at(a.drop_first(), b.drop_first(), i - 1);
    }
}

/// Where one text is a prefix of the other, the shorter comes first.
proof fn lemma_lex_prefix(a: Seq<char>, b: Seq<char>, i: int)
    requires
        0 <= i,
        i == a.len() || i == b.len(),
        i <= a.len(),
        i <= b.len(),
        a.subrange(0, i) == b.subrange(0, i),
    ensures
        lex_lt(a, b) == (a.len() < b.len()),
        lex_lt(b, a) == (b.len() < a.len()),
    decreases i,
{
    if i > 0 {
        assert(a[0] == a.subrange(0, i)[0]);
        assert(b[0] == b.subrange(0, i)[0]);
        assert(a.drop_first().subrange(0, i - 1) =~= a.subrange(0, i).drop_first());
        assert(b.drop_first().subrange(0, i - 1) =~= b.subrange(0, i).drop_first());
        lemma_lex_prefix(a.drop_first(), b.drop_first(), i - 1);
    }
}

} // verus!

verus! {

/// Rust's `char::is_whitespace`: the Unicode White_Space characters.
pub open spec fn is_space(c: char) -> bool {
    c == ' ' || ('\t' <= c && c <= '\r') || c == '\u{85}' || c == '\u{A0}' || c == '\u{1680}'
        || ('\u{2000}' <= c && c <= '\u{200A}') || c == '\u{2028}' || c == '\u{2029}'
        || c == '\u{202F}' || c == '\u{205F}' || c == '\u{3000}'
}

pub fn char_is_space(c: char) -> (r: bool)
    ensures
        r == is_space(c),
{
    c == ' ' || ('\t' <= c && c <= '\r') || c == '\u{85}' || c == '\u{A0}' || c == '\u{1680}'
        || ('\u{2000}' <= c && c <= '\u{200A}') || c == '\u{2028}' || c == '\u{2029}'
        || c == '\u{202F}' || c == '\u{205F}' || c == '\u{3000}'
}

/// ASCII upper case: `a`..`z` become `A`..`Z`, every other character stays.
pub open spec fn ascii_upper(c: char) -> char {
    if 'a' <= c && c <= 'z' {
        ((c as u8) - 32u8) as char
    } else {
        c
    }
}

pub fn char_ascii_upper(c: char) -> (r: char)
    ensures
        r == ascii_upper(c),
{
    if 'a' <= c && c <= 'z' {
        ((c as u8) - 32u8) as char
    } else {
        c
    }
}

} // verus!

verus! {

/// Relies on `String::push`: appends one character.
#[verifier::external_body]
pub(crate) fn push_char(s: &mut String, c: char)
    ensures
        final(s)@ == old(s)@.push(c),
{
    s.push(c)
}

/// The first character of `s` that is not white space, if any: the first
/// character of `s.trim()`.
pub open spec fn first_visible(s: Seq<char>) -> Option<char>
    decreases s.len(),
{
    if s.len() == 0 {
        None
    } else if is_space(s[0]) {
        first_visible(s.drop_first())
    } else {
        Some(s[0])
    }
}

proof fn lemma_first_visible_skip(s: Seq<char>, i: int)
    requires
        0 <= i <= s.len(),
        forall|j: int| 0 <= j < i ==> is_space(#[trigger] s[j]),
    ensures
        first_visible(s) == first_visible(s.subrange(i, s.len() as int)),
    decreases i,
{
    if i > 0 {
        assert(s.drop_first().subrange(i - 1, s.drop_first().len() as int) =~= s.subrange(i, s.len() as int));
        assert forall|j: int| 0 <= j < i - 1 implies is_space(#[trigger] s.drop_first()[j]) by {
            assert(s.drop_first()[j] == s[j + 1]);
        }
        lemma_first_visible_skip(s.drop_first(), i - 1);
        assert(is_space(s[0]));
    } else {
        assert(s.subrange(0, s.len() as int) =~= s);
    }
}

/// The first visible character of a text, upper-cased, as a text of one
/// character; the empty text where there is none.
pub open spec fn initial_of(s: Seq<char>) -> Seq<char> {
    match first_visible(s) {
        Some(c) => seq![ascii_upper(c)],
        None => Seq::empty(),
    }
}

pub fn initial(s: &str) -> (r: String)
    ensures
        r@ == initial_of(s@),
{
    let n = s.unicode_len();
    let mut i: usize = 0;
    let mut r = String::new();
    while i < n
        invariant
            n == s@.len(),
            i <= n,
            r@ == Seq::<char>::empty(),
            forall|j: int| 0 <= j < i ==> is_space(#[trigger] s@[j]),
        decreases n - i,
    {
        let c = s.get_char(i);
        if !char_is_space(c) {
            proof {
                lemma_first_visible_skip(s@, i as int);
                assert(s@.subrange(i as int, s@.len() as int)[0] == c);
            }
            push_char(&mut r, char_ascii_upper(c));
            assert(r@ =~= seq![ascii_upper(c)]);
            return r;
        }
        i = i + 1;
    }
    proof {
        lemma_first_visible_skip(s@, i as int);
    }
    r
}

/// Decimal digits of `n`, most significant first, with no leading zero.
pub open spec fn decimal(n: nat) -> Seq<char>
    decreases n,
{
    if n < 10 {
        seq![digit_char(n)]
    } else {
        decimal(n / 10).push(digit_char(n % 10))
    }
}

pub open spec fn digit_char(d: nat) -> char {
    if d == 0 { '0' } else if d == 1 { '1' } else if d == 2 { '2' } else if d == 3 { '3' }
    else if d == 4 { '4' } else if d == 5 { '5' } else if d == 6 { '6' } else if d == 7 { '7' }
    else if d == 8 { '8' } else { '9' }
}

fn digit(d: u64) -> (r: char)
    requires
        d < 10,
    ensures
        r == digit_char(d as nat),
{
    if d == 0 { '0' } else if d == 1 { '1' } else if d == 2 { '2' } else if d == 3 { '3' }
    else if d == 4 { '4' } else if d == 5 { '5' } else if d == 6 { '6' } else if d == 7 { '7' }
    else if d == 8 { '8' } else { '9' }
}

/// Appends the decimal digits of `n` to `s`.
pub fn push_decimal(s: &mut String, n: u64)
    ensures
        final(s)@ == old(s)@ + decimal(n as nat),
    decreases n,
{
    if n >= 10 {
        push_decimal(s, n / 10);
    }
    push_char(s, digit(n % 10));
    proof {
        if n >= 10 {
            assert(final(s)@ =~= old(s)@ + decimal(n as nat));
        } else {
            assert(final(s)@ =~= old(s)@ + decimal(n as nat));
        }
    }
}

/// Appends the text `t` to `s`.
pub fn push_text(s: &mut String, t: &str)
    ensures
        final(s)@ == old(s)@ + t@,
{
    let n = t.unicode_len();
    let mut i: usize = 0;
    while i < n
        invariant
            n == t@.len(),
            i <= n,
            s@ == old(s)@ + t@.subrange(0, i as int),
        decreases n - i,
    {
        let c = t.get_char(i);
        push_char(s, c);
        proof {
            assert(t@.subrange(0, i + 1) =~= t@.subrange(0, i as int).push(c));
        }
        i = i + 1;
    }
    assert(t@.subrange(0, n as int) =~= t@);
}

} // verus!
