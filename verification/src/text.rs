//! Names as sequences of characters: composing, matching and ordering them.

use vstd::prelude::*;
use vstd::relations::*;
use vstd::string::*;

verus! {

/// The characters of a string.
pub fn to_chars(s: &str) -> (chars: Vec<char>)
    ensures
        chars@ == s@,
{
    let mut chars: Vec<char> = Vec::new();
    for c in it: s.chars()
        invariant
            it.seq() == s@,
            chars@ == s@.subrange(0, it.index() as int),
    {
        chars.push(c);
        assert(chars@ =~= s@.subrange(0, it.index() + 1));
    }
    assert(s@.subrange(0, s@.len() as int) =~= s@);
    chars
}

/// The decimal digit of a number below ten.
pub open spec fn digit_of(d: int) -> char {
    ('0' as int + d) as char
}

/// The decimal notation of a number.
pub open spec fn decimal_of(n: int) -> Seq<char>
    decreases n,
{
    if n < 10 {
        seq![digit_of(n)]
    } else {
        decimal_of(n / 10).push(digit_of(n % 10))
    }
}

fn digit(d: usize) -> (s: &'static str)
    requires
        d < 10,
    ensures
        s@ == seq![digit_of(d as int)],
{
    proof {
        reveal_strlit("0");
        reveal_strlit("1");
        reveal_strlit("2");
        reveal_strlit("3");
        reveal_strlit("4");
        reveal_strlit("5");
        reveal_strlit("6");
        reveal_strlit("7");
        reveal_strlit("8");
        reveal_strlit("9");
    }
    let s: &'static str = match d {
        0 => "0",
        1 => "1",
        2 => "2",
        3 => "3",
        4 => "4",
        5 => "5",
        6 => "6",
        7 => "7",
        8 => "8",
        _ => "9",
    };
    assert(s@ =~= seq![digit_of(d as int)]);
    s
}

/// The decimal notation of a number.
pub fn decimal(n: usize) -> (s: String)
    ensures
        s@ == decimal_of(n as int),
    decreases n,
{
    if n < 10 {
        return digit(n).to_owned();
    }
    let mut s = decimal(n / 10);
    s.append(digit(n % 10));
    assert(s@ =~= decimal_of(n as int));
    s
}

/// Decimal notation is unambiguous.
pub proof fn law_decimal_injective(a: int, b: int)
    requires
        0 <= a,
        0 <= b,
        decimal_of(a) == decimal_of(b),
    ensures
        a == b,
    decreases a,
{
    lemma_decimal_len(a);
    lemma_decimal_len(b);
    if a < 10 {
        assert(decimal_of(a)[0] == digit_of(a));
        if b >= 10 {
            lemma_decimal_len(b / 10);
        } else {
            assert(decimal_of(b)[0] == digit_of(b));
        }
    } else if b < 10 {
        lemma_decimal_len(a / 10);
    } else {
        assert(decimal_of(a).drop_last() =~= decimal_of(a / 10));
        assert(decimal_of(b).drop_last() =~= decimal_of(b / 10));
        law_decimal_injective(a / 10, b / 10);
        assert(decimal_of(a).last() == digit_of(a % 10));
        assert(decimal_of(b).last() == digit_of(b % 10));
    }
}

proof fn lemma_decimal_len(n: int)
    requires
        0 <= n,
    ensures
        decimal_of(n).len() >= 1,
        n >= 10 ==> decimal_of(n).len() >= 2,
    decreases n,
{
    if n >= 10 {
        lemma_decimal_len(n / 10);
    }
}

/// Decimal notation holds nothing but digits.
pub proof fn law_decimal_digits(n: int, i: int)
    requires
        0 <= n,
        0 <= i < decimal_of(n).len(),
    ensures
        '0' as int <= decimal_of(n)[i] as int <= '9' as int,
    decreases n,
{
    if n >= 10 && i < decimal_of(n).len() - 1 {
        law_decimal_digits(n / 10, i);
    }
}

/// Whether a name ends with a suffix.
pub open spec fn ends_with_of(name: Seq<char>, suffix: Seq<char>) -> bool {
    &&& suffix.len() <= name.len()
    &&& name.subrange(name.len() - suffix.len(), name.len() as int) == suffix
}

/// Whether a name has a part at index `i`.
pub open spec fn part_at(name: Seq<char>, part: Seq<char>, i: int) -> bool {
    &&& 0 <= i <= name.len() - part.len()
    &&& name.subrange(i, i + part.len()) == part
}

/// Whether a name contains a part.
pub open spec fn contains_of(name: Seq<char>, part: Seq<char>) -> bool {
    exists|i: int| #[trigger] part_at(name, part, i)
}

fn matches_at(name: &Vec<char>, part: &Vec<char>, i: usize) -> (r: bool)
    requires
        i + part@.len() <= name@.len(),
    ensures
        r == part_at(name@, part@, i as int),
{
    let total: usize = name.len();
    let mut j: usize = 0;
    while j < part.len()
        invariant
            j <= part@.len(),
            total == name@.len(),
            i + part@.len() <= total,
            forall|k: int| 0 <= k < j ==> name@[i + k] == part@[k],
        decreases part@.len() - j,
    {
        if name[i + j] != part[j] {
            assert(name@.subrange(i as int, i + part@.len())[j as int] != part@[j as int]);
            return false;
        }
        j += 1;
    }
    assert(name@.subrange(i as int, i + part@.len()) =~= part@);
    true
}

/// Whether a name ends with a suffix.
pub fn ends_with(name: &str, suffix: &str) -> (r: bool)
    ensures
        r == ends_with_of(name@, suffix@),
{
    let n = to_chars(name);
    let s = to_chars(suffix);
    if s.len() > n.len() {
        return false;
    }
    matches_at(&n, &s, n.len() - s.len())
}

/// Whether a name contains a part.
pub fn contains(name: &str, part: &str) -> (r: bool)
    ensures
        r == contains_of(name@, part@),
{
    let n = to_chars(name);
    let p = to_chars(part);
    if p.len() > n.len() {
        return false;
    }
    let last: usize = n.len() - p.len();
    let mut i: usize = 0;
    while i < last
        invariant
            i <= last,
            last + p@.len() == n@.len(),
            n@ == name@,
            p@ == part@,
            forall|k: int| 0 <= k < i ==> !#[trigger] part_at(name@, part@, k),
        decreases last - i,
    {
        if matches_at(&n, &p, i) {
            return true;
        }
        i += 1;
    }
    matches_at(&n, &p, last)
}

/// Whether one name comes no later than another in the order of their
/// characters' code points.
pub open spec fn lex_le(a: Seq<char>, b: Seq<char>) -> bool
    decreases a.len(),
{
    if a.len() == 0 {
        true
    } else if b.len() == 0 {
        false
    } else if a[0] != b[0] {
        (a[0] as int) < (b[0] as int)
    } else {
        lex_le(a.drop_first(), b.drop_first())
    }
}

/// The order of names.
pub open spec fn name_order() -> spec_fn(Seq<char>, Seq<char>) -> bool {
    |a: Seq<char>, b: Seq<char>| lex_le(a, b)
}

proof fn lemma_lex_antisymmetric(a: Seq<char>, b: Seq<char>)
    requires
        lex_le(a, b),
        lex_le(b, a),
    ensures
        a == b,
    decreases a.len(),
{
    if a.len() > 0 {
        lemma_lex_antisymmetric(a.drop_first(), b.drop_first());
        assert(a =~= seq![a[0]] + a.drop_first());
        assert(b =~= seq![b[0]] + b.drop_first());
    } else {
        assert(a =~= b);
    }
}

proof fn lemma_lex_transitive(a: Seq<char>, b: Seq<char>, c: Seq<char>)
    requires
        lex_le(a, b),
        lex_le(b, c),
    ensures
        lex_le(a, c),
    decreases a.len(),
{
    if a.len() > 0 && a[0] == b[0] && b[0] == c[0] {
        lemma_lex_transitive(a.drop_first(), b.drop_first(), c.drop_first());
    }
}

proof fn lemma_lex_total(a: Seq<char>, b: Seq<char>)
    ensures
        lex_le(a, b) || lex_le(b, a),
    decreases a.len(),
{
    if a.len() > 0 && b.len() > 0 && a[0] == b[0] {
        lemma_lex_total(a.drop_first(), b.drop_first());
    }
}

/// Names are totally ordered.
pub proof fn law_names_totally_ordered()
    ensures
        total_ordering(name_order()),
{
    let le = name_order();
    assert forall|a: Seq<char>| #[trigger] le(a, a) by {
        lemma_lex_total(a, a);
    }
    assert forall|a: Seq<char>, b: Seq<char>| #[trigger] le(a, b) && #[trigger] le(b, a) implies a
        == b by {
        lemma_lex_antisymmetric(a, b);
    }
    assert forall|a: Seq<char>, b: Seq<char>, c: Seq<char>| #[trigger]
        le(a, b) && #[trigger] le(b, c) implies le(a, c) by {
        lemma_lex_transitive(a, b, c);
    }
    assert forall|a: Seq<char>, b: Seq<char>| #[trigger] le(a, b) || #[trigger] le(b, a) by {
        lemma_lex_total(a, b);
    }
}

/// Whether one name comes no later than another.
pub fn name_le(a: &str, b: &str) -> (r: bool)
    ensures
        r == lex_le(a@, b@),
{
    let x = to_chars(a);
    let y = to_chars(b);
    let mut i: usize = 0;
    assert(x@.subrange(0, x@.len() as int) =~= x@);
    assert(y@.subrange(0, y@.len() as int) =~= y@);
    while i < x.len()
        invariant
            i <= x@.len(),
            i <= y@.len(),
            x@ == a@,
            y@ == b@,
            lex_le(a@, b@) == lex_le(
                x@.subrange(i as int, x@.len() as int),
                y@.subrange(i as int, y@.len() as int),
            ),
        decreases x@.len() - i,
    {
        proof {
            let p = x@.subrange(i as int, x@.len() as int);
            let q = y@.subrange(i as int, y@.len() as int);
            assert(p.drop_first() =~= x@.subrange(i + 1, x@.len() as int));
            if i < y@.len() {
                assert(q.drop_first() =~= y@.subrange(i + 1, y@.len() as int));
            }
        }
        if i == y.len() {
            return false;
        }
        if x[i] != y[i] {
            return x[i] < y[i];
        }
        i += 1;
    }
    true
}

/// What a decoder puts in place of a character whose bytes are not all there.
pub const UNFINISHED: char = '\u{FFFD}';

/// The part of a text that can be shown after its first `shown` characters have
/// been. There is none if there is nothing new, or if the text ends in the middle
/// of a character, which more text may complete.
pub fn fresh<'a>(text: &'a str, shown: usize) -> (r: Option<&'a str>)
    ensures
        match r {
            Some(part) => {
                &&& shown < text@.len()
                &&& text@.last() != UNFINISHED
                &&& part@ == text@.subrange(shown as int, text@.len() as int)
            },
            None => shown >= text@.len() || text@.last() == UNFINISHED,
        },
{
    let len: usize = text.unicode_len();
    if shown >= len || text.get_char(len - 1) == UNFINISHED {
        None
    } else {
        Some(text.substring_char(shown, len))
    }
}

} // verus!
