//! Text as the characters it is made of: order, decimal numbers, and the
//! separators that keep joined parts apart.
use vstd::prelude::*;
use vstd::string::*;

verus! {

/// `String::push` appends one character.
pub assume_specification[ String::push ](s: &mut String, c: char)
    ensures
        final(s)@ == old(s)@.push(c),
;

/// `std::str::from_utf8` reads bytes as text, and refuses those that are not
/// UTF-8.
#[verifier::external_body]
pub(crate) fn decoded<'a>(bytes: &'a [u8]) -> (r: Option<&'a str>)
    ensures
        match r {
            Some(s) => vstd::utf8::valid_utf8(bytes@) && s@ == vstd::utf8::decode_utf8(bytes@),
            None => !vstd::utf8::valid_utf8(bytes@),
        },
{
    std::str::from_utf8(bytes).ok()
}

/// The characters of a text, where there is any.
pub open spec fn text_of(t: Option<String>) -> Option<Seq<char>> {
    match t {
        Some(t) => Some(t@),
        None => None,
    }
}

/// The characters of a text.
pub fn chars_of(s: &str) -> (r: Vec<char>)
    ensures
        r@ == s@,
{
    broadcast use vstd::string::group_string_axioms;

    let mut chars: Vec<char> = Vec::new();
    for c in it: s.chars()
        invariant
            it.seq() == s@,
            chars@ == s@.take(it.index()),
    {
        chars.push(c);
        proof {
            assert(s@.take(it.index() + 1) =~= s@.take(it.index()).push(c));
        }
    }
    proof {
        assert(s@.take(s@.len() as int) =~= s@);
    }
    chars
}

/// Whether two texts are the same.
pub fn same(a: &str, b: &str) -> (r: bool)
    ensures
        r == (a@ == b@),
{
    a.to_owned() == b.to_owned()
}

/// Dictionary order by character: the order in which texts sort.
pub open spec fn precedes(a: Seq<char>, b: Seq<char>) -> bool
    decreases a.len(),
{
    if b.len() == 0 {
        false
    } else if a.len() == 0 {
        true
    } else if a[0] != b[0] {
        a[0] < b[0]
    } else {
        precedes(a.skip(1), b.skip(1))
    }
}

/// No text precedes itself.
pub proof fn lemma_precedes_irreflexive(a: Seq<char>)
    ensures
        !precedes(a, a),
    decreases a.len(),
{
    if a.len() > 0 {
        lemma_precedes_irreflexive(a.skip(1));
    }
}

/// Of two different texts one precedes the other.
pub proof fn lemma_precedes_total(a: Seq<char>, b: Seq<char>)
    ensures
        precedes(a, b) || precedes(b, a) || a == b,
    decreases a.len(),
{
    if a.len() == 0 || b.len() == 0 {
        if a.len() == b.len() {
            assert(a =~= b);
        }
    } else if a[0] == b[0] {
        lemma_precedes_total(a.skip(1), b.skip(1));
        if a.skip(1) == b.skip(1) {
            assert forall|i: int| 0 <= i < a.len() implies a[i] == b[i] by {
                if i > 0 {
                    assert(a.skip(1)[i - 1] == b.skip(1)[i - 1]);
                }
            }
            assert(a.skip(1).len() == b.skip(1).len());
            assert(a =~= b);
        }
    }
}

/// What precedes a text precedes whatever that text precedes.
pub proof fn lemma_precedes_transitive(a: Seq<char>, b: Seq<char>, c: Seq<char>)
    requires
        precedes(a, b),
        precedes(b, c),
    ensures
        precedes(a, c),
    decreases a.len(),
{
    if a.len() > 0 && a[0] == b[0] && b[0] == c[0] {
        lemma_precedes_transitive(a.skip(1), b.skip(1), c.skip(1));
    }
}

/// Whether `a` sorts before `b`.
pub fn sorts_before(a: &str, b: &str) -> (r: bool)
    ensures
        r == precedes(a@, b@),
{
    let (left, right) = (chars_of(a), chars_of(b));
    let mut i: usize = 0;
    proof {
        assert(left@.skip(0) =~= left@);
        assert(right@.skip(0) =~= right@);
    }
    while i < left.len() && i < right.len()
        invariant
            i <= left@.len(),
            i <= right@.len(),
            left@ == a@,
            right@ == b@,
            precedes(a@, b@) == precedes(left@.skip(i as int), right@.skip(i as int)),
        decreases left@.len() - i,
    {
        if left[i] != right[i] {
            return left[i] < right[i];
        }
        proof {
            assert(left@.skip(i as int).skip(1) =~= left@.skip(i + 1));
            assert(right@.skip(i as int).skip(1) =~= right@.skip(i + 1));
        }
        i = i + 1;
    }
    i < right.len()
}

/// The character of one decimal digit.
pub open spec fn digit(d: nat) -> char {
    if d == 0 {
        '0'
    } else if d == 1 {
        '1'
    } else if d == 2 {
        '2'
    } else if d == 3 {
        '3'
    } else if d == 4 {
        '4'
    } else if d == 5 {
        '5'
    } else if d == 6 {
        '6'
    } else if d == 7 {
        '7'
    } else if d == 8 {
        '8'
    } else {
        '9'
    }
}

/// A number in decimal, without leading zeros.
pub open spec fn decimal(n: nat) -> Seq<char>
    decreases n,
{
    if n < 10 {
        seq![digit(n)]
    } else {
        decimal(n / 10).push(digit(n % 10))
    }
}

fn digit_of(d: u64) -> (r: char)
    requires
        d < 10,
    ensures
        r == digit(d as nat),
{
    if d == 0 {
        '0'
    } else if d == 1 {
        '1'
    } else if d == 2 {
        '2'
    } else if d == 3 {
        '3'
    } else if d == 4 {
        '4'
    } else if d == 5 {
        '5'
    } else if d == 6 {
        '6'
    } else if d == 7 {
        '7'
    } else if d == 8 {
        '8'
    } else {
        '9'
    }
}

/// Appends a number in decimal.
pub fn push_decimal(s: &mut String, n: u64)
    ensures
        final(s)@ == old(s)@ + decimal(n as nat),
    decreases n,
{
    if n >= 10 {
        push_decimal(s, n / 10);
    }
    s.push(digit_of(n % 10));
    proof {
        assert(s@ =~= old(s)@ + decimal(n as nat));
    }
}

/// A decimal number has a digit, and holds digits alone.
pub proof fn lemma_decimal_holds_digits(n: nat)
    ensures
        decimal(n).len() > 0,
        forall|i: int| 0 <= i < decimal(n).len() ==> '0' <= #[trigger] decimal(n)[i] <= '9',
    decreases n,
{
    if n >= 10 {
        lemma_decimal_holds_digits(n / 10);
    }
}

/// Different numbers read differently.
pub proof fn lemma_decimal_injective(a: nat, b: nat)
    requires
        decimal(a) == decimal(b),
    ensures
        a == b,
    decreases a,
{
    lemma_decimal_holds_digits(a / 10);
    lemma_decimal_holds_digits(b / 10);
    assert(decimal(a).last() == digit(a % 10));
    assert(decimal(b).last() == digit(b % 10));
    assert(a % 10 == b % 10);
    if a >= 10 || b >= 10 {
        assert(a >= 10 && b >= 10) by {
            assert(decimal(a).len() == decimal(b).len());
        }
        assert(decimal(a).drop_last() =~= decimal(a / 10));
        assert(decimal(b).drop_last() =~= decimal(b / 10));
        lemma_decimal_injective(a / 10, b / 10);
    }
}

/// Parts joined by a separator that the first part cannot hold come apart in
/// one way only.
pub proof fn lemma_first_separator_splits(
    a: Seq<char>,
    rest: Seq<char>,
    b: Seq<char>,
    other: Seq<char>,
    sep: char,
)
    requires
        !a.contains(sep),
        !b.contains(sep),
        a.push(sep) + rest == b.push(sep) + other,
    ensures
        a == b,
        rest == other,
{
    let (l, r) = (a.push(sep) + rest, b.push(sep) + other);
    assert(l[a.len() as int] == sep);
    assert(r[b.len() as int] == sep);
    if a.len() < b.len() {
        assert(b[a.len() as int] == r[a.len() as int]);
        assert(b.contains(sep));
    }
    if b.len() < a.len() {
        assert(a[b.len() as int] == l[b.len() as int]);
        assert(a.contains(sep));
    }
    assert forall|i: int| 0 <= i < a.len() implies a[i] == b[i] by {
        assert(a[i] == l[i]);
        assert(b[i] == r[i]);
    }
    assert(a =~= b);
    assert(l.len() == r.len());
    assert forall|i: int| 0 <= i < rest.len() implies rest[i] == other[i] by {
        assert(rest[i] == l[a.len() + 1 + i]);
        assert(other[i] == r[b.len() + 1 + i]);
    }
    assert(rest =~= other);
}

/// The value of a decimal digit, where the character is one.
pub open spec fn digit_value(c: char) -> Option<nat> {
    if '0' <= c <= '9' {
        Some((c as int - '0' as int) as nat)
    } else {
        None
    }
}

/// The number a run of digits reads as, where it is one.
pub open spec fn number(s: Seq<char>) -> Option<nat>
    decreases s.len(),
{
    if s.len() == 0 {
        Some(0)
    } else {
        match (number(s.drop_last()), digit_value(s.last())) {
            (Some(n), Some(d)) => Some(n * 10 + d),
            _ => None,
        }
    }
}

/// The number a text reads as, up to `max`: digits, with or without a plus sign
/// in front.
pub open spec fn number_up_to(s: Seq<char>, max: u64) -> Option<u64> {
    let digits = if s.len() > 0 && s[0] == '+' {
        s.skip(1)
    } else {
        s
    };
    match number(digits) {
        Some(n) if digits.len() > 0 && n <= max => Some(n as u64),
        _ => None,
    }
}

/// Digits alone never read as less with more of them.
proof fn lemma_number_grows(s: Seq<char>, n: int)
    requires
        0 <= n <= s.len(),
        number(s) is Some,
    ensures
        number(s.take(n)) is Some,
        number(s.take(n)).unwrap() <= number(s).unwrap(),
    decreases s.len(),
{
    if n < s.len() {
        lemma_number_grows(s.drop_last(), n);
        assert(s.drop_last().take(n) =~= s.take(n));
    } else {
        assert(s.take(n) =~= s);
    }
}

/// Reads a number no larger than `max`.
pub fn parse_up_to(s: &str, max: u64) -> (r: Option<u64>)
    ensures
        r == number_up_to(s@, max),
{
    let chars = chars_of(s);
    let start: usize = if chars.len() > 0 && chars[0] == '+' {
        1
    } else {
        0
    };
    let ghost digits = chars@.skip(start as int);
    proof {
        assert(start == 0 ==> digits =~= chars@);
    }
    if chars.len() == start {
        return None;
    }
    let mut value: u64 = 0;
    for i in start..chars.len()
        invariant
            start <= chars@.len(),
            digits == chars@.skip(start as int),
            digits == if s@.len() > 0 && s@[0] == '+' {
                s@.skip(1)
            } else {
                s@
            },
            number(digits.take(i - start)) == Some(value as nat),
            value <= max,
    {
        let c = chars[i];
        proof {
            assert(digits.take(i + 1 - start).drop_last() =~= digits.take(i - start));
            assert(digits.take(i + 1 - start).last() == c);
            if number(digits) is Some {
                lemma_number_grows(digits, i + 1 - start);
            }
        }
        if c < '0' || c > '9' {
            return None;
        }
        let digit: u64 = c as u64 - '0' as u64;
        if value > max / 10 {
            proof {
                assert(value * 10 > max);
            }
            return None;
        }
        value = value * 10;
        if digit > max - value {
            return None;
        }
        value = value + digit;
    }
    proof {
        assert(digits.take(digits.len() as int) =~= digits);
    }
    Some(value)
}

/// Where the last `c` stands, if there is one.
pub open spec fn last_place(s: Seq<char>, c: char) -> Option<int>
    decreases s.len(),
{
    if s.len() == 0 {
        None
    } else if s.last() == c {
        Some(s.len() - 1)
    } else {
        last_place(s.drop_last(), c)
    }
}

/// What follows the last `c`, or everything where there is none.
pub open spec fn after_last(s: Seq<char>, c: char) -> Seq<char> {
    match last_place(s, c) {
        Some(i) => s.skip(i + 1),
        None => s,
    }
}

/// The last `c` is where it is said to stand.
pub proof fn lemma_last_place(s: Seq<char>, c: char)
    ensures
        match last_place(s, c) {
            Some(i) => 0 <= i < s.len() && s[i] == c,
            None => true,
        },
    decreases s.len(),
{
    if s.len() > 0 && s.last() != c {
        lemma_last_place(s.drop_last(), c);
    }
}

/// The part of a text after the last `c`.
pub fn tail_after<'a>(s: &'a str, c: char) -> (r: &'a str)
    ensures
        r@ == after_last(s@, c),
{
    let chars = chars_of(s);
    let len: usize = chars.len();
    let mut n: usize = len;
    proof {
        assert(chars@.take(len as int) =~= chars@);
    }
    while n > 0
        invariant
            n <= len == chars@.len(),
            chars@ == s@,
            last_place(s@, c) == last_place(chars@.take(n as int), c),
        decreases n,
    {
        proof {
            assert(chars@.take(n as int).last() == chars@[n - 1]);
            assert(chars@.take(n as int).drop_last() =~= chars@.take(n - 1));
        }
        if chars[n - 1] == c {
            let tail = s.substring_char(n, len);
            proof {
                assert(tail@ =~= s@.skip(n as int));
            }
            return tail;
        }
        n = n - 1;
    }
    s
}

/// A text without the `c`s it begins with.
pub open spec fn without_leading(s: Seq<char>, c: char) -> Seq<char>
    decreases s.len(),
{
    if s.len() > 0 && s[0] == c {
        without_leading(s.skip(1), c)
    } else {
        s
    }
}

/// Leaves out the `c`s a text begins with.
pub fn trim_leading<'a>(s: &'a str, c: char) -> (r: &'a str)
    ensures
        r@ == without_leading(s@, c),
{
    let chars = chars_of(s);
    let len: usize = chars.len();
    let mut n: usize = 0;
    proof {
        assert(chars@.skip(0) =~= chars@);
    }
    while n < len && chars[n] == c
        invariant
            n <= len == chars@.len(),
            chars@ == s@,
            without_leading(s@, c) == without_leading(chars@.skip(n as int), c),
        decreases len - n,
    {
        proof {
            assert(chars@.skip(n as int).skip(1) =~= chars@.skip(n + 1));
        }
        n = n + 1;
    }
    let rest = s.substring_char(n, len);
    proof {
        assert(rest@ =~= chars@.skip(n as int));
    }
    rest
}

/// Where the first two `c`s in a row stand, if any do.
pub open spec fn pair_place(s: Seq<char>, c: char) -> Option<int>
    decreases s.len(),
{
    if s.len() < 2 {
        None
    } else if s[0] == c && s[1] == c {
        Some(0)
    } else {
        match pair_place(s.skip(1), c) {
            Some(i) => Some(i + 1),
            None => None,
        }
    }
}

/// The parts of a text around the first two `c`s in a row, if there are any.
pub open spec fn parted(s: Seq<char>, c: char) -> Option<(Seq<char>, Seq<char>)> {
    match pair_place(s, c) {
        Some(i) => Some((s.take(i), s.skip(i + 2))),
        None => None,
    }
}

/// Parts a text at the first two `c`s in a row.
pub fn part_at_pair<'a>(s: &'a str, c: char) -> (r: Option<(&'a str, &'a str)>)
    ensures
        match r {
            Some(parts) => parted(s@, c) == Some((parts.0@, parts.1@)),
            None => parted(s@, c) is None,
        },
{
    let chars = chars_of(s);
    let len: usize = chars.len();
    let mut n: usize = 0;
    proof {
        assert(chars@.skip(0) =~= chars@);
    }
    while len - n >= 2
        invariant
            n <= len == chars@.len(),
            chars@ == s@,
            pair_place(s@, c) == match pair_place(chars@.skip(n as int), c) {
                Some(i) => Some(i + n),
                None => None,
            },
        decreases len - n,
    {
        if chars[n] == c && chars[n + 1] == c {
            let (before, after) = (s.substring_char(0, n), s.substring_char(n + 2, len));
            proof {
                assert(before@ =~= s@.take(n as int));
                assert(after@ =~= s@.skip(n + 2));
            }
            return Some((before, after));
        }
        proof {
            assert(chars@.skip(n as int).skip(1) =~= chars@.skip(n + 1));
        }
        n = n + 1;
    }
    None
}

} // verus!
