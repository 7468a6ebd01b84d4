//! Text as sequences of characters: searching, trimming, order, numerals.

use crate::order;
use crate::order::Relation;
use vstd::prelude::*;

verus! {

/// `String::push` appends the character to the end of the string.
pub assume_specification[ String::push ](s: &mut String, c: char)
    ensures
        final(s)@ == old(s)@.push(c),
;

/// `std::str::from_utf8` reads `bytes` as UTF-8: the text that they encode, or
/// nothing when they are not valid UTF-8.
#[verifier::external_body]
pub(crate) fn utf8_text(bytes: &[u8]) -> (text: Option<&str>)
    ensures
        text matches Some(decoded) ==> vstd::utf8::valid_utf8(bytes@) && decoded@
            == vstd::utf8::decode_utf8(bytes@),
        text is None ==> !vstd::utf8::valid_utf8(bytes@),
{
    std::str::from_utf8(bytes).ok()
}

/// The characters of `s`, in order.
pub fn chars_of(s: &str) -> (chars: Vec<char>)
    ensures
        chars@ == s@,
{
    let mut chars: Vec<char> = Vec::new();
    for c in it: s.chars()
        invariant
            chars@ == it.seq().take(it.index() as int),
            it.seq() == s@,
    {
        chars.push(c);
    }
    chars
}

/// The text that the characters from `from` up to `to` spell.
pub fn text_of(chars: &Vec<char>, from: usize, to: usize) -> (text: String)
    requires
        from <= to <= chars@.len(),
    ensures
        text@ == chars@.subrange(from as int, to as int),
{
    let mut text = String::new();
    let mut i: usize = from;
    while i < to
        invariant
            from <= i <= to <= chars@.len(),
            text@ == chars@.subrange(from as int, i as int),
        decreases to - i,
    {
        text.push(chars[i]);
        i = i + 1;
        assert(chars@.subrange(from as int, i as int) =~= chars@.subrange(
            from as int,
            i - 1,
        ).push(chars@[i - 1]));
    }
    text
}

/// Unicode's property White_Space.
pub open spec fn white_space(c: char) -> bool {
    ||| '\u{9}' <= c <= '\u{d}'
    ||| c == ' '
    ||| c == '\u{85}'
    ||| c == '\u{a0}'
    ||| c == '\u{1680}'
    ||| '\u{2000}' <= c <= '\u{200a}'
    ||| c == '\u{2028}'
    ||| c == '\u{2029}'
    ||| c == '\u{202f}'
    ||| c == '\u{205f}'
    ||| c == '\u{3000}'
}

/// Whether `c` is white space.
pub fn is_white_space(c: char) -> (yes: bool)
    ensures
        yes == white_space(c),
{
    ('\u{9}' <= c && c <= '\u{d}') || c == ' ' || c == '\u{85}' || c == '\u{a0}' || c == '\u{1680}'
        || ('\u{2000}' <= c && c <= '\u{200a}') || c == '\u{2028}' || c == '\u{2029}'
        || c == '\u{202f}' || c == '\u{205f}' || c == '\u{3000}'
}

/// `s` without the white space it starts with.
pub open spec fn trimmed_start(s: Seq<char>) -> Seq<char>
    decreases s.len(),
{
    if s.len() > 0 && white_space(s.first()) {
        trimmed_start(s.drop_first())
    } else {
        s
    }
}

/// White space in front is dropped, however much there is.
pub proof fn lemma_trim_start_drops_white_space(space: Seq<char>, rest: Seq<char>)
    requires
        forall|i: int| 0 <= i < space.len() ==> white_space(#[trigger] space[i]),
    ensures
        trimmed_start(space + rest) == trimmed_start(rest),
    decreases space.len(),
{
    if space.len() == 0 {
        assert(space + rest =~= rest);
    } else {
        assert((space + rest).first() == space[0]);
        assert((space + rest).drop_first() =~= space.drop_first() + rest);
        lemma_trim_start_drops_white_space(space.drop_first(), rest);
    }
}

/// `s` without the white space it ends with.
pub open spec fn trimmed_end(s: Seq<char>) -> Seq<char>
    decreases s.len(),
{
    if s.len() > 0 && white_space(s.last()) {
        trimmed_end(s.drop_last())
    } else {
        s
    }
}

/// `s` without the white space at both ends.
pub open spec fn trimmed(s: Seq<char>) -> Seq<char> {
    trimmed_end(trimmed_start(s))
}

/// The index of the first character that is not white space, or the length.
pub fn leading_white_space(chars: &Vec<char>) -> (n: usize)
    ensures
        n <= chars@.len(),
        trimmed_start(chars@) == chars@.skip(n as int),
{
    let mut n: usize = 0;
    assert(chars@.skip(0) =~= chars@);
    while n < chars.len() && is_white_space(chars[n])
        invariant
            n <= chars@.len(),
            trimmed_start(chars@) == trimmed_start(chars@.skip(n as int)),
        decreases chars@.len() - n,
    {
        assert(chars@.skip(n as int).drop_first() =~= chars@.skip(n + 1));
        n = n + 1;
    }
    n
}

/// `text` without the white space at both ends.
pub fn trim(text: &str) -> (result: String)
    ensures
        result@ == trimmed(text@),
{
    let chars = chars_of(text);
    let from = leading_white_space(&chars);
    let mut to: usize = chars.len();
    assert(chars@.subrange(from as int, to as int) =~= chars@.skip(from as int));
    while from < to && is_white_space(chars[to - 1])
        invariant
            from <= to <= chars@.len(),
            trimmed(chars@) == trimmed_end(chars@.subrange(from as int, to as int)),
        decreases to,
    {
        let ghost rest = chars@.subrange(from as int, to as int);
        assert(rest.last() == chars@[to - 1]);
        assert(rest.drop_last() =~= chars@.subrange(from as int, to - 1));
        to = to - 1;
    }
    let ghost rest = chars@.subrange(from as int, to as int);
    assert(rest.len() > 0 ==> rest.last() == chars@[to - 1]);
    text_of(&chars, from, to)
}

/// ASCII upper case letters become lower case; every other character stays.
pub open spec fn ascii_lower(c: char) -> char {
    if 'A' <= c <= 'Z' {
        (c as u8 + 32) as char
    } else {
        c
    }
}

/// `s` with its ASCII letters in lower case.
pub open spec fn ascii_lowered(s: Seq<char>) -> Seq<char> {
    s.map_values(|c: char| ascii_lower(c))
}

/// It is the same to trim before and after the change to lower case.
pub proof fn lemma_trim_start_keeps_case(s: Seq<char>)
    ensures
        trimmed_start(ascii_lowered(s)) == ascii_lowered(trimmed_start(s)),
    decreases s.len(),
{
    if s.len() > 0 && white_space(s.first()) {
        lemma_trim_start_keeps_case(s.drop_first());
        assert(ascii_lowered(s).drop_first() =~= ascii_lowered(s.drop_first()));
    }
}

/// `c` in lower case, if it is an ASCII letter.
pub fn to_ascii_lower(c: char) -> (lower: char)
    ensures
        lower == ascii_lower(c),
{
    if 'A' <= c && c <= 'Z' {
        ((c as u8) + 32) as char
    } else {
        c
    }
}

/// `part` occurs in `s` at `at`.
pub open spec fn occurs_at(s: Seq<char>, part: Seq<char>, at: int) -> bool {
    0 <= at && at + part.len() <= s.len() && s.subrange(at, at + part.len()) == part
}

/// `s` starts with `part`.
pub open spec fn begins_with(s: Seq<char>, part: Seq<char>) -> bool {
    occurs_at(s, part, 0)
}

/// Text starts with one character where that is its first one.
pub proof fn lemma_begins_with_char(s: Seq<char>, c: char)
    ensures
        begins_with(s, seq![c]) <==> s.len() > 0 && s[0] == c,
{
    if s.len() > 0 {
        assert(s.subrange(0, 1) =~= seq![s[0]]);
        assert(seq![s[0]][0] == s[0]);
        assert(seq![c][0] == c);
    }
}

/// `s` ends with `part`.
pub open spec fn finishes_with(s: Seq<char>, part: Seq<char>) -> bool {
    occurs_at(s, part, s.len() - part.len())
}

/// `part` occurs somewhere in `s`.
pub open spec fn holds_part(s: Seq<char>, part: Seq<char>) -> bool {
    exists|at: int| #[trigger] occurs_at(s, part, at)
}

/// Whether `part` occurs in `chars` at `at`.
pub fn part_at(chars: &Vec<char>, part: &Vec<char>, at: usize) -> (yes: bool)
    ensures
        yes == occurs_at(chars@, part@, at as int),
{
    let total = chars.len();
    if at > total || total - at < part.len() {
        return false;
    }
    let mut i: usize = 0;
    while i < part.len()
        invariant
            total == chars@.len(),
            i <= part@.len(),
            at + part@.len() <= total,
            forall|j: int| 0 <= j < i ==> chars@[at + j] == #[trigger] part@[j],
        decreases part@.len() - i,
    {
        if chars[at + i] != part[i] {
            assert(chars@.subrange(at as int, at + part@.len())[i as int] != part@[i as int]);
            return false;
        }
        i = i + 1;
    }
    assert(chars@.subrange(at as int, at + part@.len()) =~= part@);
    true
}

/// Whether `chars` starts with `part`.
pub fn starts_with(chars: &Vec<char>, part: &str) -> (yes: bool)
    ensures
        yes == begins_with(chars@, part@),
{
    part_at(chars, &chars_of(part), 0)
}

/// Whether `chars` ends with `part`.
pub fn ends_with(chars: &Vec<char>, part: &str) -> (yes: bool)
    ensures
        yes == finishes_with(chars@, part@),
{
    let part = chars_of(part);
    if chars.len() < part.len() {
        return false;
    }
    part_at(chars, &part, chars.len() - part.len())
}

/// Whether `part` occurs in `chars`.
pub fn contains(chars: &Vec<char>, part: &str) -> (yes: bool)
    ensures
        yes == holds_part(chars@, part@),
{
    let wanted = chars_of(part);
    let mut at: usize = 0;
    while at < chars.len()
        invariant
            at <= chars@.len(),
            wanted@ == part@,
            forall|k: int| 0 <= k < at ==> !#[trigger] occurs_at(chars@, part@, k),
        decreases chars@.len() - at,
    {
        if part_at(chars, &wanted, at) {
            return true;
        }
        at = at + 1;
    }
    part_at(chars, &wanted, at)
}

/// `s` with every `\` replaced by `/`.
pub open spec fn forward_slashed(s: Seq<char>) -> Seq<char> {
    s.map_values(|c: char| if c == '\\' { '/' } else { c })
}

/// `text` with every `\` replaced by `/`.
pub fn forward_slashes(text: &str) -> (result: String)
    ensures
        result@ == forward_slashed(text@),
{
    let chars = chars_of(text);
    let mut result = String::new();
    let mut i: usize = 0;
    while i < chars.len()
        invariant
            i <= chars@.len(),
            result@ == forward_slashed(chars@.take(i as int)),
        decreases chars@.len() - i,
    {
        let c = chars[i];
        if c == '\\' {
            result.push('/');
        } else {
            result.push(c);
        }
        i = i + 1;
        assert(chars@.take(i as int) =~= chars@.take(i - 1).push(c));
        assert(result@ =~= forward_slashed(chars@.take(i as int)));
    }
    assert(chars@.take(chars@.len() as int) =~= chars@);
    result
}

/// The digit for `d`.
pub open spec fn digit(d: int) -> char
    recommends
        0 <= d < 10,
{
    (48 + d) as char
}

/// The decimal numeral of `n`, without leading zeros.
pub open spec fn decimal(n: nat) -> Seq<char>
    decreases n,
{
    if n < 10 {
        seq![digit(n as int)]
    } else {
        decimal(n / 10).push(digit((n % 10) as int))
    }
}

/// The decimal numeral of `n`.
pub fn decimal_text(n: u64) -> (text: String)
    ensures
        text@ == decimal(n as nat),
    decreases n,
{
    let last = (48 + (n % 10) as u8) as char;
    let mut text = if n < 10 {
        String::new()
    } else {
        decimal_text(n / 10)
    };
    text.push(last);
    assert(n < 10 ==> text@ =~= seq![digit(n as int)]);
    text
}

/// A numeral has a digit, and nothing but digits.
pub proof fn lemma_decimal_digits(n: nat)
    ensures
        decimal(n).len() > 0,
        forall|i: int| 0 <= i < decimal(n).len() ==> '0' <= #[trigger] decimal(n)[i] <= '9',
    decreases n,
{
    if n >= 10 {
        lemma_decimal_digits(n / 10);
    }
}

/// Different numbers have different numerals.
pub proof fn lemma_decimal_injective(m: nat, n: nat)
    requires
        decimal(m) == decimal(n),
    ensures
        m == n,
    decreases m,
{
    lemma_decimal_digits(m / 10);
    lemma_decimal_digits(n / 10);
    assert(decimal(m).last() == digit((m % 10) as int));
    assert(decimal(n).last() == digit((n % 10) as int));
    if m >= 10 && n >= 10 {
        assert(decimal(m).drop_last() =~= decimal(m / 10));
        assert(decimal(n).drop_last() =~= decimal(n / 10));
        lemma_decimal_injective(m / 10, n / 10);
    }
}

/// `s` with zeros in front, up to six characters in all.
pub open spec fn zero_padded(s: Seq<char>) -> Seq<char> {
    if s.len() < 6 {
        Seq::new((6 - s.len()) as nat, |i: int| '0') + s
    } else {
        s
    }
}

proof fn lemma_decimal_first(n: nat)
    requires
        n > 0,
    ensures
        decimal(n)[0] != '0',
    decreases n,
{
    if n >= 10 {
        lemma_decimal_first(n / 10);
        lemma_decimal_digits(n / 10);
    }
}

/// A padded numeral has nothing but digits.
pub proof fn lemma_padded_digits(n: nat)
    ensures
        forall|i: int|
            0 <= i < zero_padded(decimal(n)).len() ==> '0' <= #[trigger] zero_padded(
                decimal(n),
            )[i] <= '9',
{
    lemma_decimal_digits(n);
    let padded = zero_padded(decimal(n));
    let zeros = padded.len() - decimal(n).len();
    assert forall|i: int| 0 <= i < padded.len() implies '0' <= #[trigger] padded[i] <= '9' by {
        if i >= zeros {
            assert(padded[i] == decimal(n)[i - zeros]);
        }
    }
}

/// Different numbers have different padded numerals.
pub proof fn lemma_padded_injective(m: nat, n: nat)
    requires
        zero_padded(decimal(m)) == zero_padded(decimal(n)),
    ensures
        m == n,
{
    lemma_decimal_digits(m);
    lemma_decimal_digits(n);
    let a = decimal(m);
    let b = decimal(n);
    let padded = zero_padded(a);
    assert(a =~= padded.skip(padded.len() - a.len()));
    assert(b =~= padded.skip(padded.len() - b.len()));
    if a.len() < b.len() {
        assert(zero_padded(a)[padded.len() - b.len()] == '0');
        assert(b[0] == '0');
        if n > 0 {
            lemma_decimal_first(n);
        }
    } else if b.len() < a.len() {
        assert(zero_padded(b)[padded.len() - a.len()] == '0');
        assert(a[0] == '0');
        if m > 0 {
            lemma_decimal_first(m);
        }
    }
    lemma_decimal_injective(m, n);
}

/// Ten to the power of `width`.
spec fn power_of_ten(width: nat) -> nat
    decreases width,
{
    if width == 0 {
        1
    } else {
        10 * power_of_ten((width - 1) as nat)
    }
}

/// The last `width` digits of `n`.
spec fn last_digits(n: nat, width: nat) -> Seq<char>
    decreases width,
{
    if width == 0 {
        Seq::empty()
    } else {
        last_digits(n / 10, (width - 1) as nat).push(digit((n % 10) as int))
    }
}

spec fn zeros(count: nat) -> Seq<char> {
    Seq::new(count, |i: int| '0')
}

proof fn lemma_last_digits_of_zero(width: nat)
    ensures
        last_digits(0, width) == zeros(width),
    decreases width,
{
    if width > 0 {
        lemma_last_digits_of_zero((width - 1) as nat);
    }
    assert(last_digits(0, width) =~= zeros(width));
}

proof fn lemma_padded_to_width(n: nat, width: nat)
    requires
        width > 0,
        n < power_of_ten(width),
    ensures
        decimal(n).len() <= width,
        zeros((width - decimal(n).len()) as nat) + decimal(n) == last_digits(n, width),
    decreases width,
{
    let shorter = (width - 1) as nat;
    if n < 10 {
        lemma_last_digits_of_zero(shorter);
        assert(zeros(shorter) + decimal(n) =~= zeros(shorter).push(digit(n as int)));
    } else {
        assert(power_of_ten(width) == 10 * power_of_ten(shorter));
        if shorter == 0 {
            assert(power_of_ten(0) == 1);
        } else {
            lemma_padded_to_width(n / 10, shorter);
            let front = zeros((shorter - decimal(n / 10).len()) as nat);
            assert(front + decimal(n) =~= (front + decimal(n / 10)).push(digit((n % 10) as int)));
        }
    }
}

proof fn lemma_last_digits_ascend(m: nat, n: nat, width: nat) -> (k: int)
    requires
        m < n < power_of_ten(width),
    ensures
        0 <= k < width,
        last_digits(m, width).len() == width,
        last_digits(n, width).len() == width,
        last_digits(m, width).take(k) == last_digits(n, width).take(k),
        last_digits(m, width)[k] < last_digits(n, width)[k],
    decreases width,
{
    if width == 0 {
        assert(power_of_ten(0) == 1);
        0
    } else {
        let shorter = (width - 1) as nat;
        let a = last_digits(m / 10, shorter);
        let b = last_digits(n / 10, shorter);
        if m / 10 < n / 10 {
            let k = lemma_last_digits_ascend(m / 10, n / 10, shorter);
            assert(last_digits(m, width).take(k) =~= a.take(k));
            assert(last_digits(n, width).take(k) =~= b.take(k));
            k
        } else {
            lemma_last_digits_len(m / 10, shorter);
            assert(last_digits(m, width).take(shorter as int) =~= a);
            assert(last_digits(n, width).take(shorter as int) =~= b);
            shorter as int
        }
    }
}

proof fn lemma_last_digits_len(n: nat, width: nat)
    ensures
        last_digits(n, width).len() == width,
    decreases width,
{
    if width > 0 {
        lemma_last_digits_len(n / 10, (width - 1) as nat);
    }
}

/// Up to six digits, the padded numeral of a smaller number comes first,
/// whatever follows the two numerals.
pub proof fn lemma_padded_ascend(m: nat, n: nat, x: Seq<char>, y: Seq<char>)
    requires
        m < n <= 999_999,
    ensures
        text_less(zero_padded(decimal(m)) + x, zero_padded(decimal(n)) + y),
{
    reveal_with_fuel(power_of_ten, 7);
    assert(power_of_ten(6) == 1_000_000);
    lemma_padded_to_width(m, 6);
    lemma_padded_to_width(n, 6);
    let a = zero_padded(decimal(m));
    let b = zero_padded(decimal(n));
    assert(a =~= last_digits(m, 6));
    assert(b =~= last_digits(n, 6));
    let k = lemma_last_digits_ascend(m, n, 6);
    assert((a + x).take(k) =~= a.take(k));
    assert((b + y).take(k) =~= b.take(k));
    assert(order::less_at(a + x, b + y, char_less(), k));
}

/// The numeral of `n` with zeros in front, at least six digits wide.
pub fn padded_decimal_text(n: u64) -> (text: String)
    ensures
        text@ == zero_padded(decimal(n as nat)),
{
    let numeral = decimal_text(n);
    let width = chars_of(&numeral).len();
    let mut text = String::new();
    let mut i: usize = width;
    while i < 6
        invariant
            width <= i,
            i <= 6 || i == width,
            text@ == Seq::new((i - width) as nat, |j: int| '0'),
        decreases 6 - i,
    {
        text.push('0');
        i = i + 1;
        assert(text@ =~= Seq::new((i - width) as nat, |j: int| '0'));
    }
    text.append(&numeral);
    assert(width >= 6 ==> text@ =~= numeral@);
    text
}

/// Characters are ordered by their code points.
pub open spec fn char_less() -> spec_fn(char, char) -> bool {
    |x: char, y: char| x < y
}

/// Text is ordered by the code points of its characters.
pub open spec fn text_less(a: Seq<char>, b: Seq<char>) -> bool {
    order::lex_less(a, b, char_less())
}

/// How `a` stands to `b` in the order of text.
pub fn relate_text(a: &str, b: &str) -> (relation: Relation)
    ensures
        relation == (if a@ == b@ {
            Relation::Equal
        } else if text_less(a@, b@) {
            Relation::Less
        } else {
            Relation::Greater
        }),
{
    let x = chars_of(a);
    let y = chars_of(b);
    let mut i: usize = 0;
    while i < x.len() && i < y.len() && x[i] == y[i]
        invariant
            i <= x@.len(),
            i <= y@.len(),
            x@.take(i as int) == y@.take(i as int),
        decreases x@.len() - i,
    {
        i = i + 1;
        assert(x@.take(i as int) =~= x@.take(i - 1).push(x@[i - 1]));
        assert(y@.take(i as int) =~= y@.take(i - 1).push(y@[i - 1]));
    }
    assert(x@.take(x@.len() as int) =~= x@);
    assert(y@.take(y@.len() as int) =~= y@);
    if i == x.len() {
        if i == y.len() {
            Relation::Equal
        } else {
            assert(order::less_at(x@, y@, char_less(), i as int));
            Relation::Less
        }
    } else if i == y.len() {
        assert(order::less_at(y@, x@, char_less(), i as int));
        proof {
            lemma_text_less_asymmetric(y@, x@);
        }
        Relation::Greater
    } else if x[i] < y[i] {
        assert(order::less_at(x@, y@, char_less(), i as int));
        Relation::Less
    } else {
        assert(order::less_at(y@, x@, char_less(), i as int));
        proof {
            lemma_text_less_asymmetric(y@, x@);
        }
        Relation::Greater
    }
}

/// The order of text is a strict total order.
pub proof fn lemma_text_less_total(a: Seq<char>, b: Seq<char>)
    ensures
        !text_less(a, a),
        text_less(a, b) || a == b || text_less(b, a),
{
    order::lemma_lex_irreflexive(a, char_less());
    order::lemma_lex_total(a, b, char_less());
}

/// Of two texts at most one comes before the other.
pub proof fn lemma_text_less_asymmetric(a: Seq<char>, b: Seq<char>)
    requires
        text_less(a, b),
    ensures
        a != b,
        !text_less(b, a),
{
    order::lemma_lex_irreflexive(a, char_less());
    if order::lex_less(b, a, char_less()) {
        order::lemma_lex_transitive(a, b, a, char_less());
    }
}

/// The order of text is transitive.
pub proof fn lemma_text_less_transitive(a: Seq<char>, b: Seq<char>, c: Seq<char>)
    requires
        text_less(a, b),
        text_less(b, c),
    ensures
        text_less(a, c),
{
    order::lemma_lex_transitive(a, b, c, char_less());
}

/// All of `s` is white space.
pub open spec fn is_blank(s: Seq<char>) -> bool {
    forall|i: int| 0 <= i < s.len() ==> white_space(#[trigger] s[i])
}

/// Trimming the start takes a run of white space off, and stops at the first
/// character that is none. Gives that run.
pub proof fn law_trimming_the_start_stops_at_the_first_character(s: Seq<char>) -> (space: Seq<char>)
    ensures
        is_blank(space),
        s == space + trimmed_start(s),
        trimmed_start(s).len() > 0 ==> !white_space(trimmed_start(s)[0]),
    decreases s.len(),
{
    if s.len() > 0 && white_space(s.first()) {
        let space = law_trimming_the_start_stops_at_the_first_character(s.drop_first());
        let longer = seq![s.first()] + space;
        assert forall|i: int| 0 <= i < longer.len() implies white_space(#[trigger] longer[i]) by {
            if i > 0 {
                assert(longer[i] == space[i - 1]);
            }
        }
        assert(s =~= seq![s.first()] + s.drop_first());
        assert(longer + trimmed_start(s) =~= seq![s.first()] + (space + trimmed_start(s)));
        longer
    } else {
        assert(s =~= Seq::<char>::empty() + s);
        Seq::empty()
    }
}

proof fn lemma_trimming_the_end(s: Seq<char>) -> (space: Seq<char>)
    ensures
        is_blank(space),
        s == trimmed_end(s) + space,
        trimmed_end(s).len() > 0 ==> !white_space(trimmed_end(s).last()),
    decreases s.len(),
{
    if s.len() > 0 && white_space(s.last()) {
        let space = lemma_trimming_the_end(s.drop_last());
        let longer = space.push(s.last());
        assert(s =~= s.drop_last().push(s.last()));
        assert(trimmed_end(s) + longer =~= (trimmed_end(s) + space).push(s.last()));
        longer
    } else {
        assert(s =~= s + Seq::<char>::empty());
        Seq::empty()
    }
}

/// Trimming takes white space off both ends and nothing else: what is left
/// neither starts nor ends with any. Gives what was taken off in front and
/// behind.
pub proof fn law_trimming_leaves_no_white_space_at_the_ends(s: Seq<char>) -> (off: (
    Seq<char>,
    Seq<char>,
))
    ensures
        is_blank(off.0),
        is_blank(off.1),
        s == off.0 + trimmed(s) + off.1,
        trimmed(s).len() > 0 ==> !white_space(trimmed(s)[0]) && !white_space(
            trimmed(s)[trimmed(s).len() - 1],
        ),
        is_blank(s) <==> trimmed(s).len() == 0,
{
    let front = law_trimming_the_start_stops_at_the_first_character(s);
    let start = trimmed_start(s);
    let back = lemma_trimming_the_end(start);
    let middle = trimmed(s);
    assert(s =~= front + middle + back);
    if middle.len() > 0 {
        assert(middle[0] == start[0]);
        assert(s[front.len() as int] == middle[0]);
    } else {
        assert forall|i: int| 0 <= i < s.len() implies white_space(#[trigger] s[i]) by {
            if i < front.len() {
                assert(s[i] == front[i]);
            } else {
                assert(s[i] == back[i - front.len()]);
            }
        }
    }
    (front, back)
}

/// Text starts with its front, ends with its end and holds every part of it,
/// whatever stands around that part.
pub proof fn law_parts_are_found(front: Seq<char>, part: Seq<char>, rest: Seq<char>)
    ensures
        begins_with(part + rest, part),
        finishes_with(front + part, part),
        holds_part(front + part + rest, part),
        occurs_at(front + part + rest, part, front.len() as int),
{
    let n = part.len() as int;
    let whole = front + part + rest;
    assert((part + rest).subrange(0, n) =~= part);
    assert((front + part).subrange(front.len() as int, front.len() + n) =~= part);
    assert(whole.subrange(front.len() as int, front.len() + n) =~= part);
    assert(occurs_at(whole, part, front.len() as int));
}

/// A part that was found stands there. Gives a place for a part that the text
/// holds.
pub proof fn law_found_parts_stand_there(s: Seq<char>, part: Seq<char>) -> (at: int)
    ensures
        begins_with(s, part) ==> s == part + s.skip(part.len() as int),
        finishes_with(s, part) ==> part.len() <= s.len() && s == s.take(s.len() - part.len())
            + part,
        holds_part(s, part) ==> 0 <= at <= s.len() - part.len() && s == s.take(at) + part + s.skip(
            at + part.len(),
        ),
{
    if begins_with(s, part) {
        assert(s =~= s.subrange(0, part.len() as int) + s.skip(part.len() as int));
    }
    if finishes_with(s, part) {
        let k = s.len() - part.len();
        assert(s =~= s.take(k) + s.subrange(k, s.len() as int));
    }
    if holds_part(s, part) {
        let at = choose|at: int| #[trigger] occurs_at(s, part, at);
        assert(s =~= s.take(at) + s.subrange(at, at + part.len()) + s.skip(at + part.len()));
        at
    } else {
        0
    }
}

/// Backslashes, and they alone, become slashes; nothing else changes.
pub proof fn law_only_backslashes_change(s: Seq<char>)
    ensures
        forward_slashed(s).len() == s.len(),
        forall|i: int|
            0 <= i < s.len() ==> #[trigger] forward_slashed(s)[i] != '\\' && (forward_slashed(s)[i]
                == s[i] || s[i] == '\\' && forward_slashed(s)[i] == '/'),
{
}

/// The change to lower case keeps every character but the letters from `A` to
/// `Z`, and moves each of these by the distance of `a` from `A`.
pub proof fn law_only_ascii_letters_change(s: Seq<char>)
    ensures
        ascii_lowered(s).len() == s.len(),
        forall|i: int|
            0 <= i < s.len() ==> #[trigger] ascii_lowered(s)[i] as int == if 'A' <= s[i] <= 'Z' {
                s[i] as int + ('a' as int - 'A' as int)
            } else {
                s[i] as int
            },
{
}

/// The first character in which two texts differ decides their order, and a
/// text comes before those that it is the front of.
pub proof fn law_first_difference_decides(
    front: Seq<char>,
    c: char,
    d: char,
    x: Seq<char>,
    y: Seq<char>,
)
    requires
        c < d,
    ensures
        text_less(front + seq![c] + x, front + seq![d] + y),
        !text_less(front + seq![d] + y, front + seq![c] + x),
        text_less(front, front + seq![c] + x),
        !text_less(front + seq![c] + x, front),
        !text_less(front, front),
{
    let a = front + seq![c] + x;
    let b = front + seq![d] + y;
    let k = front.len() as int;
    assert(a.take(k) =~= front);
    assert(b.take(k) =~= front);
    assert(front.take(k) =~= front);
    assert(order::less_at(a, b, char_less(), k));
    assert(order::less_at(front, a, char_less(), k));
    lemma_text_less_asymmetric(a, b);
    lemma_text_less_asymmetric(front, a);
    lemma_text_less_total(front, front);
}

/// The number that a row of decimal digits writes.
pub open spec fn numeral_value(digits: Seq<char>) -> int
    decreases digits.len(),
{
    if digits.len() == 0 {
        0
    } else {
        10 * numeral_value(digits.drop_last()) + (digits.last() as int - '0' as int)
    }
}

proof fn lemma_leading_zeros(count: nat, digits: Seq<char>)
    ensures
        numeral_value(zeros(count) + digits) == numeral_value(digits),
    decreases digits.len() + count,
{
    let whole = zeros(count) + digits;
    if digits.len() > 0 {
        assert(whole.drop_last() =~= zeros(count) + digits.drop_last());
        lemma_leading_zeros(count, digits.drop_last());
    } else if count > 0 {
        let shorter = (count - 1) as nat;
        assert(whole.drop_last() =~= zeros(shorter) + digits);
        lemma_leading_zeros(shorter, digits);
    }
}

/// A numeral is made of digits that write its number, and has no zero in front
/// but that of zero itself.
pub proof fn law_numerals_write_their_numbers(n: nat)
    ensures
        numeral_value(decimal(n)) == n,
        decimal(n).len() > 0,
        forall|i: int| 0 <= i < decimal(n).len() ==> '0' <= #[trigger] decimal(n)[i] <= '9',
        decimal(n)[0] == '0' ==> decimal(n).len() == 1,
    decreases n,
{
    lemma_decimal_digits(n);
    if n >= 10 {
        law_numerals_write_their_numbers(n / 10);
        assert(decimal(n).drop_last() =~= decimal(n / 10));
        lemma_decimal_first(n);
    } else {
        assert(decimal(n).drop_last() =~= Seq::<char>::empty());
        assert(numeral_value(Seq::<char>::empty()) == 0);
    }
}

/// A padded numeral writes the same number, in six digits or, without a zero in
/// front, in more.
pub proof fn law_padded_numerals_write_their_numbers(n: nat)
    ensures
        numeral_value(zero_padded(decimal(n))) == n,
        zero_padded(decimal(n)).len() >= 6,
        zero_padded(decimal(n)).len() > 6 ==> zero_padded(decimal(n))[0] != '0',
        forall|i: int|
            0 <= i < zero_padded(decimal(n)).len() ==> '0' <= #[trigger] zero_padded(
                decimal(n),
            )[i] <= '9',
{
    law_numerals_write_their_numbers(n);
    lemma_padded_digits(n);
    if decimal(n).len() < 6 {
        let count = (6 - decimal(n).len()) as nat;
        lemma_leading_zeros(count, decimal(n));
        assert(zero_padded(decimal(n)) =~= zeros(count) + decimal(n));
    }
}

} // verus!
