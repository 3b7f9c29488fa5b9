//! Character-level text operations shared by the rest of the crate.

use vstd::prelude::*;
use vstd::string::*;

verus! {

/// Whether `c` carries the Unicode `White_Space` property: the controls from
/// tab to carriage return, the blank, the next-line control, the no-break
/// blank, the Ogham space mark, the blanks from en quad to hair space, the
/// line and paragraph separators, the narrow no-break blank, the medium
/// mathematical blank and the ideographic blank.
pub open spec fn is_white_space(c: char) -> bool {
    let n = c as u32;
    ||| 0x0009 <= n <= 0x000D
    ||| n == 0x0020
    ||| n == 0x0085
    ||| n == 0x00A0
    ||| n == 0x1680
    ||| 0x2000 <= n <= 0x200A
    ||| n == 0x2028
    ||| n == 0x2029
    ||| n == 0x202F
    ||| n == 0x205F
    ||| n == 0x3000
}

/// `char::is_whitespace` answers whether the character has the Unicode
/// `White_Space` property; the result is that answer.
#[verifier::external_body]
fn char_is_whitespace(c: char) -> (b: bool)
    ensures
        b == is_white_space(c),
{
    c.is_whitespace()
}

/// A class of characters that trimming removes from both ends of a text.
#[derive(Clone, Copy, Debug)]
pub enum CharClass {
    /// Unicode white space.
    WhiteSpace,
    /// The path separator `/`.
    Slash,
}

impl CharClass {
    /// Whether `c` belongs to the class.
    pub open spec fn has(self, c: char) -> bool {
        match self {
            CharClass::WhiteSpace => is_white_space(c),
            CharClass::Slash => c == '/',
        }
    }

    /// Decides membership of `c`.
    pub fn contains(&self, c: char) -> (b: bool)
        ensures
            b == self.has(c),
    {
        match self {
            CharClass::WhiteSpace => char_is_whitespace(c),
            CharClass::Slash => c == '/',
        }
    }
}

/// How many characters at the front of `s` belong to `class`.
pub open spec fn leading_run(s: Seq<char>, class: CharClass) -> nat
    decreases s.len(),
{
    if s.len() > 0 && class.has(s[0]) {
        1 + leading_run(s.drop_first(), class)
    } else {
        0
    }
}

/// How many characters at the back of `s` belong to `class`.
pub open spec fn trailing_run(s: Seq<char>, class: CharClass) -> nat
    decreases s.len(),
{
    if s.len() > 0 && class.has(s.last()) {
        1 + trailing_run(s.drop_last(), class)
    } else {
        0
    }
}

/// `s` without its leading run of `class`.
pub open spec fn trimmed_start(s: Seq<char>, class: CharClass) -> Seq<char> {
    s.skip(leading_run(s, class) as int)
}

/// `s` without its trailing run of `class`.
pub open spec fn trimmed_end(s: Seq<char>, class: CharClass) -> Seq<char> {
    s.take(s.len() - trailing_run(s, class))
}

/// `s` with the characters of `class` removed from both ends.
pub open spec fn trimmed(s: Seq<char>, class: CharClass) -> Seq<char> {
    trimmed_end(trimmed_start(s, class), class)
}

/// The leading run is the first position whose character is outside the class.
pub proof fn lemma_leading_run_is(s: Seq<char>, class: CharClass, n: int)
    requires
        0 <= n <= s.len(),
        forall|k: int| 0 <= k < n ==> class.has(#[trigger] s[k]),
        n < s.len() ==> !class.has(s[n]),
    ensures
        leading_run(s, class) == n,
    decreases n,
{
    if n > 0 {
        let rest = s.drop_first();
        assert forall|k: int| 0 <= k < n - 1 implies class.has(#[trigger] rest[k]) by {
            assert(rest[k] == s[k + 1]);
        }
        if n - 1 < rest.len() {
            assert(rest[n - 1] == s[n]);
        }
        lemma_leading_run_is(rest, class, n - 1);
    }
}

/// The trailing run is what follows the last position whose character is
/// outside the class.
pub proof fn lemma_trailing_run_is(s: Seq<char>, class: CharClass, n: int)
    requires
        0 <= n <= s.len(),
        forall|k: int| s.len() - n <= k < s.len() ==> class.has(#[trigger] s[k]),
        n < s.len() ==> !class.has(s[s.len() - n - 1]),
    ensures
        trailing_run(s, class) == n,
    decreases n,
{
    if n > 0 {
        let rest = s.drop_last();
        assert forall|k: int| rest.len() - (n - 1) <= k < rest.len() implies class.has(
            #[trigger] rest[k],
        ) by {
            assert(rest[k] == s[k]);
        }
        if n - 1 < rest.len() {
            assert(rest[rest.len() - (n - 1) - 1] == s[s.len() - n - 1]);
        }
        lemma_trailing_run_is(rest, class, n - 1);
    }
}

/// The characters of `s`, in order.
pub fn chars_of(s: &str) -> (v: Vec<char>)
    ensures
        v@ == s@,
{
    let mut v: Vec<char> = Vec::new();
    for c in it: s.chars()
        invariant
            v@ == it.seq().take(it.index() as int),
    {
        v.push(c);
    }
    v
}

/// Narrows the window `from..to` of `chars` by trimming `class` from both of
/// its ends, the front first.
pub fn trim_window(chars: &Vec<char>, from: usize, to: usize, class: CharClass) -> (w: (
    usize,
    usize,
))
    requires
        from <= to <= chars.len(),
    ensures
        from <= w.0 <= w.1 <= to,
        chars@.subrange(w.0 as int, w.1 as int) == trimmed(
            chars@.subrange(from as int, to as int),
            class,
        ),
{
    let ghost window = chars@.subrange(from as int, to as int);
    let mut start: usize = from;
    while start < to && class.contains(chars[start])
        invariant
            from <= start <= to <= chars.len(),
            forall|k: int| from <= k < start ==> class.has(#[trigger] chars@[k]),
        decreases to - start,
    {
        start += 1;
    }
    let mut end: usize = to;
    while end > start && class.contains(chars[end - 1])
        invariant
            start <= end <= to <= chars.len(),
            forall|k: int| end <= k < to ==> class.has(#[trigger] chars@[k]),
        decreases end - start,
    {
        end -= 1;
    }
    proof {
        assert forall|k: int| 0 <= k < start - from implies class.has(#[trigger] window[k]) by {
            assert(window[k] == chars@[from + k]);
        }
        lemma_leading_run_is(window, class, start - from);
        let rest = trimmed_start(window, class);
        assert(rest =~= chars@.subrange(start as int, to as int));
        assert forall|k: int| rest.len() - (to - end) <= k < rest.len() implies class.has(
            #[trigger] rest[k],
        ) by {
            assert(rest[k] == chars@[start + k]);
        }
        if to - end < rest.len() {
            assert(rest[rest.len() - (to - end) - 1] == chars@[end - 1]);
        }
        lemma_trailing_run_is(rest, class, to - end);
        assert(trimmed(window, class) =~= chars@.subrange(start as int, end as int));
    }
    (start, end)
}

/// Whether `text` holds anything but white space.
pub fn has_text(text: &str) -> (b: bool)
    ensures
        b == (trimmed(text@, CharClass::WhiteSpace).len() > 0),
{
    let chars = chars_of(text);
    let window = trim_window(&chars, 0, chars.len(), CharClass::WhiteSpace);
    proof {
        assert(chars@.subrange(0, chars.len() as int) =~= text@);
    }
    window.0 < window.1
}

/// How often `c` occurs in `s`.
pub open spec fn occurrences(s: Seq<char>, c: char) -> nat
    decreases s.len(),
{
    if s.len() == 0 {
        0
    } else {
        occurrences(s.drop_last(), c) + if s.last() == c {
            1nat
        } else {
            0nat
        }
    }
}

/// Counts the occurrences of `c` in the window `from..to` of `chars`.
pub fn count_in_window(chars: &Vec<char>, from: usize, to: usize, c: char) -> (n: usize)
    requires
        from <= to <= chars.len(),
    ensures
        n == occurrences(chars@.subrange(from as int, to as int), c),
        n <= to - from,
{
    let mut n: usize = 0;
    let mut i: usize = from;
    while i < to
        invariant
            from <= i <= to <= chars.len(),
            n == occurrences(chars@.subrange(from as int, i as int), c),
            n <= i - from,
        decreases to - i,
    {
        proof {
            assert(chars@.subrange(from as int, i + 1).drop_last() =~= chars@.subrange(
                from as int,
                i as int,
            ));
        }
        if chars[i] == c {
            n += 1;
        }
        i += 1;
    }
    n
}

/// The texts that a sequence of strings holds.
pub open spec fn texts(v: Seq<String>) -> Seq<Seq<char>> {
    v.map_values(|s: String| s@)
}

/// The text that an optional string holds, if any.
pub open spec fn optional_text(o: Option<String>) -> Option<Seq<char>> {
    match o {
        Some(s) => Some(s@),
        None => None,
    }
}

/// The position at which `x` first occurs in `s`, or the length of `s` where
/// it does not occur.
pub open spec fn first_index<T>(s: Seq<T>, x: T) -> int
    decreases s.len(),
{
    if s.len() == 0 || s[0] == x {
        0
    } else {
        1 + first_index(s.drop_first(), x)
    }
}

/// Where `x` occurs in `s`, its first occurrence is a position of `s` that
/// holds `x`, and no earlier one does.
pub proof fn lemma_first_index_found<T>(s: Seq<T>, x: T)
    requires
        s.contains(x),
    ensures
        0 <= first_index(s, x) < s.len(),
        s[first_index(s, x)] == x,
        forall|k: int| 0 <= k < first_index(s, x) ==> #[trigger] s[k] != x,
    decreases s.len(),
{
    if s[0] != x {
        let rest = s.drop_first();
        let k = choose|k: int| 0 <= k < s.len() && s[k] == x;
        assert(rest[k - 1] == x);
        lemma_first_index_found(rest, x);
        assert forall|k: int| 0 <= k < first_index(s, x) implies #[trigger] s[k] != x by {
            if k > 0 {
                assert(rest[k - 1] == s[k]);
            }
        }
    }
}

/// `s` with every repeated text dropped, the first occurrences kept in place.
pub open spec fn unique_in_order(s: Seq<Seq<char>>) -> Seq<Seq<char>>
    decreases s.len(),
{
    if s.len() == 0 {
        s
    } else {
        let head = unique_in_order(s.drop_last());
        if head.contains(s.last()) {
            head
        } else {
            head.push(s.last())
        }
    }
}

/// The first occurrence is the position before which the text does not occur.
pub proof fn lemma_first_index_is<T>(s: Seq<T>, x: T, n: int)
    requires
        0 <= n <= s.len(),
        forall|k: int| 0 <= k < n ==> #[trigger] s[k] != x,
        n < s.len() ==> s[n] == x,
    ensures
        first_index(s, x) == n,
    decreases n,
{
    if n > 0 {
        let rest = s.drop_first();
        assert(s[0] != x);
        assert forall|k: int| 0 <= k < n - 1 implies #[trigger] rest[k] != x by {
            assert(rest[k] == s[k + 1]);
        }
        if n - 1 < rest.len() {
            assert(rest[n - 1] == s[n]);
        }
        lemma_first_index_is(rest, x, n - 1);
    }
}

/// Dropping repeats leaves no text twice and loses none.
pub proof fn lemma_unique_in_order(s: Seq<Seq<char>>)
    ensures
        unique_in_order(s).no_duplicates(),
        forall|x: Seq<char>| unique_in_order(s).contains(x) <==> s.contains(x),
        unique_in_order(s).len() <= s.len(),
    decreases s.len(),
{
    if s.len() > 0 {
        let front = s.drop_last();
        let head = unique_in_order(front);
        lemma_unique_in_order(front);
        let all = unique_in_order(s);
        assert forall|x: Seq<char>| all.contains(x) <==> s.contains(x) by {
            assert(head.contains(x) <==> front.contains(x));
            if front.contains(x) {
                let k = choose|k: int| 0 <= k < front.len() && front[k] == x;
                assert(s[k] == x);
            }
            if head.contains(x) {
                let j = choose|j: int| 0 <= j < head.len() && head[j] == x;
                assert(all[j] == x);
            }
            if s.contains(x) && !front.contains(x) {
                let k = choose|k: int| 0 <= k < s.len() && s[k] == x;
                if k < s.len() - 1 {
                    assert(front[k] == x);
                }
                assert(x == s.last());
                assert(all[head.len() as int] == x);
            }
            if all.contains(x) && !head.contains(x) {
                let j = choose|j: int| 0 <= j < all.len() && all[j] == x;
                if j < head.len() {
                    assert(head[j] == x);
                }
                assert(s[s.len() - 1] == x);
            }
        }
    }
}

/// Finds the first string of `items` whose text is `wanted`.
pub fn position_of(items: &Vec<String>, wanted: &String) -> (found: Option<usize>)
    ensures
        found is Some <==> texts(items@).contains(wanted@),
        found matches Some(i) ==> i < items.len() && i == first_index(texts(items@), wanted@),
{
    let mut i: usize = 0;
    while i < items.len()
        invariant
            i <= items.len(),
            forall|k: int| 0 <= k < i ==> (#[trigger] items[k])@ != wanted@,
        decreases items.len() - i,
    {
        if items[i] == *wanted {
            proof {
                assert(texts(items@)[i as int] == wanted@);
                lemma_first_index_is(texts(items@), wanted@, i as int);
            }
            return Some(i);
        }
        i += 1;
    }
    proof {
        let all = texts(items@);
        if all.contains(wanted@) {
            let k = choose|k: int| 0 <= k < all.len() && all[k] == wanted@;
            assert(items[k]@ == wanted@);
        }
    }
    None
}

/// The decimal digit for `d`.
pub open spec fn digit_char(d: int) -> char {
    seq!['0', '1', '2', '3', '4', '5', '6', '7', '8', '9'][d]
}

/// `n` written in decimal, without leading zeros.
pub open spec fn decimal_text(n: nat) -> Seq<char>
    decreases n,
{
    if n < 10 {
        seq![digit_char(n as int)]
    } else {
        decimal_text(n / 10).push(digit_char((n % 10) as int))
    }
}

/// Different digits have different characters.
proof fn lemma_digit_char_injective(c: int, d: int)
    requires
        0 <= c < 10,
        0 <= d < 10,
        digit_char(c) == digit_char(d),
    ensures
        c == d,
{
    assert(digit_char(0) == '0');
    assert(digit_char(1) == '1');
    assert(digit_char(2) == '2');
    assert(digit_char(3) == '3');
    assert(digit_char(4) == '4');
    assert(digit_char(5) == '5');
    assert(digit_char(6) == '6');
    assert(digit_char(7) == '7');
    assert(digit_char(8) == '8');
    assert(digit_char(9) == '9');
}

/// Different numbers are written differently.
pub proof fn lemma_decimal_text_injective(a: nat, b: nat)
    requires
        decimal_text(a) == decimal_text(b),
    ensures
        a == b,
    decreases a,
{
    let ta = decimal_text(a);
    let tb = decimal_text(b);
    if a < 10 && b < 10 {
        assert(ta[0] == tb[0]);
        lemma_digit_char_injective(a as int, b as int);
    } else if a >= 10 && b >= 10 {
        let fa = decimal_text(a / 10);
        let fb = decimal_text(b / 10);
        assert(ta.last() == tb.last());
        lemma_digit_char_injective((a % 10) as int, (b % 10) as int);
        assert(fa =~= ta.drop_last());
        assert(fb =~= tb.drop_last());
        lemma_decimal_text_injective(a / 10, b / 10);
    } else if a < 10 {
        lemma_decimal_text_len(b / 10);
        assert(tb.len() >= 2);
    } else {
        lemma_decimal_text_len(a / 10);
        assert(ta.len() >= 2);
    }
}

/// Every number has at least one digit.
pub proof fn lemma_decimal_text_len(n: nat)
    ensures
        decimal_text(n).len() >= 1,
    decreases n,
{
    if n >= 10 {
        lemma_decimal_text_len(n / 10);
    }
}

/// The one-digit text for `d`.
fn digit_str(d: u64) -> (s: &'static str)
    requires
        d < 10,
    ensures
        s@ == seq![digit_char(d as int)],
{
    proof {
        reveal_strlit("0");
        reveal_strlit("1");
        reveal_strlit("2");
        reveal_strlit("3");
        reveal_strlit("4");
        reveal_strlit("5");
        reveal_strlit("6");
        reveal_strlit("7");
        reveal_strlit("8");
        reveal_strlit("9");
    }
    let s = if d == 0 {
        "0"
    } else if d == 1 {
        "1"
    } else if d == 2 {
        "2"
    } else if d == 3 {
        "3"
    } else if d == 4 {
        "4"
    } else if d == 5 {
        "5"
    } else if d == 6 {
        "6"
    } else if d == 7 {
        "7"
    } else if d == 8 {
        "8"
    } else {
        "9"
    };
    proof {
        assert(s@ =~= seq![digit_char(d as int)]);
    }
    s
}

/// Writes `n` in decimal.
pub fn to_decimal(n: u64) -> (text: String)
    ensures
        text@ == decimal_text(n as nat),
{
    let mut text = String::from_str(digit_str(n % 10));
    let mut rest: u64 = n / 10;
    while rest > 0
        invariant
            decimal_text(n as nat) == if rest == 0 {
                text@
            } else {
                decimal_text(rest as nat) + text@
            },
        decreases rest,
    {
        let digit = digit_str(rest % 10);
        proof {
            if rest < 10 {
                assert(decimal_text(rest as nat) + text@ =~= digit@ + text@);
            } else {
                assert(decimal_text(rest as nat) + text@ =~= decimal_text((rest / 10) as nat) + (
                digit@ + text@));
            }
        }
        text = String::from_str(digit).concat(text.as_str());
        rest = rest / 10;
    }
    text
}

/// The texts of `parts` in a row, with `separator` between each two.
pub open spec fn joined(parts: Seq<Seq<char>>, separator: Seq<char>) -> Seq<char>
    decreases parts.len(),
{
    if parts.len() == 0 {
        Seq::empty()
    } else if parts.len() == 1 {
        parts[0]
    } else {
        joined(parts.drop_last(), separator) + separator + parts.last()
    }
}

/// Joins `parts`, with `separator` between each two.
pub fn join(parts: &Vec<String>, separator: &str) -> (text: String)
    ensures
        text@ == joined(texts(parts@), separator@),
{
    let mut text = String::new();
    let mut i: usize = 0;
    while i < parts.len()
        invariant
            i <= parts.len(),
            text@ == joined(texts(parts@).take(i as int), separator@),
        decreases parts.len() - i,
    {
        proof {
            assert(texts(parts@).take(i + 1).drop_last() =~= texts(parts@).take(i as int));
        }
        if i > 0 {
            text.append(separator);
        }
        text.append(parts[i].as_str());
        proof {
            if i == 0 {
                assert(text@ =~= parts[0]@);
            }
        }
        i += 1;
    }
    proof {
        assert(texts(parts@).take(i as int) =~= texts(parts@));
    }
    text
}

} // verus!
