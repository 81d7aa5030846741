//! Text at the level of characters: the classes a label or a header is judged by,
//! decimal and hexadecimal numerals, and the few ways a string is taken apart.
use vstd::prelude::*;

verus! {

/// `String::push`: appends one character to the end of the string.
pub assume_specification[ String::push ](s: &mut String, c: char)
    ensures
        final(s)@ == old(s)@.push(c),
;

// ---------------------------------------------------------------- characters

/// The characters of a string, in order.
pub fn chars_of(s: &str) -> (v: Vec<char>)
    ensures
        v@ == s@,
{
    let mut v: Vec<char> = Vec::new();
    for c in it: s.chars()
        invariant
            it.seq() == s@,
            v@ == s@.take(it.index() as int),
    {
        v.push(c);
        assert(s@.take(it.index() + 1) =~= s@.take(it.index() as int).push(c));
    }
    assert(s@.take(s@.len() as int) =~= s@);
    v
}

/// The string made of the given characters.
pub fn string_of(v: &[char]) -> (s: String)
    ensures
        s@ == v@,
{
    let mut s: String = String::new();
    let mut i: usize = 0;
    while i < v.len()
        invariant
            i <= v@.len(),
            s@ == v@.take(i as int),
        decreases v@.len() - i,
    {
        s.push(v[i]);
        assert(v@.take(i + 1) =~= v@.take(i as int).push(v@[i as int]));
        i += 1;
    }
    assert(v@.take(v@.len() as int) =~= v@);
    s
}

/// A control character: Unicode general category Cc.
pub open spec fn is_control_char(c: char) -> bool {
    c <= '\u{1f}' || '\u{7f}' <= c <= '\u{9f}'
}

pub fn is_control(c: char) -> (r: bool)
    ensures
        r == is_control_char(c),
{
    c <= '\u{1f}' || ('\u{7f}' <= c && c <= '\u{9f}')
}

/// White space: the characters with the Unicode property `White_Space`.
pub open spec fn is_space_char(c: char) -> bool {
    ||| '\u{9}' <= c <= '\u{d}'
    ||| c == ' '
    ||| c == '\u{85}'
    ||| c == '\u{a0}'
    ||| c == '\u{1680}'
    ||| '\u{2000}' <= c <= '\u{200a}'
    ||| c == '\u{2028}'
    ||| c == '\u{2029}'
    ||| c == '\u{202f}'
    ||| c == '\u{205f}'
    ||| c == '\u{3000}'
}

pub fn is_space(c: char) -> (r: bool)
    ensures
        r == is_space_char(c),
{
    ('\u{9}' <= c && c <= '\u{d}') || c == ' ' || c == '\u{85}' || c == '\u{a0}' || c == '\u{1680}'
        || ('\u{2000}' <= c && c <= '\u{200a}') || c == '\u{2028}' || c == '\u{2029}' || c
        == '\u{202f}' || c == '\u{205f}' || c == '\u{3000}'
}

/// The lower-case form of an ASCII letter; every other character is itself.
pub open spec fn ascii_lower(c: char) -> char {
    if 'A' <= c <= 'Z' {
        (c as int + 32) as char
    } else {
        c
    }
}

/// A string with its ASCII letters in lower case.
pub open spec fn lower(s: Seq<char>) -> Seq<char> {
    s.map_values(|c: char| ascii_lower(c))
}

pub fn to_lower(s: &str) -> (r: String)
    ensures
        r@ == lower(s@),
{
    let v: Vec<char> = chars_of(s);
    let mut r: String = String::new();
    let mut i: usize = 0;
    while i < v.len()
        invariant
            i <= v@.len(),
            v@ == s@,
            r@ == lower(s@.take(i as int)),
        decreases v@.len() - i,
    {
        let c: char = v[i];
        if 'A' <= c && c <= 'Z' {
            r.push((c as u8 + 32) as char);
        } else {
            r.push(c);
        }
        assert(lower(s@.take(i + 1)) =~= lower(s@.take(i as int)).push(ascii_lower(c)));
        i += 1;
    }
    assert(s@.take(s@.len() as int) =~= s@);
    r
}

/// Whether two strings are the same characters in the same order.
pub fn same_text(a: &str, b: &str) -> (r: bool)
    ensures
        r == (a@ == b@),
{
    let x: Vec<char> = chars_of(a);
    let y: Vec<char> = chars_of(b);
    if x.len() != y.len() {
        return false;
    }
    let mut i: usize = 0;
    while i < x.len()
        invariant
            x@ == a@,
            y@ == b@,
            x@.len() == y@.len(),
            i <= x@.len(),
            forall|j: int| 0 <= j < i ==> x@[j] == y@[j],
        decreases x@.len() - i,
    {
        if x[i] != y[i] {
            return false;
        }
        i += 1;
    }
    assert(a@ =~= b@);
    true
}

// ---------------------------------------------------------------- taking apart

/// A string without its leading white space.
pub open spec fn trim_start(s: Seq<char>) -> Seq<char>
    decreases s.len(),
{
    if s.len() > 0 && is_space_char(s[0]) {
        trim_start(s.skip(1))
    } else {
        s
    }
}

/// A string without its trailing white space.
pub open spec fn trim_end(s: Seq<char>) -> Seq<char>
    decreases s.len(),
{
    if s.len() > 0 && is_space_char(s.last()) {
        trim_end(s.drop_last())
    } else {
        s
    }
}

/// A string without leading and trailing white space.
pub open spec fn trimmed(s: Seq<char>) -> Seq<char> {
    trim_end(trim_start(s))
}

pub fn trim(s: &str) -> (r: String)
    ensures
        r@ == trimmed(s@),
{
    let v: Vec<char> = chars_of(s);
    let mut from: usize = 0;
    assert(v@.skip(0) =~= v@);
    while from < v.len() && is_space(v[from])
        invariant
            from <= v@.len(),
            v@ == s@,
            trim_start(v@) == trim_start(v@.skip(from as int)),
        decreases v@.len() - from,
    {
        assert(v@.skip(from as int).skip(1) =~= v@.skip(from + 1));
        from += 1;
    }
    let ghost rest = v@.skip(from as int);
    let mut to: usize = v.len();
    assert(v@.subrange(from as int, v@.len() as int) =~= rest);
    while from < to && is_space(v[to - 1])
        invariant
            from <= to <= v@.len(),
            v@ == s@,
            rest == v@.skip(from as int),
            trim_end(rest) == trim_end(v@.subrange(from as int, to as int)),
        decreases to,
    {
        assert(v@.subrange(from as int, to as int).drop_last() =~= v@.subrange(
            from as int,
            to - 1,
        ));
        to -= 1;
    }
    let r: &[char] = vstd::slice::slice_subrange(v.as_slice(), from, to);
    string_of(r)
}

/// The parts before and after the first `sep`, `None` where there is none.
pub open spec fn cut(s: Seq<char>, sep: char) -> Option<(Seq<char>, Seq<char>)>
    decreases s.len(),
{
    if s.len() == 0 {
        None
    } else if s[0] == sep {
        Some((seq![], s.skip(1)))
    } else {
        match cut(s.skip(1), sep) {
            None => None,
            Some((a, b)) => Some((seq![s[0]] + a, b)),
        }
    }
}

/// Cutting is at the first separator: the head holds none, and the three pieces
/// put together are the string.
pub proof fn cut_is_at_the_first(s: Seq<char>, sep: char)
    ensures
        cut(s, sep) is None <==> !s.contains(sep),
        cut(s, sep) matches Some((a, b)) ==> !a.contains(sep) && a.push(sep) + b == s,
    decreases s.len(),
{
    if s.len() > 0 {
        if s[0] != sep {
            let t = s.skip(1);
            cut_is_at_the_first(t, sep);
            assert(s =~= seq![s[0]] + t);
            match cut(t, sep) {
                None => {
                    assert(!s.contains(sep)) by {
                        if s.contains(sep) {
                            let k = choose|k: int| 0 <= k < s.len() && s[k] == sep;
                            assert(t[k - 1] == sep);
                        }
                    }
                },
                Some((a, b)) => {
                    let k = choose|k: int| 0 <= k < t.len() && t[k] == sep;
                    assert(s[k + 1] == sep);
                    let h = seq![s[0]] + a;
                    assert(!h.contains(sep)) by {
                        if h.contains(sep) {
                            let k = choose|k: int| 0 <= k < h.len() && h[k] == sep;
                            assert(a[k - 1] == sep);
                        }
                    }
                    assert(h.push(sep) + b =~= seq![s[0]] + (a.push(sep) + b));
                },
            }
        } else {
            assert(seq![].push(sep) + s.skip(1) =~= s);
        }
    }
}

pub(crate) proof fn lemma_cut_at(s: Seq<char>, sep: char, k: int)
    requires
        0 <= k < s.len(),
        s[k] == sep,
        forall|j: int| 0 <= j < k ==> s[j] != sep,
    ensures
        cut(s, sep) == Some((s.take(k), s.skip(k + 1))),
    decreases k,
{
    if k == 0 {
        assert(s.take(0) =~= seq![]);
    } else {
        lemma_cut_at(s.skip(1), sep, k - 1);
        assert(s.skip(1).skip(k) =~= s.skip(k + 1));
        assert(seq![s[0]] + s.skip(1).take(k - 1) =~= s.take(k));
    }
}

proof fn lemma_cut_none(s: Seq<char>, sep: char)
    requires
        forall|j: int| 0 <= j < s.len() ==> s[j] != sep,
    ensures
        cut(s, sep) is None,
    decreases s.len(),
{
    if s.len() > 0 {
        lemma_cut_none(s.skip(1), sep);
    }
}

pub fn split_once(s: &str, sep: char) -> (r: Option<(String, String)>)
    ensures
        match r {
            None => cut(s@, sep) is None,
            Some((a, b)) => cut(s@, sep) == Some((a@, b@)),
        },
{
    let v: Vec<char> = chars_of(s);
    let mut i: usize = 0;
    while i < v.len()
        invariant
            i <= v@.len(),
            v@ == s@,
            forall|j: int| 0 <= j < i ==> v@[j] != sep,
        decreases v@.len() - i,
    {
        if v[i] == sep {
            proof {
                lemma_cut_at(s@, sep, i as int);
                assert(v@.subrange(0, i as int) =~= s@.take(i as int));
                assert(v@.subrange(i + 1, v@.len() as int) =~= s@.skip(i + 1));
            }
            let a: &[char] = vstd::slice::slice_subrange(v.as_slice(), 0, i);
            let b: &[char] = vstd::slice::slice_subrange(v.as_slice(), i + 1, v.len());
            return Some((string_of(a), string_of(b)));
        }
        i += 1;
    }
    proof {
        lemma_cut_none(s@, sep);
    }
    None
}

/// What follows `prefix` in a string that starts with it.
pub open spec fn after_prefix(s: Seq<char>, prefix: Seq<char>) -> Option<Seq<char>> {
    if prefix.is_prefix_of(s) {
        Some(s.skip(prefix.len() as int))
    } else {
        None
    }
}

pub fn strip_prefix(s: &str, prefix: &str) -> (r: Option<String>)
    ensures
        match r {
            None => after_prefix(s@, prefix@) is None,
            Some(rest) => after_prefix(s@, prefix@) == Some(rest@),
        },
{
    let v: Vec<char> = chars_of(s);
    let p: Vec<char> = chars_of(prefix);
    if v.len() < p.len() {
        return None;
    }
    let mut i: usize = 0;
    while i < p.len()
        invariant
            v@ == s@,
            p@ == prefix@,
            p@.len() <= v@.len(),
            i <= p@.len(),
            forall|j: int| 0 <= j < i ==> v@[j] == p@[j],
        decreases p@.len() - i,
    {
        if v[i] != p[i] {
            assert(s@.subrange(0, p@.len() as int)[i as int] != prefix@[i as int]);
            return None;
        }
        i += 1;
    }
    assert(s@.subrange(0, p@.len() as int) =~= prefix@);
    assert(v@.subrange(p@.len() as int, v@.len() as int) =~= s@.skip(p@.len() as int));
    let rest: &[char] = vstd::slice::slice_subrange(v.as_slice(), p.len(), v.len());
    Some(string_of(rest))
}

// ---------------------------------------------------------------- decimal

pub open spec fn is_digit_char(c: char) -> bool {
    '0' <= c <= '9'
}

pub open spec fn digit_char(d: int) -> char {
    ('0' as int + d) as char
}

/// The decimal numeral of a number: no sign, no leading zero.
pub open spec fn decimal(n: nat) -> Seq<char>
    decreases n,
{
    if n < 10 {
        seq![digit_char(n as int)]
    } else {
        decimal(n / 10).push(digit_char((n % 10) as int))
    }
}

/// The number that a run of digits stands for.
pub open spec fn digits_value(s: Seq<char>) -> nat
    decreases s.len(),
{
    if s.len() == 0 {
        0
    } else {
        (digits_value(s.drop_last()) * 10 + (s.last() as int - '0' as int)) as nat
    }
}

pub open spec fn all_digits(s: Seq<char>) -> bool {
    forall|i: int| 0 <= i < s.len() ==> is_digit_char(#[trigger] s[i])
}

/// What a numeral says as a 16-bit number: an optional `+`, then one or more
/// digits, of a value that fits.
pub open spec fn u16_of(s: Seq<char>) -> Option<u16> {
    let d = if s.len() > 0 && s[0] == '+' {
        s.skip(1)
    } else {
        s
    };
    if d.len() > 0 && all_digits(d) && digits_value(d) <= u16::MAX {
        Some(digits_value(d) as u16)
    } else {
        None
    }
}

/// The decimal numeral of `n`.
pub fn decimal_text(n: u64) -> (s: String)
    ensures
        s@ == decimal(n as nat),
    decreases n,
{
    if n < 10 {
        let mut s: String = String::new();
        s.push((48 + n as u8) as char);
        assert(s@ =~= decimal(n as nat));
        s
    } else {
        let mut s: String = decimal_text(n / 10);
        s.push((48 + (n % 10) as u8) as char);
        s
    }
}

proof fn lemma_value_of_prefix(s: Seq<char>, i: int)
    requires
        0 <= i <= s.len(),
        all_digits(s),
    ensures
        digits_value(s.take(i)) <= digits_value(s),
    decreases s.len() - i,
{
    if i < s.len() {
        lemma_value_of_prefix(s, i + 1);
        assert(s.take(i + 1).drop_last() =~= s.take(i));
        assert(is_digit_char(s[i]));
    } else {
        assert(s.take(i) =~= s);
    }
}

pub fn parse_u16(s: &str) -> (r: Option<u16>)
    ensures
        r == u16_of(s@),
{
    let v: Vec<char> = chars_of(s);
    let from: usize = if v.len() > 0 && v[0] == '+' {
        1
    } else {
        0
    };
    let ghost d = s@.skip(from as int);
    assert(s@.skip(0) =~= s@);
    if from == v.len() {
        return None;
    }
    let mut n: u32 = 0;
    let mut i: usize = from;
    assert(d.take(0) =~= seq![]);
    while i < v.len()
        invariant
            from <= i <= v@.len(),
            v@ == s@,
            d == s@.skip(from as int),
            n <= u16::MAX,
            n == digits_value(d.take(i - from)),
            forall|j: int| 0 <= j < i - from ==> is_digit_char(#[trigger] d[j]),
            d == (if s@.len() > 0 && s@[0] == '+' {
                s@.skip(1)
            } else {
                s@
            }),
            d.len() > 0,
        decreases v@.len() - i,
    {
        let c: char = v[i];
        assert(d[i - from] == c);
        if c < '0' || c > '9' {
            return None;
        }
        let ghost k = i - from;
        assert(d.take(k + 1).drop_last() =~= d.take(k));
        n = n * 10 + (c as u32 - 48);
        if n > 65535 {
            proof {
                if all_digits(d) {
                    lemma_value_of_prefix(d, k + 1);
                }
            }
            return None;
        }
        i += 1;
    }
    assert(d.take(d.len() as int) =~= d);
    Some(n as u16)
}

/// The numeral of a number is nothing but digits, at least one, and stands for it.
pub proof fn decimal_is_read_back(n: nat)
    ensures
        decimal(n).len() > 0,
        all_digits(decimal(n)),
        digits_value(decimal(n)) == n,
        n <= u16::MAX ==> u16_of(decimal(n)) == Some(n as u16),
    decreases n,
{
    if n < 10 {
        let s = decimal(n);
        assert(s.drop_last() =~= Seq::<char>::empty());
        assert(digits_value(Seq::<char>::empty()) == 0);
        assert(s.last() as int == '0' as int + n);
        assert(digits_value(s) == n);
    } else {
        decimal_is_read_back(n / 10);
        let s = decimal(n);
        assert(s.drop_last() =~= decimal(n / 10));
        assert(s.last() as int == '0' as int + n % 10);
        assert(digits_value(s) == n);
        assert forall|i: int| 0 <= i < s.len() implies is_digit_char(#[trigger] s[i]) by {
            if i < s.len() - 1 {
                assert(is_digit_char(decimal(n / 10)[i]));
            }
        }
    }
    assert(is_digit_char(decimal(n)[0]));
}

// ---------------------------------------------------------------- hexadecimal

pub open spec fn hex_digit(d: int) -> char {
    if d < 10 {
        ('0' as int + d) as char
    } else {
        ('a' as int + d - 10) as char
    }
}

/// The lower-case hexadecimal text of some bytes, two digits each, high half first.
pub open spec fn hex_lower(b: Seq<u8>) -> Seq<char> {
    Seq::new(
        2 * b.len(),
        |i: int|
            if i % 2 == 0 {
                hex_digit(b[i / 2] as int / 16)
            } else {
                hex_digit(b[i / 2] as int % 16)
            },
    )
}

pub fn hex_char(d: u8) -> (c: char)
    requires
        d < 16,
    ensures
        c == hex_digit(d as int),
{
    if d < 10 {
        (48 + d) as char
    } else {
        (97 + (d - 10)) as char
    }
}

pub fn hex_text(b: &[u8]) -> (s: String)
    ensures
        s@ == hex_lower(b@),
{
    let mut s: String = String::new();
    let mut i: usize = 0;
    while i < b.len()
        invariant
            i <= b@.len(),
            s@ == hex_lower(b@.take(i as int)),
        decreases b@.len() - i,
    {
        s.push(hex_char(b[i] / 16));
        s.push(hex_char(b[i] % 16));
        assert(s@ =~= hex_lower(b@.take(i + 1)));
        i += 1;
    }
    assert(b@.take(b@.len() as int) =~= b@);
    s
}

/// Different bytes have different hexadecimal text.
pub proof fn hex_is_injective(a: Seq<u8>, b: Seq<u8>)
    requires
        hex_lower(a) == hex_lower(b),
    ensures
        a == b,
{
    assert(hex_lower(a).len() == 2 * a.len() && hex_lower(b).len() == 2 * b.len());
    assert forall|i: int| 0 <= i < a.len() implies a[i] == b[i] by {
        assert(hex_lower(a)[2 * i] == hex_lower(b)[2 * i]);
        assert(hex_lower(a)[2 * i + 1] == hex_lower(b)[2 * i + 1]);
        assert((2 * i) / 2 == i && (2 * i + 1) / 2 == i);
        assert((2 * i) % 2 == 0 && (2 * i + 1) % 2 == 1);
        assert(hex_lower(a)[2 * i] == hex_digit(a[i] as int / 16));
        assert(hex_lower(b)[2 * i] == hex_digit(b[i] as int / 16));
        assert(hex_lower(a)[2 * i + 1] == hex_digit(a[i] as int % 16));
        assert(hex_lower(b)[2 * i + 1] == hex_digit(b[i] as int % 16));
        lemma_hex_digit_injective(a[i] as int / 16, b[i] as int / 16);
        lemma_hex_digit_injective(a[i] as int % 16, b[i] as int % 16);
    }
    assert(a =~= b);
}

proof fn lemma_hex_digit_injective(x: int, y: int)
    requires
        0 <= x < 16,
        0 <= y < 16,
        hex_digit(x) == hex_digit(y),
    ensures
        x == y,
{
    assert(hex_digit(x) as int == if x < 10 { '0' as int + x } else { 'a' as int + x - 10 });
    assert(hex_digit(y) as int == if y < 10 { '0' as int + y } else { 'a' as int + y - 10 });
}

// ---------------------------------------------------------------- laws

/// The lower case of an upper-case ASCII letter is the letter as far into the alphabet;
/// every other character is its own.
pub proof fn lower_case_of_a_letter(c: char)
    ensures
        'A' <= c <= 'Z' ==> 'a' <= ascii_lower(c) <= 'z' && ascii_lower(c) as int - 'a' as int
            == c as int - 'A' as int,
        !('A' <= c <= 'Z') ==> ascii_lower(c) == c,
{
}

/// The control characters are the first 32, and the 33 from delete on.
pub proof fn which_characters_control(c: char)
    ensures
        is_control_char(c) <==> (c as int) < 0x20 || 0x7f <= (c as int) < 0xa0,
{
}

/// The white space: tab to carriage return, space, next line, the no-break, Ogham, narrow
/// no-break, mathematical and ideographic spaces, the general punctuation spaces, and the
/// two separators.
pub proof fn which_characters_are_space(c: char)
    ensures
        is_space_char(c) <==> {
            let n = c as int;
            ||| 9 <= n <= 13
            ||| n == 0x20 || n == 0x85 || n == 0xa0 || n == 0x1680
            ||| 0x2000 <= n <= 0x200a
            ||| 0x2028 <= n <= 0x2029
            ||| n == 0x202f || n == 0x205f || n == 0x3000
        },
{
}

proof fn lemma_trim_start(s: Seq<char>) -> (a: int)
    ensures
        0 <= a <= s.len(),
        trim_start(s) == s.skip(a),
        forall|i: int| 0 <= i < a ==> is_space_char(#[trigger] s[i]),
        a < s.len() ==> !is_space_char(s[a]),
    decreases s.len(),
{
    if s.len() > 0 && is_space_char(s[0]) {
        let t = s.skip(1);
        let b = lemma_trim_start(t);
        assert(t.skip(b) =~= s.skip(b + 1));
        assert forall|i: int| 0 <= i < b + 1 implies is_space_char(#[trigger] s[i]) by {
            if i > 0 {
                assert(t[i - 1] == s[i]);
            }
        }
        if b < t.len() {
            assert(t[b] == s[b + 1]);
        }
        b + 1
    } else {
        assert(s.skip(0) =~= s);
        0
    }
}

proof fn lemma_trim_end(s: Seq<char>) -> (b: int)
    ensures
        0 <= b <= s.len(),
        trim_end(s) == s.take(b),
        forall|i: int| b <= i < s.len() ==> is_space_char(#[trigger] s[i]),
        b > 0 ==> !is_space_char(s[b - 1]),
    decreases s.len(),
{
    if s.len() > 0 && is_space_char(s.last()) {
        let t = s.drop_last();
        let b = lemma_trim_end(t);
        assert(t.take(b) =~= s.take(b));
        assert forall|i: int| b <= i < s.len() implies is_space_char(#[trigger] s[i]) by {
            if i < t.len() {
                assert(t[i] == s[i]);
            }
        }
        b
    } else {
        assert(s.take(s.len() as int) =~= s);
        s.len() as int
    }
}

/// Trimming takes white space off both ends and nothing else: what is left is a stretch
/// of the text with white space alone before and after it, and starts and ends with none.
pub proof fn trimming_takes_white_space_off_both_ends(s: Seq<char>)
    ensures
        exists|a: int, b: int|
            0 <= a <= b <= s.len() && trimmed(s) == #[trigger] s.subrange(a, b) && (forall|i: int|
                0 <= i < a || b <= i < s.len() ==> is_space_char(#[trigger] s[i])),
        trimmed(s).len() > 0 ==> !is_space_char(trimmed(s)[0]) && !is_space_char(trimmed(s).last()),
{
    let a = lemma_trim_start(s);
    let t = s.skip(a);
    let n = lemma_trim_end(t);
    let b = a + n;
    assert(t.take(n) =~= s.subrange(a, b));
    assert forall|i: int| 0 <= i < a || b <= i < s.len() implies is_space_char(
        #[trigger] s[i],
    ) by {
        if i >= b {
            assert(t[i - a] == s[i]);
        }
    }
    if n > 0 {
        assert(trimmed(s)[0] == s[a]);
        assert(trimmed(s).last() == t[n - 1]);
    }
}

/// A text that starts and ends with no white space is what trimming leaves of it, with
/// whatever white space around it.
pub proof fn white_space_around_a_text_is_trimmed(
    before: Seq<char>,
    s: Seq<char>,
    after: Seq<char>,
)
    requires
        forall|i: int| 0 <= i < before.len() ==> is_space_char(#[trigger] before[i]),
        forall|i: int| 0 <= i < after.len() ==> is_space_char(#[trigger] after[i]),
        s.len() > 0 ==> !is_space_char(s[0]) && !is_space_char(s.last()),
    ensures
        trimmed(before + s + after) == s,
{
    let all = before + s + after;
    let a = lemma_trim_start(all);
    let t = all.skip(a);
    let n = lemma_trim_end(t);
    let (x, y) = (before.len() as int, (before.len() + s.len()) as int);
    if s.len() > 0 {
        assert(all[x] == s[0]);
        assert(all[y - 1] == s.last());
        assert(a <= x);
        if a < x {
            assert(all[a] == before[a]);
        }
        assert(t[y - 1 - a] == all[y - 1]);
        assert(a + n >= y);
        if a + n > y {
            assert(t[n - 1] == all[a + n - 1]);
            assert(all[a + n - 1] == after[a + n - 1 - y]);
        }
        assert(t.take(n) =~= s);
    } else {
        if a < all.len() {
            if a < x {
                assert(all[a] == before[a]);
            } else {
                assert(all[a] == after[a - y]);
            }
        }
        assert(t.take(n) =~= s);
    }
}

/// What follows a prefix is what is left when the two are put together.
pub proof fn a_prefix_and_what_follows_make_the_text(
    s: Seq<char>,
    prefix: Seq<char>,
    rest: Seq<char>,
)
    ensures
        after_prefix(s, prefix) == Some(rest) <==> s == prefix + rest,
        after_prefix(s, prefix) is None <==> !(prefix.len() <= s.len() && s.take(
            prefix.len() as int,
        ) == prefix),
{
    let n = prefix.len() as int;
    if prefix.len() <= s.len() {
        assert(s.subrange(0, n) =~= s.take(n));
        assert(s =~= s.take(n) + s.skip(n));
    }
    if s == prefix + rest {
        assert(s.subrange(0, n) =~= prefix);
        assert(s.skip(n) =~= rest);
    }
}

/// A numeral is written with the digits of the number, the most significant first and
/// without leading zeros.
pub proof fn a_numeral_is_written_digit_by_digit(n: nat, d: int)
    requires
        0 <= d < 10,
    ensures
        decimal(d as nat) == seq![('0' as int + d) as char],
        n > 0 ==> decimal((10 * n + d) as nat) == decimal(n).push(('0' as int + d) as char),
{
}

/// A numeral is read digit by digit: a digit alone is its value, and one more digit makes
/// it ten times as much and that digit more, as long as that fits in 16 bits. A plus sign
/// in front changes nothing; nothing at all, and anything but digits, is no numeral.
pub proof fn a_numeral_is_read_digit_by_digit(s: Seq<char>, c: char)
    ensures
        u16_of(Seq::<char>::empty()) is None,
        '0' <= c <= '9' ==> u16_of(seq![c]) == Some((c as int - '0' as int) as u16),
        !('0' <= c <= '9') ==> u16_of(s.push(c)) is None,
        '0' <= c <= '9' ==> (u16_of(s) matches Some(n) ==> u16_of(s.push(c)) == (if 10 * n + (
        c as int - '0' as int) <= 65535 {
            Some((10 * n + (c as int - '0' as int)) as u16)
        } else {
            None
        })),
        s.len() > 0 && s[0] != '+' ==> u16_of(seq!['+'] + s) == u16_of(s),
        s.len() > 0 && !(s.len() == 1 && s[0] == '+') && u16_of(s) is None ==> u16_of(s.push(c))
            is None,
{
    let one = seq![c];
    assert(one.drop_last() =~= seq![]);
    reveal_with_fuel(digits_value, 2);
    let p = s.push(c);
    let plus = s.len() > 0 && s[0] == '+';
    let d = if plus {
        s.skip(1)
    } else {
        s
    };
    if s.len() > 0 {
        let e = if plus {
            p.skip(1)
        } else {
            p
        };
        assert(p[0] == s[0]);
        assert(e =~= d.push(c));
        assert(e.drop_last() =~= d);
        assert(e.last() == c);
        if all_digits(d) && '0' <= c <= '9' {
            assert forall|i: int| 0 <= i < e.len() implies is_digit_char(#[trigger] e[i]) by {
                if i < d.len() {
                    assert(e[i] == d[i]);
                }
            }
            lemma_value_of_prefix(e, d.len() as int);
            assert(e.take(d.len() as int) =~= d);
        }
        if all_digits(e) {
            assert forall|i: int| 0 <= i < d.len() implies is_digit_char(#[trigger] d[i]) by {
                assert(e[i] == d[i]);
            }
            assert(is_digit_char(e[e.len() - 1]));
            lemma_value_of_prefix(e, d.len() as int);
            assert(e.take(d.len() as int) =~= d);
        }
        let q = seq!['+'] + s;
        assert(q.skip(1) =~= s);
        assert(q[0] == '+');
    } else {
        assert(p =~= one);
        if all_digits(p) {
            assert(is_digit_char(p[0]));
        }
        if c == '+' {
            assert(p.skip(1) =~= seq![]);
        }
    }
}

/// The value of a hexadecimal digit.
pub open spec fn hex_value(c: char) -> int {
    if '0' <= c <= '9' {
        c as int - '0' as int
    } else if 'a' <= c <= 'f' {
        c as int - 'a' as int + 10
    } else {
        -1
    }
}

/// Each byte is written as two lower-case hexadecimal digits, the high one first.
pub proof fn a_byte_is_two_digits_high_one_first(b: Seq<u8>, i: int)
    requires
        0 <= i < b.len(),
    ensures
        hex_lower(b).len() == 2 * b.len(),
        0 <= hex_value(hex_lower(b)[2 * i]) < 16,
        0 <= hex_value(hex_lower(b)[2 * i + 1]) < 16,
        hex_value(hex_lower(b)[2 * i]) * 16 + hex_value(hex_lower(b)[2 * i + 1]) == b[i],
{
    let (hi, lo) = (b[i] as int / 16, b[i] as int % 16);
    assert(hex_lower(b)[2 * i] == hex_digit(hi));
    assert(hex_lower(b)[2 * i + 1] == hex_digit(lo));
}

/// A text in lower case is as long, and each of its characters is that of the text in
/// lower case.
pub proof fn lower_case_is_character_by_character(s: Seq<char>, i: int)
    requires
        0 <= i < s.len(),
    ensures
        lower(s).len() == s.len(),
        'A' <= s[i] <= 'Z' ==> lower(s)[i] as int == s[i] as int + 32,
        !('A' <= s[i] <= 'Z') ==> lower(s)[i] == s[i],
{
    lower_case_of_a_letter(s[i]);
}

} // verus!
