//! Characters, runs of characters, and the decimal notation of integers.

use vstd::prelude::*;
use vstd::slice::*;
use vstd::std_specs::iter::IteratorSpec;
use vstd::string::*;

verus! {

/// Whether the standard library counts `c` as white space.
pub uninterp spec fn is_whitespace(c: char) -> bool;

/// Calls `char::is_whitespace`, which reports whether a character has the
/// Unicode property White_Space. The answer depends on the character alone;
/// the contract gives it the name [`is_whitespace`] and claims nothing else.
#[verifier::external_body]
pub(crate) fn char_is_whitespace(c: char) -> (b: bool)
    ensures
        b == is_whitespace(c),
{
    c.is_whitespace()
}

/// Calls `String::push`, which appends one character to the end of a string.
#[verifier::external_body]
pub(crate) fn push_char(s: &mut String, c: char)
    ensures
        final(s)@ == old(s)@.push(c),
{
    s.push(c)
}

/// The characters of a string slice, in order.
pub fn to_chars(s: &str) -> (v: Vec<char>)
    ensures
        v@ == s@,
{
    broadcast use vstd::string::group_string_axioms;

    let mut v: Vec<char> = Vec::new();
    let mut it = s.chars();
    loop
        invariant_except_break
            it.obeys_prophetic_iter_laws(),
            v@ + it.remaining() == s@,
            it.decrease() is Some,
        ensures
            v@ == s@,
        decreases it.decrease()->0,
    {
        match it.next() {
            Some(c) => {
                v.push(c);
            },
            None => {
                assert(v@ =~= s@);
                break ;
            },
        }
    }
    v
}

/// Appends the characters of `cs` to `s`.
pub fn push_chars(s: &mut String, cs: &[char])
    ensures
        final(s)@ == old(s)@ + cs@,
{
    let mut i: usize = 0;
    while i < cs.len()
        invariant
            i <= cs@.len(),
            s@ == old(s)@ + cs@.take(i as int),
        decreases cs@.len() - i,
    {
        push_char(s, cs[i]);
        assert(cs@.take(i + 1) =~= cs@.take(i as int).push(cs@[i as int]));
        i += 1;
    }
    assert(cs@.take(i as int) =~= cs@);
}

/// A string made of the characters of `cs`.
pub fn string_of(cs: &[char]) -> (s: String)
    ensures
        s@ == cs@,
{
    let mut s = String::new();
    push_chars(&mut s, cs);
    assert(Seq::<char>::empty() + cs@ =~= cs@);
    s
}

/// Whether a run of characters spells the given word.
pub fn spells(code: &[char], word: &str) -> (b: bool)
    ensures
        b == (code@ == word@),
{
    let n = word.unicode_len();
    if code.len() != n {
        return false;
    }
    let mut i: usize = 0;
    while i < n
        invariant
            i <= n,
            n == word@.len(),
            n == code@.len(),
            forall|k: int| 0 <= k < i ==> code@[k] == word@[k],
        decreases n - i,
    {
        if code[i] != word.get_char(i) {
            return false;
        }
        i += 1;
    }
    assert(code@ =~= word@);
    true
}

/// What is left of `code` after its first `n` characters.
pub fn after(code: &[char], n: usize) -> (r: &[char])
    requires
        n <= code@.len(),
    ensures
        r@ == code@.skip(n as int),
{
    slice_subrange(code, n, code.len())
}

/// The first `n` characters of `code`.
pub fn first(code: &[char], n: usize) -> (r: &[char])
    requires
        n <= code@.len(),
    ensures
        r@ == code@.take(n as int),
{
    slice_subrange(code, 0, n)
}

/// Whether a character is a decimal digit.
pub open spec fn is_digit(c: char) -> bool {
    '0' <= c <= '9'
}

/// Whether a character is a letter of the Latin alphabet without accents.
pub open spec fn is_letter(c: char) -> bool {
    ('a' <= c <= 'z') || ('A' <= c <= 'Z')
}

/// Whether a character can stand in a name: a letter, a digit or an
/// underscore.
pub open spec fn is_name_char(c: char) -> bool {
    is_letter(c) || is_digit(c) || c == '_'
}

/// Whether a text is a name: a letter, then letters, digits and underscores.
pub open spec fn is_name(s: Seq<char>) -> bool {
    &&& s.len() > 0
    &&& is_letter(s[0])
    &&& forall|i: int| 0 <= i < s.len() ==> is_name_char(#[trigger] s[i])
}

/// The decimal digit that stands for `d`, for `d` from 0 to 9.
pub open spec fn digit_char(d: int) -> char {
    ('0' as int + d) as char
}

/// The value of a decimal digit.
pub open spec fn digit_value(c: char) -> int {
    c as int - '0' as int
}

/// The number that a run of decimal digits denotes.
pub open spec fn digits_value(s: Seq<char>) -> nat
    decreases s.len(),
{
    if s.len() == 0 {
        0
    } else {
        (digits_value(s.drop_last()) * 10 + digit_value(s.last())) as nat
    }
}

/// The decimal digits of a natural number, without leading zeros.
pub open spec fn decimal_nat(n: nat) -> Seq<char>
    decreases n,
{
    if n < 10 {
        seq![digit_char(n as int)]
    } else {
        decimal_nat(n / 10).push(digit_char((n % 10) as int))
    }
}

/// The decimal notation of an integer, with `-` before a negative one.
pub open spec fn decimal(n: int) -> Seq<char> {
    if n < 0 {
        seq!['-'] + decimal_nat((-n) as nat)
    } else {
        decimal_nat(n as nat)
    }
}

/// Reading the digits of a number gives the number back.
pub proof fn lemma_decimal_value(n: nat)
    ensures
        digits_value(decimal_nat(n)) == n,
        decimal_nat(n).len() >= 1,
        forall|i: int| 0 <= i < decimal_nat(n).len() ==> is_digit(#[trigger] decimal_nat(n)[i]),
    decreases n,
{
    if n < 10 {
        let s = decimal_nat(n);
        assert(s.drop_last() =~= Seq::<char>::empty());
        assert(digits_value(s.drop_last()) == 0);
    } else {
        lemma_decimal_value(n / 10);
        let p = decimal_nat(n / 10);
        let c = digit_char((n % 10) as int);
        assert(p.push(c).drop_last() =~= p);
        assert(p.push(c).last() == c);
    }
}

/// Different numbers have different decimal notations.
pub proof fn lemma_decimal_injective(a: nat, b: nat)
    requires
        decimal_nat(a) == decimal_nat(b),
    ensures
        a == b,
{
    lemma_decimal_value(a);
    lemma_decimal_value(b);
}

/// Appends the decimal digits of `n` to `s`.
pub fn push_decimal(s: &mut String, n: u64)
    ensures
        final(s)@ == old(s)@ + decimal_nat(n as nat),
    decreases n,
{
    if n >= 10 {
        push_decimal(s, n / 10);
    }
    let d: u8 = (n % 10) as u8;
    let c: char = (48u8 + d) as char;
    assert(c == digit_char((n % 10) as int));
    push_char(s, c);
    assert(s@ =~= old(s)@ + decimal_nat(n as nat));
}

/// Appends the decimal notation of `n` to `s`.
pub fn push_integer(s: &mut String, n: i32)
    ensures
        final(s)@ == old(s)@ + decimal(n as int),
{
    if n < 0 {
        push_char(s, '-');
        let m: u64 = (-(n as i64)) as u64;
        push_decimal(s, m);
        assert(s@ =~= old(s)@ + decimal(n as int));
    } else {
        push_decimal(s, n as u64);
    }
}

/// A set of characters that a scanning rule runs over.
pub ghost enum CharClass {
    /// The decimal digits.
    Digit,
    /// Letters, digits and the underscore.
    NameChar,
    /// Everything but white space.
    Visible,
    /// White space.
    White,
    /// Everything but the line feed.
    SameLine,
    /// The space.
    Blank,
    /// Everything but the given character.
    Not(char),
}

/// Whether a character is of a class.
pub open spec fn in_class(class: CharClass, c: char) -> bool {
    match class {
        CharClass::Digit => is_digit(c),
        CharClass::NameChar => is_name_char(c),
        CharClass::Visible => !is_whitespace(c),
        CharClass::White => is_whitespace(c),
        CharClass::SameLine => c != '\n',
        CharClass::Blank => c == ' ',
        CharClass::Not(other) => c != other,
    }
}

/// The length of the longest prefix of `s` made of characters of `class`.
pub open spec fn run_len(s: Seq<char>, class: CharClass) -> nat
    decreases s.len(),
{
    if s.len() > 0 && in_class(class, s[0]) {
        1 + run_len(s.skip(1), class)
    } else {
        0
    }
}

/// A prefix of characters of `class` that ends at the end of `s` or before a
/// character outside `class` is the longest one.
pub proof fn lemma_run_len(s: Seq<char>, class: CharClass, n: nat)
    requires
        n <= s.len(),
        forall|k: int| 0 <= k < n ==> in_class(class, #[trigger] s[k]),
        n == s.len() || !in_class(class, s[n as int]),
    ensures
        run_len(s, class) == n,
    decreases n,
{
    if n > 0 {
        let t = s.skip(1);
        assert forall|k: int| 0 <= k < n - 1 implies in_class(class, #[trigger] t[k]) by {
            assert(t[k] == s[k + 1]);
        }
        lemma_run_len(t, class, (n - 1) as nat);
    }
}

/// A run at the start of a text is no longer than the text.
pub proof fn lemma_run_len_bound(s: Seq<char>, class: CharClass)
    ensures
        run_len(s, class) <= s.len(),
    decreases s.len(),
{
    if s.len() > 0 && in_class(class, s[0]) {
        lemma_run_len_bound(s.skip(1), class);
    }
}


/// The length of the longest suffix of `s` made of characters of `class`.
pub open spec fn tail_len(s: Seq<char>, class: CharClass) -> nat
    decreases s.len(),
{
    if s.len() > 0 && in_class(class, s.last()) {
        1 + tail_len(s.drop_last(), class)
    } else {
        0
    }
}

/// A suffix of characters of `class` that starts at the start of `s` or
/// after a character outside `class` is the longest one.
pub proof fn lemma_tail_len(s: Seq<char>, class: CharClass, n: nat)
    requires
        n <= s.len(),
        forall|k: int| s.len() - n <= k < s.len() ==> in_class(class, #[trigger] s[k]),
        n == s.len() || !in_class(class, s[s.len() - n - 1]),
    ensures
        tail_len(s, class) == n,
    decreases n,
{
    if n > 0 {
        let t = s.drop_last();
        assert forall|k: int| t.len() - (n - 1) <= k < t.len() implies in_class(
            class,
            #[trigger] t[k],
        ) by {
            assert(t[k] == s[k]);
        }
        lemma_tail_len(t, class, (n - 1) as nat);
    }
}

/// A run at the end of a text is no longer than the text.
pub proof fn lemma_tail_len_bound(s: Seq<char>, class: CharClass)
    ensures
        tail_len(s, class) <= s.len(),
    decreases s.len(),
{
    if s.len() > 0 && in_class(class, s.last()) {
        lemma_tail_len_bound(s.drop_last(), class);
    }
}

/// A text without the spaces at its start and at its end.
pub open spec fn trimmed(s: Seq<char>) -> Seq<char> {
    let rest = s.skip(run_len(s, CharClass::Blank) as int);
    rest.take(rest.len() - tail_len(rest, CharClass::Blank))
}

/// The number of characters of `class` at the start of `code`.
pub fn count_run(code: &[char], class: Class) -> (n: usize)
    ensures
        n == run_len(code@, class@),
        n <= code@.len(),
{
    let mut i: usize = 0;
    while i < code.len() && class.has(code[i])
        invariant
            i <= code@.len(),
            forall|k: int| 0 <= k < i ==> in_class(class@, #[trigger] code@[k]),
        decreases code@.len() - i,
    {
        i += 1;
    }
    proof {
        lemma_run_len(code@, class@, i as nat);
    }
    i
}

/// The number of characters of `class` at the end of `code`.
pub fn count_tail(code: &[char], class: Class) -> (n: usize)
    ensures
        n == tail_len(code@, class@),
        n <= code@.len(),
{
    let mut i: usize = code.len();
    while i > 0 && class.has(code[i - 1])
        invariant
            i <= code@.len(),
            forall|k: int| i <= k < code@.len() ==> in_class(class@, #[trigger] code@[k]),
        decreases i,
    {
        i -= 1;
    }
    proof {
        lemma_tail_len(code@, class@, (code@.len() - i) as nat);
    }
    code.len() - i
}

/// The sets of characters that the scanning functions can be asked for.
#[derive(Clone, Copy)]
pub enum Class {
    Digit,
    Blank,
    Not(char),
    Visible,
    White,
}

impl View for Class {
    type V = CharClass;

    open spec fn view(&self) -> CharClass {
        match self {
            Class::Digit => CharClass::Digit,
            Class::Blank => CharClass::Blank,
            Class::Not(c) => CharClass::Not(*c),
            Class::Visible => CharClass::Visible,
            Class::White => CharClass::White,
        }
    }
}

impl Class {
    /// Whether a character belongs to the set.
    pub fn has(&self, c: char) -> (b: bool)
        ensures
            b == in_class(self@, c),
    {
        match self {
            Class::Digit => c >= '0' && c <= '9',
            Class::Blank => c == ' ',
            Class::Not(other) => c != *other,
            Class::Visible => !char_is_whitespace(c),
            Class::White => char_is_whitespace(c),
        }
    }
}

/// A text without the spaces at its start and at its end.
pub fn trim(code: &[char]) -> (r: &[char])
    ensures
        r@ == trimmed(code@),
{
    let rest = after(code, count_run(code, Class::Blank));
    let n = rest.len() - count_tail(rest, Class::Blank);
    first(rest, n)
}

/// The integer that a text denotes: decimal digits whose value fits in 32
/// bits, after `-` or `+` or nothing.
pub open spec fn int_of(s: Seq<char>) -> Option<i32> {
    let negative = s.len() > 0 && s[0] == '-';
    let signed = s.len() > 0 && (s[0] == '-' || s[0] == '+');
    let digits = if signed {
        s.skip(1)
    } else {
        s
    };
    let value = if negative {
        -(digits_value(digits) as int)
    } else {
        digits_value(digits) as int
    };
    if digits.len() > 0 && run_len(digits, CharClass::Digit) == digits.len() && i32::MIN <= value
        <= i32::MAX {
        Some(value as i32)
    } else {
        None
    }
}

/// The value of the digits only grows with more of them.
pub proof fn lemma_digits_grow(s: Seq<char>, n: int, m: int)
    requires
        0 <= n <= m <= s.len(),
        forall|k: int| 0 <= k < s.len() ==> is_digit(#[trigger] s[k]),
    ensures
        digits_value(s.take(n)) <= digits_value(s.take(m)),
    decreases m - n,
{
    if n < m {
        lemma_digits_grow(s, n, m - 1);
        assert(s.take(m).drop_last() =~= s.take(m - 1));
    }
}

/// Reads the integer that a text denotes.
pub fn parse_int(code: &[char]) -> (r: Option<i32>)
    ensures
        r == int_of(code@),
{
    let negative = code.len() > 0 && code[0] == '-';
    let signed = code.len() > 0 && (code[0] == '-' || code[0] == '+');
    let digits = if signed {
        after(code, 1)
    } else {
        code
    };
    if digits.len() == 0 || count_run(digits, Class::Digit) != digits.len() {
        return None;
    }
    proof {
        lemma_run_len_all(digits@, CharClass::Digit);
    }
    let mut value: i64 = 0;
    let mut i: usize = 0;
    while i < digits.len()
        invariant
            i <= digits@.len(),
            forall|k: int| 0 <= k < digits@.len() ==> is_digit(#[trigger] digits@[k]),
            value == digits_value(digits@.take(i as int)),
            value <= 0x8000_0000,
            negative == (code@.len() > 0 && code@[0] == '-'),
            signed == (code@.len() > 0 && (code@[0] == '-' || code@[0] == '+')),
            digits@ == (if signed {
                code@.skip(1)
            } else {
                code@
            }),
            run_len(digits@, CharClass::Digit) == digits@.len(),
        decreases digits@.len() - i,
    {
        let digit: i64 = (digits[i] as u32 - '0' as u32) as i64;
        proof {
            assert(digits@.take(i + 1).drop_last() =~= digits@.take(i as int));
            assert(digits@.take(i + 1).last() == digits@[i as int]);
        }
        let next: i64 = value * 10 + digit;
        if next > 0x8000_0000 {
            proof {
                lemma_digits_grow(digits@, i + 1, digits@.len() as int);
                assert(digits@.take(digits@.len() as int) =~= digits@);
            }
            return None;
        }
        value = next;
        i += 1;
    }
    assert(digits@.take(i as int) =~= digits@);
    if negative {
        Some((-value) as i32)
    } else if value <= 0x7fff_ffff {
        Some(value as i32)
    } else {
        None
    }
}

/// A run that is the whole text is made of characters of the class.
pub proof fn lemma_run_len_all(s: Seq<char>, class: CharClass)
    requires
        run_len(s, class) == s.len(),
    ensures
        forall|k: int| 0 <= k < s.len() ==> in_class(class, #[trigger] s[k]),
    decreases s.len(),
{
    if s.len() > 0 {
        lemma_run_len_bound(s.skip(1), class);
        lemma_run_len_all(s.skip(1), class);
        assert forall|k: int| 0 <= k < s.len() implies in_class(class, #[trigger] s[k]) by {
            if k > 0 {
                assert(s.skip(1)[k - 1] == s[k]);
            }
        }
    }
}

/// The text of a number is read as that number.
pub proof fn lemma_int_of_decimal(n: i32)
    ensures
        int_of(decimal(n as int)) == Some(n),
{
    let m: nat = if n < 0 {
        (-(n as int)) as nat
    } else {
        n as nat
    };
    lemma_decimal_value(m);
    let digits = decimal_nat(m);
    lemma_run_len(digits, CharClass::Digit, digits.len());
    if n < 0 {
        assert((seq!['-'] + digits).skip(1) =~= digits);
    }
}

/// The characters of a run belong to its class.
pub proof fn lemma_run_len_within(s: Seq<char>, class: CharClass)
    ensures
        run_len(s, class) <= s.len(),
        forall|k: int| 0 <= k < run_len(s, class) ==> in_class(class, #[trigger] s[k]),
    decreases s.len(),
{
    if s.len() > 0 && in_class(class, s[0]) {
        lemma_run_len_within(s.skip(1), class);
        assert forall|k: int| 0 <= k < run_len(s, class) implies in_class(
            class,
            #[trigger] s[k],
        ) by {
            if k > 0 {
                assert(s.skip(1)[k - 1] == s[k]);
            }
        }
    }
}

} // verus!
