//! Reading and writing text.

use vstd::prelude::*;
use vstd::string::StringExecFns;

verus! {

/// `String::push`: the character goes behind the others.
pub assume_specification[ String::push ](s: &mut String, c: char)
    ensures
        final(s)@ == old(s)@.push(c),
;

/// The characters of a text.
pub fn characters(text: &str) -> (r: Vec<char>)
    ensures
        r@ == text@,
{
    let mut out: Vec<char> = Vec::new();
    for c in it: text.chars()
        invariant
            out@ == it.seq().take(it.index()),
            it.seq() == text@,
    {
        out.push(c);
    }
    out
}

/// The text of some of the characters.
pub fn text_of(chars: &Vec<char>, from: usize, to: usize) -> (r: String)
    requires
        from <= to <= chars@.len(),
    ensures
        r@ == chars@.subrange(from as int, to as int),
{
    let mut out: String = String::new();
    let mut i: usize = from;
    while i < to
        invariant
            from <= i <= to <= chars@.len(),
            out@ == chars@.subrange(from as int, i as int),
        decreases to - i,
    {
        out.push(chars[i]);
        i = i + 1;
        assert(out@ =~= chars@.subrange(from as int, i as int));
    }
    out
}

/// Whether two texts are the same.
pub fn same_text(a: &str, b: &str) -> (r: bool)
    ensures
        r == (a@ == b@),
{
    a.to_owned() == b.to_owned()
}

/// Whether a character separates words.
pub open spec fn is_space(c: char) -> bool {
    let n = c as int;
    ||| 9 <= n <= 13
    ||| n == 32
    ||| n == 0x85
    ||| n == 0xa0
    ||| n == 0x1680
    ||| 0x2000 <= n <= 0x200a
    ||| n == 0x2028
    ||| n == 0x2029
    ||| n == 0x202f
    ||| n == 0x205f
    ||| n == 0x3000
}

fn separates(c: char) -> (r: bool)
    ensures
        r == is_space(c),
{
    let n: u32 = c as u32;
    (9 <= n && n <= 13) || n == 32 || n == 0x85 || n == 0xa0 || n == 0x1680 || (0x2000 <= n && n
        <= 0x200a) || n == 0x2028 || n == 0x2029 || n == 0x202f || n == 0x205f || n == 0x3000
}

/// Where the word that starts at a place ends.
pub open spec fn word_end(s: Seq<char>, i: int) -> int
    decreases s.len() - i,
{
    if 0 <= i < s.len() && !is_space(s[i]) {
        word_end(s, i + 1)
    } else {
        i
    }
}

/// A word that starts at a place ends behind it.
pub proof fn lemma_word_end(s: Seq<char>, i: int)
    requires
        0 <= i <= s.len(),
    ensures
        i <= word_end(s, i) <= s.len(),
        i < s.len() && !is_space(s[i]) ==> i < word_end(s, i),
    decreases s.len() - i,
{
    if i < s.len() && !is_space(s[i]) {
        lemma_word_end(s, i + 1);
    }
}

/// The words of a text from a place on.
pub open spec fn words_from(s: Seq<char>, i: int) -> Seq<Seq<char>>
    decreases s.len() - i,
        when 0 <= i <= s.len()
{
    proof {
        lemma_word_end(s, i);
    }
    if i == s.len() {
        Seq::empty()
    } else if is_space(s[i]) {
        words_from(s, i + 1)
    } else {
        seq![s.subrange(i, word_end(s, i))] + words_from(s, word_end(s, i))
    }
}

/// The words of a text.
pub open spec fn words(s: Seq<char>) -> Seq<Seq<char>> {
    words_from(s, 0)
}

/// The characters of each text of a list.
pub open spec fn texts(list: Seq<String>) -> Seq<Seq<char>> {
    list.map_values(|s: String| s@)
}

/// The words of a text.
pub fn split_whitespace(text: &str) -> (r: Vec<String>)
    ensures
        texts(r@) == words(text@),
{
    let chars: Vec<char> = characters(text);
    let ghost s = text@;
    let mut out: Vec<String> = Vec::new();
    let mut i: usize = 0;
    assert(texts(out@) =~= Seq::<Seq<char>>::empty());
    assert(words(s) =~= texts(out@) + words_from(s, 0));
    while i < chars.len()
        invariant
            i <= chars@.len(),
            chars@ == s,
            words(s) == texts(out@) + words_from(s, i as int),
        decreases chars@.len() - i,
    {
        proof {
            lemma_word_end(s, i as int);
        }
        if separates(chars[i]) {
            i = i + 1;
        } else {
            let start: usize = i;
            while i < chars.len() && !separates(chars[i])
                invariant
                    start <= i <= chars@.len(),
                    chars@ == s,
                    word_end(s, start as int) == word_end(s, i as int),
                decreases chars@.len() - i,
            {
                i = i + 1;
            }
            let word: String = text_of(&chars, start, i);
            let ghost before = out@;
            let ghost w = word@;
            out.push(word);
            proof {
                assert(texts(out@) =~= texts(before).push(w));
                assert(texts(before) + (seq![w] + words_from(s, i as int)) =~= texts(out@)
                    + words_from(s, i as int));
            }
        }
    }
    assert(texts(out@) + words_from(s, i as int) =~= texts(out@));
    out
}

/// Words with one space between each.
pub open spec fn joined(list: Seq<Seq<char>>) -> Seq<char>
    decreases list.len(),
{
    if list.len() == 0 {
        Seq::empty()
    } else if list.len() == 1 {
        list[0]
    } else {
        joined(list.drop_last()).push(' ') + list.last()
    }
}

/// Some words of a list, with one space between each.
pub fn join(list: &Vec<String>, from: usize, to: usize) -> (r: String)
    requires
        from <= to <= list@.len(),
    ensures
        r@ == joined(texts(list@).subrange(from as int, to as int)),
{
    let mut out: String = String::new();
    let mut i: usize = from;
    while i < to
        invariant
            from <= i <= to <= list@.len(),
            out@ == joined(texts(list@).subrange(from as int, i as int)),
        decreases to - i,
    {
        let ghost before = texts(list@).subrange(from as int, i as int);
        if i > from {
            out.push(' ');
        }
        out.append(list[i].as_str());
        i = i + 1;
        proof {
            let after = texts(list@).subrange(from as int, i as int);
            assert(after.drop_last() =~= before);
            assert(out@ =~= joined(after));
        }
    }
    out
}

/// A character with a capital letter of ASCII made small.
pub open spec fn lower(c: char) -> int {
    if 65 <= c as int <= 90 {
        c as int + 32
    } else {
        c as int
    }
}

/// Whether two texts are the same but for the case of ASCII letters.
pub open spec fn same_but_for_case(a: Seq<char>, b: Seq<char>) -> bool {
    a.len() == b.len() && forall|i: int| 0 <= i < a.len() ==> lower(#[trigger] a[i]) == lower(b[i])
}

fn lowered(c: char) -> (r: u32)
    ensures
        r == lower(c),
{
    let n: u32 = c as u32;
    if 65 <= n && n <= 90 {
        n + 32
    } else {
        n
    }
}

/// Whether two texts are the same but for the case of ASCII letters.
pub fn eq_ignore_ascii_case(a: &str, b: &str) -> (r: bool)
    ensures
        r == same_but_for_case(a@, b@),
{
    let x: Vec<char> = characters(a);
    let y: Vec<char> = characters(b);
    if x.len() != y.len() {
        return false;
    }
    let mut i: usize = 0;
    while i < x.len()
        invariant
            i <= x@.len() == y@.len(),
            x@ == a@,
            y@ == b@,
            forall|j: int| 0 <= j < i ==> lower(#[trigger] x@[j]) == lower(y@[j]),
        decreases x@.len() - i,
    {
        if lowered(x[i]) != lowered(y[i]) {
            assert(lower(a@[i as int]) != lower(b@[i as int]));
            return false;
        }
        i = i + 1;
    }
    true
}

pub open spec fn is_digit(c: char) -> bool {
    48 <= c as int <= 57
}

pub open spec fn all_digits(s: Seq<char>) -> bool {
    forall|i: int| 0 <= i < s.len() ==> is_digit(#[trigger] s[i])
}

/// The number that digits write.
pub open spec fn number(s: Seq<char>) -> nat
    decreases s.len(),
{
    if s.len() == 0 {
        0
    } else {
        (number(s.drop_last()) * 10 + (s.last() as int - 48)) as nat
    }
}

/// The number that a text of digits writes, if it is one and not too large.
pub open spec fn digits_up_to(s: Seq<char>, max: int) -> Option<int> {
    if s.len() > 0 && all_digits(s) && number(s) <= max {
        Some(number(s) as int)
    } else {
        None
    }
}

/// The number that a text writes, if it is one and not too large. It may have
/// a plus before it.
pub open spec fn unsigned(s: Seq<char>, max: int) -> Option<int> {
    if s.len() > 0 && s[0] == '+' {
        digits_up_to(s.skip(1), max)
    } else {
        digits_up_to(s, max)
    }
}

/// The number of 32 bits that a text writes, if it is one. It may have a sign
/// before it.
pub open spec fn signed(s: Seq<char>) -> Option<int> {
    if s.len() > 0 && s[0] == '-' {
        match digits_up_to(s.skip(1), 0x8000_0000) {
            Some(n) => Some(-n),
            None => None,
        }
    } else {
        unsigned(s, i32::MAX as int)
    }
}

fn code(c: char) -> (r: u32)
    ensures
        r == c as int,
{
    c as u32
}

fn parse_digits(chars: &Vec<char>, from: usize, max: u64) -> (r: Option<u64>)
    requires
        from <= chars@.len(),
    ensures
        match r {
            Some(n) => digits_up_to(chars@.skip(from as int), max as int) == Some(n as int),
            None => digits_up_to(chars@.skip(from as int), max as int) is None,
        },
{
    let ghost s = chars@.skip(from as int);
    if from == chars.len() {
        return None;
    }
    let mut value: u128 = 0;
    let mut i: usize = from;
    let mut too_large: bool = false;
    assert(s.take(0) =~= Seq::<char>::empty());
    while i < chars.len()
        invariant
            from <= i <= chars@.len(),
            s == chars@.skip(from as int),
            value <= max,
            forall|j: int| 0 <= j < i - from ==> is_digit(#[trigger] s[j]),
            too_large ==> number(s.take(i - from)) > max,
            !too_large ==> number(s.take(i - from)) == value,
        decreases chars@.len() - i,
    {
        let c: u32 = code(chars[i]);
        assert(s[i - from] == chars@[i as int]);
        if c < 48 || c > 57 {
            assert(!is_digit(s[i - from]));
            return None;
        }
        proof {
            assert(s.take(i - from + 1).drop_last() =~= s.take(i - from));
        }
        if !too_large {
            let next: u128 = value * 10 + (c - 48) as u128;
            if next > max as u128 {
                too_large = true;
            } else {
                value = next;
            }
        }
        i = i + 1;
    }
    assert(s.take(i - from) =~= s);
    if too_large {
        None
    } else {
        Some(value as u64)
    }
}

/// Reads a number that is not too large.
pub fn parse_unsigned(text: &str, max: u64) -> (r: Option<u64>)
    ensures
        match r {
            Some(n) => unsigned(text@, max as int) == Some(n as int) && n <= max,
            None => unsigned(text@, max as int) is None,
        },
{
    let chars: Vec<char> = characters(text);
    if chars.len() > 0 && chars[0] == '+' {
        parse_digits(&chars, 1, max)
    } else {
        assert(chars@.skip(0) =~= chars@);
        parse_digits(&chars, 0, max)
    }
}

/// Reads a number of 32 bits.
pub fn parse_i32(text: &str) -> (r: Option<i32>)
    ensures
        match r {
            Some(n) => signed(text@) == Some(n as int),
            None => signed(text@) is None,
        },
{
    let chars: Vec<char> = characters(text);
    if chars.len() > 0 && chars[0] == '-' {
        match parse_digits(&chars, 1, 0x8000_0000) {
            Some(n) => Some((-(n as i64)) as i32),
            None => None,
        }
    } else {
        match parse_unsigned(text, i32::MAX as u64) {
            Some(n) => Some(n as i32),
            None => None,
        }
    }
}

pub open spec fn digit_of(d: int) -> char {
    (48 + d) as char
}

/// A number in decimal digits.
pub open spec fn decimal(n: nat) -> Seq<char>
    decreases n,
{
    if n < 10 {
        seq![digit_of(n as int)]
    } else {
        decimal(n / 10).push(digit_of((n % 10) as int))
    }
}

/// A number in decimal digits, with its sign where it is negative.
pub open spec fn signed_decimal(n: int) -> Seq<char> {
    if n < 0 {
        seq!['-'] + decimal((-n) as nat)
    } else {
        decimal(n as nat)
    }
}

/// What is written of a number is read as the number.
pub proof fn written_number_is_read(n: nat, max: int)
    requires
        n <= max,
    ensures
        unsigned(decimal(n), max) == Some(n as int),
{
    lemma_decimal(n);
}

/// What is written of a number of 32 bits is read as the number.
pub proof fn written_signed_number_is_read(n: i32)
    ensures
        signed(signed_decimal(n as int)) == Some(n as int),
{
    let size = if n < 0 {
        (-(n as int)) as nat
    } else {
        n as nat
    };
    lemma_decimal(size);
    assert((seq!['-'] + decimal(size)).skip(1) =~= decimal(size));
}

/// What is written of a number has digits only.
pub proof fn lemma_decimal(n: nat)
    ensures
        decimal(n).len() > 0,
        all_digits(decimal(n)),
        number(decimal(n)) == n,
        decimal(n)[0] != '+',
        decimal(n)[0] != '-',
    decreases n,
{
    if n < 10 {
        assert(decimal(n).drop_last() =~= Seq::<char>::empty());
        assert(number(decimal(n).drop_last()) == 0);
    } else {
        lemma_decimal(n / 10);
        assert(decimal(n).drop_last() =~= decimal(n / 10));
    }
}

fn digit(d: u64) -> (r: char)
    requires
        d < 10,
    ensures
        r == digit_of(d as int),
{
    (48 + d as u8) as char
}

/// Writes a number behind a text.
pub fn push_decimal(out: &mut String, n: u64)
    ensures
        final(out)@ == old(out)@ + decimal(n as nat),
    decreases n,
{
    if n >= 10 {
        push_decimal(out, n / 10);
    }
    out.push(digit(n % 10));
    assert(out@ =~= old(out)@ + decimal(n as nat));
}

/// Writes a number with its sign behind a text.
pub fn push_signed(out: &mut String, n: i64)
    requires
        n > i64::MIN,
    ensures
        final(out)@ == old(out)@ + signed_decimal(n as int),
{
    if n < 0 {
        out.push('-');
        push_decimal(out, (-n) as u64);
        assert(out@ =~= old(out)@ + signed_decimal(n as int));
    } else {
        push_decimal(out, n as u64);
    }
}

} // verus!
