//! Text: numbers in decimal and in hexadecimal.
use vstd::prelude::*;
use vstd::string::*;

verus! {

/// `String::push` appends one character.
pub assume_specification[ String::push ](s: &mut String, c: char)
    ensures
        final(s)@ == old(s)@.push(c),
;

/// The character for a digit below sixteen, with lower-case letters.
pub open spec fn digit(d: int) -> char {
    if d < 10 {
        (48 + d) as char
    } else {
        (87 + d) as char
    }
}

/// The character for a digit below sixteen, with upper-case letters.
pub open spec fn upper_digit(d: int) -> char {
    if d < 10 {
        (48 + d) as char
    } else {
        (55 + d) as char
    }
}

/// `n` in decimal, without leading zeros.
pub open spec fn decimal(n: nat) -> Seq<char>
    decreases n,
{
    if n < 10 {
        seq![digit(n as int)]
    } else {
        decimal(n / 10).push(digit((n % 10) as int))
    }
}

/// The last `width` hexadecimal digits of `n`, with lower-case letters.
pub open spec fn hex_padded(n: nat, width: nat) -> Seq<char>
    decreases width,
{
    if width == 0 {
        seq![]
    } else {
        hex_padded(n / 16, (width - 1) as nat).push(digit((n % 16) as int))
    }
}

/// `n` in hexadecimal with upper-case letters, without leading zeros.
pub open spec fn hex_upper(n: nat) -> Seq<char>
    decreases n,
{
    if n < 16 {
        seq![upper_digit(n as int)]
    } else {
        hex_upper(n / 16).push(upper_digit((n % 16) as int))
    }
}

/// The last `width` hexadecimal digits of `n`, with upper-case letters.
pub open spec fn hex_padded_upper(n: nat, width: nat) -> Seq<char>
    decreases width,
{
    if width == 0 {
        seq![]
    } else {
        hex_padded_upper(n / 16, (width - 1) as nat).push(upper_digit((n % 16) as int))
    }
}

/// The last `width` decimal digits of `n`.
pub open spec fn decimal_padded(n: nat, width: nat) -> Seq<char>
    decreases width,
{
    if width == 0 {
        seq![]
    } else {
        decimal_padded(n / 10, (width - 1) as nat).push(digit((n % 10) as int))
    }
}

/// The character for a digit.
fn digit_char(d: u8) -> (c: char)
    requires
        d < 16,
    ensures
        c == digit(d as int),
{
    if d < 10 {
        (48 + d) as char
    } else {
        (87 + d) as char
    }
}

/// The character for a digit, letters in upper case.
fn upper_digit_char(d: u8) -> (c: char)
    requires
        d < 16,
    ensures
        c == upper_digit(d as int),
{
    if d < 10 {
        (48 + d) as char
    } else {
        (55 + d) as char
    }
}

/// Appends `n` in decimal.
pub fn push_decimal(s: &mut String, n: u64)
    ensures
        final(s)@ == old(s)@ + decimal(n as nat),
    decreases n,
{
    if n >= 10 {
        push_decimal(s, n / 10);
    }
    s.push(digit_char((n % 10) as u8));
    assert(s@ =~= old(s)@ + decimal(n as nat));
}

/// Appends the last `width` hexadecimal digits of `n`, with lower-case letters.
pub fn push_hex_padded(s: &mut String, n: u32, width: u32)
    ensures
        final(s)@ == old(s)@ + hex_padded(n as nat, width as nat),
    decreases width,
{
    if width > 0 {
        push_hex_padded(s, n / 16, width - 1);
        s.push(digit_char((n % 16) as u8));
    }
    assert(s@ =~= old(s)@ + hex_padded(n as nat, width as nat));
}

/// Appends the last `width` hexadecimal digits of `n`, with upper-case letters.
pub fn push_hex_padded_upper(s: &mut String, n: u32, width: u32)
    ensures
        final(s)@ == old(s)@ + hex_padded_upper(n as nat, width as nat),
    decreases width,
{
    if width > 0 {
        push_hex_padded_upper(s, n / 16, width - 1);
        s.push(upper_digit_char((n % 16) as u8));
    }
    assert(s@ =~= old(s)@ + hex_padded_upper(n as nat, width as nat));
}

/// Appends `n` in hexadecimal, with upper-case letters.
pub fn push_hex_upper(s: &mut String, n: u32)
    ensures
        final(s)@ == old(s)@ + hex_upper(n as nat),
    decreases n,
{
    if n >= 16 {
        push_hex_upper(s, n / 16);
    }
    s.push(upper_digit_char((n % 16) as u8));
    assert(s@ =~= old(s)@ + hex_upper(n as nat));
}

/// Appends the last `width` decimal digits of `n`.
pub fn push_decimal_padded(s: &mut String, n: u64, width: u32)
    ensures
        final(s)@ == old(s)@ + decimal_padded(n as nat, width as nat),
    decreases width,
{
    if width > 0 {
        push_decimal_padded(s, n / 10, width - 1);
        s.push(digit_char((n % 10) as u8));
    }
    assert(s@ =~= old(s)@ + decimal_padded(n as nat, width as nat));
}

/// What `FromUtf8Error` says of bytes that are no UTF-8.
pub uninterp spec fn utf8_error(bytes: Seq<u8>) -> Seq<char>;

/// `String::from_utf8`: the text that UTF-8 bytes encode; for other bytes what the
/// error says.
#[verifier::external_body]
fn std_from_utf8(bytes: Vec<u8>) -> (r: Result<String, String>)
    ensures
        r is Ok <==> vstd::utf8::valid_utf8(bytes@),
        r matches Ok(s) ==> s@ == vstd::utf8::decode_utf8(bytes@),
        r matches Err(m) ==> m@ == utf8_error(bytes@),
{
    String::from_utf8(bytes).map_err(|e| format!("{}", e))
}

/// The text that UTF-8 bytes encode; for other bytes what is wrong with them.
pub fn from_utf8(bytes: Vec<u8>) -> (r: Result<String, String>)
    ensures
        r is Ok <==> vstd::utf8::valid_utf8(bytes@),
        r matches Ok(s) ==> s@ == vstd::utf8::decode_utf8(bytes@),
        r matches Err(m) ==> m@ == utf8_error(bytes@),
{
    std_from_utf8(bytes)
}

/// What `String::from_utf8_lossy` makes of bytes that are no UTF-8.
pub uninterp spec fn lossy_text(bytes: Seq<u8>) -> Seq<char>;

/// The text that UTF-8 bytes encode; other bytes as `String::from_utf8_lossy` shows
/// them, with replacement characters.
pub open spec fn utf8_lossy(bytes: Seq<u8>) -> Seq<char> {
    if vstd::utf8::valid_utf8(bytes) {
        vstd::utf8::decode_utf8(bytes)
    } else {
        lossy_text(bytes)
    }
}

/// `String::from_utf8_lossy`.
#[verifier::external_body]
fn std_from_utf8_lossy(bytes: &[u8]) -> (s: String)
    ensures
        vstd::utf8::valid_utf8(bytes@) ==> s@ == vstd::utf8::decode_utf8(bytes@),
        !vstd::utf8::valid_utf8(bytes@) ==> s@ == lossy_text(bytes@),
{
    String::from_utf8_lossy(bytes).into_owned()
}

/// The text that bytes encode, with replacement characters where they are no UTF-8.
pub fn from_utf8_lossy(bytes: &[u8]) -> (s: String)
    ensures
        s@ == utf8_lossy(bytes@),
{
    std_from_utf8_lossy(bytes)
}

/// The characters of `s`.
pub fn chars_of(s: &str) -> (out: Vec<char>)
    ensures
        out@ == s@,
{
    broadcast use vstd::string::axiom_spec_iter;

    let mut out: Vec<char> = Vec::new();
    for c in it: s.chars()
        invariant
            out@ == it.seq().take(it.index()),
            it.seq() == s@,
    {
        out.push(c);
        assert(out@ =~= it.seq().take(it.index() + 1));
    }
    assert(out@ =~= s@);
    out
}

/// The text with the given characters.
pub fn string_of(chars: &[char]) -> (out: String)
    ensures
        out@ == chars@,
{
    let mut out = String::new();
    let mut i: usize = 0;
    while i < chars.len()
        invariant
            i <= chars@.len(),
            out@ == chars@.take(i as int),
        decreases chars@.len() - i,
    {
        out.push(chars[i]);
        assert(out@ =~= chars@.take(i + 1));
        i = i + 1;
    }
    assert(out@ =~= chars@);
    out
}

/// The value of a decimal digit.
pub open spec fn digit_value(c: char) -> Option<nat> {
    if '0' <= c && c <= '9' {
        Some((c as nat - '0' as nat) as nat)
    } else {
        None
    }
}

/// The number that decimal digits spell, if they are all digits.
pub open spec fn digits_value(s: Seq<char>) -> Option<nat>
    decreases s.len(),
{
    if s.len() == 0 {
        Some(0)
    } else {
        match digits_value(s.drop_last()) {
            None => None,
            Some(high) => match digit_value(s.last()) {
                None => None,
                Some(low) => Some(10 * high + low),
            },
        }
    }
}

/// The number that a text spells: decimal digits, of which there is at least one,
/// after an optional plus sign; no more than fits in 64 bits.
pub open spec fn u64_value(s: Seq<char>) -> Option<u64> {
    let digits = if s.len() > 0 && s[0] == '+' {
        s.skip(1)
    } else {
        s
    };
    if digits.len() == 0 {
        None
    } else {
        match digits_value(digits) {
            Some(n) => if n <= u64::MAX {
                Some(n as u64)
            } else {
                None
            },
            None => None,
        }
    }
}

/// More digits spell a number that is no smaller.
proof fn lemma_digits_grow(s: Seq<char>, i: int)
    requires
        0 <= i <= s.len(),
    ensures
        digits_value(s) is Some ==> digits_value(s.take(i)) is Some && digits_value(s.take(i))->0
            <= digits_value(s)->0,
    decreases s.len() - i,
{
    if i < s.len() {
        lemma_digits_grow(s, i + 1);
        assert(s.take(i + 1).drop_last() =~= s.take(i));
    } else {
        assert(s.take(i) =~= s);
    }
}

/// The number that `chars` spell.
pub fn parse_u64(chars: &[char]) -> (r: Option<u64>)
    ensures
        r == u64_value(chars@),
{
    let start: usize = if chars.len() > 0 && chars[0] == '+' {
        1
    } else {
        0
    };
    let ghost digits = chars@.skip(start as int);
    assert(chars@.skip(0) =~= chars@);
    if chars.len() == start {
        return None;
    }
    let mut n: u64 = 0;
    let mut i: usize = start;
    while i < chars.len()
        invariant
            start <= i <= chars@.len(),
            digits == chars@.skip(start as int),
            u64_value(chars@) == (match digits_value(digits) {
                Some(n) => if n <= u64::MAX {
                    Some(n as u64)
                } else {
                    None
                },
                None => None,
            }),
            digits_value(digits.take(i - start)) == Some(n as nat),
        decreases chars@.len() - i,
    {
        let c = chars[i];
        proof {
            assert(digits.take(i - start + 1).drop_last() =~= digits.take(i - start));
            assert(digits.take(i - start + 1).last() == c);
            lemma_digits_grow(digits, i - start + 1);
        }
        if !('0' <= c && c <= '9') {
            return None;
        }
        let d: u64 = (c as u32 - '0' as u32) as u64;
        if n > (u64::MAX - d) / 10 {
            return None;
        }
        n = 10 * n + d;
        i = i + 1;
    }
    assert(digits.take(i - start) =~= digits);
    Some(n)
}

/// `s` ends with `tail`.
pub open spec fn has_suffix(s: Seq<char>, tail: Seq<char>) -> bool {
    tail.len() <= s.len() && s.skip(s.len() - tail.len()) == tail
}

/// Whether `chars` end with `tail`.
pub fn ends_with(chars: &[char], tail: &[char]) -> (r: bool)
    ensures
        r == has_suffix(chars@, tail@),
{
    if tail.len() > chars.len() {
        return false;
    }
    let from: usize = chars.len() - tail.len();
    let mut i: usize = 0;
    while i < tail.len()
        invariant
            i <= tail@.len(),
            from + tail@.len() == chars@.len(),
            forall|j: int| 0 <= j < i ==> chars@[from + j] == #[trigger] tail@[j],
        decreases tail@.len() - i,
    {
        assert(from + i < chars.len());
        if chars[from + i] != tail[i] {
            assert(chars@.skip(from as int)[i as int] != tail@[i as int]);
            return false;
        }
        i = i + 1;
    }
    assert(chars@.skip(from as int) =~= tail@);
    true
}

/// `s` starts with `head`.
pub open spec fn has_prefix(s: Seq<char>, head: Seq<char>) -> bool {
    head.len() <= s.len() && s.take(head.len() as int) == head
}

/// Whether `chars` start with `head`.
pub fn starts_with(chars: &[char], head: &[char]) -> (r: bool)
    ensures
        r == has_prefix(chars@, head@),
{
    if head.len() > chars.len() {
        return false;
    }
    let mut i: usize = 0;
    while i < head.len()
        invariant
            i <= head@.len() <= chars@.len(),
            forall|j: int| 0 <= j < i ==> chars@[j] == #[trigger] head@[j],
        decreases head@.len() - i,
    {
        if chars[i] != head[i] {
            assert(chars@.take(head@.len() as int)[i as int] != head@[i as int]);
            return false;
        }
        i = i + 1;
    }
    assert(chars@.take(head@.len() as int) =~= head@);
    true
}

/// Whether two texts are the same.
pub fn same_text(a: &str, b: &str) -> (r: bool)
    ensures
        r == (a@ == b@),
{
    let (x, y) = (chars_of(a), chars_of(b));
    if x.len() != y.len() {
        return false;
    }
    let same = starts_with(x.as_slice(), y.as_slice());
    assert(a@.take(b@.len() as int) =~= a@);
    same
}

/// The character is white space, as Unicode has it.
pub open spec fn white_space(c: char) -> bool {
    ||| '\u{9}' <= c <= '\u{d}'
    ||| c == '\u{20}'
    ||| c == '\u{85}'
    ||| c == '\u{a0}'
    ||| c == '\u{1680}'
    ||| '\u{2000}' <= c <= '\u{200a}'
    ||| c == '\u{2028}'
    ||| c == '\u{2029}'
    ||| c == '\u{202f}'
    ||| c == '\u{205f}'
    ||| c == '\u{3000}'
}

/// Whether the character is white space.
pub fn is_white_space(c: char) -> (r: bool)
    ensures
        r == white_space(c),
{
    ('\u{9}' <= c && c <= '\u{d}') || c == '\u{20}' || c == '\u{85}' || c == '\u{a0}' || c
        == '\u{1680}' || ('\u{2000}' <= c && c <= '\u{200a}') || c == '\u{2028}' || c
        == '\u{2029}' || c == '\u{202f}' || c == '\u{205f}' || c == '\u{3000}'
}

/// Without the white space at its end.
pub open spec fn trimmed_end(s: Seq<char>) -> Seq<char>
    decreases s.len(),
{
    if s.len() > 0 && white_space(s.last()) {
        trimmed_end(s.drop_last())
    } else {
        s
    }
}

/// Without the white space at its start.
pub open spec fn trimmed_start(s: Seq<char>) -> Seq<char>
    decreases s.len(),
{
    if s.len() > 0 && white_space(s[0]) {
        trimmed_start(s.skip(1))
    } else {
        s
    }
}

/// Without the white space at its two ends.
pub open spec fn trimmed(s: Seq<char>) -> Seq<char> {
    trimmed_end(trimmed_start(s))
}

/// The characters of `s` without the white space at its two ends.
pub fn trim_chars(s: &str) -> (out: Vec<char>)
    ensures
        out@ == trimmed(s@),
{
    let all: Vec<char> = chars_of(s);
    let mut from: usize = 0;
    assert(s@.skip(0) =~= s@);
    while from < all.len() && is_white_space(all[from])
        invariant
            from <= all@.len(),
            all@ == s@,
            trimmed_start(s@) == trimmed_start(s@.skip(from as int)),
        decreases all@.len() - from,
    {
        assert(s@.skip(from as int)[0] == all@[from as int]);
        assert(s@.skip(from as int).skip(1) =~= s@.skip(from + 1));
        from = from + 1;
    }
    let mut out: Vec<char> = Vec::new();
    let mut i: usize = from;
    assert(out@ =~= s@.skip(from as int).take(0));
    while i < all.len()
        invariant
            from <= i <= all@.len(),
            all@ == s@,
            out@ == s@.skip(from as int).take(i - from),
        decreases all@.len() - i,
    {
        let ghost before = out@;
        out.push(all[i]);
        assert(out@ =~= s@.skip(from as int).take(i + 1 - from));
        i = i + 1;
    }
    assert(out@ =~= s@.skip(from as int));
    assert(from < s@.len() ==> s@.skip(from as int)[0] == all@[from as int]);
    let ghost start = out@;
    while out.len() > 0 && is_white_space(out[out.len() - 1])
        invariant
            trimmed_end(start) == trimmed_end(out@),
        decreases out@.len(),
    {
        let ghost before = out@;
        out.pop();
        assert(out@ =~= before.drop_last());
    }
    out
}

/// All characters are ASCII.
pub open spec fn ascii(s: Seq<char>) -> bool {
    forall|i: int| 0 <= i < s.len() ==> (#[trigger] s[i] as u32) < 128
}

/// A character with `a` to `z` in upper case.
pub open spec fn upper_char(c: char) -> char {
    if 97 <= c as u32 <= 122 {
        (c as u32 - 32) as char
    } else {
        c
    }
}

/// A character with `A` to `Z` in lower case.
pub open spec fn lower_char(c: char) -> char {
    if 65 <= c as u32 <= 90 {
        (c as u32 + 32) as char
    } else {
        c
    }
}

/// What `str::to_uppercase` makes of a text.
pub uninterp spec fn upper_text(s: Seq<char>) -> Seq<char>;

/// The text in upper case, as Unicode has it: ASCII letter by letter.
pub open spec fn upper(s: Seq<char>) -> Seq<char> {
    if ascii(s) {
        Seq::new(s.len(), |i: int| upper_char(s[i]))
    } else {
        upper_text(s)
    }
}

/// `str::to_uppercase`: ASCII letters are replaced one by one. What becomes of other
/// texts is named.
#[verifier::external_body]
fn std_to_uppercase(s: &str) -> (out: String)
    ensures
        ascii(s@) ==> out@ == Seq::new(s@.len(), |i: int| upper_char(s@[i])),
        !ascii(s@) ==> out@ == upper_text(s@),
{
    s.to_uppercase()
}

/// The text in upper case.
pub fn to_uppercase(s: &str) -> (out: String)
    ensures
        out@ == upper(s@),
{
    std_to_uppercase(s)
}

/// What `str::to_lowercase` makes of a text.
pub uninterp spec fn lower_text(s: Seq<char>) -> Seq<char>;

/// The text in lower case, as Unicode has it: ASCII letter by letter.
pub open spec fn lower(s: Seq<char>) -> Seq<char> {
    if ascii(s) {
        Seq::new(s.len(), |i: int| lower_char(s[i]))
    } else {
        lower_text(s)
    }
}

/// `str::to_lowercase`: ASCII letters are replaced one by one. What becomes of other
/// texts is named.
#[verifier::external_body]
fn std_to_lowercase(s: &str) -> (out: String)
    ensures
        ascii(s@) ==> out@ == Seq::new(s@.len(), |i: int| lower_char(s@[i])),
        !ascii(s@) ==> out@ == lower_text(s@),
{
    s.to_lowercase()
}

/// The text in lower case.
pub fn to_lowercase(s: &str) -> (out: String)
    ensures
        out@ == lower(s@),
{
    std_to_lowercase(s)
}

/// An ASCII text in lower case is the same in upper case as the text itself.
pub proof fn law_upper_of_lower(s: Seq<char>)
    requires
        ascii(s),
    ensures
        upper(lower(s)) == upper(s),
{
    assert forall|i: int| 0 <= i < s.len() implies (#[trigger] lower(s)[i] as u32) < 128 by {
        assert((s[i] as u32) < 128);
    }
    assert(upper(lower(s)) =~= upper(s)) by {
        assert forall|i: int| 0 <= i < s.len() implies upper(lower(s))[i] == upper(s)[i] by {
            assert((s[i] as u32) < 128);
        }
    }
}

proof fn lemma_case_of_char(c: char)
    ensures
        upper_char(c) as int == (if 'a' <= c <= 'z' {
            c as int - 'a' as int + 'A' as int
        } else {
            c as int
        }),
        lower_char(c) as int == (if 'A' <= c <= 'Z' {
            c as int - 'A' as int + 'a' as int
        } else {
            c as int
        }),
{
}

/// A text in upper or lower case is as long as before; of an ASCII text just the letters
/// of the other case change, each to the same letter.
pub proof fn law_case_letter_by_letter(s: Seq<char>)
    requires
        ascii(s),
    ensures
        upper(s).len() == s.len(),
        lower(s).len() == s.len(),
        forall|i: int|
            0 <= i < s.len() ==> #[trigger] upper(s)[i] as int == (if 'a' <= s[i] <= 'z' {
                s[i] as int - 'a' as int + 'A' as int
            } else {
                s[i] as int
            }),
        forall|i: int|
            0 <= i < s.len() ==> #[trigger] lower(s)[i] as int == (if 'A' <= s[i] <= 'Z' {
                s[i] as int - 'A' as int + 'a' as int
            } else {
                s[i] as int
            }),
{
    assert forall|i: int| 0 <= i < s.len() implies #[trigger] upper(s)[i] as int == (if 'a' <= s[i]
        <= 'z' {
        s[i] as int - 'a' as int + 'A' as int
    } else {
        s[i] as int
    }) by {
        lemma_case_of_char(s[i]);
        assert((s[i] as u32) < 128);
    }
    assert forall|i: int| 0 <= i < s.len() implies #[trigger] lower(s)[i] as int == (if 'A' <= s[i]
        <= 'Z' {
        s[i] as int - 'A' as int + 'a' as int
    } else {
        s[i] as int
    }) by {
        lemma_case_of_char(s[i]);
        assert((s[i] as u32) < 128);
    }
}

/// The digits of a number read as the number, and there is at least one.
pub proof fn law_decimal_reads_back(n: nat)
    ensures
        decimal(n).len() > 0,
        forall|i: int| 0 <= i < decimal(n).len() ==> '0' <= #[trigger] decimal(n)[i] <= '9',
        digits_value(decimal(n)) == Some(n),
        n <= u64::MAX ==> u64_value(decimal(n)) == Some(n as u64),
    decreases n,
{
    if n < 10 {
        let s = seq![digit(n as int)];
        assert(s.drop_last() =~= Seq::<char>::empty());
        assert(digits_value(s.drop_last()) == Some(0nat));
        assert(decimal(n) == s);
    } else {
        law_decimal_reads_back(n / 10);
        let (front, c) = (decimal(n / 10), digit((n % 10) as int));
        assert(front.push(c).drop_last() =~= front);
        assert(front.push(c).last() == c);
        assert forall|i: int| 0 <= i < decimal(n).len() implies '0' <= #[trigger] decimal(n)[i]
            <= '9' by {
            if i < front.len() {
                assert(decimal(n)[i] == front[i]);
            }
        }
    }
    assert('0' <= decimal(n)[0]);
}

/// Different numbers have different digits.
pub proof fn law_decimal_distinct(a: nat, b: nat)
    requires
        decimal(a) == decimal(b),
    ensures
        a == b,
{
    law_decimal_reads_back(a);
    law_decimal_reads_back(b);
}

/// A number below ten has one digit. Ten times a number and a digit has the digits of the
/// number, and that one behind them.
pub proof fn law_decimal_digits(n: nat, d: nat)
    requires
        d < 10,
    ensures
        decimal(d) == seq![('0' as nat + d) as char],
        n > 0 ==> decimal(10 * n + d) == decimal(n).push(('0' as nat + d) as char),
{
    if n > 0 {
        assert((10 * n + d) / 10 == n);
        assert((10 * n + d) % 10 == d);
    }
}

/// A digit behind others counts once, what they spell ten times; nothing but digits
/// spells a number.
pub proof fn law_digits_spell(s: Seq<char>, c: char)
    ensures
        digits_value(Seq::<char>::empty()) == Some(0nat),
        digits_value(s.push(c)) == (if '0' <= c <= '9' && digits_value(s) is Some {
            Some((10 * digits_value(s)->0 + (c as int - '0' as int)) as nat)
        } else {
            None
        }),
{
    assert(s.push(c).drop_last() =~= s);
    assert(s.push(c).last() == c);
}

/// A text is read as the number that its digits spell, where it fits in 64 bits. A plus
/// sign before the digits changes nothing; without a digit there is no number.
pub proof fn law_number_read(s: Seq<char>)
    ensures
        u64_value(Seq::<char>::empty()) is None,
        u64_value(seq!['+']) is None,
        s.len() > 0 && s[0] != '+' ==> u64_value(seq!['+'] + s) == u64_value(s),
        s.len() > 0 && s[0] != '+' ==> match u64_value(s) {
            Some(n) => digits_value(s) == Some(n as nat),
            None => match digits_value(s) {
                Some(n) => n > u64::MAX,
                None => true,
            },
        },
{
    assert((seq!['+'] + s).skip(1) =~= s);
}

/// Padded digits are as many as asked for, and read as the number, where it has no more
/// of them.
pub proof fn law_padded_reads_back(n: nat, width: nat)
    ensures
        decimal_padded(n, width).len() == width,
        forall|i: int| 0 <= i < width ==> '0' <= #[trigger] decimal_padded(n, width)[i] <= '9',
        n < vstd::arithmetic::power::pow(10, width) ==> digits_value(decimal_padded(n, width))
            == Some(n),
    decreases width,
{
    if width == 0 {
        vstd::arithmetic::power::lemma_pow0(10);
    } else {
        let w = (width - 1) as nat;
        law_padded_reads_back(n / 10, w);
        let (front, c) = (decimal_padded(n / 10, w), digit((n % 10) as int));
        assert(front.push(c).drop_last() =~= front);
        assert(front.push(c).last() == c);
        vstd::arithmetic::power::lemma_pow1(10);
        vstd::arithmetic::power::lemma_pow_adds(10, 1, w);
        assert(vstd::arithmetic::power::pow(10, width) == 10 * vstd::arithmetic::power::pow(10, w));
        assert forall|i: int| 0 <= i < width implies '0' <= #[trigger] decimal_padded(n, width)[i]
            <= '9' by {
            if i < front.len() {
                assert(decimal_padded(n, width)[i] == front[i]);
            }
        }
    }
}

/// The digits of sixteen times a number and a digit are those of the number, and that one
/// behind them: `0` to `9`, then `a` to `f` or, in upper case, `A` to `F`. A padded number
/// has as many digits as asked for.
pub proof fn law_hex_digits(n: nat, d: nat, width: nat)
    requires
        d < 16,
    ensures
        hex_padded(n, width).len() == width,
        hex_padded_upper(n, width).len() == width,
        hex_padded(16 * n + d, width + 1) == hex_padded(n, width).push(
            if d < 10 {
                ('0' as nat + d) as char
            } else {
                ('a' as nat + d - 10) as char
            },
        ),
        ({
            let c = if d < 10 {
                ('0' as nat + d) as char
            } else {
                ('A' as nat + d - 10) as char
            };
            &&& hex_padded_upper(16 * n + d, width + 1) == hex_padded_upper(n, width).push(c)
            &&& hex_upper(d) == seq![c]
            &&& n > 0 ==> hex_upper(16 * n + d) == hex_upper(n).push(c)
        }),
    decreases width,
{
    assert((16 * n + d) / 16 == n);
    assert((16 * n + d) % 16 == d);
    if width > 0 {
        law_hex_digits(n / 16, 0, (width - 1) as nat);
    }
}

/// All characters are white space.
pub open spec fn blank(s: Seq<char>) -> bool {
    forall|i: int| 0 <= i < s.len() ==> white_space(#[trigger] s[i])
}

/// Of the ASCII characters the space is white space, and the control characters from
/// the tab to the carriage return; no others.
pub proof fn law_ascii_white_space(c: char)
    requires
        (c as u32) < 128,
    ensures
        white_space(c) == (c == ' ' || '\t' <= c <= '\r'),
{
}

proof fn lemma_trim_start(before: Seq<char>, s: Seq<char>)
    requires
        blank(before),
        s.len() > 0 ==> !white_space(s[0]),
    ensures
        trimmed_start(before + s) == s,
    decreases before.len(),
{
    if before.len() > 0 {
        assert((before + s)[0] == before[0]);
        assert((before + s).skip(1) =~= before.skip(1) + s);
        assert forall|i: int| 0 <= i < before.skip(1).len() implies white_space(
            #[trigger] before.skip(1)[i],
        ) by {
            assert(before.skip(1)[i] == before[i + 1]);
        }
        lemma_trim_start(before.skip(1), s);
    } else {
        assert(before + s =~= s);
    }
}

proof fn lemma_trim_end(s: Seq<char>, after: Seq<char>)
    requires
        blank(after),
        s.len() > 0 ==> !white_space(s.last()),
    ensures
        trimmed_end(s + after) == s,
    decreases after.len(),
{
    if after.len() > 0 {
        assert((s + after).last() == after[after.len() - 1]);
        assert((s + after).drop_last() =~= s + after.drop_last());
        assert forall|i: int| 0 <= i < after.drop_last().len() implies white_space(
            #[trigger] after.drop_last()[i],
        ) by {
            assert(after.drop_last()[i] == after[i]);
        }
        lemma_trim_end(s, after.drop_last());
    } else {
        assert(s + after =~= s);
    }
}

/// Trimming takes the white space off the two ends and nothing else.
pub proof fn law_trimmed(before: Seq<char>, s: Seq<char>, after: Seq<char>)
    requires
        blank(before),
        blank(after),
        s.len() > 0 ==> !white_space(s[0]) && !white_space(s.last()),
    ensures
        trimmed(before + s + after) == s,
{
    if s.len() > 0 {
        assert((s + after)[0] == s[0]);
        lemma_trim_start(before, s + after);
        assert(before + (s + after) =~= before + s + after);
        lemma_trim_end(s, after);
    } else {
        assert forall|i: int| 0 <= i < (before + after).len() implies white_space(
            #[trigger] (before + after)[i],
        ) by {
            if i < before.len() {
                assert((before + after)[i] == before[i]);
            } else {
                assert((before + after)[i] == after[i - before.len()]);
            }
        }
        lemma_trim_start(before + after, s);
        assert(before + s + after =~= before + after + s);
    }
}

/// A text starts with the first of two parts that it is made of and ends with the
/// second; one that starts with a text is made of it and the rest.
pub proof fn law_prefix_and_suffix(a: Seq<char>, b: Seq<char>, s: Seq<char>)
    ensures
        has_prefix(a + b, a),
        has_suffix(a + b, b),
        has_prefix(s, a) ==> s == a + s.skip(a.len() as int),
        has_suffix(s, b) ==> s == s.take(s.len() - b.len()) + b,
{
    assert((a + b).take(a.len() as int) =~= a);
    assert((a + b).skip(a.len() as int) =~= b);
    if has_prefix(s, a) {
        assert(s =~= s.take(a.len() as int) + s.skip(a.len() as int));
    }
    if has_suffix(s, b) {
        assert(s =~= s.take(s.len() - b.len()) + s.skip(s.len() - b.len()));
    }
}

/// The code points that Unicode counts as white space.
pub open spec fn white_space_codes() -> Seq<int> {
    seq![
        0x9,
        0xA,
        0xB,
        0xC,
        0xD,
        0x20,
        0x85,
        0xA0,
        0x1680,
        0x2000,
        0x2001,
        0x2002,
        0x2003,
        0x2004,
        0x2005,
        0x2006,
        0x2007,
        0x2008,
        0x2009,
        0x200A,
        0x2028,
        0x2029,
        0x202F,
        0x205F,
        0x3000,
    ]
}

/// White space is the characters with these code points, and no others.
pub proof fn law_white_space(c: char)
    ensures
        white_space(c) <==> white_space_codes().contains(c as int),
{
    let codes = white_space_codes();
    let x = c as int;
    if white_space(c) {
        let i: int = if 0x9 <= x <= 0xD {
            x - 0x9
        } else if x == 0x20 {
            5
        } else if x == 0x85 {
            6
        } else if x == 0xA0 {
            7
        } else if x == 0x1680 {
            8
        } else if 0x2000 <= x <= 0x200A {
            9 + x - 0x2000
        } else if x == 0x2028 {
            20
        } else if x == 0x2029 {
            21
        } else if x == 0x202F {
            22
        } else if x == 0x205F {
            23
        } else {
            24
        };
        assert(codes[i] == x);
    }
}

} // verus!
