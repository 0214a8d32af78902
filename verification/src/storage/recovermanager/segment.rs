//! Segments of the write-ahead log.
use vstd::prelude::*;
use vstd::string::*;
use crate::text;

verus! {

/// The number of a log segment.
#[derive(Clone, Copy, Debug, PartialEq, Eq, Structural)]
pub struct SegmentId {
    pub id: u64,
}

/// The name of a segment's file: its number with twenty digits.
pub open spec fn segment_name(id: u64) -> Seq<char> {
    text::decimal_padded(id as nat, 20) + ".log"@
}

impl SegmentId {
    /// The name of the segment's file.
    pub fn filename(&self) -> (name: String)
        ensures
            name@ == segment_name(self.id),
    {
        let mut name = String::new();
        text::push_decimal_padded(&mut name, self.id, 20);
        name.append(".log");
        name
    }
}

/// `a` comes before `b` in the order of texts: they differ, and where they first do,
/// `a` has the lesser character or has ended.
pub open spec fn text_lt(a: Seq<char>, b: Seq<char>) -> bool {
    exists|k: int| text_lt_at(a, b, k)
}

/// `a` and `b` first differ at `k`, where `a` has the lesser character or has ended.
pub open spec fn text_lt_at(a: Seq<char>, b: Seq<char>, k: int) -> bool {
    &&& 0 <= k <= a.len()
    &&& k < b.len()
    &&& a.take(k) == b.take(k)
    &&& k == a.len() || a[k] < b[k]
}

/// The number of digits that are written is what was asked for.
proof fn lemma_padded_len(n: nat, width: nat)
    ensures
        text::decimal_padded(n, width).len() == width,
    decreases width,
{
    if width > 0 {
        lemma_padded_len(n / 10, (width - 1) as nat);
    }
}

/// Ten to the power of `n`.
pub open spec fn tens(n: nat) -> nat
    decreases n,
{
    if n == 0 {
        1
    } else {
        10 * tens((n - 1) as nat)
    }
}

/// Of two numbers with as many digits the lesser comes first as text.
proof fn lemma_padded_order(a: nat, b: nat, width: nat) -> (k: int)
    requires
        a < b,
        b < tens(width),
    ensures
        text_lt_at(text::decimal_padded(a, width), text::decimal_padded(b, width), k),
        k < width,
    decreases width,
{
    let w = (width - 1) as nat;
    let (x, y) = (text::decimal_padded(a, width), text::decimal_padded(b, width));
    let (p, q) = (text::decimal_padded(a / 10, w), text::decimal_padded(b / 10, w));
    lemma_padded_len(a / 10, w);
    lemma_padded_len(b / 10, w);
    if a / 10 == b / 10 {
        assert(x.take(w as int) =~= p);
        assert(y.take(w as int) =~= p);
        assert(a % 10 < b % 10);
        w as int
    } else {
        let k = lemma_padded_order(a / 10, b / 10, w);
        assert(x.take(k) =~= p.take(k));
        assert(y.take(k) =~= q.take(k));
        assert(x[k] == p[k] && y[k] == q[k]);
        k
    }
}

/// Names of segments sort as their numbers do.
pub proof fn law_names_sort_by_number(a: u64, b: u64)
    requires
        a < b,
    ensures
        text_lt(segment_name(a), segment_name(b)),
{
    assert(tens(20) == 100_000_000_000_000_000_000) by {
        reveal_with_fuel(tens, 21);
    }
    let k = lemma_padded_order(a as nat, b as nat, 20);
    lemma_padded_len(a as nat, 20);
    lemma_padded_len(b as nat, 20);
    let (p, q) = (text::decimal_padded(a as nat, 20), text::decimal_padded(b as nat, 20));
    let (x, y) = (segment_name(a), segment_name(b));
    assert(x.take(k) =~= p.take(k));
    assert(y.take(k) =~= q.take(k));
    assert(x[k] == p[k] && y[k] == q[k]);
    assert(text_lt_at(x, y, k));
}

/// A name's number is read back.
proof fn lemma_digits_back(n: nat, width: nat)
    requires
        n < tens(width),
    ensures
        text::digits_value(text::decimal_padded(n, width)) == Some(n),
    decreases width,
{
    if width > 0 {
        let w = (width - 1) as nat;
        assert(n / 10 < tens(w));
        lemma_digits_back(n / 10, w);
        let s = text::decimal_padded(n, width);
        assert(s.drop_last() =~= text::decimal_padded(n / 10, w));
        let d = (n % 10) as int;
        assert(s.last() == text::digit(d));
        assert(text::digit_value(text::digit(d)) == Some(d as nat));
        assert(10 * (n / 10) + n % 10 == n);
    } else {
        assert(text::decimal_padded(n, width) =~= seq![]);
    }
}

/// The number of a segment from the name of its file, if it is the name of one.
pub open spec fn segment_number(name: Seq<char>) -> Option<u64> {
    if text::has_suffix(name, ".log"@) {
        text::u64_value(name.take(name.len() - 4))
    } else {
        None
    }
}

/// The number of a segment can be read from its name.
pub proof fn law_segment_number(id: u64)
    ensures
        segment_number(segment_name(id)) == Some(id),
{
    assert(tens(20) == 100_000_000_000_000_000_000) by {
        reveal_with_fuel(tens, 21);
    }
    reveal_strlit(".log");
    let p = text::decimal_padded(id as nat, 20);
    let name = segment_name(id);
    lemma_padded_len(id as nat, 20);
    lemma_digits_back(id as nat, 20);
    assert(name.take(20) =~= p);
    assert(name.skip(20) =~= ".log"@);
    assert(p[0] != '+') by {
        lemma_first_digit(id as nat, 20);
    }
}

/// What is written is digits.
proof fn lemma_first_digit(n: nat, width: nat)
    requires
        width > 0,
    ensures
        text::decimal_padded(n, width)[0] != '+',
    decreases width,
{
    lemma_padded_len(n / 10, (width - 1) as nat);
    if width > 1 {
        lemma_first_digit(n / 10, (width - 1) as nat);
    } else {
        let d = (n % 10) as int;
        assert(text::digit(d) != '+');
    }
}

/// The number of a segment from the name of its file, if it is the name of one.
pub fn segment_number_of(name: &str) -> (r: Option<u64>)
    ensures
        r == segment_number(name@),
{
    let chars: Vec<char> = text::chars_of(name);
    let tail: Vec<char> = text::chars_of(".log");
    proof {
        reveal_strlit(".log");
    }
    if !text::ends_with(chars.as_slice(), tail.as_slice()) {
        return None;
    }
    let n: usize = chars.len() - 4;
    let mut number: Vec<char> = chars;
    number.truncate(n);
    assert(number@ =~= name@.take(name@.len() - 4));
    text::parse_u64(number.as_slice())
}

/// A file with a number is one whose name is a text that spells it, with the tail that
/// all log files have.
pub proof fn law_segment_number_is_spelled(name: Seq<char>, front: Seq<char>)
    ensures
        segment_number(front + ".log"@) == text::u64_value(front),
        segment_number(name) is Some ==> exists|m: Seq<char>|
            #![trigger text::u64_value(m)]
            name == m + ".log"@ && text::u64_value(m) == segment_number(name),
{
    reveal_strlit(".log");
    text::law_prefix_and_suffix(front, ".log"@, name);
    assert((front + ".log"@).take(front.len() as int) =~= front);
    if segment_number(name) is Some {
        let m = name.take(name.len() - 4);
        assert(text::u64_value(m) == segment_number(name));
    }
}

} // verus!
