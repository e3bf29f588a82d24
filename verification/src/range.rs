//! The `Range` header of a request, read against the length of a file.
//!
//! One form is served: `bytes=<start>-<end>`, both numbers in decimal, the
//! last byte included. Without `<end>` the range runs to the end of the file,
//! and `bytes=-` is the whole file. Everything else is answered with the full
//! file, as if no range had been asked for: a list of ranges, the suffix form
//! `bytes=-<length>`, another unit, and a range that does not lie within the
//! file.

use vstd::prelude::*;
use crate::text::all_digits;
use crate::text::decimal;
use crate::text::decimal_value;
use crate::text::digit_value;
use crate::text::is_digit;
use crate::text::lemma_decimal_reads_back;
use crate::text::to_chars;

verus! {

/// The bytes `start` to `end` of a file, both included.
#[derive(Clone, Copy, Debug, PartialEq, Eq, Structural)]
pub struct ByteRange {
    pub start: u64,
    pub end: u64,
}

impl ByteRange {
    /// Whether the range lies within a file of `file_size` bytes.
    pub open spec fn within(&self, file_size: u64) -> bool {
        self.start <= self.end < file_size
    }

    /// The number of bytes in the range.
    pub open spec fn count(&self) -> int {
        self.end - self.start + 1
    }

    /// The number of bytes in the range.
    pub fn length(&self) -> (out: u64)
        requires
            self.start <= self.end < u64::MAX,
        ensures
            out == self.count(),
    {
        self.end - self.start + 1
    }
}

/// The unit that a served range is counted in, with the `=` behind it.
pub open spec fn unit() -> Seq<char> {
    seq!['b', 'y', 't', 'e', 's', '=']
}

/// The number of characters of `s` before its first `c`; the length of `s`
/// where it holds no `c`.
pub open spec fn position(s: Seq<char>, c: char) -> int
    decreases s.len(),
{
    if s.len() == 0 || s[0] == c {
        0
    } else {
        1 + position(s.drop_first(), c)
    }
}

/// The range that the header value `value` asks of a file of `file_size`
/// bytes, or `None` where the full file is to be served.
pub open spec fn range_in(value: Seq<char>, file_size: u64) -> Option<ByteRange> {
    let body = value.skip(unit().len() as int);
    let dash = position(body, '-');
    let first = body.take(dash);
    let last = body.skip(dash + 1);
    let start = decimal_value(first) as int;
    let end = if last.len() == 0 {
        file_size - 1
    } else {
        decimal_value(last) as int
    };
    if unit().is_prefix_of(value) && dash < body.len() && all_digits(first) && all_digits(last)
        && !(first.len() == 0 && last.len() > 0) && start <= end < file_size {
        Some(ByteRange { start: start as u64, end: end as u64 })
    } else {
        None
    }
}

/// What an optional header value stands for.
pub open spec fn header_view(header: Option<&str>) -> Option<Seq<char>> {
    match header {
        Some(value) => Some(value@),
        None => None,
    }
}

/// The range that a request asks of a file of `file_size` bytes: none
/// without a `Range` header.
pub open spec fn requested_range(header: Option<Seq<char>>, file_size: u64) -> Option<ByteRange> {
    match header {
        Some(value) => range_in(value, file_size),
        None => None,
    }
}

/// Where the first `c` of `s` stands: nothing before it is a `c`.
pub proof fn lemma_position(s: Seq<char>, c: char)
    ensures
        0 <= position(s, c) <= s.len(),
        forall|i: int| 0 <= i < position(s, c) ==> s[i] != c,
        position(s, c) < s.len() ==> s[position(s, c)] == c,
    decreases s.len(),
{
    if s.len() == 0 || s[0] == c {
    } else {
        let rest = s.drop_first();
        lemma_position(rest, c);
        assert forall|i: int| 0 <= i < position(s, c) implies s[i] != c by {
            if i > 0 {
                assert(s[i] == rest[i - 1]);
            }
        }
        assert(s[position(s, c)] == rest[position(rest, c)] || position(s, c) >= s.len());
    }
}

/// A `c` with no `c` before it is the first.
pub proof fn lemma_position_is(s: Seq<char>, c: char, at: int)
    requires
        0 <= at <= s.len(),
        forall|i: int| 0 <= i < at ==> s[i] != c,
        at < s.len() ==> s[at] == c,
    ensures
        position(s, c) == at,
{
    lemma_position(s, c);
    let p = position(s, c);
    if p < at {
        assert(s[p] == c);
    } else if p > at {
        assert(s[at] != c);
    }
}

/// Reads the digits of `chars` that begin at `from`. Gives the place behind
/// the last of them, and the number they write where it fits in 64 bits.
fn read_number(chars: &[char], from: usize) -> (out: (usize, Option<u64>))
    requires
        from <= chars@.len(),
    ensures
        from <= out.0 <= chars@.len(),
        all_digits(chars@.subrange(from as int, out.0 as int)),
        out.0 < chars@.len() ==> !is_digit(chars@[out.0 as int]),
        match out.1 {
            Some(value) => value == decimal_value(chars@.subrange(from as int, out.0 as int)),
            None => decimal_value(chars@.subrange(from as int, out.0 as int)) > u64::MAX,
        },
{
    let mut i: usize = from;
    let mut value: Option<u64> = Some(0);
    while i < chars.len() && '0' <= chars[i] && chars[i] <= '9'
        invariant
            from <= i <= chars@.len(),
            all_digits(chars@.subrange(from as int, i as int)),
            match value {
                Some(v) => v == decimal_value(chars@.subrange(from as int, i as int)),
                None => decimal_value(chars@.subrange(from as int, i as int)) > u64::MAX,
            },
        decreases chars@.len() - i,
    {
        let digit: u64 = (chars[i] as u32 - '0' as u32) as u64;
        proof {
            let before = chars@.subrange(from as int, i as int);
            let after = chars@.subrange(from as int, i + 1);
            assert(after.drop_last() =~= before);
            assert(after.last() == chars@[i as int]);
            assert(digit == digit_value(chars@[i as int]));
            assert(decimal_value(after) == decimal_value(before) * 10 + digit);
            assert forall|k: int| 0 <= k < after.len() implies is_digit(#[trigger] after[k]) by {
                if k < before.len() {
                    assert(after[k] == before[k]);
                }
            }
        }
        value =
        match value {
            Some(v) => {
                if v > (u64::MAX - digit) / 10 {
                    None
                } else {
                    Some(v * 10 + digit)
                }
            },
            None => None,
        };
        i += 1;
    }
    (i, value)
}

/// Reads a `Range` header against a file of `file_size` bytes: the range to
/// serve, or `None` where the full file is to be served.
pub fn parse_range(header: Option<&str>, file_size: u64) -> (out: Option<ByteRange>)
    ensures
        out == requested_range(header_view(header), file_size),
        out is Some ==> out->0.within(file_size),
{
    let text = match header {
        Some(value) => value,
        None => { return None; },
    };
    let chars = to_chars(text);
    let n: usize = chars.len();
    let ghost value = chars@;
    let ghost body = value.skip(6);
    if n < 6 || chars[0] != 'b' || chars[1] != 'y' || chars[2] != 't' || chars[3] != 'e'
        || chars[4] != 's' || chars[5] != '=' {
        proof {
            if unit().is_prefix_of(value) {
                assert(forall|i: int| 0 <= i < 6 ==> value[i] == unit()[i]);
            }
        }
        return None;
    }
    proof {
        assert(unit() =~= value.subrange(0, 6));
        assert(unit().is_prefix_of(value));
    }
    let (dash, start) = read_number(chars.as_slice(), 6);
    let ghost first = value.subrange(6, dash as int);
    proof {
        assert forall|i: int| 0 <= i < dash - 6 implies body[i] != '-' by {
            assert(body[i] == first[i]);
            assert(is_digit(first[i]));
        }
    }
    if dash >= n || chars[dash] != '-' {
        proof {
            lemma_position(body, '-');
            let p = position(body, '-');
            if p < body.len() {
                // the first dash stands behind a character that is no digit
                assert(body[p] == '-');
                assert(p > dash - 6);
                assert(body.take(p)[dash - 6] == value[dash as int]);
                assert(!all_digits(body.take(p)));
            }
        }
        return None;
    }
    proof {
        lemma_position_is(body, '-', dash - 6);
        assert(body.take(dash - 6) =~= first);
    }
    let (stop, end) = read_number(chars.as_slice(), dash + 1);
    let ghost last = value.subrange(dash + 1, stop as int);
    if stop < n {
        proof {
            let tail = body.skip(dash - 6 + 1);
            assert(tail[stop - dash - 1] == value[stop as int]);
            assert(!all_digits(tail));
        }
        return None;
    }
    proof {
        assert(body.skip(dash - 6 + 1) =~= last);
    }
    if dash == 6 && stop > dash + 1 {
        return None;
    }
    let from: u64 = match start {
        Some(v) => v,
        None => { return None; },
    };
    let to: u64 = if stop == dash + 1 {
        if file_size == 0 {
            return None;
        }
        file_size - 1
    } else {
        match end {
            Some(v) => v,
            None => { return None; },
        }
    };
    if from <= to && to < file_size {
        Some(ByteRange { start: from, end: to })
    } else {
        None
    }
}

/// A range that is served lies within the file. So a header that asks for
/// bytes at or behind the end of the file, or for a range that ends before it
/// begins, is answered with the full file.
pub proof fn lemma_served_range_lies_in_file(header: Option<Seq<char>>, file_size: u64)
    ensures
        requested_range(header, file_size) is Some ==> requested_range(
            header,
            file_size,
        )->0.within(file_size),
        file_size == 0 ==> requested_range(header, file_size) is None,
{
}

/// `bytes=10-19` asks for the bytes 10 to 19 of every file that has them.
pub proof fn lemma_ten_to_nineteen(file_size: u64)
    requires
        file_size >= 20,
    ensures
        range_in("bytes=10-19"@, file_size) == Some(ByteRange { start: 10, end: 19 }),
{
    reveal_strlit("bytes=10-19");
    let value = "bytes=10-19"@;
    let body = value.skip(6);
    assert(unit() =~= value.subrange(0, 6));
    assert(body =~= seq!['1', '0', '-', '1', '9']);
    lemma_position_is(body, '-', 2);
    let first = body.take(2);
    let last = body.skip(3);
    assert(first =~= seq!['1', '0']);
    assert(last =~= seq!['1', '9']);
    lemma_two_digits('1', '0');
    lemma_two_digits('1', '9');
}

/// Two digits write ten times the first and the second.
pub proof fn lemma_two_digits(tens: char, ones: char)
    ensures
        decimal_value(seq![tens, ones]) == digit_value(tens) * 10 + digit_value(ones),
{
    let s = seq![tens, ones];
    assert(s.drop_last() =~= seq![tens]);
    assert(seq![tens].drop_last() =~= Seq::<char>::empty());
    assert(decimal_value(seq![tens]) == decimal_value(seq![tens].drop_last()) * 10 + digit_value(
        tens,
    ));
    assert(decimal_value(Seq::<char>::empty()) == 0);
}

/// A range written out in full reads back: `bytes=<start>-<end>`, the numbers
/// in decimal, asks for the bytes `start` to `end` of every file that has
/// them.
pub proof fn lemma_written_range_reads_back(start: u64, end: u64, file_size: u64)
    requires
        start <= end < file_size,
    ensures
        range_in(
            unit() + decimal(start as nat) + seq!['-'] + decimal(end as nat),
            file_size,
        ) == Some(ByteRange { start, end }),
{
    let first = decimal(start as nat);
    let last = decimal(end as nat);
    let value = unit() + first + seq!['-'] + last;
    let body = value.skip(6);
    lemma_decimal_reads_back(start as nat);
    lemma_decimal_reads_back(end as nat);
    assert(unit().is_prefix_of(value));
    assert(body =~= first + seq!['-'] + last);
    assert forall|i: int| 0 <= i < first.len() implies body[i] != '-' by {
        assert(body[i] == first[i]);
        assert(is_digit(first[i]));
    }
    assert(body[first.len() as int] == '-');
    lemma_position_is(body, '-', first.len() as int);
    assert(body.take(first.len() as int) =~= first);
    assert(body.skip(first.len() as int + 1) =~= last);
}

} // verus!
