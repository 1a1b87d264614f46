//! Plain text as bytes: decimal numbers and separated fields.

use vstd::prelude::*;

verus! {

/// The comma that separates the fields of a line.
pub const COMMA: u8 = 44;

/// The newline that ends a line.
pub const NEWLINE: u8 = 10;

/// The value of a run of ASCII digits, read as a decimal number.
pub open spec fn magnitude(digits: Seq<u8>) -> int
    decreases digits.len(),
{
    if digits.len() == 0 {
        0
    } else {
        magnitude(digits.drop_last()) * 10 + (digits.last() - 48)
    }
}

/// Whether `s` is one ASCII digit or more, and nothing else.
pub open spec fn is_digits(s: Seq<u8>) -> bool {
    s.len() > 0 && forall|i: int| 0 <= i < s.len() ==> 48 <= #[trigger] s[i] <= 57
}

/// The integer that a field spells: digits, with an optional minus sign in front.
pub open spec fn integer(field: Seq<u8>) -> Option<int> {
    if field.len() > 0 && field[0] == 45 {
        if is_digits(field.skip(1)) {
            Some(-magnitude(field.skip(1)))
        } else {
            None
        }
    } else if is_digits(field) {
        Some(magnitude(field))
    } else {
        None
    }
}

/// The number that a field spells, if it spells an integer within the range
/// of an `i64`.
pub open spec fn word_in(field: Seq<u8>) -> Option<i64> {
    match integer(field) {
        Some(v) => if i64::MIN <= v <= i64::MAX {
            Some(v as i64)
        } else {
            None
        },
        None => None,
    }
}

/// The fields of a text: the runs between its separators. A text without a
/// separator is one field, and an empty text is one empty field.
pub open spec fn fields(line: Seq<u8>, sep: u8) -> Seq<Seq<u8>>
    decreases line.len(),
{
    if line.len() == 0 {
        seq![Seq::empty()]
    } else {
        let before = fields(line.drop_last(), sep);
        if line.last() == sep {
            before.push(Seq::empty())
        } else {
            before.drop_last().push(before.last().push(line.last()))
        }
    }
}

/// The text without the newline at its end, if it has one.
pub open spec fn line_of(text: Seq<u8>) -> Seq<u8> {
    if text.len() > 0 && text.last() == NEWLINE {
        text.drop_last()
    } else {
        text
    }
}

/// The lines of a text, the newline at its end not counted. An empty text has
/// no lines.
pub open spec fn lines(text: Seq<u8>) -> Seq<Seq<u8>> {
    if line_of(text).len() == 0 {
        Seq::empty()
    } else {
        fields(line_of(text), NEWLINE)
    }
}

/// The decimal text of `n`, most significant digit first, as ASCII digits
/// without leading zeros.
pub open spec fn numerals(n: nat) -> Seq<u8>
    decreases n,
{
    if n < 10 {
        seq![(48 + n) as u8]
    } else {
        numerals(n / 10).push((48 + n % 10) as u8)
    }
}

/// More digits never make a smaller number.
proof fn lemma_magnitude_grows(digits: Seq<u8>, k: int)
    requires
        0 <= k <= digits.len(),
        forall|i: int| 0 <= i < digits.len() ==> 48 <= #[trigger] digits[i] <= 57,
    ensures
        0 <= magnitude(digits.take(k)) <= magnitude(digits),
    decreases digits.len() - k,
{
    if k == digits.len() {
        assert(digits.take(k) =~= digits);
        lemma_magnitude_positive(digits);
    } else {
        lemma_magnitude_grows(digits, k + 1);
        assert(digits.take(k + 1).drop_last() =~= digits.take(k));
        lemma_magnitude_positive(digits.take(k));
    }
}

proof fn lemma_magnitude_positive(digits: Seq<u8>)
    requires
        forall|i: int| 0 <= i < digits.len() ==> 48 <= #[trigger] digits[i] <= 57,
    ensures
        0 <= magnitude(digits),
    decreases digits.len(),
{
    if digits.len() > 0 {
        lemma_magnitude_positive(digits.drop_last());
    }
}

/// Reads the field `text[from..to]` as an integer.
pub fn parse_integer(text: &[u8], from: usize, to: usize) -> (r: Option<i64>)
    requires
        from <= to <= text.len(),
    ensures
        r == word_in(text@.subrange(from as int, to as int)),
{
    let ghost field = text@.subrange(from as int, to as int);
    let negative = from < to && text[from] == 45;
    let first = if negative {
        from + 1
    } else {
        from
    };
    let ghost digits = text@.subrange(first as int, to as int);
    assert(digits =~= if negative {
        field.skip(1)
    } else {
        field
    });
    if first == to {
        return None;
    }
    let mut acc: i128 = 0;
    let mut i: usize = first;
    assert(digits.take(0) =~= Seq::<u8>::empty());
    while i < to
        invariant
            from <= first <= i <= to <= text.len(),
            field == text@.subrange(from as int, to as int),
            negative == (field.len() > 0 && field[0] == 45),
            digits == if negative {
                field.skip(1)
            } else {
                field
            },
            digits == text@.subrange(first as int, to as int),
            forall|k: int| 0 <= k < i - first ==> 48 <= #[trigger] digits[k] <= 57,
            acc == magnitude(digits.take(i - first)),
            0 <= acc <= 0x8000_0000_0000_0000,
        decreases to - i,
    {
        let d = text[i];
        if d < 48 || d > 57 {
            assert(digits[i - first] == d);
            return None;
        }
        assert(digits.take(i - first + 1).drop_last() =~= digits.take(i - first));
        assert(digits.take(i - first + 1).last() == d);
        acc = acc * 10 + (d - 48) as i128;
        if acc > 0x8000_0000_0000_0000 {
            proof {
                if is_digits(digits) {
                    lemma_magnitude_grows(digits, i - first + 1);
                }
            }
            return None;
        }
        i += 1;
    }
    assert(digits.take(to - first) =~= digits);
    assert(is_digits(digits));
    let value: i128 = if negative {
        -acc
    } else {
        acc
    };
    if value > 0x7fff_ffff_ffff_ffff {
        None
    } else {
        Some(value as i64)
    }
}

/// Finds the fields of `text[..end]`: for each, where it begins and where it
/// ends.
pub fn split_fields(text: &[u8], end: usize, sep: u8) -> (ranges: Vec<(usize, usize)>)
    requires
        end <= text.len(),
    ensures
        ranges.len() == fields(text@.take(end as int), sep).len(),
        forall|k: int|
            0 <= k < ranges.len() ==> (#[trigger] ranges[k]).0 <= ranges[k].1 <= end
                && text@.subrange(ranges[k].0 as int, ranges[k].1 as int) == fields(
                text@.take(end as int),
                sep,
            )[k],
{
    let ghost line = text@.take(end as int);
    let mut ranges: Vec<(usize, usize)> = Vec::new();
    let mut start: usize = 0;
    let mut i: usize = 0;
    assert(line.take(0) =~= Seq::<u8>::empty());
    assert(line.subrange(0, 0) =~= Seq::<u8>::empty());
    while i < end
        invariant
            start <= i <= end <= text.len(),
            line == text@.take(end as int),
            fields(line.take(i as int), sep).len() == ranges.len() + 1,
            fields(line.take(i as int), sep).last() == line.subrange(start as int, i as int),
            forall|k: int|
                0 <= k < ranges.len() ==> (#[trigger] ranges[k]).0 <= ranges[k].1 <= end
                    && text@.subrange(ranges[k].0 as int, ranges[k].1 as int) == fields(
                    line.take(i as int),
                    sep,
                )[k],
        decreases end - i,
    {
        let ghost before = fields(line.take(i as int), sep);
        assert(line.take(i + 1).drop_last() =~= line.take(i as int));
        assert(line.take(i + 1).last() == text@[i as int]);
        if text[i] == sep {
            assert(text@.subrange(start as int, i as int) =~= line.subrange(
                start as int,
                i as int,
            ));
            ranges.push((start, i));
            start = i + 1;
            assert(line.subrange(start as int, i + 1) =~= Seq::<u8>::empty());
        } else {
            assert(before.last().push(text@[i as int]) =~= line.subrange(start as int, i + 1));
        }
        i += 1;
    }
    assert(line.take(end as int) =~= line);
    assert(text@.subrange(start as int, end as int) =~= line.subrange(start as int, end as int));
    ranges.push((start, end));
    ranges
}

/// Finds the lines of `text`: for each, where it begins and where it ends.
pub fn split_lines(text: &[u8]) -> (ranges: Vec<(usize, usize)>)
    ensures
        ranges.len() == lines(text@).len(),
        forall|k: int|
            0 <= k < ranges.len() ==> (#[trigger] ranges[k]).0 <= ranges[k].1 <= text.len()
                && text@.subrange(ranges[k].0 as int, ranges[k].1 as int) == lines(text@)[k],
{
    let end = if text.len() > 0 && text[text.len() - 1] == NEWLINE {
        text.len() - 1
    } else {
        text.len()
    };
    assert(line_of(text@) =~= text@.take(end as int));
    if end == 0 {
        Vec::new()
    } else {
        split_fields(text, end, NEWLINE)
    }
}

/// Writes `n` in decimal.
pub fn decimal(n: u64) -> (text: Vec<u8>)
    ensures
        text@ == numerals(n as nat),
{
    let mut text: Vec<u8> = Vec::new();
    let mut m = n;
    assert(numerals(m as nat) + text@ =~= numerals(n as nat));
    while m >= 10
        invariant
            numerals(n as nat) == numerals(m as nat) + text@,
        decreases m,
    {
        let ghost tail = text@;
        text.insert(0, 48 + (m % 10) as u8);
        assert(numerals(m as nat) + tail =~= numerals((m / 10) as nat) + text@);
        m = m / 10;
    }
    let ghost tail = text@;
    text.insert(0, 48 + m as u8);
    assert(numerals(m as nat) + tail =~= text@);
    text
}

} // verus!
