//! The program image format: one line of comma-separated decimal integers,
//! with an optional newline at its end.

use crate::intcode::word::Word;
use crate::text::{fields, line_of, parse_integer, split_fields, word_in, COMMA, NEWLINE};
use vstd::prelude::*;

verus! {

/// The word that a field stands for in a program image: the one it spells, and
/// zero for a field that spells none.
pub open spec fn word_of(field: Seq<u8>) -> Word {
    match word_in(field) {
        Some(w) => w,
        None => 0,
    }
}

/// The program that a text holds: the word of each field of its line, in order.
pub open spec fn words(text: Seq<u8>) -> Seq<Word> {
    fields(line_of(text), COMMA).map_values(|field: Seq<u8>| word_of(field))
}

/// Reads a program image. The text is one line of fields separated by commas,
/// with an optional newline at its end; the k-th field gives the word at
/// address k. A field that is not a decimal integer within the range of a
/// word gives zero.
pub fn parse_program(text: &[u8]) -> (program: Vec<Word>)
    ensures
        program@ == words(text@),
{
    let end = if text.len() > 0 && text[text.len() - 1] == NEWLINE {
        text.len() - 1
    } else {
        text.len()
    };
    assert(line_of(text@) =~= text@.take(end as int));
    let ranges = split_fields(text, end, COMMA);
    let mut program: Vec<Word> = Vec::new();
    let mut k: usize = 0;
    while k < ranges.len()
        invariant
            k <= ranges.len(),
            end <= text.len(),
            ranges.len() == fields(text@.take(end as int), COMMA).len(),
            forall|j: int|
                0 <= j < ranges.len() ==> (#[trigger] ranges[j]).0 <= ranges[j].1 <= end
                    && text@.subrange(ranges[j].0 as int, ranges[j].1 as int) == fields(
                    text@.take(end as int),
                    COMMA,
                )[j],
            program@ == fields(text@.take(end as int), COMMA).take(k as int).map_values(
                |field: Seq<u8>| word_of(field),
            ),
        decreases ranges.len() - k,
    {
        let (from, to) = ranges[k];
        let word = match parse_integer(text, from, to) {
            Some(word) => word,
            None => 0,
        };
        program.push(word);
        proof {
            let all = fields(text@.take(end as int), COMMA);
            assert(all.take(k + 1).map_values(|field: Seq<u8>| word_of(field)) =~= all.take(
                k as int,
            ).map_values(|field: Seq<u8>| word_of(field)).push(word_of(all[k as int])));
        }
        k += 1;
    }
    assert(fields(text@.take(end as int), COMMA).take(ranges.len() as int) =~= fields(
        text@.take(end as int),
        COMMA,
    ));
    program
}

} // verus!
