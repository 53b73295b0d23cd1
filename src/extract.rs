//! Extraction of characters, bytes or delimited fields from one line.
use std::ops::Range;
use vstd::prelude::*;
use vstd::slice::slice_subrange;
use vstd::utf8::{
    decode_utf8, encode_utf8, encode_utf8_decode_utf8, encode_utf8_valid_utf8, is_ascii_chars,
    is_ascii_chars_encode_utf8, valid_utf8,
};

use crate::range_list::positions;
use crate::text::{decimal_text, push_decimal};

verus! {

/// `x`, cut down to `len` where it is larger.
pub open spec fn clamp(x: int, len: int) -> int {
    if x < len {
        x
    } else {
        len
    }
}

/// The characters of `line` whose positions fall in `r`, cut to the line.
pub open spec fn chars_in(line: Seq<char>, r: (int, int)) -> Seq<char> {
    let s = clamp(r.0, line.len() as int);
    let e = clamp(r.1, line.len() as int);
    if s < e {
        line.subrange(s, e)
    } else {
        seq![]
    }
}

/// The characters of `line` in each range of `pos`, one range after another.
pub open spec fn extracted_chars(line: Seq<char>, pos: Seq<(int, int)>) -> Seq<char>
    decreases pos.len(),
{
    if pos.len() == 0 {
        seq![]
    } else {
        extracted_chars(line, pos.drop_last()) + chars_in(line, pos.last())
    }
}

/// Takes from `line` the characters (Unicode scalar values) in each range, in
/// the order of the ranges, and joins them with no separator. A range that
/// reaches past the line gives the part within it, possibly nothing.
pub fn extract_chars(line: &str, char_pos: &[Range<usize>]) -> (r: String)
    ensures
        r@ == extracted_chars(line@, positions(char_pos@)),
{
    let n = line.unicode_len();
    let mut result = String::new();
    let ghost pos = positions(char_pos@);
    let mut i: usize = 0;
    proof {
        assert(pos.take(0) =~= Seq::<(int, int)>::empty());
    }
    while i < char_pos.len()
        invariant
            n == line@.len(),
            pos == positions(char_pos@),
            i <= char_pos@.len(),
            result@ == extracted_chars(line@, pos.take(i as int)),
        decreases char_pos@.len() - i,
    {
        let start = if char_pos[i].start < n {
            char_pos[i].start
        } else {
            n
        };
        let end = if char_pos[i].end < n {
            char_pos[i].end
        } else {
            n
        };
        if start < end {
            let piece = line.substring_char(start, end);
            result.append(piece);
        }
        proof {
            assert(pos.take(i + 1).drop_last() =~= pos.take(i as int));
            assert(pos.take(i + 1).last() == pos[i as int]);
        }
        i = i + 1;
    }
    proof {
        assert(pos.take(i as int) =~= pos);
    }
    result
}

/// The text that `String::from_utf8_lossy` makes of a byte sequence.
pub uninterp spec fn lossy_text(b: Seq<u8>) -> Seq<char>;

/// Relies on `String::from_utf8_lossy`: its text depends on the bytes alone,
/// valid UTF-8 comes out decoded, with no replacement, and an invalid sequence
/// becomes U+FFFD, so a lone byte that is not text becomes one such character.
#[verifier::external_body]
fn decode_lossy(b: &[u8]) -> (r: String)
    ensures
        r@ == lossy_text(b@),
        valid_utf8(b@) ==> r@ == decode_utf8(b@),
        b@.len() == 1 && !valid_utf8(b@) ==> r@ == seq!['\u{FFFD}'],
{
    String::from_utf8_lossy(b).into_owned()
}

/// The bytes of `bytes` whose positions fall in `r`, cut to their length and
/// decoded: plainly where they are valid UTF-8, else with replacement of
/// invalid sequences.
pub open spec fn bytes_in(bytes: Seq<u8>, r: (int, int)) -> Seq<char> {
    let s = clamp(r.0, bytes.len() as int);
    let e = clamp(r.1, bytes.len() as int);
    if s < e {
        let piece = bytes.subrange(s, e);
        if valid_utf8(piece) {
            decode_utf8(piece)
        } else {
            lossy_text(piece)
        }
    } else {
        seq![]
    }
}

/// The decoded bytes of each range of `pos`, one range after another.
pub open spec fn extracted_bytes(bytes: Seq<u8>, pos: Seq<(int, int)>) -> Seq<char>
    decreases pos.len(),
{
    if pos.len() == 0 {
        seq![]
    } else {
        extracted_bytes(bytes, pos.drop_last()) + bytes_in(bytes, pos.last())
    }
}

/// Takes from the UTF-8 encoding of `line` the bytes in each range, decodes
/// each range's bytes on its own, putting a replacement character for what
/// is not valid UTF-8 (a range may cut a character), and joins the results
/// with no separator. A range that reaches past the line gives the part
/// within it, possibly nothing.
pub fn extract_bytes(line: &str, byte_pos: &[Range<usize>]) -> (r: String)
    ensures
        r@ == extracted_bytes(encode_utf8(line@), positions(byte_pos@)),
{
    let bytes = line.as_bytes();
    let n = bytes.len();
    let mut result = String::new();
    let ghost pos = positions(byte_pos@);
    let mut i: usize = 0;
    proof {
        assert(pos.take(0) =~= Seq::<(int, int)>::empty());
    }
    while i < byte_pos.len()
        invariant
            n == bytes@.len(),
            bytes@ == encode_utf8(line@),
            pos == positions(byte_pos@),
            i <= byte_pos@.len(),
            result@ == extracted_bytes(bytes@, pos.take(i as int)),
        decreases byte_pos@.len() - i,
    {
        let start = if byte_pos[i].start < n {
            byte_pos[i].start
        } else {
            n
        };
        let end = if byte_pos[i].end < n {
            byte_pos[i].end
        } else {
            n
        };
        if start < end {
            let piece = decode_lossy(slice_subrange(bytes, start, end));
            result.append(piece.as_str());
        }
        proof {
            assert(pos.take(i + 1).drop_last() =~= pos.take(i as int));
            assert(pos.take(i + 1).last() == pos[i as int]);
        }
        i = i + 1;
    }
    proof {
        assert(pos.take(i as int) =~= pos);
    }
    result
}

/// The texts of the cells of a record.
pub open spec fn cell_views(record: Seq<String>) -> Seq<Seq<char>> {
    record.map_values(|c: String| c@)
}

/// The cells of `cells` whose positions fall in `r`.
pub open spec fn cells_in(cells: Seq<Seq<char>>, r: (int, int)) -> Seq<Seq<char>> {
    if r.0 < r.1 {
        cells.subrange(r.0, r.1)
    } else {
        seq![]
    }
}

/// The cells of each range of `pos`, one range after another.
pub open spec fn selected_cells(cells: Seq<Seq<char>>, pos: Seq<(int, int)>) -> Seq<Seq<char>>
    decreases pos.len(),
{
    if pos.len() == 0 {
        seq![]
    } else {
        selected_cells(cells, pos.drop_last()) + cells_in(cells, pos.last())
    }
}

/// `parts` with `sep` between each two neighbours.
pub open spec fn join(sep: Seq<char>, parts: Seq<Seq<char>>) -> Seq<char>
    decreases parts.len(),
{
    if parts.len() == 0 {
        seq![]
    } else if parts.len() == 1 {
        parts[0]
    } else {
        join(sep, parts.drop_last()) + sep + parts.last()
    }
}

/// Every range of `pos` ends within a record of `count` cells.
pub open spec fn within(pos: Seq<(int, int)>, count: int) -> bool {
    forall|i: int| 0 <= i < pos.len() ==> #[trigger] pos[i].1 <= count
}

/// The text of the delimiter byte.
pub open spec fn delimiter_text(d: u8) -> Seq<char> {
    decode_utf8(seq![d])
}

/// What can go wrong when fields are taken from a record.
#[derive(Debug, PartialEq, Eq)]
pub enum FieldError {
    /// The range `[start, end)` reaches past a record of `count` cells.
    OutOfRange { start: usize, end: usize, count: usize },
    /// The delimiter byte is not by itself a character of UTF-8 text.
    Delimiter(u8),
}

/// The message that describes an error of field extraction.
pub open spec fn field_error_text(e: FieldError) -> Seq<char> {
    match e {
        FieldError::OutOfRange { start, end, count } => "the list reaches field "@ + decimal_text(
            end as nat,
        ) + ", but the record has "@ + decimal_text(count as nat) + " fields"@,
        FieldError::Delimiter(b) => "the delimiter byte "@ + decimal_text(b as nat)
            + " is not UTF-8 text"@,
    }
}

impl FieldError {
    /// The message that describes this error.
    pub fn message(&self) -> (r: String)
        ensures
            r@ == field_error_text(*self),
    {
        match self {
            FieldError::OutOfRange { start: _, end, count } => {
                let mut out = "the list reaches field ".to_owned();
                push_decimal(&mut out, *end);
                out.append(", but the record has ");
                push_decimal(&mut out, *count);
                out.append(" fields");
                out
            },
            FieldError::Delimiter(b) => {
                let mut out = "the delimiter byte ".to_owned();
                push_decimal(&mut out, *b as usize);
                out.append(" is not UTF-8 text");
                out
            },
        }
    }
}

/// Relies on `std::str::from_utf8`: it accepts exactly the valid UTF-8 byte
/// sequences and gives the text that they encode.
#[verifier::external_body]
fn utf8_text(b: &[u8]) -> (r: Option<&str>)
    ensures
        r is Some <==> valid_utf8(b@),
        r is Some ==> r->0@ == decode_utf8(b@),
{
    std::str::from_utf8(b).ok()
}

/// Takes from a record the cells in each range, in the order of the ranges,
/// and joins all of them with the delimiter between each two, also where one
/// range ends and the next begins. A range that ends past the record is an
/// error (the first such range is reported), as is a delimiter byte that is
/// not by itself UTF-8 text.
pub fn extract_fields(record: &[String], field_pos: &[Range<usize>], delimiter: u8) -> (r: Result<
    String,
    FieldError,
>)
    ensures
        !valid_utf8(seq![delimiter]) ==> r == Err::<String, FieldError>(
            FieldError::Delimiter(delimiter),
        ),
        valid_utf8(seq![delimiter]) ==> (r is Ok <==> within(
            positions(field_pos@),
            record@.len() as int,
        )),
        valid_utf8(seq![delimiter]) && r is Err ==> r->Err_0 is OutOfRange,
        r is Ok ==> r->Ok_0@ == join(
            delimiter_text(delimiter),
            selected_cells(cell_views(record@), positions(field_pos@)),
        ),
        r matches Err(FieldError::OutOfRange { start, end, count }) ==> exists|i: int|
            0 <= i < field_pos@.len() && field_pos@[i].start == start && field_pos@[i].end == end
                && end > count && count == record@.len() && within(
                positions(field_pos@).take(i),
                record@.len() as int,
            ),
{
    let delim_bytes: Vec<u8> = vec![delimiter];
    proof {
        assert(delim_bytes@ =~= seq![delimiter]);
    }
    let sep = match utf8_text(delim_bytes.as_slice()) {
        Some(t) => t,
        None => {
            return Err(FieldError::Delimiter(delimiter));
        },
    };
    let count = record.len();
    let ghost pos = positions(field_pos@);
    let ghost cells = cell_views(record@);
    let mut i: usize = 0;
    while i < field_pos.len()
        invariant
            pos == positions(field_pos@),
            count == record@.len(),
            i <= field_pos@.len(),
            within(pos.take(i as int), count as int),
            valid_utf8(seq![delimiter]),
        decreases field_pos@.len() - i,
    {
        if field_pos[i].end > count {
            proof {
                assert(pos[i as int].1 > count);
            }
            return Err(
                FieldError::OutOfRange {
                    start: field_pos[i].start,
                    end: field_pos[i].end,
                    count,
                },
            );
        }
        proof {
            assert forall|j: int| 0 <= j < i + 1 implies #[trigger] pos.take(i + 1)[j].1
                <= count by {
                if j < i {
                    assert(pos.take(i as int)[j] == pos.take(i + 1)[j]);
                }
            }
        }
        i = i + 1;
    }
    proof {
        assert(pos.take(i as int) =~= pos);
    }
    let mut result = String::new();
    let mut any = false;
    let mut i: usize = 0;
    proof {
        assert(pos.take(0) =~= Seq::<(int, int)>::empty());
    }
    while i < field_pos.len()
        invariant
            pos == positions(field_pos@),
            cells == cell_views(record@),
            count == record@.len(),
            sep@ == delimiter_text(delimiter),
            within(pos, count as int),
            i <= field_pos@.len(),
            any <==> selected_cells(cells, pos.take(i as int)).len() > 0,
            result@ == join(sep@, selected_cells(cells, pos.take(i as int))),
        decreases field_pos@.len() - i,
    {
        let start = field_pos[i].start;
        let end = field_pos[i].end;
        let ghost before = selected_cells(cells, pos.take(i as int));
        proof {
            assert(pos.take(i + 1).drop_last() =~= pos.take(i as int));
            assert(pos.take(i + 1).last() == pos[i as int]);
            assert(pos[i as int].1 <= count);
        }
        if start < end {
            let mut k: usize = start;
            proof {
                assert(before + cells.subrange(start as int, start as int) =~= before);
            }
            while k < end
                invariant
                    cells == cell_views(record@),
                    count == record@.len(),
                    start <= k <= end <= count,
                    any <==> (before + cells.subrange(start as int, k as int)).len() > 0,
                    result@ == join(sep@, before + cells.subrange(start as int, k as int)),
                decreases end - k,
            {
                let ghost parts = before + cells.subrange(start as int, k as int);
                let ghost next = before + cells.subrange(start as int, k + 1);
                proof {
                    assert(next.drop_last() =~= parts);
                    assert(next.last() == record@[k as int]@);
                }
                if any {
                    result.append(sep);
                }
                result.append(record[k].as_str());
                any = true;
                k = k + 1;
            }
            proof {
                assert(cells_in(cells, pos[i as int]) == cells.subrange(start as int, end as int));
            }
        } else {
            proof {
                assert(before + cells_in(cells, pos[i as int]) =~= before);
            }
        }
        i = i + 1;
    }
    proof {
        assert(pos.take(i as int) =~= pos);
    }
    Ok(result)
}

/// A range that starts at or past the end of the line adds no character.
pub proof fn lemma_chars_past_line(line: Seq<char>, pos: Seq<(int, int)>, r: (int, int))
    requires
        r.0 >= line.len(),
    ensures
        extracted_chars(line, pos.push(r)) == extracted_chars(line, pos),
{
    assert(pos.push(r).drop_last() =~= pos);
    assert(extracted_chars(line, pos) + Seq::<char>::empty() =~= extracted_chars(line, pos));
}

/// A range that starts at or past the end of the line's bytes adds nothing.
pub proof fn lemma_bytes_past_line(line: Seq<char>, pos: Seq<(int, int)>, r: (int, int))
    requires
        r.0 >= encode_utf8(line).len(),
    ensures
        extracted_bytes(encode_utf8(line), pos.push(r)) == extracted_bytes(encode_utf8(line), pos),
{
    let bytes = encode_utf8(line);
    assert(pos.push(r).drop_last() =~= pos);
    assert(extracted_bytes(bytes, pos) + Seq::<char>::empty() =~= extracted_bytes(bytes, pos));
}

/// One range over the whole line gives the line back unchanged.
pub proof fn lemma_whole_line_chars(line: Seq<char>)
    ensures
        extracted_chars(line, seq![(0int, line.len() as int)]) == line,
{
    let pos = seq![(0int, line.len() as int)];
    assert(pos.drop_last() =~= Seq::<(int, int)>::empty());
    assert(pos.last() == (0int, line.len() as int));
    assert(extracted_chars(line, pos.drop_last()) == Seq::<char>::empty());
    if line.len() > 0 {
        assert(line.subrange(0, line.len() as int) =~= line);
        assert(Seq::<char>::empty() + line =~= line);
    } else {
        assert(Seq::<char>::empty() + Seq::<char>::empty() =~= line);
    }
}

/// An ASCII character as delimiter byte is valid text by itself, and fields
/// are separated by that very character.
pub proof fn lemma_ascii_delimiter(c: char)
    requires
        c <= '\u{7f}',
    ensures
        valid_utf8(seq![c as u8]),
        delimiter_text(c as u8) == seq![c],
{
    let cs = seq![c];
    assert(is_ascii_chars(cs));
    is_ascii_chars_encode_utf8(cs);
    assert(encode_utf8(cs) =~= seq![c as u8]);
    encode_utf8_valid_utf8(cs);
    encode_utf8_decode_utf8(cs);
}

/// One range over all the bytes of the line gives the line back unchanged.
pub proof fn lemma_whole_line_bytes(line: Seq<char>)
    ensures
        extracted_bytes(encode_utf8(line), seq![(0int, encode_utf8(line).len() as int)]) == line,
{
    let bytes = encode_utf8(line);
    let pos = seq![(0int, bytes.len() as int)];
    assert(pos.drop_last() =~= Seq::<(int, int)>::empty());
    assert(pos.last() == (0int, bytes.len() as int));
    assert(extracted_bytes(bytes, pos.drop_last()) == Seq::<char>::empty());
    assert(bytes.subrange(0, bytes.len() as int) =~= bytes);
    encode_utf8_valid_utf8(line);
    encode_utf8_decode_utf8(line);
    if bytes.len() > 0 {
        assert(Seq::<char>::empty() + line =~= line);
    } else {
        assert(bytes =~= Seq::<u8>::empty());
        assert(line == decode_utf8(Seq::<u8>::empty()));
        assert(line =~= Seq::<char>::empty());
        assert(Seq::<char>::empty() + Seq::<char>::empty() =~= line);
    }
}

} // verus!
