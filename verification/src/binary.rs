//! Versioned, checksummed, little-endian vector blocks.
use vstd::prelude::*;
use vstd::string::*;
use vstd::utf8::*;

use crate::double::{finite_single, is_finite_single};
use crate::error::{corrupt, ErrorView, Result};
use crate::model::{finite_vector, is_valid_id, lemma_id_size, valid_id, MAX_DIMENSIONS};
use crate::outside::{checksum, crc32, decode_text};
use crate::text::{append_bytes, bytes_eq, copy_range, lemma_encode_injective};

verus! {

// ---------------------------------------------------------------------------
// Little-endian integers
// ---------------------------------------------------------------------------
/// The `width` low-order bytes of `n`, least significant first.
pub open spec fn le(n: nat, width: nat) -> Seq<u8>
    decreases width,
{
    if width == 0 {
        Seq::empty()
    } else {
        seq![(n % 256) as u8] + le(n / 256, (width - 1) as nat)
    }
}

pub open spec fn from_le(bytes: Seq<u8>) -> nat
    decreases bytes.len(),
{
    if bytes.len() == 0 {
        0
    } else {
        bytes[0] as nat + 256 * from_le(bytes.drop_first())
    }
}

pub open spec fn fits(n: nat, width: nat) -> bool
    decreases width,
{
    if width == 0 {
        n == 0
    } else {
        fits(n / 256, (width - 1) as nat)
    }
}

pub proof fn lemma_le_len(n: nat, width: nat)
    ensures
        le(n, width).len() == width,
    decreases width,
{
    if width > 0 {
        lemma_le_len(n / 256, (width - 1) as nat);
    }
}

pub proof fn lemma_le_from(n: nat, width: nat)
    requires
        fits(n, width),
    ensures
        from_le(le(n, width)) == n,
    decreases width,
{
    if width > 0 {
        lemma_le_from(n / 256, (width - 1) as nat);
        assert(le(n, width).drop_first() =~= le(n / 256, (width - 1) as nat));
    }
}

pub proof fn lemma_from_le(bytes: Seq<u8>)
    ensures
        le(from_le(bytes), bytes.len()) == bytes,
    decreases bytes.len(),
{
    if bytes.len() > 0 {
        let n = from_le(bytes);
        let rest = from_le(bytes.drop_first());
        lemma_from_le(bytes.drop_first());
        assert(n % 256 == bytes[0] as nat && n / 256 == rest);
        assert(le(n, bytes.len()) =~= bytes);
    } else {
        assert(le(from_le(bytes), bytes.len()) =~= bytes);
    }
}

pub proof fn lemma_fits_16(n: nat)
    requires
        n <= u16::MAX,
    ensures
        fits(n, 2),
{
    reveal_with_fuel(fits, 3);
}

pub proof fn lemma_fits_32(n: nat)
    requires
        n <= u32::MAX,
    ensures
        fits(n, 4),
{
    reveal_with_fuel(fits, 5);
}

/// Appends the `width` low-order bytes of `n`.
pub fn push_le(out: &mut Vec<u8>, n: u64, width: usize)
    ensures
        final(out)@ == old(out)@ + le(n as nat, width as nat),
{
    let ghost start = out@;
    let mut rest: u64 = n;
    let mut i: usize = 0;
    while i < width
        invariant
            i <= width,
            start + le(n as nat, width as nat) == out@ + le(rest as nat, (width - i) as nat),
        decreases width - i,
    {
        let ghost before = out@;
        out.push((rest % 256) as u8);
        proof {
            assert(out@ + le(rest as nat / 256, (width - i - 1) as nat) =~= before + le(
                rest as nat,
                (width - i) as nat,
            ));
        }
        rest = rest / 256;
        i += 1;
    }
    assert(out@ + le(rest as nat, 0) =~= out@);
}

/// Reads two little-endian bytes.
pub fn read_u16(bytes: &[u8], at: usize) -> (n: usize)
    requires
        at + 2 <= bytes@.len(),
    ensures
        n == from_le(bytes@.subrange(at as int, at + 2)),
        n <= u16::MAX,
{
    proof {
        reveal_with_fuel(from_le, 3);
        let s = bytes@.subrange(at as int, at + 2);
        assert(s.drop_first().drop_first().len() == 0);
    }
    bytes[at] as usize + 256 * (bytes[at + 1] as usize)
}

/// Reads four little-endian bytes.
pub fn read_u32(bytes: &[u8], at: usize) -> (n: u32)
    requires
        at + 4 <= bytes@.len(),
    ensures
        n == from_le(bytes@.subrange(at as int, at + 4)),
{
    proof {
        reveal_with_fuel(from_le, 5);
        let s = bytes@.subrange(at as int, at + 4);
        assert(s.drop_first().drop_first().drop_first().drop_first().len() == 0);
    }
    bytes[at] as u32 + 256 * (bytes[at + 1] as u32) + 65536 * (bytes[at + 2] as u32) + 16777216 * (
    bytes[at + 3] as u32)
}

// ---------------------------------------------------------------------------
// The format
// ---------------------------------------------------------------------------
/// One row of a block: a document ID and the bits of its vector's singles.
pub struct Row {
    pub id: Seq<char>,
    pub vector: Seq<u32>,
}

pub open spec fn row_view(row: (String, Vec<u32>)) -> Row {
    Row { id: row.0@, vector: row.1@ }
}

pub open spec fn rows_view(rows: Seq<(String, Vec<u32>)>) -> Seq<Row> {
    rows.map_values(|row: (String, Vec<u32>)| row_view(row))
}

pub open spec fn words(vector: Seq<u32>) -> Seq<u8>
    decreases vector.len(),
{
    if vector.len() == 0 {
        Seq::empty()
    } else {
        words(vector.drop_last()) + le(vector.last() as nat, 4)
    }
}

pub open spec fn row_bytes(row: Row) -> Seq<u8> {
    le(encode_utf8(row.id).len(), 2) + encode_utf8(row.id) + words(row.vector)
}

pub open spec fn rows_bytes(rows: Seq<Row>) -> Seq<u8>
    decreases rows.len(),
{
    if rows.len() == 0 {
        Seq::empty()
    } else {
        row_bytes(rows[0]) + rows_bytes(rows.drop_first())
    }
}

/// `GMVB` and the format version.
pub open spec fn block_magic() -> Seq<u8> {
    seq![71u8, 77u8, 86u8, 66u8, 1u8]
}

pub open spec fn block_body(dimensions: nat, rows: Seq<Row>) -> Seq<u8> {
    block_magic() + le(dimensions, 4) + le(rows.len(), 4) + rows_bytes(rows)
}

/// A block: header, rows, and the checksum of both.
pub open spec fn block(dimensions: nat, rows: Seq<Row>) -> Seq<u8> {
    block_body(dimensions, rows) + le(crc32(block_body(dimensions, rows)) as nat, 4)
}

pub open spec fn row_valid(dimensions: nat, row: Row) -> bool {
    valid_id(row.id) && row.vector.len() == dimensions && finite_vector(row.vector)
}

pub open spec fn rows_valid(dimensions: nat, rows: Seq<Row>) -> bool {
    forall|i: int| 0 <= i < rows.len() ==> row_valid(dimensions, #[trigger] rows[i])
}

/// What a reader accepts: bounded dimensions, valid IDs, finite components.
pub open spec fn block_valid(dimensions: nat, rows: Seq<Row>) -> bool {
    &&& dimensions <= MAX_DIMENSIONS
    &&& rows.len() <= u32::MAX
    &&& rows.len() > 0 ==> dimensions > 0
    &&& rows_valid(dimensions, rows)
}

/// The rows of the valid block that `bytes` spells, if it spells one.
pub open spec fn decoded(bytes: Seq<u8>) -> Option<Seq<Row>> {
    if exists|d: nat, rows: Seq<Row>| block_valid(d, rows) && #[trigger] block(d, rows) == bytes {
        let (d, rows) = choose|d: nat, rows: Seq<Row>|
            block_valid(d, rows) && #[trigger] block(d, rows) == bytes;
        Some(rows)
    } else {
        None
    }
}

pub open spec fn first_dimensions(rows: Seq<Row>) -> nat {
    if rows.len() == 0 {
        0
    } else {
        rows[0].vector.len()
    }
}

// ---------------------------------------------------------------------------
// A reader over sequences, and its agreement with the format
// ---------------------------------------------------------------------------
pub proof fn lemma_words_len(vector: Seq<u32>)
    ensures
        words(vector).len() == 4 * vector.len(),
    decreases vector.len(),
{
    if vector.len() > 0 {
        lemma_words_len(vector.drop_last());
        lemma_le_len(vector.last() as nat, 4);
    }
}

spec fn singles(bytes: Seq<u8>, n: nat) -> Seq<u32> {
    Seq::new(n, |i: int| from_le(bytes.subrange(4 * i, 4 * i + 4)) as u32)
}

pub proof fn lemma_from_le_bound(bytes: Seq<u8>)
    requires
        bytes.len() == 4,
    ensures
        from_le(bytes) <= u32::MAX,
{
    reveal_with_fuel(from_le, 5);
    assert(bytes.drop_first().drop_first().drop_first().drop_first().len() == 0);
}

proof fn lemma_words_of_singles(bytes: Seq<u8>, n: nat)
    requires
        bytes.len() == 4 * n,
    ensures
        words(singles(bytes, n)) == bytes,
    decreases n,
{
    if n == 0 {
        assert(words(singles(bytes, n)) =~= bytes);
    } else {
        let m = (n - 1) as nat;
        let front = bytes.subrange(0, 4 * m as int);
        let tail = bytes.subrange(4 * m as int, 4 * n as int);
        lemma_words_of_singles(front, m);
        assert forall|i: int| 0 <= i < m implies front.subrange(4 * i, 4 * i + 4)
            == #[trigger] bytes.subrange(4 * i, 4 * i + 4) by {
            assert(front.subrange(4 * i, 4 * i + 4) =~= bytes.subrange(4 * i, 4 * i + 4));
        }
        assert(singles(bytes, n).drop_last() =~= singles(front, m));
        lemma_from_le(tail);
        lemma_from_le_bound(tail);
        assert(front + tail =~= bytes);
    }
}

proof fn lemma_singles_of_words(vector: Seq<u32>)
    ensures
        singles(words(vector), vector.len()) == vector,
    decreases vector.len(),
{
    lemma_words_len(vector);
    let bytes = words(vector);
    if vector.len() > 0 {
        let front = vector.drop_last();
        lemma_singles_of_words(front);
        lemma_words_len(front);
        lemma_le_len(vector.last() as nat, 4);
        assert forall|i: int| 0 <= i < vector.len() implies #[trigger] singles(
            bytes,
            vector.len(),
        )[i] == vector[i] by {
            if i < front.len() {
                assert(bytes.subrange(4 * i, 4 * i + 4) =~= words(front).subrange(4 * i, 4 * i + 4));
                assert(singles(words(front), front.len())[i] == front[i]);
            } else {
                assert(bytes.subrange(4 * i, 4 * i + 4) =~= le(vector.last() as nat, 4));
                lemma_fits_32(vector.last() as nat);
                lemma_le_from(vector.last() as nat, 4);
            }
        }
    }
    assert(singles(bytes, vector.len()) =~= vector);
}

spec fn id_of(bytes: Seq<u8>) -> Option<Seq<char>> {
    if exists|id: Seq<char>| valid_id(id) && #[trigger] encode_utf8(id) == bytes {
        Some(choose|id: Seq<char>| valid_id(id) && #[trigger] encode_utf8(id) == bytes)
    } else {
        None
    }
}

spec fn parse_row(s: Seq<u8>, dimensions: nat) -> Option<(Row, Seq<u8>)> {
    if s.len() < 2 {
        None
    } else {
        let n = from_le(s.subrange(0, 2));
        if s.len() < 2 + n + 4 * dimensions {
            None
        } else {
            let vector = singles(
                s.subrange(2 + n as int, (2 + n + 4 * dimensions) as int),
                dimensions,
            );
            match id_of(s.subrange(2, 2 + n as int)) {
                Some(id) => if finite_vector(vector) {
                    Some((Row { id, vector }, s.skip((2 + n + 4 * dimensions) as int)))
                } else {
                    None
                },
                None => None,
            }
        }
    }
}

spec fn parse_rows(s: Seq<u8>, dimensions: nat, count: nat) -> Option<Seq<Row>>
    decreases count,
{
    if count == 0 {
        if s.len() == 0 {
            Some(Seq::empty())
        } else {
            None
        }
    } else {
        match parse_row(s, dimensions) {
            Some((row, rest)) => match parse_rows(rest, dimensions, (count - 1) as nat) {
                Some(rows) => Some(seq![row] + rows),
                None => None,
            },
            None => None,
        }
    }
}

proof fn lemma_parse_row_sound(s: Seq<u8>, dimensions: nat)
    requires
        parse_row(s, dimensions) is Some,
    ensures
        ({
            let (row, rest) = parse_row(s, dimensions)->0;
            s == row_bytes(row) + rest && row_valid(dimensions, row)
        }),
{
    let (row, rest) = parse_row(s, dimensions)->0;
    let n = from_le(s.subrange(0, 2));
    let data = s.subrange(2 + n as int, (2 + n + 4 * dimensions) as int);
    lemma_from_le(s.subrange(0, 2));
    lemma_words_of_singles(data, dimensions);
    assert(encode_utf8(row.id) == s.subrange(2, 2 + n as int));
    assert(row_bytes(row) =~= s.subrange(0, (2 + n + 4 * dimensions) as int));
    assert(s =~= row_bytes(row) + rest);
}

proof fn lemma_parse_row_complete(row: Row, rest: Seq<u8>, dimensions: nat)
    requires
        row_valid(dimensions, row),
    ensures
        parse_row(row_bytes(row) + rest, dimensions) == Some((row, rest)),
{
    let id = encode_utf8(row.id);
    lemma_id_size(row.id);
    let s = row_bytes(row) + rest;
    let n = id.len();
    lemma_le_len(n, 2);
    lemma_words_len(row.vector);
    lemma_fits_16(n);
    lemma_le_from(n, 2);
    assert(s.subrange(0, 2) =~= le(n, 2));
    assert(s.subrange(2, 2 + n as int) =~= id);
    let data = s.subrange(2 + n as int, (2 + n + 4 * dimensions) as int);
    assert(data =~= words(row.vector));
    lemma_singles_of_words(row.vector);
    assert(id_of(id) == Some(row.id)) by {
        let found = choose|x: Seq<char>| valid_id(x) && #[trigger] encode_utf8(x) == id;
        assert(valid_id(row.id) && encode_utf8(row.id) == id);
        lemma_encode_injective(found, row.id);
    }
    assert(s.skip((2 + n + 4 * dimensions) as int) =~= rest);
}

proof fn lemma_parse_sound(s: Seq<u8>, dimensions: nat, count: nat)
    requires
        parse_rows(s, dimensions, count) is Some,
    ensures
        s == rows_bytes(parse_rows(s, dimensions, count)->0),
        rows_valid(dimensions, parse_rows(s, dimensions, count)->0),
        parse_rows(s, dimensions, count)->0.len() == count,
    decreases count,
{
    let rows = parse_rows(s, dimensions, count)->0;
    if count > 0 {
        let (row, rest) = parse_row(s, dimensions)->0;
        lemma_parse_row_sound(s, dimensions);
        lemma_parse_sound(rest, dimensions, (count - 1) as nat);
        let tail = parse_rows(rest, dimensions, (count - 1) as nat)->0;
        assert(rows.drop_first() =~= tail);
        assert forall|i: int| 0 <= i < rows.len() implies row_valid(
            dimensions,
            #[trigger] rows[i],
        ) by {
            if i > 0 {
                assert(rows[i] == tail[i - 1]);
            }
        }
    } else {
        assert(s =~= rows_bytes(rows));
    }
}

proof fn lemma_parse_complete(rows: Seq<Row>, dimensions: nat)
    requires
        rows_valid(dimensions, rows),
    ensures
        parse_rows(rows_bytes(rows), dimensions, rows.len()) == Some(rows),
    decreases rows.len(),
{
    if rows.len() > 0 {
        let tail = rows.drop_first();
        assert forall|i: int| 0 <= i < tail.len() implies row_valid(
            dimensions,
            #[trigger] tail[i],
        ) by {
            assert(tail[i] == rows[i + 1]);
        }
        lemma_parse_complete(tail, dimensions);
        lemma_parse_row_complete(rows[0], rows_bytes(tail), dimensions);
        assert(seq![rows[0]] + tail =~= rows);
    } else {
        assert(rows =~= Seq::<Row>::empty());
    }
}

proof fn lemma_rows_bytes_push(rows: Seq<Row>, row: Row)
    ensures
        rows_bytes(rows.push(row)) == rows_bytes(rows) + row_bytes(row),
    decreases rows.len(),
{
    if rows.len() == 0 {
        reveal_with_fuel(rows_bytes, 2);
        assert(rows_bytes(rows.push(row)) =~= rows_bytes(rows) + row_bytes(row));
    } else {
        lemma_rows_bytes_push(rows.drop_first(), row);
        assert(rows.push(row).drop_first() =~= rows.drop_first().push(row));
        assert(rows_bytes(rows.push(row)) =~= rows_bytes(rows) + row_bytes(row));
    }
}

/// Where the parts of a block lie.
proof fn lemma_block_parts(dimensions: nat, rows: Seq<Row>)
    requires
        block_valid(dimensions, rows),
    ensures
        ({
            let b = block(dimensions, rows);
            let body = b.subrange(0, b.len() - 4);
            &&& b.len() >= 17
            &&& b.subrange(0, 5) == block_magic()
            &&& from_le(b.subrange(b.len() - 4, b.len() as int)) == crc32(body)
            &&& from_le(body.subrange(5, 9)) == dimensions
            &&& from_le(body.subrange(9, 13)) == rows.len()
            &&& body.subrange(13, body.len() as int) == rows_bytes(rows)
        }),
{
    let body = block_body(dimensions, rows);
    let b = block(dimensions, rows);
    lemma_le_len(dimensions, 4);
    lemma_le_len(rows.len(), 4);
    lemma_le_len(crc32(body) as nat, 4);
    lemma_fits_32(dimensions);
    lemma_fits_32(rows.len());
    lemma_fits_32(crc32(body) as nat);
    lemma_le_from(dimensions, 4);
    lemma_le_from(rows.len(), 4);
    lemma_le_from(crc32(body) as nat, 4);
    assert(b.subrange(0, b.len() - 4) =~= body);
    assert(b.subrange(b.len() - 4, b.len() as int) =~= le(crc32(body) as nat, 4));
    assert(b.subrange(0, 5) =~= block_magic());
    assert(body.subrange(5, 9) =~= le(dimensions, 4));
    assert(body.subrange(9, 13) =~= le(rows.len(), 4));
    assert(body.subrange(13, body.len() as int) =~= rows_bytes(rows));
}

/// A block spells one sequence of rows, and reading a valid block gives back
/// the rows that were written.
pub proof fn law_block_round_trip(dimensions: nat, rows: Seq<Row>)
    requires
        block_valid(dimensions, rows),
    ensures
        decoded(block(dimensions, rows)) == Some(rows),
{
    let b = block(dimensions, rows);
    let (d2, rows2) = choose|d: nat, r: Seq<Row>| block_valid(d, r) && #[trigger] block(d, r) == b;
    assert(block_valid(dimensions, rows) && block(dimensions, rows) == b);
    lemma_block_parts(dimensions, rows);
    lemma_block_parts(d2, rows2);
    lemma_parse_complete(rows, dimensions);
    lemma_parse_complete(rows2, d2);
}

// ---------------------------------------------------------------------------
// Writing
// ---------------------------------------------------------------------------
/// Writes a block. Lengths beyond the width of their field keep only their
/// low-order bytes.
pub fn encode(rows: &Vec<(String, Vec<u32>)>) -> (out: Vec<u8>)
    ensures
        out@ == block(first_dimensions(rows_view(rows@)), rows_view(rows@)),
{
    let ghost view = rows_view(rows@);
    let dimensions: usize = if rows.len() > 0 {
        rows[0].1.len()
    } else {
        0
    };
    let mut out: Vec<u8> = vec![71u8, 77u8, 86u8, 66u8, 1u8];
    assert(out@ =~= block_magic());
    push_le(&mut out, dimensions as u64, 4);
    push_le(&mut out, rows.len() as u64, 4);
    let ghost header = out@;
    let mut i: usize = 0;
    assert(rows_bytes(view.take(0)) =~= Seq::<u8>::empty());
    while i < rows.len()
        invariant
            i <= rows@.len(),
            view == rows_view(rows@),
            out@ == header + rows_bytes(view.take(i as int)),
        decreases rows@.len() - i,
    {
        let ghost before = out@;
        push_row(&mut out, &rows[i].0, &rows[i].1);
        proof {
            lemma_rows_bytes_push(view.take(i as int), view[i as int]);
            assert(view.take(i as int).push(view[i as int]) =~= view.take(i + 1));
            assert(view[i as int] == row_view(rows@[i as int]));
        }
        i += 1;
    }
    assert(view.take(i as int) =~= view);
    assert(out@ =~= block_body(dimensions as nat, view));
    let sum = checksum(out.as_slice());
    push_le(&mut out, sum as u64, 4);
    out
}

fn push_row(out: &mut Vec<u8>, id: &String, vector: &Vec<u32>)
    ensures
        final(out)@ == old(out)@ + row_bytes(Row { id: id@, vector: vector@ }),
{
    let ghost start = out@;
    let bytes = id.as_str().as_bytes();
    push_le(out, bytes.len() as u64, 2);
    append_bytes(out, bytes);
    let ghost middle = out@;
    let mut i: usize = 0;
    while i < vector.len()
        invariant
            i <= vector@.len(),
            out@ == middle + words(vector@.take(i as int)),
        decreases vector@.len() - i,
    {
        push_le(out, vector[i] as u64, 4);
        proof {
            assert(vector@.take(i + 1).drop_last() =~= vector@.take(i as int));
        }
        i += 1;
    }
    assert(vector@.take(i as int) =~= vector@);
    assert(out@ =~= start + row_bytes(Row { id: id@, vector: vector@ }));
}

// ---------------------------------------------------------------------------
// Reading
// ---------------------------------------------------------------------------
pub open spec fn bad_block() -> ErrorView {
    ErrorView::Corrupt("invalid vector block or checksum"@)
}

fn read_row(body: &[u8], at: usize, dimensions: usize) -> (row: Option<(String, Vec<u32>, usize)>)
    requires
        at <= body@.len(),
        dimensions <= MAX_DIMENSIONS,
    ensures
        match row {
            Some((id, vector, end)) => {
                &&& at <= end <= body@.len()
                &&& parse_row(body@.skip(at as int), dimensions as nat) == Some(
                    (Row { id: id@, vector: vector@ }, body@.skip(end as int)),
                )
            },
            None => parse_row(body@.skip(at as int), dimensions as nat) is None,
        },
{
    let ghost s = body@.skip(at as int);
    let left = body.len() - at;
    if left < 2 {
        return None;
    }
    assert(body@.subrange(at as int, at + 2) =~= s.subrange(0, 2));
    let n = read_u16(body, at);
    if left - 2 < n || left - 2 - n < dimensions * 4 {
        return None;
    }
    let start = at + 2 + n;
    let end = start + dimensions * 4;
    let id_bytes = copy_range(body, at + 2, start);
    assert(id_bytes@ =~= s.subrange(2, 2 + n as int));
    let ghost data = s.subrange(2 + n as int, (2 + n + 4 * dimensions) as int);
    let mut vector: Vec<u32> = Vec::new();
    let mut i: usize = 0;
    while i < dimensions
        invariant
            i <= dimensions,
            dimensions <= MAX_DIMENSIONS,
            start + dimensions * 4 == end <= body@.len(),
            data.len() == 4 * dimensions,
            forall|k: int| 0 <= k < data.len() ==> #[trigger] data[k] == body@[start + k],
            vector@ == singles(data, dimensions as nat).take(i as int),
        decreases dimensions - i,
    {
        let word = read_u32(body, start + i * 4);
        proof {
            assert(body@.subrange(start + i * 4, start + i * 4 + 4) =~= data.subrange(
                4 * i as int,
                4 * i + 4,
            ));
            lemma_from_le_bound(data.subrange(4 * i as int, 4 * i + 4));
        }
        vector.push(word);
        assert(vector@ =~= singles(data, dimensions as nat).take(i + 1));
        i += 1;
    }
    assert(vector@ =~= singles(data, dimensions as nat));
    let mut k: usize = 0;
    let mut finite = true;
    while k < vector.len() && finite
        invariant
            k <= vector@.len(),
            finite ==> forall|j: int| 0 <= j < k ==> finite_single(#[trigger] vector@[j]),
            !finite ==> !finite_vector(vector@),
        decreases vector@.len() - k,
    {
        if !is_finite_single(vector[k]) {
            finite = false;
        }
        k += 1;
    }
    let ghost spelled = id_bytes@;
    let text = decode_text(id_bytes);
    match text {
        Some(id) => {
            if is_valid_id(id.as_str()) && finite {
                proof {
                    let found = choose|x: Seq<char>| valid_id(x) && #[trigger] encode_utf8(x) == spelled;
                    assert(valid_id(id@) && encode_utf8(id@) == spelled);
                    lemma_encode_injective(found, id@);
                    assert(s.skip((2 + n + 4 * dimensions) as int) =~= body@.skip(end as int));
                }
                Some((id, vector, end))
            } else {
                proof {
                    if id_of(spelled) is Some {
                        let found = choose|x: Seq<char>|
                            valid_id(x) && #[trigger] encode_utf8(x) == spelled;
                        lemma_encode_injective(found, id@);
                    }
                }
                None
            }
        },
        None => {
            proof {
                if id_of(spelled) is Some {
                    let found = choose|x: Seq<char>| valid_id(x) && #[trigger] encode_utf8(x) == spelled;
                    encode_utf8_valid_utf8(found);
                }
            }
            None
        },
    }
}

/// Reads a block. Anything that is not exactly a valid block is corrupt.
pub fn decode(bytes: &[u8]) -> (result: Result<Vec<(String, Vec<u32>)>>)
    ensures
        match result {
            Ok(rows) => decoded(bytes@) == Some(rows_view(rows@)),
            Err(e) => decoded(bytes@) is None && e@ == bad_block(),
        },
{
    let ghost good = decoded(bytes@) is Some;
    let ghost (d0, rows0) = choose|d: nat, r: Seq<Row>|
        block_valid(d, r) && #[trigger] block(d, r) == bytes@;
    proof {
        if good {
            lemma_block_parts(d0, rows0);
            lemma_parse_complete(rows0, d0);
        }
    }
    let size = bytes.len();
    if size < 17 {
        return Err(corrupt("invalid vector block or checksum"));
    }
    let magic = copy_range(bytes, 0, 5);
    let expected: Vec<u8> = vec![71u8, 77u8, 86u8, 66u8, 1u8];
    assert(expected@ =~= block_magic());
    if !bytes_eq(magic.as_slice(), expected.as_slice()) {
        return Err(corrupt("invalid vector block or checksum"));
    }
    let body_vec = copy_range(bytes, 0, size - 4);
    let body = body_vec.as_slice();
    let ghost body_seq = body@;
    if checksum(body) != read_u32(bytes, size - 4) {
        return Err(corrupt("invalid vector block or checksum"));
    }
    let dimensions = read_u32(body, 5) as usize;
    let count = read_u32(body, 9) as usize;
    if dimensions > MAX_DIMENSIONS || (count > 0 && dimensions == 0) {
        return Err(corrupt("invalid vector block or checksum"));
    }
    if count > body.len() / (dimensions * 4 + 2) {
        proof {
            if good {
                lemma_rows_bytes_bound(rows0, d0);
                lemma_quotient(count as int, body@.len() as int, dimensions * 4 + 2);
            }
        }
        return Err(corrupt("invalid vector block or checksum"));
    }
    let ghost whole = parse_rows(body@.skip(13), dimensions as nat, count as nat);
    proof {
        assert(body@.skip(13) =~= body@.subrange(13, body@.len() as int));
    }
    let mut at: usize = 13;
    let mut rows: Vec<(String, Vec<u32>)> = Vec::new();
    let mut i: usize = 0;
    assert(rows_view(rows@) =~= Seq::<Row>::empty());
    proof {
        let rest = parse_rows(body@.skip(13), dimensions as nat, count as nat);
        if rest is Some {
            assert(Seq::<Row>::empty() + rest->0 =~= rest->0);
        }
    }
    while i < count
        invariant
            i <= count,
            13 <= at <= body@.len(),
            body@ == body_seq,
            dimensions <= MAX_DIMENSIONS,
            good ==> whole is Some,
            good == decoded(bytes@) is Some,
            match parse_rows(body@.skip(at as int), dimensions as nat, (count - i) as nat) {
                Some(rest) => whole == Some(rows_view(rows@) + rest),
                None => whole is None,
            },
        decreases count - i,
    {
        let ghost before = rows_view(rows@);
        match read_row(body, at, dimensions) {
            Some((id, vector, end)) => {
                rows.push((id, vector));
                proof {
                    let row = Row { id: id@, vector: vector@ };
                    assert(rows_view(rows@) =~= before.push(row));
                    let rest = parse_rows(
                        body@.skip(end as int),
                        dimensions as nat,
                        (count - i - 1) as nat,
                    );
                    if rest is Some {
                        assert(before + (seq![row] + rest->0) =~= before.push(row) + rest->0);
                    }
                }
                at = end;
            },
            None => {
                return Err(corrupt("invalid vector block or checksum"));
            },
        }
        i += 1;
    }
    if at < body.len() {
        return Err(corrupt("invalid vector block or checksum"));
    }
    proof {
        let view = rows_view(rows@);
        assert(view + Seq::<Row>::empty() =~= view);
        lemma_parse_sound(body@.skip(13), dimensions as nat, count as nat);
        let sum = bytes@.subrange(size - 4, size as int);
        lemma_from_le(sum);
        lemma_from_le(body@.subrange(5, 9));
        lemma_from_le(body@.subrange(9, 13));
        assert(body@ =~= block_magic() + body@.subrange(5, 9) + body@.subrange(9, 13)
            + body@.skip(13)) by {
            assert(forall|k: int| 0 <= k < 5 ==> body@[k] == #[trigger] magic@[k]);
        }
        assert(bytes@ =~= body@ + sum);
        assert(block(dimensions as nat, view) == bytes@);
        law_block_round_trip(dimensions as nat, view);
    }
    Ok(rows)
}

proof fn lemma_quotient(count: int, total: int, each: int)
    by (nonlinear_arith)
    requires
        each > 0,
        count > 0,
        count * each <= total,
    ensures
        count <= total / each,
{
}

proof fn lemma_rows_bytes_bound(rows: Seq<Row>, dimensions: nat)
    requires
        rows_valid(dimensions, rows),
    ensures
        rows_bytes(rows).len() >= rows.len() * (dimensions * 4 + 2),
    decreases rows.len(),
{
    if rows.len() > 0 {
        let tail = rows.drop_first();
        assert forall|i: int| 0 <= i < tail.len() implies row_valid(
            dimensions,
            #[trigger] tail[i],
        ) by {
            assert(tail[i] == rows[i + 1]);
        }
        lemma_rows_bytes_bound(tail, dimensions);
        lemma_le_len(encode_utf8(rows[0].id).len(), 2);
        lemma_words_len(rows[0].vector);
        let each = dimensions * 4 + 2;
        let n = rows.len();
        assert(n * each == (n - 1) * each + each) by (nonlinear_arith);
    }
}

pub open spec fn vector_rows(vector: Seq<u32>) -> Seq<Row> {
    seq![Row { id: "v"@, vector }]
}

/// Writes a single vector, as a block of one row.
pub fn encode_vector(vector: &Vec<u32>) -> (out: Vec<u8>)
    ensures
        out@ == block(vector@.len(), vector_rows(vector@)),
{
    let mut rows: Vec<(String, Vec<u32>)> = Vec::new();
    let copy = copy_vector(vector);
    rows.push(("v".to_string(), copy));
    assert(rows_view(rows@) =~= vector_rows(vector@));
    encode(&rows)
}

/// A copy of a vector of singles.
pub fn copy_vector(vector: &Vec<u32>) -> (copy: Vec<u32>)
    ensures
        copy@ == vector@,
{
    let mut copy: Vec<u32> = Vec::new();
    let mut i: usize = 0;
    while i < vector.len()
        invariant
            i <= vector@.len(),
            copy@ == vector@.take(i as int),
        decreases vector@.len() - i,
    {
        copy.push(vector[i]);
        assert(copy@ =~= vector@.take(i + 1));
        i += 1;
    }
    assert(copy@ =~= vector@);
    copy
}

/// Reads a block that must hold exactly one vector.
pub fn decode_vector(bytes: &[u8]) -> (result: Result<Vec<u32>>)
    ensures
        match result {
            Ok(vector) => decoded(bytes@) matches Some(rows) && rows.len() == 1 && rows[0].vector
                == vector@,
            Err(e) => match decoded(bytes@) {
                None => e@ == bad_block(),
                Some(rows) => rows.len() != 1 && e@ == ErrorView::Corrupt("expected one vector"@),
            },
        },
{
    match decode(bytes) {
        Ok(rows) => {
            if rows.len() != 1 {
                return Err(corrupt("expected one vector"));
            }
            assert(rows_view(rows@)[0].vector == rows@[0].1@);
            Ok(copy_vector(&rows[0].1))
        },
        Err(e) => Err(e),
    }
}

/// Reading a written vector gives it back, if a reader accepts it at all.
pub proof fn law_vector_round_trip(vector: Seq<u32>)
    requires
        1 <= vector.len() <= MAX_DIMENSIONS,
        finite_vector(vector),
    ensures
        decoded(block(vector.len(), vector_rows(vector))) == Some(vector_rows(vector)),
{
    reveal_strlit("v");
    let rows = vector_rows(vector);
    assert(valid_id(rows[0].id));
    assert(block_valid(vector.len(), rows));
    law_block_round_trip(vector.len(), rows);
}

// ---------------------------------------------------------------------------
// What a block is
// ---------------------------------------------------------------------------
/// Numbers are written lowest byte first, and a number that fits is read back.
pub proof fn law_little_endian(n: nat, width: nat)
    ensures
        le(n, width).len() == width,
        width > 0 ==> le(n, width)[0] == n % 256,
        width > 0 ==> le(n, width).skip(1) == le(n / 256, (width - 1) as nat),
        fits(n, width) ==> from_le(le(n, width)) == n,
{
    lemma_le_len(n, width);
    if width > 0 {
        assert(le(n, width).skip(1) =~= le(n / 256, (width - 1) as nat));
    }
    if fits(n, width) {
        lemma_le_from(n, width);
    }
}

/// A block can hold up to 2^32 - 1 rows with valid IDs and finite vectors of its
/// dimensions, of which there are at most 4096.
pub proof fn law_blocks_hold(dimensions: nat, rows: Seq<Row>)
    ensures
        block_valid(dimensions, rows) <==> {
            &&& dimensions <= 4096
            &&& rows.len() <= 4294967295
            &&& rows.len() > 0 ==> dimensions >= 1
            &&& forall|i: int|
                0 <= i < rows.len() ==> {
                    let row = #[trigger] rows[i];
                    valid_id(row.id) && row.vector.len() == dimensions && finite_vector(row.vector)
                }
        },
{
    if block_valid(dimensions, rows) {
        assert forall|i: int| 0 <= i < rows.len() implies {
            let row = #[trigger] rows[i];
            valid_id(row.id) && row.vector.len() == dimensions && finite_vector(row.vector)
        } by {
            assert(row_valid(dimensions, rows[i]));
        }
    }
}

/// Bytes are read as a block only if they begin as blocks do and end with the
/// checksum of all that comes before.
pub proof fn law_checksums_guard(bytes: Seq<u8>)
    requires
        decoded(bytes) is Some,
    ensures
        bytes.len() >= 17,
        bytes.take(5) == seq![0x47u8, 0x4du8, 0x56u8, 0x42u8, 1u8],
        bytes.skip(bytes.len() - 4) == le(crc32(bytes.take(bytes.len() - 4)) as nat, 4),
        exists|dimensions: nat|
            block_valid(dimensions, decoded(bytes)->0) && #[trigger] block(
                dimensions,
                decoded(bytes)->0,
            ) == bytes,
{
    let (d, rows) = choose|d: nat, rows: Seq<Row>|
        block_valid(d, rows) && #[trigger] block(d, rows) == bytes;
    let body = block_body(d, rows);
    let tail = le(crc32(body) as nat, 4);
    lemma_le_len(crc32(body) as nat, 4);
    lemma_le_len(d, 4);
    lemma_le_len(rows.len(), 4);
    assert(bytes == body + tail);
    assert(bytes.take(bytes.len() - 4) =~= body);
    assert(bytes.skip(bytes.len() - 4) =~= tail);
    assert(bytes.take(5) =~= block_magic());
    assert(decoded(bytes) == Some(rows));
    assert(block_valid(d, decoded(bytes)->0) && block(d, decoded(bytes)->0) == bytes);
}

/// The layout of a block: five bytes that name the format, the dimensions and the
/// number of rows in four bytes each, the rows, and the checksum of all that. A
/// row is the length of its ID in two bytes, the ID, and four bytes for each
/// component.
pub proof fn law_block_layout(dimensions: nat, rows: Seq<Row>, row: Row, vector: Seq<u32>, x: u32)
    ensures
        ({
            let body = seq![0x47u8, 0x4du8, 0x56u8, 0x42u8, 1u8] + le(dimensions, 4) + le(
                rows.len(),
                4,
            ) + rows_bytes(rows);
            block(dimensions, rows) == body + le(crc32(body) as nat, 4)
        }),
        rows_bytes(Seq::empty()) == Seq::<u8>::empty(),
        rows_bytes(seq![row] + rows) == le(encode_utf8(row.id).len(), 2) + encode_utf8(row.id)
            + words(row.vector) + rows_bytes(rows),
        words(Seq::empty()) == Seq::<u8>::empty(),
        words(vector.push(x)) == words(vector) + le(x as nat, 4),
{
    let all = seq![row] + rows;
    assert(all[0] == row);
    assert(all.drop_first() =~= rows);
    assert(vector.push(x).drop_last() =~= vector);
}

/// Rows are read and written as they are: their IDs and their components.
pub proof fn law_rows_show_their_fields(rows: Seq<(String, Vec<u32>)>, i: int)
    requires
        0 <= i < rows.len(),
    ensures
        rows_view(rows).len() == rows.len(),
        rows_view(rows)[i].id == rows[i].0@,
        rows_view(rows)[i].vector == rows[i].1@,
{
}

} // verus!
