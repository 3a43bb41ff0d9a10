use vstd::prelude::*;
use vstd::slice::slice_subrange;
use crate::aggregate::records_wf;
use crate::error::AggregateError;
use crate::map::ResultMap;
use crate::record::{
    has_temp_tail, is_chunk, is_complete, is_digit, is_name, is_record, lemma_lines_concat,
    lemma_lines_push, lemma_summary_dom, lemma_summary_grows, lines, name_of, records, split_of,
    stats_view, summary, summary_add, temp_len, tenths_of, DOT, MAX_NAME_LEN, MINUS, NEWLINE,
    SEMICOLON,
};
use crate::temperature::{is_tenths, Temperature};

verus! {

/// Reads the temperature off the end of a line (without its newline), in tenths,
/// together with the position of the `;`, without searching the name.
pub fn get_temp(line: &[u8]) -> (r: (usize, i32))
    requires
        has_temp_tail(line@),
    ensures
        r.0 == split_of(line@),
        r.1 == tenths_of(line@),
        is_tenths(r.1 as int),
{
    let length = line.len();
    let e0 = line[length - 5];
    let e1 = line[length - 4];
    let e2 = line[length - 3];
    let e4 = line[length - 1];
    let ghost t = line@.subrange(split_of(line@) + 1, length as int);
    let mut temp: i32 = (e4 as i32 - 48) + (e2 as i32 - 48) * 10;
    let split = if e1 == SEMICOLON {
        length - 4
    } else if e1 == MINUS {
        temp = -temp;
        length - 5
    } else {
        temp = temp + (e1 as i32 - 48) * 100;
        if e0 == SEMICOLON {
            length - 5
        } else {
            temp = -temp;
            length - 6
        }
    };
    assert(t[t.len() - 1] == e4 && t[t.len() - 3] == e2);
    (split, temp)
}

/// Relies on memchr::memchr: the index of the first occurrence of `needle` in
/// `haystack`, or `None` when it does not occur.
#[verifier::external_body]
pub(crate) fn find_byte(needle: u8, haystack: &[u8]) -> (r: Option<usize>)
    ensures
        match r {
            Some(i) => {
                &&& i < haystack@.len()
                &&& haystack@[i as int] == needle
                &&& forall|j: int| 0 <= j < i ==> haystack@[j] != needle
            },
            None => forall|j: int| 0 <= j < haystack@.len() ==> haystack@[j] != needle,
        },
{
    memchr::memchr(needle, haystack)
}

fn check_digit(b: u8) -> (r: bool)
    ensures
        r == is_digit(b),
{
    0x30 <= b && b <= 0x39
}

/// Whether a line (without its newline) ends in `;` and a temperature, after at
/// least one byte.
pub fn check_temp_tail(line: &[u8]) -> (r: bool)
    ensures
        r == has_temp_tail(line@),
{
    let n = line.len();
    let tail: usize = if n >= 4 && line[n - 4] == SEMICOLON {
        3
    } else if n >= 5 && line[n - 5] == SEMICOLON {
        4
    } else {
        5
    };
    assert(tail == temp_len(line@));
    if n < tail + 2 {
        return false;
    }
    let k = n - 1 - tail;
    if line[k] != SEMICOLON {
        return false;
    }
    let ghost t = line@.subrange(k + 1, n as int);
    assert(t.len() == tail);
    assert(t[t.len() - 1] == line@[n - 1] && t[t.len() - 2] == line@[n - 2] && t[t.len() - 3]
        == line@[n - 3]);
    if !(check_digit(line[n - 1]) && line[n - 2] == DOT && check_digit(line[n - 3])) {
        return false;
    }
    if tail == 4 {
        assert(t[0] == line@[k + 1]);
        let c = line[k + 1];
        return c == MINUS || check_digit(c);
    }
    if tail == 5 {
        assert(t[0] == line@[k + 1] && t[1] == line@[k + 2]);
        return line[k + 1] == MINUS && check_digit(line[k + 2]);
    }
    true
}

/// Whether a line without a newline is a record `name;temperature`.
pub fn check_record(line: &[u8]) -> (r: bool)
    requires
        forall|i: int| 0 <= i < line@.len() ==> line@[i] != NEWLINE,
    ensures
        r == is_record(line@),
{
    if !check_temp_tail(line) {
        return false;
    }
    let (split, _) = get_temp(line);
    if split > MAX_NAME_LEN {
        return false;
    }
    let ghost name = line@.subrange(0, split as int);
    match find_byte(SEMICOLON, line) {
        Some(first) => {
            if first == split {
                assert(is_name(name));
                true
            } else {
                assert(first < split);
                assert(name[first as int] == SEMICOLON);
                false
            }
        },
        None => false,
    }
}

/// Folds one record into a table, unless the table has already overflowed.
fn add_record(results: &mut ResultMap, name: &[u8], temp: i32, full: &mut bool)
    requires
        old(results).wf(),
        is_tenths(temp as int),
        !*old(full) ==> forall|k: Seq<u8>|
            #[trigger] old(results)@.contains_key(k) ==> old(results)@[k]@.wf() && old(results)@[k].count
                < u32::MAX,
    ensures
        final(results).wf(),
        *old(full) ==> *final(full) && *final(results) == *old(results),
        !*old(full) && !*final(full) ==> stats_view(final(results)@) == summary_add(
            stats_view(old(results)@),
            name@,
            temp as int,
        ),
        !*old(full) && !*final(full) ==> forall|k: Seq<u8>|
            #[trigger] final(results)@.contains_key(k) ==> final(results)@[k]@.wf() && final(results)@[k].count
                <= (if old(results)@.contains_key(k) { old(results)@[k].count + 1 } else { 1 }),
        !*old(full) && *final(full) ==> !old(results)@.contains_key(name@) && old(results)@.len()
            == ResultMap::capacity(),
{
    if *full {
        return;
    }
    let ghost before = results@;
    match results.get_mut(name) {
        Some(value) => {
            value.update_single(temp);
            proof {
                assert(stats_view(results@) =~= summary_add(stats_view(before), name@, temp as int));
            }
        },
        None => {
            match results.set(name, &Temperature::new(temp)) {
                Ok(()) => {
                    assert(stats_view(results@) =~= summary_add(stats_view(before), name@, temp as int));
                },
                Err(_) => {
                    *full = true;
                },
            }
        },
    }
}

/// What parsing a chunk owes: its table when the chunk is whole lines of
/// records with few enough stations, else the reason why not.
pub open spec fn parsed_as(c: Seq<u8>, r: Result<ResultMap, AggregateError>) -> bool {
    match r {
        Ok(m) => m.wf() && records_wf(m@) && is_chunk(c) && stats_view(m@) == summary(records(c)),
        Err(AggregateError::MalformedRecord) => !is_chunk(c),
        Err(AggregateError::CapacityExceeded) => is_chunk(c) && summary(records(c)).len()
            > ResultMap::capacity(),
    }
}

/// A line that is not a record keeps a text from being a chunk.
proof fn lemma_bad_line(c: Seq<u8>, start: int, mid: int)
    requires
        0 <= start <= mid < c.len(),
        c[mid] == NEWLINE,
        is_complete(c.subrange(0, start)),
        forall|i: int| start <= i < mid ==> c[i] != NEWLINE,
        !is_record(c.subrange(start, mid)),
    ensures
        !is_chunk(c),
{
    if is_complete(c) {
        let p = c.subrange(0, start);
        let l = c.subrange(start, mid);
        let t = c.subrange(mid + 1, c.len() as int);
        assert(p + l.push(NEWLINE) == c.subrange(0, mid + 1));
        assert(c == c.subrange(0, mid + 1) + t);
        lemma_lines_push(p, l);
        assert(is_complete(t)) by {
            if t.len() > 0 {
                assert(t.last() == c.last());
            }
        }
        lemma_lines_concat(c.subrange(0, mid + 1), t);
        assert(lines(c)[lines(p).len() as int] == l);
    }
}

/// Parses a chunk of whole lines into a table, reading each temperature with
/// the scalar or the branchless reader.
fn parse_chunk(chunk: &[u8], branchless: bool) -> (r: Result<ResultMap, AggregateError>)
    requires
        chunk@.len() <= u32::MAX,
    ensures
        parsed_as(chunk@, r),
{
    let ghost c = chunk@;
    let mut results = ResultMap::new();
    let mut full = false;
    let mut start: usize = 0;
    assert(lines(c.subrange(0, 0)) == Seq::<Seq<u8>>::empty());
    assert(records(c.subrange(0, 0)) == Seq::<(Seq<u8>, int)>::empty());
    assert(stats_view(results@) =~= summary(records(c.subrange(0, 0))));
    while start < chunk.len()
        invariant
            c == chunk@,
            c.len() <= u32::MAX,
            start <= c.len(),
            is_complete(c.subrange(0, start as int)),
            forall|i: int|
                0 <= i < lines(c.subrange(0, start as int)).len() ==> is_record(
                    #[trigger] lines(c.subrange(0, start as int))[i],
                ),
            results.wf(),
            lines(c.subrange(0, start as int)).len() <= start,
            !full ==> stats_view(results@) == summary(records(c.subrange(0, start as int))),
            !full ==> forall|k: Seq<u8>|
                #[trigger] results@.contains_key(k) ==> results@[k]@.wf() && results@[k].count
                    <= lines(c.subrange(0, start as int)).len(),
            full ==> summary(records(c.subrange(0, start as int))).len() > ResultMap::capacity(),
        decreases c.len() - start,
    {
        let rest = slice_subrange(chunk, start, chunk.len());
        match find_byte(NEWLINE, rest) {
            None => {
                assert(c.last() == rest@[rest@.len() - 1]);
                return Err(AggregateError::MalformedRecord);
            },
            Some(off) => {
                let mid = start + off;
                let line = slice_subrange(chunk, start, mid);
                assert forall|i: int| 0 <= i < line@.len() implies line@[i] != NEWLINE by {
                    assert(line@[i] == rest@[i]);
                }
                if !check_record(line) {
                    proof {
                        assert forall|i: int| start <= i < mid implies c[i] != NEWLINE by {
                            assert(c[i] == rest@[i - start]);
                        }
                        lemma_bad_line(c, start as int, mid as int);
                    }
                    return Err(AggregateError::MalformedRecord);
                }
                let (split, temp) = if branchless {
                    read_tail(line)
                } else {
                    get_temp(line)
                };
                let name = slice_subrange(line, 0, split);
                let ghost p = c.subrange(0, start as int);
                let ghost before = results@;
                let ghost was_full = full;
                proof {
                    lemma_summary_dom(records(p));
                    assert(stats_view(before).dom() == before.dom());
                }
                add_record(&mut results, name, temp, &mut full);
                proof {
                    assert(p + line@.push(NEWLINE) == c.subrange(0, mid + 1));
                    lemma_lines_push(p, line@);
                    let q = c.subrange(0, mid + 1);
                    assert(name@ == name_of(line@));
                    assert(records(q) == records(p).push((name@, temp as int)));
                    assert(records(q).drop_last() == records(p));
                    lemma_summary_grows(records(p), (name@, temp as int));
                    assert(lines(q) == lines(p).push(line@));
                    assert forall|i: int| 0 <= i < lines(q).len() implies is_record(
                        #[trigger] lines(q)[i],
                    ) by {
                        if i < lines(p).len() {
                            assert(lines(q)[i] == lines(p)[i]);
                        }
                    }
                    if !was_full && full {
                        assert(stats_view(before).dom() == summary(records(p)).dom());
                        assert(summary(records(p)).len() == before.len());
                    }
                }
                start = mid + 1;
            },
        }
    }
    assert(c.subrange(0, c.len() as int) == c);
    if full {
        Err(AggregateError::CapacityExceeded)
    } else {
        Ok(results)
    }
}

/// The table of the records of a chunk of whole lines, each temperature read
/// by scanning its last bytes.
pub fn parser(chunk: &[u8]) -> (r: Result<ResultMap, AggregateError>)
    requires
        chunk@.len() <= u32::MAX,
    ensures
        parsed_as(chunk@, r),
{
    parse_chunk(chunk, false)
}

/// Reads the position of the `;` and the temperature of a line with the
/// branchless reader.
fn read_tail(line: &[u8]) -> (r: (usize, i32))
    requires
        has_temp_tail(line@),
    ensures
        r.0 == split_of(line@),
        r.1 == tenths_of(line@),
        is_tenths(r.1 as int),
{
    let word = tail_word(line);
    proof {
        lemma_readers_agree(line@);
    }
    let (after, temp) = get_temp_branchless(word);
    (line.len() - after - 1, temp)
}

/// The table of the records of a chunk of whole lines, each temperature read
/// by the branchless reader.
pub fn parser_branchless(chunk: &[u8]) -> (r: Result<ResultMap, AggregateError>)
    requires
        chunk@.len() <= u32::MAX,
    ensures
        parsed_as(chunk@, r),
{
    parse_chunk(chunk, true)
}

/// Byte `k` of a word, counting from the least significant one.
pub open spec fn byte_at(v: u64, k: u64) -> u8 {
    ((v >> ((k * 8) as u64)) & 0xFF) as u8
}

/// The bytes of a word, most significant first: the last eight bytes of a
/// line when the word was read from them big-endian.
pub open spec fn window(v: u64) -> Seq<u8> {
    seq![
        byte_at(v, 7),
        byte_at(v, 6),
        byte_at(v, 5),
        byte_at(v, 4),
        byte_at(v, 3),
        byte_at(v, 2),
        byte_at(v, 1),
        byte_at(v, 0),
    ]
}

/// The index of the least significant zero byte of a word, or 8 when none is.
pub open spec fn first_zero_byte(v: u64) -> u64 {
    if byte_at(v, 0) == 0 {
        0
    } else if byte_at(v, 1) == 0 {
        1
    } else if byte_at(v, 2) == 0 {
        2
    } else if byte_at(v, 3) == 0 {
        3
    } else if byte_at(v, 4) == 0 {
        4
    } else if byte_at(v, 5) == 0 {
        5
    } else if byte_at(v, 6) == 0 {
        6
    } else if byte_at(v, 7) == 0 {
        7
    } else {
        8
    }
}

/// The SWAR zero-byte test on a word.
pub open spec fn zero_bytes(v: u64) -> u64 {
    vstd::prelude::sub(v, 0x0101_0101_0101_0101u64) & !v & 0x8080_8080_8080_8080u64
}

/// A word with every byte equal to `byte`.
pub fn create_mask(byte: u8) -> (r: u64)
    ensures
        r == byte as u64 * 0x0101_0101_0101_0101u64,
{
    assert(!0u64 / 0xFFu64 == 0x0101_0101_0101_0101u64) by (bit_vector);
    assert(byte as u64 * 0x0101_0101_0101_0101u64 <= u64::MAX) by (nonlinear_arith)
        requires
            byte <= 0xFF,
    ;
    (!0u64 / 0xFF) * byte as u64
}

/// Marks the high bit of each zero byte of a word. Above the least significant
/// zero byte a mark may also be false.
pub fn has_zero(value: u64) -> (r: u64)
    ensures
        r == zero_bytes(value),
{
    let d = value.wrapping_sub(create_mask(0x01));
    assert(value >= 0x0101_0101_0101_0101u64 ==> vstd::prelude::sub(value, 0x0101_0101_0101_0101u64)
        == value - 0x0101_0101_0101_0101u64) by (bit_vector);
    assert(value < 0x0101_0101_0101_0101u64 ==> vstd::prelude::sub(value, 0x0101_0101_0101_0101u64)
        == value + 0xFEFE_FEFE_FEFE_FEFFu64) by (bit_vector);
    assert(d == vstd::prelude::sub(value, 0x0101_0101_0101_0101u64));
    d & !value & create_mask(0x80)
}

/// Where the zero-byte test puts its lowest mark: above the least significant
/// zero byte, with nothing below; no mark at all when no byte is zero.
proof fn lemma_zero_bytes_lowest(x: u64)
    ensures
        first_zero_byte(x) < 8 ==> (zero_bytes(x) >> (first_zero_byte(x) * 8 + 7) as u64) & 1 == 1
            && zero_bytes(x) << (64 - (first_zero_byte(x) * 8 + 7)) as u64 == 0,
        first_zero_byte(x) == 8 ==> zero_bytes(x) == 0,
{
    let f = first_zero_byte(x);
    if f == 0 {
        assert((zero_bytes(x) >> 7u64) & 1 == 1 && zero_bytes(x) << 57u64 == 0) by (bit_vector)
            requires
                byte_at(x, 0) == 0,
        ;
    } else if f == 1 {
        assert((zero_bytes(x) >> 15u64) & 1 == 1 && zero_bytes(x) << 49u64 == 0) by (bit_vector)
            requires
                byte_at(x, 0) != 0,
                byte_at(x, 1) == 0,
        ;
    } else if f == 2 {
        assert((zero_bytes(x) >> 23u64) & 1 == 1 && zero_bytes(x) << 41u64 == 0) by (bit_vector)
            requires
                byte_at(x, 0) != 0,
                byte_at(x, 1) != 0,
                byte_at(x, 2) == 0,
        ;
    } else if f == 3 {
        assert((zero_bytes(x) >> 31u64) & 1 == 1 && zero_bytes(x) << 33u64 == 0) by (bit_vector)
            requires
                byte_at(x, 0) != 0,
                byte_at(x, 1) != 0,
                byte_at(x, 2) != 0,
                byte_at(x, 3) == 0,
        ;
    } else if f == 4 {
        assert((zero_bytes(x) >> 39u64) & 1 == 1 && zero_bytes(x) << 25u64 == 0) by (bit_vector)
            requires
                byte_at(x, 0) != 0,
                byte_at(x, 1) != 0,
                byte_at(x, 2) != 0,
                byte_at(x, 3) != 0,
                byte_at(x, 4) == 0,
        ;
    } else if f == 5 {
        assert((zero_bytes(x) >> 47u64) & 1 == 1 && zero_bytes(x) << 17u64 == 0) by (bit_vector)
            requires
                byte_at(x, 0) != 0,
                byte_at(x, 1) != 0,
                byte_at(x, 2) != 0,
                byte_at(x, 3) != 0,
                byte_at(x, 4) != 0,
                byte_at(x, 5) == 0,
        ;
    } else if f == 6 {
        assert((zero_bytes(x) >> 55u64) & 1 == 1 && zero_bytes(x) << 9u64 == 0) by (bit_vector)
            requires
                byte_at(x, 0) != 0,
                byte_at(x, 1) != 0,
                byte_at(x, 2) != 0,
                byte_at(x, 3) != 0,
                byte_at(x, 4) != 0,
                byte_at(x, 5) != 0,
                byte_at(x, 6) == 0,
        ;
    } else if f == 7 {
        assert((zero_bytes(x) >> 63u64) & 1 == 1 && zero_bytes(x) << 1u64 == 0) by (bit_vector)
            requires
                byte_at(x, 0) != 0,
                byte_at(x, 1) != 0,
                byte_at(x, 2) != 0,
                byte_at(x, 3) != 0,
                byte_at(x, 4) != 0,
                byte_at(x, 5) != 0,
                byte_at(x, 6) != 0,
                byte_at(x, 7) == 0,
        ;
    } else {
        assert(zero_bytes(x) == 0) by (bit_vector)
            requires
                byte_at(x, 0) != 0,
                byte_at(x, 1) != 0,
                byte_at(x, 2) != 0,
                byte_at(x, 3) != 0,
                byte_at(x, 4) != 0,
                byte_at(x, 5) != 0,
                byte_at(x, 6) != 0,
                byte_at(x, 7) != 0,
        ;
    }
}

/// A bit below the lowest `p` bits that are all zero is zero.
proof fn lemma_low_bit_zero(x: u64, p: u64, j: u64)
    by (bit_vector)
    requires
        1 <= p < 64,
        j < p,
        x << vstd::prelude::sub(64u64, p) == 0,
    ensures
        (x >> j) & 1 == 0,
{
}

/// The trailing zeros of a word whose bit `p` is its lowest set bit.
proof fn lemma_trailing_zeros(x: u64, p: u64)
    requires
        1 <= p < 64,
        (x >> p) & 1 == 1,
        x << vstd::prelude::sub(64u64, p) == 0,
    ensures
        x.trailing_zeros() == p,
{
    vstd::std_specs::bits::axiom_u64_trailing_zeros(x);
    let t = x.trailing_zeros() as u64;
    if t < p {
        lemma_low_bit_zero(x, p, t);
    } else if t > p {
        assert((x >> p) & 1u64 == 0u64);
    }
}

/// How many bytes below the least significant byte of `value` that equals the
/// corresponding byte of `mask` there are; 7 when no byte does.
pub fn bytes_from_end(value: u64, mask: u64) -> (r: u32)
    ensures
        r == if first_zero_byte(value ^ mask) < 8 {
            first_zero_byte(value ^ mask)
        } else {
            7
        },
{
    let x = value ^ mask;
    let hz = has_zero(x);
    proof {
        lemma_zero_bytes_lowest(x);
        let f = first_zero_byte(x);
        if f < 8 {
            let p = (f * 8 + 7) as u64;
            assert(vstd::prelude::sub(64u64, p) == (64 - p) as u64);
            lemma_trailing_zeros(hz, p);
        } else {
            vstd::std_specs::bits::axiom_u64_trailing_zeros(hz);
        }
    }
    let tz = hz.trailing_zeros();
    let d = tz - 4;
    assert(d >> 3 == d / 8) by (bit_vector);
    d >> 3
}

/// The bit-level steps of the branchless reader on a tail `;D.D`.
proof fn lemma_tail_semicolon_digit(end: u64)
    by (bit_vector)
    requires
        byte_at(end, 3) == 0x3B,
        0x30 <= byte_at(end, 2) <= 0x39,
        byte_at(end, 1) == 0x2E,
        0x30 <= byte_at(end, 0) <= 0x39,
    ensures
        byte_at(end ^ 0x3B3B_3B3B_3B3B_3B3Bu64, 0) != 0,
        byte_at(end ^ 0x3B3B_3B3B_3B3B_3B3Bu64, 1) != 0,
        byte_at(end ^ 0x3B3B_3B3B_3B3B_3B3Bu64, 2) != 0,
        byte_at(end ^ 0x3B3B_3B3B_3B3B_3B3Bu64, 3) == 0,
        (zero_bytes(end ^ 0x2D2D_2D2D_2D2D_2D2Du64) >> 23u64) & 1 == 0,
        (end & !((0xFFFF_FFFF_FFFF_FFFFu64 << 24u64) >> 0u64)) & 0xFF == byte_at(end, 0) as u64,
        ((end & !((0xFFFF_FFFF_FFFF_FFFFu64 << 24u64) >> 0u64)) >> 16u64) & 0xFF == byte_at(end, 2) as u64,
        ((end & !((0xFFFF_FFFF_FFFF_FFFFu64 << 24u64) >> 0u64)) >> 24u64) & 0xFF == 0,
        (((end & !((0xFFFF_FFFF_FFFF_FFFFu64 << 24u64) >> 0u64)) >> 24u64) & 0xFF) >> 5u64 == 0,
{
}

/// The bit-level steps of the branchless reader on a tail `;-D.D`.
proof fn lemma_tail_minus_digit(end: u64)
    by (bit_vector)
    requires
        byte_at(end, 4) == 0x3B,
        byte_at(end, 3) == 0x2D,
        0x30 <= byte_at(end, 2) <= 0x39,
        byte_at(end, 1) == 0x2E,
        0x30 <= byte_at(end, 0) <= 0x39,
    ensures
        byte_at(end ^ 0x3B3B_3B3B_3B3B_3B3Bu64, 0) != 0,
        byte_at(end ^ 0x3B3B_3B3B_3B3B_3B3Bu64, 1) != 0,
        byte_at(end ^ 0x3B3B_3B3B_3B3B_3B3Bu64, 2) != 0,
        byte_at(end ^ 0x3B3B_3B3B_3B3B_3B3Bu64, 3) != 0,
        byte_at(end ^ 0x3B3B_3B3B_3B3B_3B3Bu64, 4) == 0,
        (zero_bytes(end ^ 0x2D2D_2D2D_2D2D_2D2Du64) >> 31u64) & 1 == 1,
        (end & !((0xFFFF_FFFF_FFFF_FFFFu64 << 32u64) >> 8u64)) & 0xFF == byte_at(end, 0) as u64,
        ((end & !((0xFFFF_FFFF_FFFF_FFFFu64 << 32u64) >> 8u64)) >> 16u64) & 0xFF == byte_at(end, 2) as u64,
        ((end & !((0xFFFF_FFFF_FFFF_FFFFu64 << 32u64) >> 8u64)) >> 24u64) & 0xFF == 0,
        (((end & !((0xFFFF_FFFF_FFFF_FFFFu64 << 32u64) >> 8u64)) >> 24u64) & 0xFF) >> 5u64 == 0,
{
}

/// The bit-level steps of the branchless reader on a tail `;DD.D`.
proof fn lemma_tail_two_digits(end: u64)
    by (bit_vector)
    requires
        byte_at(end, 4) == 0x3B,
        0x30 <= byte_at(end, 3) <= 0x39,
        0x30 <= byte_at(end, 2) <= 0x39,
        byte_at(end, 1) == 0x2E,
        0x30 <= byte_at(end, 0) <= 0x39,
    ensures
        byte_at(end ^ 0x3B3B_3B3B_3B3B_3B3Bu64, 0) != 0,
        byte_at(end ^ 0x3B3B_3B3B_3B3B_3B3Bu64, 1) != 0,
        byte_at(end ^ 0x3B3B_3B3B_3B3B_3B3Bu64, 2) != 0,
        byte_at(end ^ 0x3B3B_3B3B_3B3B_3B3Bu64, 3) != 0,
        byte_at(end ^ 0x3B3B_3B3B_3B3B_3B3Bu64, 4) == 0,
        (zero_bytes(end ^ 0x2D2D_2D2D_2D2D_2D2Du64) >> 31u64) & 1 == 0,
        (end & !((0xFFFF_FFFF_FFFF_FFFFu64 << 32u64) >> 0u64)) & 0xFF == byte_at(end, 0) as u64,
        ((end & !((0xFFFF_FFFF_FFFF_FFFFu64 << 32u64) >> 0u64)) >> 16u64) & 0xFF == byte_at(end, 2) as u64,
        ((end & !((0xFFFF_FFFF_FFFF_FFFFu64 << 32u64) >> 0u64)) >> 24u64) & 0xFF == byte_at(end, 3) as u64,
        (((end & !((0xFFFF_FFFF_FFFF_FFFFu64 << 32u64) >> 0u64)) >> 24u64) & 0xFF) >> 5u64 == 1,
{
}

/// The bit-level steps of the branchless reader on a tail `;-DD.D`.
proof fn lemma_tail_minus_two_digits(end: u64)
    by (bit_vector)
    requires
        byte_at(end, 5) == 0x3B,
        byte_at(end, 4) == 0x2D,
        0x30 <= byte_at(end, 3) <= 0x39,
        0x30 <= byte_at(end, 2) <= 0x39,
        byte_at(end, 1) == 0x2E,
        0x30 <= byte_at(end, 0) <= 0x39,
    ensures
        byte_at(end ^ 0x3B3B_3B3B_3B3B_3B3Bu64, 0) != 0,
        byte_at(end ^ 0x3B3B_3B3B_3B3B_3B3Bu64, 1) != 0,
        byte_at(end ^ 0x3B3B_3B3B_3B3B_3B3Bu64, 2) != 0,
        byte_at(end ^ 0x3B3B_3B3B_3B3B_3B3Bu64, 3) != 0,
        byte_at(end ^ 0x3B3B_3B3B_3B3B_3B3Bu64, 4) != 0,
        byte_at(end ^ 0x3B3B_3B3B_3B3B_3B3Bu64, 5) == 0,
        (zero_bytes(end ^ 0x2D2D_2D2D_2D2D_2D2Du64) >> 39u64) & 1 == 1,
        (end & !((0xFFFF_FFFF_FFFF_FFFFu64 << 40u64) >> 8u64)) & 0xFF == byte_at(end, 0) as u64,
        ((end & !((0xFFFF_FFFF_FFFF_FFFFu64 << 40u64) >> 8u64)) >> 16u64) & 0xFF == byte_at(end, 2) as u64,
        ((end & !((0xFFFF_FFFF_FFFF_FFFFu64 << 40u64) >> 8u64)) >> 24u64) & 0xFF == byte_at(end, 3) as u64,
        (((end & !((0xFFFF_FFFF_FFFF_FFFFu64 << 40u64) >> 8u64)) >> 24u64) & 0xFF) >> 5u64 == 1,
{
}

/// Flipping all bits and adding one negates; doing neither keeps the value.
proof fn lemma_conditional_negate(t: i32)
    by (bit_vector)
    requires
        -1000 < t < 1000,
    ensures
        (t ^ 0i32) + 0i32 == t,
        (t ^ -1i32) + 1i32 == -t,
{
}

/// Reads, without branching on the bytes, how many bytes follow the `;` and
/// the temperature in tenths, from the last eight bytes of a line read as a
/// big-endian word (zero-padded in front when the line is shorter).
pub fn get_temp_branchless(end: u64) -> (r: (usize, i32))
    requires
        has_temp_tail(window(end)),
    ensures
        r.0 == temp_len(window(end)),
        r.1 == tenths_of(window(end)),
        is_tenths(r.1 as int),
{
    let ghost w = window(end);
    let ghost tl = temp_len(w);
    let ghost t = w.subrange(8 - tl, 8);
    proof {
        assert(w.len() == 8);
        assert(t == w.subrange(split_of(w) + 1, 8));
        assert(w[7] == byte_at(end, 0) && w[6] == byte_at(end, 1) && w[5] == byte_at(end, 2)
            && w[4] == byte_at(end, 3) && w[3] == byte_at(end, 4) && w[2] == byte_at(end, 5));
        if tl == 3 {
            assert(t[0] == w[5] && t[2] == w[7]);
            lemma_tail_semicolon_digit(end);
        } else if tl == 4 {
            assert(t[0] == w[4] && t[1] == w[5] && t[3] == w[7]);
            if byte_at(end, 3) == MINUS {
                lemma_tail_minus_digit(end);
            } else {
                lemma_tail_two_digits(end);
            }
        } else {
            assert(t[0] == w[3] && t[1] == w[4] && t[2] == w[5] && t[4] == w[7]);
            lemma_tail_minus_two_digits(end);
        }
    }
    let split = bytes_from_end(end, create_mask(SEMICOLON)) as u64;
    let minus = has_zero(end ^ create_mask(MINUS));
    let negative_bit: u64 = (minus >> ((split - 1) * 8 + 7)) & 1;
    let negative = negative_bit as i32;
    let mask = !((create_mask(0xFF) << (split * 8)) >> (negative_bit * 8));
    let masked = end & mask;
    let ones = (masked & 0xFF) as i32;
    let tens = (((masked >> 16) & 0xFF) as i32) * 10;
    let third = (masked >> 24) & 0xFF;
    let has_hundreds = (third >> 5) as i32;
    let hundreds = (third as i32) * 100;
    let temp = ones - 48 + tens - 480 + hundreds - has_hundreds * 4800;
    proof {
        lemma_conditional_negate(temp);
    }
    (split as usize, (temp ^ -negative) + negative)
}

/// The last eight bytes of a line, with zeros in front when it is shorter.
pub open spec fn last_eight(line: Seq<u8>) -> Seq<u8> {
    Seq::new(
        8,
        |i: int|
            if 8 - i <= line.len() {
                line[line.len() - 8 + i]
            } else {
                0u8
            },
    )
}

/// Shifting a byte in at the bottom of a word moves every byte up by one.
proof fn lemma_shift_in(v: u64, b: u8)
    by (bit_vector)
    ensures
        byte_at((v << 8u64) | (b as u64), 0) == b,
        byte_at((v << 8u64) | (b as u64), 1) == byte_at(v, 0),
        byte_at((v << 8u64) | (b as u64), 2) == byte_at(v, 1),
        byte_at((v << 8u64) | (b as u64), 3) == byte_at(v, 2),
        byte_at((v << 8u64) | (b as u64), 4) == byte_at(v, 3),
        byte_at((v << 8u64) | (b as u64), 5) == byte_at(v, 4),
        byte_at((v << 8u64) | (b as u64), 6) == byte_at(v, 5),
        byte_at((v << 8u64) | (b as u64), 7) == byte_at(v, 6),
{
}

/// The bytes of the zero word.
proof fn lemma_zero_word()
    by (bit_vector)
    ensures
        byte_at(0, 0) == 0 && byte_at(0, 1) == 0 && byte_at(0, 2) == 0 && byte_at(0, 3) == 0
            && byte_at(0, 4) == 0 && byte_at(0, 5) == 0 && byte_at(0, 6) == 0 && byte_at(0, 7)
            == 0,
{
}

/// The last eight bytes of a line read as a big-endian word, zero-padded in
/// front when the line is shorter.
pub fn tail_word(line: &[u8]) -> (r: u64)
    ensures
        window(r) == last_eight(line@),
{
    let n = line.len();
    let start: usize = if n >= 8 {
        n - 8
    } else {
        0
    };
    let mut v: u64 = 0;
    let mut i: usize = start;
    proof {
        lemma_zero_word();
    }
    while i < n
        invariant
            start <= i <= n,
            n == line@.len(),
            start == if n >= 8 {
                n - 8
            } else {
                0
            },
            forall|k: u64|
                k < 8 ==> #[trigger] byte_at(v, k) == if k < i - start {
                    line@[i - 1 - k]
                } else {
                    0u8
                },
        decreases n - i,
    {
        let b = line[i];
        let ghost old_v = v;
        v = (v << 8) | (b as u64);
        proof {
            lemma_shift_in(old_v, b);
            assert forall|k: u64| k < 8 implies #[trigger] byte_at(v, k) == if k < i + 1 - start {
                line@[i - k]
            } else {
                0u8
            } by {
                if k > 0 {
                    assert(byte_at(v, k) == byte_at(old_v, (k - 1) as u64)) by {
                        if k == 1 {
                        } else if k == 2 {
                        } else if k == 3 {
                        } else if k == 4 {
                        } else if k == 5 {
                        } else if k == 6 {
                        } else {
                        }
                    }
                }
            }
        }
        i += 1;
    }
    proof {
        assert forall|j: int| 0 <= j < 8 implies window(v)[j] == last_eight(line@)[j] by {
            let k = (7 - j) as u64;
            assert(window(v)[j] == byte_at(v, k));
        }
        assert(window(v) =~= last_eight(line@));
    }
    v
}

/// On a line that ends in `;` and a temperature, the branchless reader's view
/// of the line's last eight bytes finds the same `;` and the same temperature
/// as the scalar reader finds on the whole line.
pub proof fn lemma_readers_agree(line: Seq<u8>)
    requires
        has_temp_tail(line),
    ensures
        has_temp_tail(last_eight(line)),
        split_of(line) == line.len() - 1 - temp_len(last_eight(line)),
        tenths_of(last_eight(line)) == tenths_of(line),
{
    let w = last_eight(line);
    let n = line.len() as int;
    let tl = temp_len(line);
    assert(n >= tl + 2);
    assert(w[4] == line[n - 4]);
    assert(w[3] == line[n - 5]);
    assert(temp_len(w) == tl);
    assert(w[7 - tl] == line[n - 1 - tl]);
    assert(w.subrange(8 - tl, 8) =~= line.subrange(n - tl, n));
}

} // verus!
