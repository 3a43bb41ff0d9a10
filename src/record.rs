use vstd::prelude::*;
use crate::temperature::{Stats, Temperature};

verus! {

/// The byte that ends a station name.
pub const SEMICOLON: u8 = 0x3B;

/// The byte that ends a line.
pub const NEWLINE: u8 = 0x0A;

/// The sign of a negative temperature.
pub const MINUS: u8 = 0x2D;

/// The decimal point of a temperature.
pub const DOT: u8 = 0x2E;

/// The longest station name, in bytes.
pub const MAX_NAME_LEN: usize = 100;

pub open spec fn is_digit(b: u8) -> bool {
    0x30 <= b <= 0x39
}

pub open spec fn digit_value(b: u8) -> int {
    b - 0x30
}

/// A temperature as written in a line: `-?[0-9]{1,2}\.[0-9]`.
pub open spec fn is_temp_text(s: Seq<u8>) -> bool {
    let n = s.len();
    &&& 3 <= n <= 5
    &&& is_digit(s[n - 1])
    &&& s[n - 2] == DOT
    &&& is_digit(s[n - 3])
    &&& n == 4 ==> (s[0] == MINUS || is_digit(s[0]))
    &&& n == 5 ==> (s[0] == MINUS && is_digit(s[1]))
}

/// The value of a temperature text, in tenths of a degree.
pub open spec fn temp_value(s: Seq<u8>) -> int {
    let n = s.len();
    let magnitude = digit_value(s[n - 1]) + 10 * digit_value(s[n - 3]) + if n >= 4 && is_digit(
        s[n - 4],
    ) {
        100 * digit_value(s[n - 4])
    } else {
        0
    };
    if s[0] == MINUS {
        -magnitude
    } else {
        magnitude
    }
}

/// A station name: 1 to 100 bytes, none of them `;` or a newline.
pub open spec fn is_name(s: Seq<u8>) -> bool {
    &&& 1 <= s.len() <= MAX_NAME_LEN
    &&& forall|i: int| 0 <= i < s.len() ==> s[i] != SEMICOLON && s[i] != NEWLINE
}

/// How many bytes follow the `;` of a line, read off the line's last bytes.
pub open spec fn temp_len(line: Seq<u8>) -> int {
    let n = line.len() as int;
    if n >= 4 && line[n - 4] == SEMICOLON {
        3
    } else if n >= 5 && line[n - 5] == SEMICOLON {
        4
    } else {
        5
    }
}

/// Where the `;` of a line stands: the length of its name.
pub open spec fn split_of(line: Seq<u8>) -> int {
    line.len() - 1 - temp_len(line)
}

/// The line (without its newline) ends in `;` and a temperature, after at least one byte.
pub open spec fn has_temp_tail(line: Seq<u8>) -> bool {
    let k = split_of(line);
    &&& 1 <= k
    &&& line[k] == SEMICOLON
    &&& is_temp_text(line.subrange(k + 1, line.len() as int))
}

/// A line (without its newline) of the form `name;temperature`.
pub open spec fn is_record(line: Seq<u8>) -> bool {
    &&& has_temp_tail(line)
    &&& is_name(line.subrange(0, split_of(line)))
}

/// The station of a line.
pub open spec fn name_of(line: Seq<u8>) -> Seq<u8> {
    line.subrange(0, split_of(line))
}

/// The temperature of a line, in tenths.
pub open spec fn tenths_of(line: Seq<u8>) -> int {
    temp_value(line.subrange(split_of(line) + 1, line.len() as int))
}

/// Where the last line of `s` starts: just after its last newline, or at 0.
pub open spec fn line_start(s: Seq<u8>) -> int
    decreases s.len(),
{
    if s.len() == 0 {
        0
    } else if s.last() == NEWLINE {
        s.len() as int
    } else {
        line_start(s.drop_last())
    }
}

/// The lines of a text that is empty or ends with a newline, without their newlines.
pub open spec fn lines(s: Seq<u8>) -> Seq<Seq<u8>>
    decreases s.len(),
{
    if s.len() == 0 {
        seq![]
    } else {
        let body = s.drop_last();
        let j = line_start(body);
        if 0 <= j <= body.len() {
            lines(s.subrange(0, j)).push(body.subrange(j, body.len() as int))
        } else {
            seq![]
        }
    }
}

/// A text made of whole lines: empty, or ending with a newline.
pub open spec fn is_complete(s: Seq<u8>) -> bool {
    s.len() == 0 || s.last() == NEWLINE
}

/// A text of whole lines, each a record.
pub open spec fn is_chunk(s: Seq<u8>) -> bool {
    &&& is_complete(s)
    &&& forall|i: int| 0 <= i < lines(s).len() ==> is_record(#[trigger] lines(s)[i])
}

/// The (station, tenths) pair of each line, in order.
pub open spec fn line_records(ls: Seq<Seq<u8>>) -> Seq<(Seq<u8>, int)> {
    ls.map_values(|l: Seq<u8>| (name_of(l), tenths_of(l)))
}

/// The (station, tenths) pairs of a text's lines, in order.
pub open spec fn records(s: Seq<u8>) -> Seq<(Seq<u8>, int)> {
    line_records(lines(s))
}

/// A summary with one more sample.
pub open spec fn summary_add(m: Map<Seq<u8>, Stats>, name: Seq<u8>, t: int) -> Map<Seq<u8>, Stats> {
    if m.contains_key(name) {
        m.insert(name, m[name].add(t))
    } else {
        m.insert(name, Stats::single(t))
    }
}

/// The aggregate of every station of a sequence of samples.
pub open spec fn summary(rs: Seq<(Seq<u8>, int)>) -> Map<Seq<u8>, Stats>
    decreases rs.len(),
{
    if rs.len() == 0 {
        Map::empty()
    } else {
        summary_add(summary(rs.drop_last()), rs.last().0, rs.last().1)
    }
}

/// The aggregates of a table of records, read as mathematical integers.
pub open spec fn stats_view(m: Map<Seq<u8>, Temperature>) -> Map<Seq<u8>, Stats> {
    m.map_values(|t: Temperature| t@)
}

/// Where the last line starts lies within the text, just after a newline.
pub proof fn lemma_line_start_bounds(s: Seq<u8>)
    ensures
        0 <= line_start(s) <= s.len(),
        line_start(s) == 0 || s[line_start(s) - 1] == NEWLINE,
        forall|i: int| line_start(s) <= i < s.len() ==> s[i] != NEWLINE,
    decreases s.len(),
{
    if s.len() > 0 && s.last() != NEWLINE {
        lemma_line_start_bounds(s.drop_last());
        assert forall|i: int| line_start(s) <= i < s.len() implies s[i] != NEWLINE by {
            if i < s.len() - 1 {
                assert(s.drop_last()[i] == s[i]);
            }
        }
    }
}

/// After whole lines, the last line starts where the added text's last line starts.
pub proof fn lemma_line_start_append(a: Seq<u8>, x: Seq<u8>)
    requires
        is_complete(a),
    ensures
        line_start(a + x) == a.len() + line_start(x),
    decreases x.len(),
{
    if x.len() == 0 {
        assert(a + x == a);
    } else {
        assert((a + x).drop_last() == a + x.drop_last());
        assert((a + x).last() == x.last());
        lemma_line_start_append(a, x.drop_last());
    }
}

/// The lines of two texts of whole lines, one after the other.
pub proof fn lemma_lines_concat(a: Seq<u8>, b: Seq<u8>)
    requires
        is_complete(a),
        is_complete(b),
    ensures
        is_complete(a + b),
        lines(a + b) == lines(a) + lines(b),
    decreases b.len(),
{
    if b.len() == 0 {
        assert(a + b == a);
        assert(lines(a) + lines(b) == lines(a));
    } else {
        let s = a + b;
        let bd = b.drop_last();
        let jb = line_start(bd);
        lemma_line_start_bounds(bd);
        assert(s.drop_last() == a + bd);
        lemma_line_start_append(a, bd);
        let b0 = b.subrange(0, jb);
        assert(s.subrange(0, a.len() + jb) == a + b0);
        assert(is_complete(b0)) by {
            if jb > 0 {
                assert(b0.last() == bd[jb - 1]);
            }
        }
        lemma_lines_concat(a, b0);
        assert((a + bd).subrange(a.len() + jb, (a + bd).len() as int) == bd.subrange(jb, bd.len() as int));
        assert(lines(a + b) == lines(a + b0).push(bd.subrange(jb, bd.len() as int)));
        assert(lines(b) == lines(b0).push(bd.subrange(jb, bd.len() as int)));
        assert(lines(a + b) == lines(a) + lines(b));
    }
}

/// One more line after whole lines.
pub proof fn lemma_lines_push(a: Seq<u8>, l: Seq<u8>)
    requires
        is_complete(a),
        forall|i: int| 0 <= i < l.len() ==> l[i] != NEWLINE,
    ensures
        is_complete(a + l.push(NEWLINE)),
        lines(a + l.push(NEWLINE)) == lines(a).push(l),
        records(a + l.push(NEWLINE)) == records(a).push((name_of(l), tenths_of(l))),
{
    let b = l.push(NEWLINE);
    assert(b.drop_last() == l);
    lemma_line_start_zero(l);
    assert(b.subrange(0, 0) == Seq::<u8>::empty());
    assert(lines(Seq::<u8>::empty()) == Seq::<Seq<u8>>::empty());
    assert(l.subrange(0, l.len() as int) == l);
    assert(lines(b) == seq![l]);
    lemma_lines_concat(a, b);
    assert(lines(a) + seq![l] == lines(a).push(l));
    assert(records(a + b) =~= records(a).push((name_of(l), tenths_of(l))));
}

/// A text without a newline has its last line start at 0.
pub proof fn lemma_line_start_zero(l: Seq<u8>)
    requires
        forall|i: int| 0 <= i < l.len() ==> l[i] != NEWLINE,
    ensures
        line_start(l) == 0,
    decreases l.len(),
{
    if l.len() > 0 {
        assert(l.last() == l[l.len() - 1]);
        lemma_line_start_zero(l.drop_last());
    }
}

/// The stations of a summary are those of its samples, and there are finitely many.
pub proof fn lemma_summary_dom(rs: Seq<(Seq<u8>, int)>)
    ensures
        summary(rs).dom().finite(),
        forall|k: Seq<u8>| #[trigger] summary(rs).contains_key(k) <==> exists|i: int|
            0 <= i < rs.len() && rs[i].0 == k,
    decreases rs.len(),
{
    if rs.len() > 0 {
        let d = rs.drop_last();
        lemma_summary_dom(d);
        assert forall|k: Seq<u8>| #[trigger] summary(rs).contains_key(k) <==> exists|i: int|
            0 <= i < rs.len() && rs[i].0 == k by {
            if summary(rs).contains_key(k) && k != rs.last().0 {
                let i = choose|i: int| 0 <= i < d.len() && d[i].0 == k;
                assert(rs[i] == d[i]);
            }
            if exists|i: int| 0 <= i < rs.len() && rs[i].0 == k {
                let i = choose|i: int| 0 <= i < rs.len() && rs[i].0 == k;
                if i < rs.len() - 1 {
                    assert(rs[i] == d[i]);
                }
            }
        }
    }
}

/// One more sample never removes a station.
pub proof fn lemma_summary_grows(rs: Seq<(Seq<u8>, int)>, x: (Seq<u8>, int))
    ensures
        summary(rs).dom().finite(),
        summary(rs).len() <= summary(rs.push(x)).len(),
        summary(rs.push(x)).len() == summary(rs).len() + if summary(rs).contains_key(x.0) {
            0int
        } else {
            1int
        },
{
    lemma_summary_dom(rs);
    assert(rs.push(x).drop_last() == rs);
}

/// The temperatures of one station, in input order.
pub open spec fn samples_of(rs: Seq<(Seq<u8>, int)>, name: Seq<u8>) -> Seq<int>
    decreases rs.len(),
{
    if rs.len() == 0 {
        seq![]
    } else if rs.last().0 == name {
        samples_of(rs.drop_last(), name).push(rs.last().1)
    } else {
        samples_of(rs.drop_last(), name)
    }
}

/// The sum of a sequence of integers.
pub open spec fn total(xs: Seq<int>) -> int
    decreases xs.len(),
{
    if xs.len() == 0 {
        0
    } else {
        total(xs.drop_last()) + xs.last()
    }
}

/// For each station of a summary: its minimum and maximum are the least and
/// the greatest of its samples, its sum is their exact total and its count
/// their number.
pub proof fn lemma_summary_exact(rs: Seq<(Seq<u8>, int)>, name: Seq<u8>)
    ensures
        summary(rs).contains_key(name) <==> samples_of(rs, name).len() > 0,
        summary(rs).contains_key(name) ==> {
            let st = summary(rs)[name];
            let xs = samples_of(rs, name);
            &&& st.count == xs.len()
            &&& st.sum == total(xs)
            &&& forall|i: int| 0 <= i < xs.len() ==> st.min <= #[trigger] xs[i] <= st.max
            &&& exists|i: int| 0 <= i < xs.len() && xs[i] == st.min
            &&& exists|i: int| 0 <= i < xs.len() && xs[i] == st.max
        },
    decreases rs.len(),
{
    if rs.len() > 0 {
        let d = rs.drop_last();
        lemma_summary_exact(d, name);
        if rs.last().0 == name {
            let xs = samples_of(rs, name);
            let ys = samples_of(d, name);
            assert(xs.drop_last() == ys);
            let st = summary(rs)[name];
            let t = rs.last().1;
            if summary(d).contains_key(name) {
                let old_st = summary(d)[name];
                assert forall|i: int| 0 <= i < xs.len() implies st.min <= #[trigger] xs[i] <= st.max by {
                    if i < ys.len() {
                        assert(xs[i] == ys[i]);
                    }
                }
                if st.min == t {
                    assert(xs[xs.len() - 1] == t);
                } else {
                    let i = choose|i: int| 0 <= i < ys.len() && ys[i] == old_st.min;
                    assert(xs[i] == ys[i]);
                }
                if st.max == t {
                    assert(xs[xs.len() - 1] == t);
                } else {
                    let i = choose|i: int| 0 <= i < ys.len() && ys[i] == old_st.max;
                    assert(xs[i] == ys[i]);
                }
            } else {
                assert(ys.len() == 0);
                assert(xs.len() == 1 && xs[0] == t);
                assert(total(xs) == total(ys) + t);
            }
        }
    }
}

/// A line `name;t` made of a station name and a temperature text is a record
/// whose station is `name` and whose temperature is the value of `t` in
/// tenths (the text's degrees times ten).
pub proof fn lemma_record_parts(name: Seq<u8>, t: Seq<u8>)
    requires
        is_name(name),
        is_temp_text(t),
    ensures
        is_record(name + seq![SEMICOLON] + t),
        split_of(name + seq![SEMICOLON] + t) == name.len(),
        name_of(name + seq![SEMICOLON] + t) == name,
        tenths_of(name + seq![SEMICOLON] + t) == temp_value(t),
        records(name + seq![SEMICOLON] + t + seq![NEWLINE]) == seq![(name, temp_value(t))],
{
    let l = name + seq![SEMICOLON] + t;
    let n = l.len() as int;
    let k = name.len() as int;
    assert(l[k] == SEMICOLON);
    assert(forall|i: int| 0 <= i < t.len() ==> l[k + 1 + i] == t[i]);
    assert(temp_len(l) == t.len());
    assert(l.subrange(0, k) =~= name);
    assert(l.subrange(k + 1, n) =~= t);
    assert forall|i: int| 0 <= i < l.len() implies l[i] != NEWLINE by {
        if i > k {
            assert(l[i] == t[i - k - 1]);
        }
    }
    lemma_lines_push(Seq::<u8>::empty(), l);
    assert(Seq::<u8>::empty() + l.push(NEWLINE) == l + seq![NEWLINE]);
    assert(lines(Seq::<u8>::empty()) == Seq::<Seq<u8>>::empty());
    assert(records(Seq::<u8>::empty()) == Seq::<(Seq<u8>, int)>::empty());
    assert(records(l + seq![NEWLINE]) =~= seq![(name, temp_value(t))]);
}

} // verus!
