use vstd::prelude::*;
use crate::aggregate::records_wf;
use vstd::slice::slice_to_vec;
use crate::map::{lists_map, ResultMap};
use crate::record::{stats_view, DOT, MINUS};
use crate::temperature::{lemma_sum_bounds, Stats, Temperature};

verus! {

/// `n / c` rounded to the nearest integer, ties to the even one.
pub open spec fn round_half_even(n: nat, c: nat) -> nat
    recommends
        c > 0,
{
    let q = n / c;
    let r = n % c;
    if 2 * r < c {
        q
    } else if 2 * r > c {
        q + 1
    } else if q % 2 == 0 {
        q
    } else {
        q + 1
    }
}

/// The mean of `count` samples that add up to `sum`, rounded to a whole number
/// of tenths, ties to even.
pub open spec fn mean_of(sum: int, count: nat) -> int {
    if sum >= 0 {
        round_half_even(sum as nat, count) as int
    } else {
        -(round_half_even((-sum) as nat, count) as int)
    }
}

/// The rounded mean of an aggregate's samples, in tenths.
pub fn mean_tenths(sum: i64, count: u32) -> (r: i64)
    requires
        count >= 1,
        -999 * count <= sum <= 999 * count,
    ensures
        r == mean_of(sum as int, count as nat),
        -999 <= r <= 999,
{
    let c = count as u64;
    let n: u64 = if sum < 0 {
        (0 - sum) as u64
    } else {
        sum as u64
    };
    let q = n / c;
    let rem = n % c;
    let m = if 2 * rem < c {
        q
    } else if 2 * rem > c {
        q + 1
    } else if q % 2 == 0 {
        q
    } else {
        q + 1
    };
    proof {
        let (nn, cc) = (n as int, c as int);
        assert(q == nn / cc && rem == nn % cc);
        assert(nn == cc * (nn / cc) + nn % cc && 0 <= nn % cc < cc) by (nonlinear_arith)
            requires
                cc >= 1,
        ;
        assert(q <= 999 && (q == 999 ==> rem == 0)) by (nonlinear_arith)
            requires
                nn == cc * q + rem,
                0 <= rem < cc,
                nn <= 999 * cc,
                q >= 0,
        ;
    }
    if sum < 0 {
        -(m as i64)
    } else {
        m as i64
    }
}

/// The ASCII digit of a value below ten.
pub open spec fn digit_char(d: int) -> u8 {
    (d + 0x30) as u8
}

pub open spec fn abs(v: int) -> int {
    if v < 0 {
        -v
    } else {
        v
    }
}

/// A temperature in tenths written in degrees with one decimal: `-12.3`, `0.5`.
pub open spec fn tenths_text(v: int) -> Seq<u8> {
    let a = abs(v);
    let whole = a / 10;
    let sign = if v < 0 {
        seq![MINUS]
    } else {
        seq![]
    };
    let int_part = if whole >= 10 {
        seq![digit_char(whole / 10), digit_char(whole % 10)]
    } else {
        seq![digit_char(whole)]
    };
    sign + int_part + seq![DOT, digit_char(a % 10)]
}

/// `name=min/mean/max` for one station.
pub open spec fn item_text(name: Seq<u8>, s: Stats) -> Seq<u8> {
    name + seq![0x3Du8] + tenths_text(s.min) + seq![0x2Fu8] + tenths_text(mean_of(s.sum, s.count))
        + seq![0x2Fu8] + tenths_text(s.max)
}

/// The items of the given stations, joined by `, `.
pub open spec fn items_text(names: Seq<Seq<u8>>, m: Map<Seq<u8>, Stats>) -> Seq<u8>
    decreases names.len(),
{
    if names.len() == 0 {
        seq![]
    } else if names.len() == 1 {
        item_text(names[0], m[names[0]])
    } else {
        items_text(names.drop_last(), m) + seq![0x2Cu8, 0x20u8] + item_text(
            names.last(),
            m[names.last()],
        )
    }
}

/// The output line of the given stations: `{a=.../.../..., b=...}`.
pub open spec fn render(names: Seq<Seq<u8>>, m: Map<Seq<u8>, Stats>) -> Seq<u8> {
    seq![0x7Bu8] + items_text(names, m) + seq![0x7Du8]
}

/// Appends a temperature in tenths, written in degrees with one decimal.
fn push_tenths(out: &mut Vec<u8>, v: i64)
    requires
        -999 <= v <= 999,
    ensures
        final(out)@ == old(out)@ + tenths_text(v as int),
{
    let a: i64 = if v < 0 {
        out.push(MINUS);
        -v
    } else {
        v
    };
    let whole = a / 10;
    if whole >= 10 {
        out.push((whole / 10 + 0x30) as u8);
        out.push((whole % 10 + 0x30) as u8);
    } else {
        out.push((whole + 0x30) as u8);
    }
    out.push(DOT);
    out.push((a % 10 + 0x30) as u8);
    assert(out@ =~= old(out)@ + tenths_text(v as int)) by {
        assert(a == abs(v as int));
    }
}

/// `a` comes before `b` in lexicographic byte order.
pub open spec fn lex_lt(a: Seq<u8>, b: Seq<u8>) -> bool
    decreases a.len(),
{
    if a.len() == 0 {
        b.len() > 0
    } else if b.len() == 0 {
        false
    } else if a[0] != b[0] {
        a[0] < b[0]
    } else {
        lex_lt(a.drop_first(), b.drop_first())
    }
}

/// No byte string comes before itself.
pub proof fn lemma_lex_irreflexive(a: Seq<u8>)
    ensures
        !lex_lt(a, a),
    decreases a.len(),
{
    if a.len() > 0 {
        lemma_lex_irreflexive(a.drop_first());
    }
}

/// Of two different byte strings, one comes first, and never both.
pub proof fn lemma_lex_total(a: Seq<u8>, b: Seq<u8>)
    ensures
        !(lex_lt(a, b) && lex_lt(b, a)),
        a != b ==> lex_lt(a, b) || lex_lt(b, a),
    decreases a.len(),
{
    if a.len() > 0 && b.len() > 0 {
        lemma_lex_total(a.drop_first(), b.drop_first());
        if a[0] == b[0] && a.drop_first() == b.drop_first() {
            assert forall|i: int| 0 <= i < a.len() implies a[i] == b[i] by {
                if i > 0 {
                    assert(a[i] == a.drop_first()[i - 1]);
                    assert(b[i] == b.drop_first()[i - 1]);
                }
            }
            assert(a =~= b);
        }
    } else if a.len() == 0 && b.len() == 0 {
        assert(a =~= b);
    }
}

/// `names` lists each key of `d` once, in strictly increasing order.
pub open spec fn sorted_names(names: Seq<Seq<u8>>, d: Set<Seq<u8>>) -> bool {
    &&& forall|i: int, j: int| 0 <= i < j < names.len() ==> lex_lt(#[trigger] names[i], #[trigger] names[j])
    &&& forall|i: int| 0 <= i < names.len() ==> d.contains(#[trigger] names[i])
    &&& forall|k: Seq<u8>| #[trigger] d.contains(k) ==> exists|i: int| 0 <= i < names.len() && names[i] == k
}

/// Relies on rayon's `ParallelSliceMut::par_sort_unstable`, which sorts by `Ord`;
/// std documents the order of `Vec<u8>` as lexicographic. The result holds the
/// same names, in non-decreasing order.
#[verifier::external_body]
fn sort_names(names: &mut Vec<Vec<u8>>)
    ensures
        final(names)@.to_multiset() == old(names)@.to_multiset(),
        forall|i: int, j: int|
            0 <= i < j < final(names)@.len() ==> !lex_lt(
                #[trigger] final(names)@[j]@,
                #[trigger] final(names)@[i]@,
            ),
{
    rayon::slice::ParallelSliceMut::par_sort_unstable(names.as_mut_slice());
}

/// Appends bytes.
fn push_bytes(out: &mut Vec<u8>, bytes: &[u8])
    ensures
        final(out)@ == old(out)@ + bytes@,
{
    let mut i: usize = 0;
    while i < bytes.len()
        invariant
            i <= bytes@.len(),
            out@ == old(out)@ + bytes@.subrange(0, i as int),
        decreases bytes@.len() - i,
    {
        out.push(bytes[i]);
        i += 1;
        assert(out@ =~= old(out)@ + bytes@.subrange(0, i as int));
    }
    assert(bytes@.subrange(0, bytes@.len() as int) == bytes@);
}

/// The names of a table, each once, in strictly increasing byte order.
fn sorted_keys(table: &ResultMap) -> (r: Vec<Vec<u8>>)
    requires
        table.wf(),
    ensures
        sorted_names(r@.map_values(|v: Vec<u8>| v@), table@.dom()),
{
    broadcast use vstd::seq_lib::group_to_multiset_ensures;

    let es = table.entries();
    let mut names: Vec<Vec<u8>> = Vec::new();
    let mut i: usize = 0;
    while i < es.len()
        invariant
            i <= es@.len(),
            names@.len() == i,
            forall|j: int| 0 <= j < i ==> (#[trigger] names@[j])@ == es@[j].0@,
        decreases es@.len() - i,
    {
        names.push(slice_to_vec(es[i].0.as_slice()));
        i += 1;
    }
    let ghost before = names@;
    proof {
        assert(before.no_duplicates()) by {
            assert forall|a: int, b: int| 0 <= a < before.len() && 0 <= b < before.len() && a != b implies before[a] != before[b] by {
                if a < b {
                    assert(es@[a].0@ != es@[b].0@);
                } else {
                    assert(es@[b].0@ != es@[a].0@);
                }
            }
        }
        before.lemma_multiset_has_no_duplicates();
    }
    sort_names(&mut names);
    let ghost f = names@;
    let ghost ns = f.map_values(|v: Vec<u8>| v@);
    proof {
        assert forall|x: Vec<u8>| f.to_multiset().contains(x) implies f.to_multiset().count(x) == 1 by {
        }
        f.lemma_multiset_has_no_duplicates_conv();
        assert forall|i: int| 0 <= i < ns.len() implies table@.dom().contains(#[trigger] ns[i]) by {
            assert(before.to_multiset().count(f[i]) > 0);
            assert(before.contains(f[i]));
            let a = choose|a: int| 0 <= a < before.len() && before[a] == f[i];
            assert(table@.contains_key(es@[a].0@));
        }
        assert forall|k: Seq<u8>| #[trigger] table@.dom().contains(k) implies exists|i: int| 0 <= i < ns.len() && ns[i] == k by {
            assert(table@.contains_key(k));
            let a = choose|a: int| 0 <= a < es@.len() && es@[a].0@ == k;
            assert(f.to_multiset().count(before[a]) > 0);
            assert(f.contains(before[a]));
            let i = choose|i: int| 0 <= i < f.len() && f[i] == before[a];
            assert(ns[i] == k);
        }
        assert forall|i: int, j: int| 0 <= i < j < ns.len() implies lex_lt(#[trigger] ns[i], #[trigger] ns[j]) by {
            assert(f[i] != f[j]);
            assert(before.to_multiset().count(f[i]) > 0 && before.to_multiset().count(f[j]) > 0);
            assert(before.contains(f[i]) && before.contains(f[j]));
            let a = choose|a: int| 0 <= a < before.len() && before[a] == f[i];
            let b = choose|b: int| 0 <= b < before.len() && before[b] == f[j];
            if a < b {
                assert(es@[a].0@ != es@[b].0@);
            } else {
                assert(es@[b].0@ != es@[a].0@);
            }
            lemma_lex_total(ns[i], ns[j]);
        }
    }
    names
}

/// Appends `name=min/mean/max` for one station.
fn push_item(out: &mut Vec<u8>, name: &[u8], t: &Temperature)
    requires
        t@.wf(),
    ensures
        final(out)@ == old(out)@ + item_text(name@, t@),
{
    proof {
        lemma_sum_bounds(t@);
    }
    push_bytes(out, name);
    out.push(0x3D);
    push_tenths(out, t.min as i64);
    out.push(0x2F);
    let mean = mean_tenths(t.sum, t.count);
    push_tenths(out, mean);
    out.push(0x2F);
    push_tenths(out, t.max as i64);
    assert(out@ =~= old(out)@ + item_text(name@, t@));
}

/// The output line of a table: `{name=min/mean/max, ...}` with each station
/// once, in strictly increasing byte order of the names.
pub fn format_results(table: &ResultMap) -> (out: Vec<u8>)
    requires
        table.wf(),
        records_wf(table@),
    ensures
        exists|names: Seq<Seq<u8>>|
            sorted_names(names, table@.dom()) && out@ == render(names, stats_view(table@)),
{
    let names = sorted_keys(table);
    let ghost ns = names@.map_values(|v: Vec<u8>| v@);
    let ghost m = stats_view(table@);
    let mut out: Vec<u8> = Vec::new();
    out.push(0x7B);
    let mut i: usize = 0;
    assert(ns.take(0) == Seq::<Seq<u8>>::empty());
    while i < names.len()
        invariant
            table.wf(),
            records_wf(table@),
            ns == names@.map_values(|v: Vec<u8>| v@),
            sorted_names(ns, table@.dom()),
            m == stats_view(table@),
            i <= names@.len(),
            out@ == seq![0x7Bu8] + items_text(ns.take(i as int), m),
        decreases names@.len() - i,
    {
        let ghost before = out@;
        if i > 0 {
            out.push(0x2C);
            out.push(0x20);
        }
        let name = names[i].as_slice();
        assert(name@ == ns[i as int]);
        assert(table@.dom().contains(ns[i as int]));
        if let Some(t) = table.get(name) {
            push_item(&mut out, name, &t);
            proof {
                let tk = ns.take(i + 1);
                assert(tk.drop_last() == ns.take(i as int));
                assert(tk.last() == ns[i as int]);
                assert(m[ns[i as int]] == t@);
                if i == 0 {
                    assert(tk.len() == 1 && tk[0] == ns[0]);
                    assert(out@ =~= seq![0x7Bu8] + items_text(tk, m));
                } else {
                    assert(out@ =~= seq![0x7Bu8] + items_text(tk, m));
                }
            }
        }
        i += 1;
    }
    out.push(0x7D);
    assert(ns.take(ns.len() as int) == ns);
    assert(out@ =~= render(ns, m));
    out
}

/// Only one sequence lists the keys of a set once each in strictly increasing
/// order: the output of a table depends on nothing but the table.
pub proof fn lemma_sorted_names_unique(a: Seq<Seq<u8>>, b: Seq<Seq<u8>>, d: Set<Seq<u8>>)
    requires
        sorted_names(a, d),
        sorted_names(b, d),
    ensures
        a == b,
    decreases a.len(),
{
    if a.len() == 0 {
        if b.len() > 0 {
            assert(d.contains(b[0]));
        }
        assert(a =~= b);
    } else {
        assert(d.contains(a[0]));
        assert(b.len() > 0);
        assert(d.contains(b[0]));
        let i = choose|i: int| 0 <= i < a.len() && a[i] == b[0];
        let j = choose|j: int| 0 <= j < b.len() && b[j] == a[0];
        if i > 0 && j > 0 {
            assert(lex_lt(a[0], a[i]));
            assert(lex_lt(b[0], b[j]));
            lemma_lex_total(a[0], b[0]);
        }
        let x = a[0];
        let a1 = a.drop_first();
        let b1 = b.drop_first();
        let d1 = d.remove(x);
        assert(b[0] == x);
        assert(sorted_names(a1, d1)) by {
            assert forall|p: int| 0 <= p < a1.len() implies d1.contains(#[trigger] a1[p]) by {
                assert(lex_lt(a[0], a[p + 1]));
                lemma_lex_irreflexive(a[0]);
            }
            assert forall|k: Seq<u8>| #[trigger] d1.contains(k) implies exists|p: int| 0 <= p < a1.len() && a1[p] == k by {
                let p = choose|p: int| 0 <= p < a.len() && a[p] == k;
                assert(a1[p - 1] == k);
            }
            assert forall|p: int, q: int| 0 <= p < q < a1.len() implies lex_lt(#[trigger] a1[p], #[trigger] a1[q]) by {
                assert(lex_lt(a[p + 1], a[q + 1]));
            }
        }
        assert(sorted_names(b1, d1)) by {
            assert forall|p: int| 0 <= p < b1.len() implies d1.contains(#[trigger] b1[p]) by {
                assert(lex_lt(b[0], b[p + 1]));
                lemma_lex_irreflexive(b[0]);
            }
            assert forall|k: Seq<u8>| #[trigger] d1.contains(k) implies exists|p: int| 0 <= p < b1.len() && b1[p] == k by {
                let p = choose|p: int| 0 <= p < b.len() && b[p] == k;
                assert(b1[p - 1] == k);
            }
            assert forall|p: int, q: int| 0 <= p < q < b1.len() implies lex_lt(#[trigger] b1[p], #[trigger] b1[q]) by {
                assert(lex_lt(b[p + 1], b[q + 1]));
            }
        }
        lemma_sorted_names_unique(a1, b1, d1);
        assert(a =~= b) by {
            assert forall|p: int| 0 <= p < a.len() implies a[p] == b[p] by {
                if p > 0 {
                    assert(a[p] == a1[p - 1]);
                    assert(b[p] == b1[p - 1]);
                }
            }
        }
    }
}

} // verus!
