use vstd::prelude::*;
use vstd::set_lib::lemma_len_subset;
use crate::error::AggregateError;
use crate::map::{lists_map, ResultMap};
use crate::record::{
    is_complete, lemma_lines_concat, line_records, lines, records, stats_view, summary,
    summary_add,
};
use crate::temperature::{Stats, Temperature};

verus! {

/// The aggregates of two collections of samples, station by station.
pub open spec fn merge_stats(a: Map<Seq<u8>, Stats>, b: Map<Seq<u8>, Stats>) -> Map<Seq<u8>, Stats> {
    Map::new(
        |k: Seq<u8>| a.contains_key(k) || b.contains_key(k),
        |k: Seq<u8>|
            if a.contains_key(k) && b.contains_key(k) {
                a[k].merge(b[k])
            } else if a.contains_key(k) {
                a[k]
            } else {
                b[k]
            },
    )
}

/// Every record of a table is the aggregate of at least one legal sample.
pub open spec fn records_wf(m: Map<Seq<u8>, Temperature>) -> bool {
    forall|k: Seq<u8>| #[trigger] m.contains_key(k) ==> m[k]@.wf()
}

/// The counts of a station in both tables add up within a record's count.
pub open spec fn counts_fit(a: Map<Seq<u8>, Temperature>, b: Map<Seq<u8>, Temperature>) -> bool {
    forall|k: Seq<u8>|
        a.contains_key(k) && b.contains_key(k) ==> #[trigger] a[k].count + #[trigger] b[k].count
            <= u32::MAX
}

/// Folds the table of one worker into the global table, station by station.
/// Fails when the two hold more distinct stations than a table can.
pub fn merge_into(results: &mut ResultMap, other: &ResultMap) -> (r: Result<(), AggregateError>)
    requires
        old(results).wf(),
        other.wf(),
        records_wf(old(results)@),
        records_wf(other@),
        counts_fit(old(results)@, other@),
    ensures
        final(results).wf(),
        match r {
            Ok(()) => {
                &&& records_wf(final(results)@)
                &&& stats_view(final(results)@) == merge_stats(
                    stats_view(old(results)@),
                    stats_view(other@),
                )
            },
            Err(e) => e == AggregateError::CapacityExceeded,
        },
        r is Err <==> merge_stats(stats_view(old(results)@), stats_view(other@)).len()
            > ResultMap::capacity(),
{
    let ghost a = stats_view(results@);
    let ghost b = stats_view(other@);
    let ghost orig = results@;
    let ghost total = merge_stats(a, b);
    let es = other.entries();
    proof {
        results.lemma_len();
        other.lemma_len();
        assert(total.dom() =~= a.dom().union(b.dom()));
        assert(a.dom() == orig.dom());
        assert(b.dom() == other@.dom());
    }
    let ghost mut done = Map::<Seq<u8>, Stats>::empty();
    let mut i: usize = 0;
    assert(stats_view(results@) =~= merge_stats(a, done));
    while i < es.len()
        invariant
            results.wf(),
            lists_map(es@, other@),
            es@.len() == other@.len(),
            orig == old(results)@,
            a == stats_view(orig),
            b == stats_view(other@),
            records_wf(orig),
            records_wf(other@),
            records_wf(results@),
            counts_fit(orig, other@),
            total == merge_stats(a, b),
            total.dom().finite(),
            i <= es@.len(),
            stats_view(results@) == merge_stats(a, done),
            forall|k: Seq<u8>|
                #[trigger] done.contains_key(k) <==> exists|j: int| 0 <= j < i && es@[j].0@ == k,
            forall|k: Seq<u8>| #[trigger] done.contains_key(k) ==> b.contains_key(k) && done[k] == b[k],
            forall|k: Seq<u8>|
                #[trigger] results@.contains_key(k) && !done.contains_key(k) ==> orig.contains_key(k)
                    && results@[k] == orig[k],
        decreases es@.len() - i,
    {
        let key = es[i].0.as_slice();
        let value = es[i].1;
        let ghost k = key@;
        proof {
            assert(es@[i as int].0@ == k && es@[i as int].1 == value);
            assert(other@.contains_key(es@[i as int].0@));
            assert(!done.contains_key(k)) by {
                if done.contains_key(k) {
                    let j = choose|j: int| 0 <= j < i && es@[j].0@ == k;
                    assert(es@[j].0@ != es@[i as int].0@);
                }
            }
            assert(other@.contains_key(k) && other@[k] == value);
            assert(stats_view(results@).dom() == results@.dom());
        }
        let ghost before = results@;
        proof {
            results.lemma_len();
        }
        match results.get_mut(key) {
            Some(current) => {
                proof {
                    assert(orig.contains_key(k));
                }
                current.update(&value);
            },
            None => {
                match results.set(key, &value) {
                    Ok(()) => {},
                    Err(e) => {
                        proof {
                            assert(before.dom().insert(k).subset_of(total.dom())) by {
                                assert forall|x: Seq<u8>| before.dom().insert(k).contains(x) implies total.dom().contains(x) by {
                                    if x != k {
                                        assert(stats_view(before).contains_key(x));
                                    }
                                }
                            }
                            lemma_len_subset(before.dom().insert(k), total.dom());
                            assert(!before.dom().contains(k));
                            assert(before.dom().insert(k).len() == before.dom().len() + 1);
                        }
                        return Err(e);
                    },
                }
            },
        }
        proof {
            let nd = done.insert(k, b[k]);
            assert(results@ == before.insert(k, results@[k]));
            assert(b[k] == value@);
            if a.contains_key(k) {
                assert(before.contains_key(k));
                assert(before[k] == orig[k]);
                assert(results@[k]@ == a[k].merge(b[k]));
            } else {
                assert(!before.contains_key(k));
                assert(results@[k]@ == b[k]);
            }
            assert forall|x: Seq<u8>| #[trigger] stats_view(results@).contains_key(x) <==> merge_stats(a, nd).contains_key(x) by {
                if x != k {
                    assert(stats_view(before).contains_key(x) == merge_stats(a, done).contains_key(x));
                }
            }
            assert forall|x: Seq<u8>| #[trigger] stats_view(results@).contains_key(x) implies stats_view(results@)[x] == merge_stats(a, nd)[x] by {
                if x != k {
                    assert(stats_view(before)[x] == merge_stats(a, done)[x]);
                }
            }
            assert(stats_view(results@) =~= merge_stats(a, nd));
            done = nd;
            assert forall|x: Seq<u8>| #[trigger] done.contains_key(x) <==> exists|j: int| 0 <= j < i + 1 && es@[j].0@ == x by {
                if x == k {
                    assert(es@[i as int].0@ == x);
                }
            }
        }
        i += 1;
    }
    proof {
        assert(done =~= b) by {
            assert forall|k: Seq<u8>| #[trigger] b.contains_key(k) implies done.contains_key(k) by {
                assert(other@.contains_key(k));
                let j = choose|j: int| 0 <= j < es@.len() && es@[j].0@ == k;
            }
        }
        results.lemma_len();
        assert(stats_view(results@).dom() == results@.dom());
    }
    Ok(())
}

/// Two samples folded into a summary in either order give the same summary.
proof fn lemma_summary_add_commutes(m: Map<Seq<u8>, Stats>, x: (Seq<u8>, int), y: (Seq<u8>, int))
    ensures
        summary_add(summary_add(m, x.0, x.1), y.0, y.1) == summary_add(
            summary_add(m, y.0, y.1),
            x.0,
            x.1,
        ),
{
    let l = summary_add(summary_add(m, x.0, x.1), y.0, y.1);
    let r = summary_add(summary_add(m, y.0, y.1), x.0, x.1);
    assert(l =~= r);
}

/// Any one sample may be taken to be the last one folded in.
proof fn lemma_summary_move_last(rs: Seq<(Seq<u8>, int)>, i: int)
    requires
        0 <= i < rs.len(),
    ensures
        summary(rs) == summary_add(summary(rs.remove(i)), rs[i].0, rs[i].1),
    decreases rs.len(),
{
    if i == rs.len() - 1 {
        assert(rs.remove(i) == rs.drop_last());
    } else {
        let d = rs.drop_last();
        let l = rs.last();
        lemma_summary_move_last(d, i);
        assert(d[i] == rs[i]);
        assert(rs.remove(i) == d.remove(i).push(l));
        assert(rs.remove(i).drop_last() == d.remove(i));
        lemma_summary_add_commutes(summary(d.remove(i)), rs[i], l);
    }
}

/// Reordering the lines of a text changes no station's aggregate.
pub proof fn lemma_reorder(l1: Seq<Seq<u8>>, l2: Seq<Seq<u8>>)
    requires
        l1.to_multiset() == l2.to_multiset(),
    ensures
        summary(line_records(l1)) == summary(line_records(l2)),
    decreases l2.len(),
{
    broadcast use vstd::seq_lib::group_to_multiset_ensures;

    if l2.len() == 0 {
        assert(l1.to_multiset().len() == 0);
        assert(l1.len() == 0);
        assert(line_records(l1) =~= line_records(l2));
    } else {
        let y = l2.last();
        let d2 = l2.drop_last();
        assert(l2 == d2.push(y));
        assert(l2.to_multiset().count(y) > 0);
        assert(l1.contains(y));
        let i = choose|i: int| 0 <= i < l1.len() && l1[i] == y;
        let r1 = l1.remove(i);
        assert(r1.to_multiset() == l1.to_multiset().remove(y));
        assert(d2.to_multiset() =~= l2.to_multiset().remove(y));
        lemma_reorder(r1, d2);
        lemma_summary_move_last(line_records(l1), i);
        assert(line_records(l1).remove(i) =~= line_records(r1));
        assert(line_records(l2).drop_last() =~= line_records(d2));
    }
}

/// Reordering the lines of a text gives the same table.
pub proof fn lemma_reorder_lines(c1: Seq<u8>, c2: Seq<u8>)
    requires
        lines(c1).to_multiset() == lines(c2).to_multiset(),
    ensures
        summary(records(c1)) == summary(records(c2)),
{
    lemma_reorder(lines(c1), lines(c2));
}

/// The summary of samples one after the other merges the two summaries.
pub proof fn lemma_summary_concat(xs: Seq<(Seq<u8>, int)>, ys: Seq<(Seq<u8>, int)>)
    ensures
        summary(xs + ys) == merge_stats(summary(xs), summary(ys)),
    decreases ys.len(),
{
    if ys.len() == 0 {
        assert(xs + ys == xs);
        assert(summary(xs) =~= merge_stats(summary(xs), summary(ys)));
    } else {
        let d = ys.drop_last();
        let y = ys.last();
        lemma_summary_concat(xs, d);
        assert((xs + ys).drop_last() == xs + d);
        assert((xs + ys).last() == y);
        let l = summary(xs + ys);
        let r = merge_stats(summary(xs), summary(ys));
        assert(l =~= r);
    }
}

/// Parsing two texts of whole lines one after the other gives the merge of
/// their tables.
pub proof fn lemma_concat(a: Seq<u8>, b: Seq<u8>)
    requires
        is_complete(a),
        is_complete(b),
    ensures
        summary(records(a + b)) == merge_stats(summary(records(a)), summary(records(b))),
{
    lemma_lines_concat(a, b);
    assert(records(a + b) =~= records(a) + records(b));
    lemma_summary_concat(records(a), records(b));
}

/// Merging is commutative.
pub proof fn lemma_merge_commutative(a: Map<Seq<u8>, Stats>, b: Map<Seq<u8>, Stats>)
    ensures
        merge_stats(a, b) == merge_stats(b, a),
{
    assert(merge_stats(a, b) =~= merge_stats(b, a));
}

/// Merging is associative.
pub proof fn lemma_merge_associative(
    a: Map<Seq<u8>, Stats>,
    b: Map<Seq<u8>, Stats>,
    c: Map<Seq<u8>, Stats>,
)
    ensures
        merge_stats(merge_stats(a, b), c) == merge_stats(a, merge_stats(b, c)),
{
    assert(merge_stats(merge_stats(a, b), c) =~= merge_stats(a, merge_stats(b, c)));
}

/// The pieces of a text, one after the other.
pub open spec fn joined(ps: Seq<Seq<u8>>) -> Seq<u8>
    decreases ps.len(),
{
    if ps.len() == 0 {
        Seq::empty()
    } else {
        joined(ps.drop_last()) + ps.last()
    }
}

/// The tables of the pieces of a text, merged in order.
pub open spec fn merged_tables(ps: Seq<Seq<u8>>) -> Map<Seq<u8>, Stats>
    decreases ps.len(),
{
    if ps.len() == 0 {
        Map::empty()
    } else {
        merge_stats(merged_tables(ps.drop_last()), summary(records(ps.last())))
    }
}

/// However a text is cut into pieces of whole lines, merging the pieces'
/// tables gives the table of the whole text.
pub proof fn lemma_pieces(ps: Seq<Seq<u8>>)
    requires
        forall|i: int| 0 <= i < ps.len() ==> is_complete(#[trigger] ps[i]),
    ensures
        is_complete(joined(ps)),
        merged_tables(ps) == summary(records(joined(ps))),
    decreases ps.len(),
{
    if ps.len() == 0 {
        assert(lines(Seq::<u8>::empty()) == Seq::<Seq<u8>>::empty());
        assert(records(Seq::<u8>::empty()) == Seq::<(Seq<u8>, int)>::empty());
    } else {
        let d = ps.drop_last();
        assert forall|i: int| 0 <= i < d.len() implies is_complete(#[trigger] d[i]) by {
            assert(d[i] == ps[i]);
        }
        lemma_pieces(d);
        assert(is_complete(ps[ps.len() - 1]));
        lemma_concat(joined(d), ps.last());
    }
}

/// Whether the counts of each station found in both tables add up within a
/// record's count, as merging them needs.
pub fn can_merge(results: &ResultMap, other: &ResultMap) -> (r: bool)
    requires
        results.wf(),
        other.wf(),
    ensures
        r == counts_fit(results@, other@),
{
    let es = other.entries();
    let mut i: usize = 0;
    while i < es.len()
        invariant
            results.wf(),
            lists_map(es@, other@),
            i <= es@.len(),
            forall|j: int|
                0 <= j < i ==> (#[trigger] results@.contains_key(es@[j].0@)) ==> results@[es@[j].0@].count
                    + other@[es@[j].0@].count <= u32::MAX,
        decreases es@.len() - i,
    {
        let key = es[i].0.as_slice();
        assert(other@.contains_key(es@[i as int].0@));
        if let Some(t) = results.get(key) {
            if t.count as u64 + es[i].1.count as u64 > u32::MAX as u64 {
                return false;
            }
        }
        i += 1;
    }
    assert forall|k: Seq<u8>| results@.contains_key(k) && other@.contains_key(k) implies #[trigger] results@[k].count
        + #[trigger] other@[k].count <= u32::MAX by {
        let j = choose|j: int| 0 <= j < es@.len() && es@[j].0@ == k;
        assert(results@.contains_key(es@[j].0@));
    }
    true
}

} // verus!
