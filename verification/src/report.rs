//! The report side: summarising totals over a record set and filtering the
//! ranked grouping down to what is worth showing.

use vstd::prelude::*;

use crate::grouping::{group, is_grouping_of};
use crate::model::{
    all_members, lemma_sum_sizes_concat, lemma_sum_sizes_permutation, lemma_sum_sizes_take,
    sum_sizes, FileGroup, FileRecord, Summary,
};

verus! {

/// Sum of the totals of the groups holding at least two members.
pub open spec fn dup_size(gs: Seq<FileGroup>) -> nat
    decreases gs.len(),
{
    if gs.len() == 0 {
        0
    } else if gs.last().members@.len() >= 2 {
        dup_size(gs.drop_last()) + gs.last().total_size as nat
    } else {
        dup_size(gs.drop_last())
    }
}

/// A prefix never outweighs the whole list.
proof fn lemma_dup_size_take(gs: Seq<FileGroup>, i: int)
    requires
        0 <= i <= gs.len(),
    ensures
        dup_size(gs.take(i)) <= dup_size(gs),
    decreases gs.len() - i,
{
    if i == gs.len() {
        assert(gs.take(i) =~= gs);
    } else {
        assert(gs.take(i + 1).drop_last() =~= gs.take(i));
        lemma_dup_size_take(gs, i + 1);
    }
}

/// The duplicated total never exceeds the flat total of the records a
/// grouping was built from: each group counts its own members, and no
/// record sits in two groups.  This discharges the bound that `summarize`
/// asks of a grouping that came out of `group`.
pub proof fn lemma_dup_size_bounded(gs: Seq<FileGroup>, records: Seq<FileRecord>)
    requires
        all_members(gs).to_multiset() == records.to_multiset(),
        forall|i: int|
            0 <= i < gs.len() ==> (#[trigger] gs[i]).total_size == sum_sizes(gs[i].members@),
    ensures
        dup_size(gs) <= sum_sizes(records),
{
    lemma_dup_size_le_members(gs);
    lemma_sum_sizes_permutation(all_members(gs), records);
}

/// The duplicated total is bounded by the sizes of all members together.
proof fn lemma_dup_size_le_members(gs: Seq<FileGroup>)
    requires
        forall|i: int|
            0 <= i < gs.len() ==> (#[trigger] gs[i]).total_size == sum_sizes(gs[i].members@),
    ensures
        dup_size(gs) <= sum_sizes(all_members(gs)),
    decreases gs.len(),
{
    if gs.len() > 0 {
        assert forall|i: int|
            0 <= i < gs.drop_last().len() implies (#[trigger] gs.drop_last()[i]).total_size
            == sum_sizes(gs.drop_last()[i].members@) by {
            assert(gs.drop_last()[i] == gs[i]);
        }
        lemma_dup_size_le_members(gs.drop_last());
        lemma_sum_sizes_concat(all_members(gs.drop_last()), gs.last().members@);
        assert(gs[gs.len() - 1] == gs.last());
    }
}

/// Count the records and add up the sizes: the flat total over every
/// record, and the duplicated total over every group of two or more.
pub fn summarize(records: &Vec<FileRecord>, grouping: &Vec<FileGroup>) -> (s: Summary)
    requires
        sum_sizes(records@) <= u64::MAX,
        dup_size(grouping@) <= u64::MAX,
    ensures
        s.total_records == records@.len(),
        s.total_size == sum_sizes(records@),
        s.duplicated_size == dup_size(grouping@),
{
    let mut total: u64 = 0;
    let mut i: usize = 0;
    while i < records.len()
        invariant
            i <= records@.len(),
            sum_sizes(records@) <= u64::MAX,
            total == sum_sizes(records@.take(i as int)),
        decreases records@.len() - i,
    {
        proof {
            assert(records@.take(i as int + 1).drop_last() =~= records@.take(i as int));
            assert(records@.take(i as int + 1).last() == records@[i as int]);
            lemma_sum_sizes_take(records@, i as int + 1);
        }
        total = total + records[i].size;
        i = i + 1;
    }
    proof {
        assert(records@.take(records@.len() as int) =~= records@);
    }
    let mut dups: u64 = 0;
    let mut j: usize = 0;
    while j < grouping.len()
        invariant
            j <= grouping@.len(),
            dup_size(grouping@) <= u64::MAX,
            dups == dup_size(grouping@.take(j as int)),
        decreases grouping@.len() - j,
    {
        proof {
            assert(grouping@.take(j as int + 1).drop_last() =~= grouping@.take(j as int));
            assert(grouping@.take(j as int + 1).last() == grouping@[j as int]);
            lemma_dup_size_take(grouping@, j as int + 1);
        }
        if grouping[j].members.len() >= 2 {
            dups = dups + grouping[j].total_size;
        }
        j = j + 1;
    }
    proof {
        assert(grouping@.take(grouping@.len() as int) =~= grouping@);
    }
    Summary { total_records: records.len(), total_size: total, duplicated_size: dups }
}

/// The filter rule: a group is shown when it is a duplicate group (or
/// verbose asks for every group) and its total reaches the threshold.
pub open spec fn keeps(g: FileGroup, verbose: bool, min_total: u64) -> bool {
    (verbose || g.members@.len() >= 2) && g.total_size >= min_total
}

/// The groups the filter keeps, in their original order.
pub open spec fn kept_groups(gs: Seq<FileGroup>, verbose: bool, min_total: u64) -> Seq<FileGroup>
    decreases gs.len(),
{
    if gs.len() == 0 {
        Seq::empty()
    } else if keeps(gs.last(), verbose, min_total) {
        kept_groups(gs.drop_last(), verbose, min_total).push(gs.last())
    } else {
        kept_groups(gs.drop_last(), verbose, min_total)
    }
}

/// What the kept list holds: every group in it passes the rule, every group
/// of the input that passes the rule is in it, and nothing else is.
pub proof fn lemma_kept_groups_props(gs: Seq<FileGroup>, verbose: bool, min_total: u64)
    ensures
        forall|i: int|
            0 <= i < kept_groups(gs, verbose, min_total).len() ==> keeps(
                #[trigger] kept_groups(gs, verbose, min_total)[i],
                verbose,
                min_total,
            ),
        forall|g: FileGroup|
            #[trigger] gs.contains(g) && keeps(g, verbose, min_total) ==> kept_groups(
                gs,
                verbose,
                min_total,
            ).contains(g),
        forall|g: FileGroup|
            #[trigger] kept_groups(gs, verbose, min_total).contains(g) ==> gs.contains(g),
    decreases gs.len(),
{
    if gs.len() > 0 {
        lemma_kept_groups_props(gs.drop_last(), verbose, min_total);
        let rest = kept_groups(gs.drop_last(), verbose, min_total);
        let cur = kept_groups(gs, verbose, min_total);
        assert forall|i: int| 0 <= i < cur.len() implies keeps(cur[i], verbose, min_total) by {
            if keeps(gs.last(), verbose, min_total) {
                if i < rest.len() {
                    assert(cur[i] == rest[i]);
                } else {
                    assert(cur[i] == gs.last());
                }
            } else {
                assert(cur[i] == rest[i]);
            }
        }
        assert forall|g: FileGroup|
            gs.contains(g) && keeps(g, verbose, min_total) implies cur.contains(g) by {
            let idx = choose|idx: int| 0 <= idx < gs.len() && gs[idx] == g;
            if idx < gs.len() - 1 {
                assert(gs.drop_last()[idx] == g);
                assert(gs.drop_last().contains(g));
                assert(rest.contains(g));
                let ri = choose|ri: int| 0 <= ri < rest.len() && rest[ri] == g;
                if keeps(gs.last(), verbose, min_total) {
                    assert(cur[ri] == rest[ri]);
                }
                assert(cur.contains(g));
            } else {
                assert(g == gs.last());
                assert(cur[cur.len() - 1] == g);
                assert(cur.contains(g));
            }
        }
        assert forall|g: FileGroup| cur.contains(g) implies gs.contains(g) by {
            let ci = choose|ci: int| 0 <= ci < cur.len() && cur[ci] == g;
            if keeps(gs.last(), verbose, min_total) && ci == cur.len() - 1 {
                assert(g == gs.last());
                assert(gs[gs.len() - 1] == g);
            } else {
                assert(cur[ci] == rest[ci]);
                assert(rest.contains(g));
                assert(gs.drop_last().contains(g));
                let di = choose|di: int|
                    0 <= di < gs.drop_last().len() && gs.drop_last()[di] == g;
                assert(gs[di] == g);
            }
        }
    }
}

/// Keep the groups that pass the report rule, in their given order.
pub fn filter_groups(grouping: Vec<FileGroup>, verbose: bool, min_total: u64) -> (out: Vec<
    FileGroup,
>)
    ensures
        out@ == kept_groups(grouping@, verbose, min_total),
        forall|i: int| 0 <= i < out@.len() ==> keeps(#[trigger] out@[i], verbose, min_total),
        forall|g: FileGroup|
            #[trigger] grouping@.contains(g) && keeps(g, verbose, min_total) ==> out@.contains(g),
        forall|g: FileGroup| #[trigger] out@.contains(g) ==> grouping@.contains(g),
{
    let ghost orig = grouping@;
    let mut rem = grouping;
    let orig_n = rem.len();
    let mut out: Vec<FileGroup> = Vec::new();
    let mut i: usize = 0;
    proof {
        assert(orig.take(0) =~= Seq::<FileGroup>::empty());
        assert(orig.skip(0) =~= orig);
    }
    while rem.len() > 0
        invariant
            orig.len() == orig_n as int,
            i <= orig.len(),
            rem@ == orig.skip(i as int),
            out@ == kept_groups(orig.take(i as int), verbose, min_total),
        decreases rem@.len(),
    {
        let g = rem.remove(0);
        proof {
            assert(orig.skip(i as int)[0] == orig[i as int]);
            assert(orig.skip(i as int).remove(0) =~= orig.skip(i as int + 1));
            assert(orig.take(i as int + 1).drop_last() =~= orig.take(i as int));
            assert(orig.take(i as int + 1).last() == orig[i as int]);
        }
        if (verbose || g.members.len() >= 2) && g.total_size >= min_total {
            out.push(g);
        }
        i = i + 1;
    }
    proof {
        assert(orig.take(orig.len() as int) =~= orig);
        lemma_kept_groups_props(orig, verbose, min_total);
    }
    out
}

/// The whole reporting pipeline over one record set: group the records,
/// summarise them against that grouping, and filter the grouping down to
/// the groups worth showing.  The grouping the report was built from is
/// pinned by `is_grouping_of`; the duplicated-size bound that `summarize`
/// asks for follows from it, so callers owe nothing beyond a total that
/// fits in 64 bits.
pub fn build_report(records: &Vec<FileRecord>, verbose: bool, min_total: u64) -> (r: (
    Summary,
    Vec<FileGroup>,
))
    requires
        sum_sizes(records@) <= u64::MAX,
    ensures
        exists|gs: Seq<FileGroup>|
            {
                &&& #[trigger] is_grouping_of(records@, gs)
                &&& r.0.duplicated_size == dup_size(gs)
                &&& r.1@ == kept_groups(gs, verbose, min_total)
            },
        r.0.total_records == records@.len(),
        r.0.total_size == sum_sizes(records@),
        forall|i: int| 0 <= i < r.1@.len() ==> keeps(#[trigger] r.1@[i], verbose, min_total),
{
    let grouping = group(records);
    proof {
        lemma_dup_size_bounded(grouping@, records@);
    }
    let summary = summarize(records, &grouping);
    let ghost gs = grouping@;
    let kept = filter_groups(grouping, verbose, min_total);
    proof {
        assert(is_grouping_of(records@, gs));
        assert(kept@ == kept_groups(gs, verbose, min_total));
    }
    (summary, kept)
}

} // verus!

