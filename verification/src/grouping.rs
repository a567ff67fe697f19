//! The grouping engine: partitions records by filename, orders each bucket
//! by member size, and ranks the buckets by total size.

use vstd::prelude::*;

use crate::model::{
    all_members, distinct_names, first_index, sum_sizes, with_name, FileGroup, FileRecord,
};
use crate::model::{
    lemma_all_members_push, lemma_distinct_names_bucket, lemma_distinct_names_no_dup,
    lemma_first_index_of, lemma_sum_sizes_permutation, lemma_sum_sizes_push, lemma_sum_sizes_take,
    lemma_sum_with_name_le, lemma_with_name_named, lemma_with_name_push,
};
use vstd::multiset::Multiset;

verus! {

/// Where a record lands in a size-descending bucket: after every member at
/// least as large, before the first strictly smaller one.  Inserting after
/// members of equal size is what keeps the ordering stable.
pub open spec fn insert_by_size(s: Seq<FileRecord>, r: FileRecord) -> Seq<FileRecord>
    decreases s.len(),
{
    if s.len() == 0 {
        seq![r]
    } else if s.first().size >= r.size {
        seq![s.first()] + insert_by_size(s.drop_first(), r)
    } else {
        seq![r] + s
    }
}

/// Stable size-descending ordering of a bucket: records are taken in their
/// discovery order, each placed after earlier records of equal size.
pub open spec fn sort_by_size(s: Seq<FileRecord>) -> Seq<FileRecord>
    decreases s.len(),
{
    if s.len() == 0 {
        Seq::empty()
    } else {
        insert_by_size(sort_by_size(s.drop_last()), s.last())
    }
}

/// `insert_by_size` puts the record at the first position held by a
/// strictly smaller member and moves nothing else.
proof fn lemma_insert_by_size_at(s: Seq<FileRecord>, r: FileRecord, k: int)
    requires
        0 <= k <= s.len(),
        forall|m: int| 0 <= m < k ==> s[m].size >= r.size,
        k < s.len() ==> s[k].size < r.size,
    ensures
        insert_by_size(s, r) == s.insert(k, r),
    decreases s.len(),
{
    if s.len() == 0 {
        assert(seq![r] =~= s.insert(0, r));
    } else if k == 0 {
        assert(s[0].size < r.size);
        assert(seq![r] + s =~= s.insert(0, r));
    } else {
        assert(s[0].size >= r.size);
        assert forall|m: int| 0 <= m < k - 1 implies s.drop_first()[m].size >= r.size by {
            assert(s.drop_first()[m] == s[m + 1]);
        }
        lemma_insert_by_size_at(s.drop_first(), r, k - 1);
        assert(seq![s.first()] + s.drop_first().insert(k - 1, r) =~= s.insert(k, r));
    }
}

/// Inserting a record grows the bucket by exactly that record.
proof fn lemma_insert_by_size_multiset(s: Seq<FileRecord>, r: FileRecord)
    ensures
        insert_by_size(s, r).to_multiset() == s.to_multiset().insert(r),
        insert_by_size(s, r).len() == s.len() + 1,
    decreases s.len(),
{
    broadcast use vstd::seq_lib::group_to_multiset_ensures;
    broadcast use vstd::multiset::group_multiset_axioms;
    broadcast use vstd::seq_lib::lemma_multiset_commutative;

    if s.len() == 0 {
        assert(seq![r] =~= Seq::<FileRecord>::empty().push(r));
        assert(insert_by_size(s, r).to_multiset() =~= s.to_multiset().insert(r));
    } else if s.first().size >= r.size {
        lemma_insert_by_size_multiset(s.drop_first(), r);
        assert(s =~= seq![s.first()] + s.drop_first());
        assert(insert_by_size(s, r).to_multiset() =~= s.to_multiset().insert(r));
    } else {
        assert(seq![r] =~= Seq::<FileRecord>::empty().push(r));
        assert(insert_by_size(s, r).to_multiset() =~= s.to_multiset().insert(r));
    }
}

/// Ordering a bucket neither adds nor loses records.
pub proof fn lemma_sort_by_size_multiset(s: Seq<FileRecord>)
    ensures
        sort_by_size(s).to_multiset() == s.to_multiset(),
        sort_by_size(s).len() == s.len(),
    decreases s.len(),
{
    broadcast use vstd::seq_lib::group_to_multiset_ensures;

    if s.len() > 0 {
        lemma_sort_by_size_multiset(s.drop_last());
        lemma_insert_by_size_multiset(sort_by_size(s.drop_last()), s.last());
        assert(s =~= s.drop_last().push(s.last()));
    }
}

/// Inserting into a size-descending bucket keeps it size-descending, and
/// adds nothing beyond the inserted record.
proof fn lemma_insert_by_size_sorted(s: Seq<FileRecord>, r: FileRecord)
    requires
        forall|a: int, b: int| 0 <= a <= b < s.len() ==> s[a].size >= s[b].size,
    ensures
        forall|a: int, b: int|
            0 <= a <= b < insert_by_size(s, r).len() ==> insert_by_size(s, r)[a].size
                >= insert_by_size(s, r)[b].size,
        forall|i: int|
            0 <= i < insert_by_size(s, r).len() ==> insert_by_size(s, r)[i] == r || s.contains(
                insert_by_size(s, r)[i],
            ),
    decreases s.len(),
{
    let out = insert_by_size(s, r);
    if s.len() == 0 {
    } else if s.first().size >= r.size {
        let tail = s.drop_first();
        assert forall|a: int, b: int| 0 <= a <= b < tail.len() implies tail[a].size
            >= tail[b].size by {
            assert(tail[a] == s[a + 1]);
            assert(tail[b] == s[b + 1]);
        }
        lemma_insert_by_size_sorted(tail, r);
        let inner = insert_by_size(tail, r);
        assert forall|i: int| 0 <= i < out.len() implies out[i] == r || s.contains(out[i]) by {
            if i == 0 {
                assert(out[0] == s[0]);
            } else {
                assert(out[i] == inner[i - 1]);
                if inner[i - 1] != r {
                    let j = choose|j: int| 0 <= j < tail.len() && tail[j] == inner[i - 1];
                    assert(s[j + 1] == out[i]);
                }
            }
        }
        assert forall|a: int, b: int| 0 <= a <= b < out.len() implies out[a].size
            >= out[b].size by {
            if a == 0 && b > 0 {
                assert(out[b] == inner[b - 1]);
                if inner[b - 1] == r {
                    assert(out[0].size >= r.size);
                } else {
                    let j = choose|j: int| 0 <= j < tail.len() && tail[j] == inner[b - 1];
                    assert(s[j + 1] == inner[b - 1]);
                    assert(s[0].size >= s[j + 1].size);
                }
            } else if a > 0 {
                assert(out[a] == inner[a - 1]);
                assert(out[b] == inner[b - 1]);
            }
        }
    } else {
        assert forall|a: int, b: int| 0 <= a <= b < out.len() implies out[a].size
            >= out[b].size by {
            if a == 0 && b > 0 {
                assert(out[b] == s[b - 1]);
                assert(s[0].size >= s[b - 1].size);
            } else if a > 0 {
                assert(out[a] == s[a - 1]);
                assert(out[b] == s[b - 1]);
            }
        }
        assert forall|i: int| 0 <= i < out.len() implies out[i] == r || s.contains(out[i]) by {
            if i > 0 {
                assert(out[i] == s[i - 1]);
            }
        }
    }
}

/// An ordered bucket is size-descending.
pub proof fn lemma_sort_by_size_sorted(s: Seq<FileRecord>)
    ensures
        forall|a: int, b: int|
            0 <= a <= b < sort_by_size(s).len() ==> sort_by_size(s)[a].size >= sort_by_size(
                s,
            )[b].size,
    decreases s.len(),
{
    if s.len() > 0 {
        lemma_sort_by_size_sorted(s.drop_last());
        lemma_insert_by_size_sorted(sort_by_size(s.drop_last()), s.last());
    }
}

/// The empty record sequence carries an empty multiset.
proof fn lemma_empty_records_multiset()
    ensures
        Seq::<FileRecord>::empty().to_multiset() =~= Multiset::<FileRecord>::empty(),
{
    broadcast use vstd::seq_lib::group_to_multiset_ensures;
    broadcast use vstd::multiset::group_multiset_axioms;

    assert forall|x: FileRecord| Seq::<FileRecord>::empty().to_multiset().count(x) == 0 by {
        if Seq::<FileRecord>::empty().to_multiset().count(x) > 0 {
            assert(Seq::<FileRecord>::empty().contains(x));
        }
    }
}

/// Replacing one group trades its members for the new group's members.
proof fn lemma_all_members_update(gs: Seq<FileGroup>, j: int, g2: FileGroup)
    requires
        0 <= j < gs.len(),
    ensures
        all_members(gs.update(j, g2)).to_multiset().add(gs[j].members@.to_multiset())
            == all_members(gs).to_multiset().add(g2.members@.to_multiset()),
    decreases gs.len(),
{
    broadcast use vstd::seq_lib::group_to_multiset_ensures;
    broadcast use vstd::multiset::group_multiset_axioms;
    broadcast use vstd::seq_lib::lemma_multiset_commutative;

    let upd = gs.update(j, g2);
    if j == gs.len() - 1 {
        assert(upd.drop_last() =~= gs.drop_last());
        assert(upd.last() == g2);
        assert(all_members(upd) == all_members(gs.drop_last()) + g2.members@);
        assert(all_members(gs) == all_members(gs.drop_last()) + gs[j].members@);
        vstd::seq_lib::lemma_multiset_commutative(all_members(gs.drop_last()), g2.members@);
        vstd::seq_lib::lemma_multiset_commutative(all_members(gs.drop_last()), gs[j].members@);
        let lhs = all_members(upd).to_multiset().add(gs[j].members@.to_multiset());
        let rhs = all_members(gs).to_multiset().add(g2.members@.to_multiset());
        assert forall|x: FileRecord| lhs.count(x) == rhs.count(x) by {
            assert(all_members(upd).to_multiset().count(x) == all_members(
                gs.drop_last(),
            ).to_multiset().count(x) + g2.members@.to_multiset().count(x));
            assert(all_members(gs).to_multiset().count(x) == all_members(
                gs.drop_last(),
            ).to_multiset().count(x) + gs[j].members@.to_multiset().count(x));
        }
        assert(lhs =~= rhs);
    } else {
        assert(upd.drop_last() =~= gs.drop_last().update(j, g2));
        assert(upd.last() == gs.last());
        lemma_all_members_update(gs.drop_last(), j, g2);
        assert(gs.drop_last()[j] == gs[j]);
        vstd::seq_lib::lemma_multiset_commutative(
            all_members(gs.drop_last().update(j, g2)),
            gs.last().members@,
        );
        vstd::seq_lib::lemma_multiset_commutative(all_members(gs.drop_last()), gs.last().members@);
        assert(all_members(upd) == all_members(gs.drop_last().update(j, g2)) + gs.last().members@);
        assert(all_members(gs) == all_members(gs.drop_last()) + gs.last().members@);
        let lhs = all_members(upd).to_multiset().add(gs[j].members@.to_multiset());
        let rhs = all_members(gs).to_multiset().add(g2.members@.to_multiset());
        let ihl = all_members(gs.drop_last().update(j, g2)).to_multiset().add(
            gs.drop_last()[j].members@.to_multiset(),
        );
        let ihr = all_members(gs.drop_last()).to_multiset().add(g2.members@.to_multiset());
        assert forall|x: FileRecord| lhs.count(x) == rhs.count(x) by {
            assert(ihl.count(x) == ihr.count(x));
        }
        assert(lhs =~= rhs);
    }
}

/// Inserting a group adds exactly its members.
proof fn lemma_all_members_insert(gs: Seq<FileGroup>, k: int, g: FileGroup)
    requires
        0 <= k <= gs.len(),
    ensures
        all_members(gs.insert(k, g)).to_multiset() == all_members(gs).to_multiset().add(
            g.members@.to_multiset(),
        ),
    decreases gs.len(),
{
    broadcast use vstd::seq_lib::group_to_multiset_ensures;
    broadcast use vstd::multiset::group_multiset_axioms;
    broadcast use vstd::seq_lib::lemma_multiset_commutative;

    let ins = gs.insert(k, g);
    gs.insert_ensures(k, g);
    if k == gs.len() {
        assert(ins =~= gs.push(g));
        lemma_all_members_push(gs, g);
        vstd::seq_lib::lemma_multiset_commutative(all_members(gs), g.members@);
        assert(all_members(ins).to_multiset() =~= all_members(gs).to_multiset().add(
            g.members@.to_multiset(),
        ));
    } else {
        gs.drop_last().insert_ensures(k, g);
        assert(ins.drop_last() =~= gs.drop_last().insert(k, g));
        assert(ins.last() == gs.last());
        lemma_all_members_insert(gs.drop_last(), k, g);
        vstd::seq_lib::lemma_multiset_commutative(
            all_members(gs.drop_last().insert(k, g)),
            gs.last().members@,
        );
        vstd::seq_lib::lemma_multiset_commutative(all_members(gs.drop_last()), gs.last().members@);
        assert(all_members(ins).to_multiset() =~= all_members(gs).to_multiset().add(
            g.members@.to_multiset(),
        ));
    }
}

/// Placing one more group into a ranked list keeps it ranked: totals stay
/// non-increasing, ties stay in first-seen name order, and names stay
/// distinct, provided the new group's name is the next first-seen one.
proof fn lemma_ranked_insert(
    old_out: Seq<FileGroup>,
    out: Seq<FileGroup>,
    g: FileGroup,
    k: int,
    dn: Seq<Seq<char>>,
    done: int,
)
    requires
        out == old_out.insert(k, g),
        0 <= k <= old_out.len(),
        0 <= done < dn.len(),
        forall|k1: int, k2: int| 0 <= k1 < k2 < dn.len() ==> dn[k1] != dn[k2],
        g.name@ == dn[done],
        forall|a: int|
            0 <= a < old_out.len() ==> 0 <= first_index(dn, (#[trigger] old_out[a]).name@) < done
                && dn[first_index(dn, old_out[a].name@)] == old_out[a].name@,
        forall|a: int, b: int|
            0 <= a < b < old_out.len() ==> old_out[a].total_size >= old_out[b].total_size,
        forall|a: int, b: int|
            0 <= a < b < old_out.len() && old_out[a].total_size == old_out[b].total_size
                ==> first_index(dn, old_out[a].name@) < first_index(dn, old_out[b].name@),
        forall|a: int, b: int| 0 <= a < b < old_out.len() ==> old_out[a].name@ != old_out[b].name@,
        forall|m: int| 0 <= m < k ==> old_out[m].total_size >= g.total_size,
        k < old_out.len() ==> old_out[k].total_size < g.total_size,
    ensures
        out.len() == old_out.len() + 1,
        forall|idx: int| 0 <= idx < k ==> #[trigger] out[idx] == old_out[idx],
        out[k] == g,
        forall|idx: int| k <= idx < old_out.len() ==> #[trigger] out[idx + 1] == old_out[idx],
        forall|a: int|
            0 <= a < out.len() ==> 0 <= first_index(dn, (#[trigger] out[a]).name@) < done + 1 && dn[
                first_index(dn, out[a].name@)] == out[a].name@,
        forall|a: int, b: int| 0 <= a < b < out.len() ==> out[a].total_size >= out[b].total_size,
        forall|a: int, b: int|
            0 <= a < b < out.len() && out[a].total_size == out[b].total_size ==> first_index(
                dn,
                out[a].name@,
            ) < first_index(dn, out[b].name@),
        forall|a: int, b: int| 0 <= a < b < out.len() ==> out[a].name@ != out[b].name@,
{
    old_out.insert_ensures(k, g);
    lemma_first_index_of(dn, done);
    assert(first_index(dn, g.name@) == done);
    assert forall|a: int|
        0 <= a < out.len() implies 0 <= first_index(dn, (#[trigger] out[a]).name@) < done + 1
        && dn[first_index(dn, out[a].name@)] == out[a].name@ by {
        if a < k {
            assert(out[a] == old_out[a]);
        } else if a == k {
            assert(out[a] == g);
        } else {
            assert(out[a] == old_out[a - 1]);
        }
    }
    assert forall|a: int, b: int| 0 <= a < b < out.len() implies out[a].total_size
        >= out[b].total_size by {
        if b < k {
        } else if a < k && b == k {
            assert(out[a] == old_out[a]);
        } else if a < k && b > k {
            assert(out[a] == old_out[a]);
            assert(out[b] == old_out[b - 1]);
        } else if a == k && b > k {
            assert(out[b] == old_out[b - 1]);
            assert(k < old_out.len());
            assert(old_out[k].total_size < g.total_size);
            if b - 1 > k {
                assert(old_out[k].total_size >= old_out[b - 1].total_size);
            }
        } else {
            assert(out[a] == old_out[a - 1]);
            assert(out[b] == old_out[b - 1]);
        }
    }
    assert forall|a: int, b: int|
        0 <= a < b < out.len() && out[a].total_size == out[b].total_size implies first_index(
        dn,
        out[a].name@,
    ) < first_index(dn, out[b].name@) by {
        if b < k {
        } else if a < k && b == k {
            assert(out[a] == old_out[a]);
            assert(first_index(dn, old_out[a].name@) < done);
        } else if a < k && b > k {
            assert(out[a] == old_out[a]);
            assert(out[b] == old_out[b - 1]);
        } else if a == k && b > k {
            assert(out[b] == old_out[b - 1]);
            assert(k < old_out.len());
            assert(old_out[k].total_size < g.total_size);
            if b - 1 > k {
                assert(old_out[k].total_size >= old_out[b - 1].total_size);
            }
            assert(false);
        } else {
            assert(out[a] == old_out[a - 1]);
            assert(out[b] == old_out[b - 1]);
        }
    }
    assert forall|a: int, b: int| 0 <= a < b < out.len() implies out[a].name@ != out[b].name@ by {
        if a == k || b == k {
            let c = if a == k {
                b
            } else {
                a
            };
            let oc = if c < k {
                c
            } else {
                c - 1
            };
            assert(out[c] == old_out[oc]);
            if out[c].name@ == g.name@ {
                assert(first_index(dn, old_out[oc].name@) < done);
                assert(dn[first_index(dn, old_out[oc].name@)] == old_out[oc].name@);
                assert(dn[first_index(dn, old_out[oc].name@)] == dn[done]);
                assert(false);
            }
        } else {
            let oa = if a < k {
                a
            } else {
                a - 1
            };
            let ob = if b < k {
                b
            } else {
                b - 1
            };
            assert(out[a] == old_out[oa]);
            assert(out[b] == old_out[ob]);
        }
    }
}

/// First group in `groups` bearing `name`, scanning from the front.
fn find_group(groups: &Vec<FileGroup>, name: &String) -> (r: Option<usize>)
    ensures
        match r {
            Some(j) => j < groups@.len() && groups@[j as int].name@ == name@ && forall|k: int|
                0 <= k < j ==> groups@[k].name@ != name@,
            None => forall|k: int| 0 <= k < groups@.len() ==> groups@[k].name@ != name@,
        },
{
    let mut j: usize = 0;
    while j < groups.len()
        invariant
            j <= groups@.len(),
            forall|k: int| 0 <= k < j ==> groups@[k].name@ != name@,
        decreases groups@.len() - j,
    {
        if groups[j].name == *name {
            return Some(j);
        }
        j = j + 1;
    }
    None
}

/// Position for a record of size `size` in the size-descending list
/// `members`: past every member at least as large.
fn find_member_pos(members: &Vec<FileRecord>, size: u64) -> (k: usize)
    ensures
        k <= members@.len(),
        forall|m: int| 0 <= m < k ==> members@[m].size >= size,
        k < members@.len() ==> members@[k as int].size < size,
{
    let mut k: usize = 0;
    while k < members.len()
        invariant
            k <= members@.len(),
            forall|m: int| 0 <= m < k ==> members@[m].size >= size,
        decreases members@.len() - k,
    {
        if members[k].size < size {
            return k;
        }
        k = k + 1;
    }
    k
}

/// Position for a group of total `total` in the total-descending list
/// `sorted`: past every group at least as large.
fn find_group_pos(sorted: &Vec<FileGroup>, total: u64) -> (k: usize)
    ensures
        k <= sorted@.len(),
        forall|m: int| 0 <= m < k ==> sorted@[m].total_size >= total,
        k < sorted@.len() ==> sorted@[k as int].total_size < total,
{
    let mut k: usize = 0;
    while k < sorted.len()
        invariant
            k <= sorted@.len(),
            forall|m: int| 0 <= m < k ==> sorted@[m].total_size >= total,
        decreases sorted@.len() - k,
    {
        if sorted[k].total_size < total {
            return k;
        }
        k = k + 1;
    }
    k
}

/// Ordering a bucket keeps every record's name.
pub proof fn lemma_sort_by_size_named(s: Seq<FileRecord>, n: Seq<char>)
    requires
        forall|i: int| 0 <= i < s.len() ==> (#[trigger] s[i]).name@ == n,
    ensures
        forall|i: int|
            0 <= i < sort_by_size(s).len() ==> (#[trigger] sort_by_size(s)[i]).name@ == n,
{
    broadcast use vstd::seq_lib::group_to_multiset_ensures;

    lemma_sort_by_size_multiset(s);
    let t = sort_by_size(s);
    assert forall|i: int| 0 <= i < t.len() implies (#[trigger] t[i]).name@ == n by {
        assert(t.contains(t[i]));
        assert(t.to_multiset().count(t[i]) > 0);
        assert(s.to_multiset().count(t[i]) > 0);
        assert(s.contains(t[i]));
        let j = choose|j: int| 0 <= j < s.len() && s[j] == t[i];
        assert(s[j].name@ == n);
    }
}

/// Discovery order does not matter to the grouping: two record sequences
/// holding the same records, in any order, carry the same filenames, and
/// for each filename the same bucket contents and the same size total.
/// Together with the contract of `group`, the groups of one ordering are
/// the groups of the other, up to the documented tie-breaks.
pub proof fn lemma_grouping_order_independent(a: Seq<FileRecord>, b: Seq<FileRecord>)
    requires
        a.to_multiset() == b.to_multiset(),
    ensures
        forall|n: Seq<char>|
            #[trigger] distinct_names(a).contains(n) <==> distinct_names(b).contains(n),
        forall|n: Seq<char>|
            #[trigger] with_name(a, n).to_multiset() == with_name(b, n).to_multiset(),
        forall|n: Seq<char>| sum_sizes(#[trigger] with_name(a, n)) == sum_sizes(with_name(b, n)),
{
    broadcast use vstd::seq_lib::group_to_multiset_ensures;

    assert forall|n: Seq<char>|
        #[trigger] with_name(a, n).to_multiset() == with_name(b, n).to_multiset() by {
        crate::model::lemma_with_name_permutation(a, b, n);
    }
    assert forall|n: Seq<char>| sum_sizes(#[trigger] with_name(a, n)) == sum_sizes(
        with_name(b, n),
    ) by {
        lemma_sum_sizes_permutation(with_name(a, n), with_name(b, n));
    }
    assert forall|n: Seq<char>|
        #[trigger] distinct_names(a).contains(n) <==> distinct_names(b).contains(n) by {
        lemma_distinct_names_bucket(a, n);
        lemma_distinct_names_bucket(b, n);
        assert(with_name(a, n).to_multiset().len() == with_name(b, n).to_multiset().len());
    }
}

/// What `group` builds from `records`: one group per distinct filename,
/// holding exactly the records bearing that name in stable size-descending
/// order, with the summed size cached, the whole list ranked by total size
/// with ties in first-seen name order.  No record is lost or duplicated.
pub open spec fn is_grouping_of(records: Seq<FileRecord>, gs: Seq<FileGroup>) -> bool {
    &&& gs.len() == distinct_names(records).len()
    &&& forall|i: int|
        0 <= i < gs.len() ==> (#[trigger] gs[i]).members@ == sort_by_size(
            with_name(records, gs[i].name@),
        )
    &&& forall|i: int|
        0 <= i < gs.len() ==> (#[trigger] gs[i]).members@.to_multiset() == with_name(
            records,
            gs[i].name@,
        ).to_multiset()
    &&& forall|i: int|
        0 <= i < gs.len() ==> (#[trigger] gs[i]).total_size == sum_sizes(
            with_name(records, gs[i].name@),
        )
    &&& forall|i: int|
        0 <= i < gs.len() ==> (#[trigger] gs[i]).total_size == sum_sizes(gs[i].members@)
    &&& forall|i: int| 0 <= i < gs.len() ==> (#[trigger] gs[i]).members@.len() > 0
    &&& forall|i: int, m: int|
        0 <= i < gs.len() && 0 <= m < gs[i].members@.len() ==> (#[trigger] gs[i].members@[m]).name@
            == gs[i].name@
    &&& forall|i: int, a: int, b: int|
        0 <= i < gs.len() && 0 <= a <= b < gs[i].members@.len() ==> #[trigger] gs[i].members@[a].size
            >= #[trigger] gs[i].members@[b].size
    &&& forall|i: int|
        0 <= i < gs.len() ==> distinct_names(records).contains((#[trigger] gs[i]).name@)
    &&& forall|n: Seq<char>|
        #[trigger] distinct_names(records).contains(n) ==> exists|i: int|
            0 <= i < gs.len() && (#[trigger] gs[i].name@) == n
    &&& forall|i: int, j: int|
        0 <= i < j < gs.len() ==> (#[trigger] gs[i]).name@ != (#[trigger] gs[j]).name@
    &&& forall|i: int, j: int|
        0 <= i < j < gs.len() ==> (#[trigger] gs[i]).total_size >= (#[trigger] gs[j]).total_size
    &&& forall|i: int, j: int|
        0 <= i < j < gs.len() && gs[i].total_size == gs[j].total_size ==> first_index(
            distinct_names(records),
            (#[trigger] gs[i]).name@,
        ) < first_index(distinct_names(records), (#[trigger] gs[j]).name@)
    &&& all_members(gs).to_multiset() == records.to_multiset()
}

/// Partition `records` by filename and rank the result: groups come in
/// total-size-descending order with ties in first-seen name order, and each
/// group's members come in size-descending order with ties in discovery
/// order.  Every record lands in exactly one group.
pub fn group(records: &Vec<FileRecord>) -> (groups: Vec<FileGroup>)
    requires
        sum_sizes(records@) <= u64::MAX,
    ensures
        is_grouping_of(records@, groups@),
{
    let ghost rs = records@;
    let mut raw: Vec<FileGroup> = Vec::new();
    proof {
        assert(rs.take(0) =~= Seq::<FileRecord>::empty());
        assert(all_members(Seq::<FileGroup>::empty()) == Seq::<FileRecord>::empty());
    }
    let mut i: usize = 0;
    while i < records.len()
        invariant
            records@ == rs,
            i <= rs.len(),
            sum_sizes(rs) <= u64::MAX,
            raw@.len() == distinct_names(rs.take(i as int)).len(),
            forall|k: int|
                0 <= k < raw@.len() ==> (#[trigger] raw@[k]).name@ == distinct_names(
                    rs.take(i as int),
                )[k],
            forall|k: int|
                0 <= k < raw@.len() ==> (#[trigger] raw@[k]).members@ == sort_by_size(
                    with_name(rs.take(i as int), raw@[k].name@),
                ),
            forall|k: int|
                0 <= k < raw@.len() ==> (#[trigger] raw@[k]).total_size == sum_sizes(
                    with_name(rs.take(i as int), raw@[k].name@),
                ),
            all_members(raw@).to_multiset() == rs.take(i as int).to_multiset(),
        decreases rs.len() - i,
    {
        let ghost pre = rs.take(i as int);
        let ghost post = rs.take(i as int + 1);
        let r = records[i].clone();
        let rsize = r.size;
        let ghost rv = rs[i as int];
        proof {
            assert(r == rv);
            assert(post.drop_last() =~= pre);
            assert(post.last() == rv);
            assert(post =~= pre.push(rv));
            lemma_distinct_names_no_dup(pre);
            vstd::seq_lib::to_multiset_build(pre, rv);
        }
        let found = find_group(&raw, &r.name);
        match found {
            Some(j) => {
                let ghost n = rv.name@;
                let ghost raw_old = raw@;
                proof {
                    assert(raw_old[j as int].name@ == n);
                    assert(distinct_names(pre)[j as int] == n);
                    assert(distinct_names(pre).contains(n));
                    assert(distinct_names(post) == distinct_names(pre));
                }
                let mut gr = raw.remove(j);
                let k = find_member_pos(&gr.members, r.size);
                let ghost old_members = gr.members@;
                proof {
                    lemma_insert_by_size_at(old_members, rv, k as int);
                    lemma_with_name_push(pre, rv, n);
                    lemma_sum_sizes_push(with_name(pre, n), rv);
                    lemma_sum_with_name_le(post, n);
                    lemma_sum_sizes_take(rs, i as int + 1);
                    assert(gr.total_size == sum_sizes(with_name(pre, n)));
                    assert(gr.total_size + rsize <= u64::MAX);
                }
                gr.members.insert(k, r);
                gr.total_size = gr.total_size + rsize;
                let ghost gr2 = gr;
                raw.insert(j, gr);
                proof {
                    assert(raw@ =~= raw_old.update(j as int, gr2));
                    let ghost dnp = distinct_names(pre);
                    assert forall|k2: int| 0 <= k2 < raw@.len() implies (#[trigger] raw@[k2]).name@
                        == distinct_names(post)[k2] by {
                        if k2 == j {
                            assert(raw@[k2] == gr2);
                        } else {
                            assert(raw@[k2] == raw_old[k2]);
                        }
                    }
                    assert forall|k2: int|
                        0 <= k2 < raw@.len() implies (#[trigger] raw@[k2]).members@ == sort_by_size(
                        with_name(post, raw@[k2].name@),
                    ) && (#[trigger] raw@[k2]).total_size == sum_sizes(
                        with_name(post, raw@[k2].name@),
                    ) by {
                        if k2 == j {
                            assert(raw@[k2] == gr2);
                            assert(with_name(pre, n).push(rv).drop_last() =~= with_name(pre, n));
                            assert(sort_by_size(with_name(post, n)) == insert_by_size(
                                sort_by_size(with_name(pre, n)),
                                rv,
                            ));
                            assert(old_members == sort_by_size(with_name(pre, n)));
                            assert(gr2.members@ == old_members.insert(k as int, rv));
                        } else {
                            assert(raw@[k2] == raw_old[k2]);
                            assert(raw_old[k2].name@ == dnp[k2]);
                            assert(dnp[j as int] == n);
                            assert(raw_old[k2].name@ != n);
                            lemma_with_name_push(pre, rv, raw_old[k2].name@);
                        }
                    }
                    lemma_all_members_update(raw_old, j as int, gr2);
                    vstd::seq_lib::to_multiset_insert(old_members, k as int, rv);
                    assert(gr2.members@.to_multiset() == old_members.to_multiset().insert(rv));
                    let lhs0 = all_members(raw_old.update(j as int, gr2)).to_multiset().add(
                        raw_old[j as int].members@.to_multiset(),
                    );
                    let rhs0 = all_members(raw_old).to_multiset().add(gr2.members@.to_multiset());
                    assert forall|x: FileRecord| all_members(raw@).to_multiset().count(x)
                        == post.to_multiset().count(x) by {
                        assert(lhs0.count(x) == rhs0.count(x));
                        assert(pre.push(rv).to_multiset().count(x) == pre.to_multiset().insert(
                            rv,
                        ).count(x));
                    }
                    assert(all_members(raw@).to_multiset() =~= post.to_multiset());
                }
            },
            None => {
                let ghost n = rv.name@;
                let ghost raw_old = raw@;
                proof {
                    assert(!distinct_names(pre).contains(n)) by {
                        if distinct_names(pre).contains(n) {
                            let kk = choose|kk: int|
                                0 <= kk < distinct_names(pre).len() && distinct_names(pre)[kk]
                                    == n;
                            assert(raw_old[kk].name@ == n);
                        }
                    }
                    assert(distinct_names(post) == distinct_names(pre).push(n));
                    lemma_distinct_names_bucket(pre, n);
                    assert(with_name(pre, n) =~= Seq::<FileRecord>::empty());
                    lemma_with_name_push(pre, rv, n);
                    assert(with_name(post, n) == Seq::<FileRecord>::empty().push(rv));
                    lemma_sum_sizes_push(with_name(pre, n), rv);
                }
                let name2 = r.name.clone();
                let mut members: Vec<FileRecord> = Vec::new();
                members.push(r);
                let gr = FileGroup { name: name2, total_size: rsize, members };
                let ghost gr2 = gr;
                raw.push(gr);
                proof {
                    assert(raw@ =~= raw_old.push(gr2));
                    assert(gr2.name@ == n);
                    assert(gr2.members@ == Seq::<FileRecord>::empty().push(rv));
                    assert(Seq::<FileRecord>::empty().push(rv).drop_last()
                        =~= Seq::<FileRecord>::empty());
                    assert(sort_by_size(Seq::<FileRecord>::empty().push(rv)) == insert_by_size(
                        sort_by_size(Seq::<FileRecord>::empty()),
                        rv,
                    ));
                    assert(insert_by_size(Seq::<FileRecord>::empty(), rv) == seq![rv]);
                    assert(seq![rv] =~= Seq::<FileRecord>::empty().push(rv));
                    assert forall|k2: int|
                        0 <= k2 < raw@.len() implies (#[trigger] raw@[k2]).name@ == distinct_names(
                        post,
                    )[k2] && (#[trigger] raw@[k2]).members@ == sort_by_size(
                        with_name(post, raw@[k2].name@),
                    ) && (#[trigger] raw@[k2]).total_size == sum_sizes(
                        with_name(post, raw@[k2].name@),
                    ) by {
                        if k2 < raw_old.len() {
                            assert(raw@[k2] == raw_old[k2]);
                            assert(raw_old[k2].name@ != n);
                            lemma_with_name_push(pre, rv, raw_old[k2].name@);
                        } else {
                            assert(raw@[k2] == gr2);
                        }
                    }
                    lemma_all_members_push(raw_old, gr2);
                    vstd::seq_lib::lemma_multiset_commutative(all_members(raw_old), gr2.members@);
                    vstd::seq_lib::to_multiset_build(Seq::<FileRecord>::empty(), rv);
                    lemma_empty_records_multiset();
                    assert forall|x: FileRecord| all_members(raw@).to_multiset().count(x)
                        == post.to_multiset().count(x) by {
                        assert(pre.push(rv).to_multiset().count(x) == pre.to_multiset().insert(
                            rv,
                        ).count(x));
                        assert(gr2.members@.to_multiset().count(x) == Multiset::<
                            FileRecord,
                        >::empty().insert(rv).count(x));
                    }
                    assert(all_members(raw@).to_multiset() =~= post.to_multiset());
                }
            },
        }
        i = i + 1;
    }
    let ghost rawseq = raw@;
    let ghost dn = distinct_names(rs);
    proof {
        assert(rs.take(rs.len() as int) =~= rs);
        lemma_distinct_names_no_dup(rs);
        assert(rawseq.take(0) =~= Seq::<FileGroup>::empty());
        lemma_empty_records_multiset();
    }
    let raw_n = raw.len();
    proof {
        assert(rawseq.len() == raw_n as int);
    }
    let mut out: Vec<FileGroup> = Vec::new();
    let mut done: usize = 0;
    while raw.len() > 0
        invariant
            records@ == rs,
            rawseq.len() == raw_n as int,
            done <= rawseq.len(),
            raw@ == rawseq.skip(done as int),
            out@.len() == done as int,
            dn == distinct_names(rs),
            dn.len() == rawseq.len(),
            forall|k1: int, k2: int| 0 <= k1 < k2 < dn.len() ==> dn[k1] != dn[k2],
            forall|k: int| 0 <= k < rawseq.len() ==> (#[trigger] rawseq[k]).name@ == dn[k],
            forall|k: int|
                0 <= k < rawseq.len() ==> (#[trigger] rawseq[k]).members@ == sort_by_size(
                    with_name(rs, rawseq[k].name@),
                ),
            forall|k: int|
                0 <= k < rawseq.len() ==> (#[trigger] rawseq[k]).total_size == sum_sizes(
                    with_name(rs, rawseq[k].name@),
                ),
            all_members(rawseq).to_multiset() == rs.to_multiset(),
            forall|a: int|
                0 <= a < out@.len() ==> 0 <= first_index(dn, (#[trigger] out@[a]).name@)
                    < done as int && dn[first_index(dn, out@[a].name@)] == out@[a].name@,
            forall|a: int|
                0 <= a < out@.len() ==> (#[trigger] out@[a]).members@ == sort_by_size(
                    with_name(rs, out@[a].name@),
                ),
            forall|a: int|
                0 <= a < out@.len() ==> (#[trigger] out@[a]).total_size == sum_sizes(
                    with_name(rs, out@[a].name@),
                ),
            forall|a: int, b: int|
                0 <= a < b < out@.len() ==> (#[trigger] out@[a]).total_size >= (
                #[trigger] out@[b]).total_size,
            forall|a: int, b: int|
                0 <= a < b < out@.len() && out@[a].total_size == out@[b].total_size
                    ==> first_index(dn, (#[trigger] out@[a]).name@) < first_index(
                    dn,
                    (#[trigger] out@[b]).name@,
                ),
            forall|a: int, b: int|
                0 <= a < b < out@.len() ==> (#[trigger] out@[a]).name@ != (
                #[trigger] out@[b]).name@,
            forall|k2: int|
                #![trigger dn[k2]]
                0 <= k2 < done as int ==> exists|a: int|
                    0 <= a < out@.len() && out@[a].name@ == dn[k2],
            all_members(out@).to_multiset() == all_members(
                rawseq.take(done as int),
            ).to_multiset(),
        decreases raw@.len(),
    {
        let ggr = raw.remove(0);
        let ghost grv = ggr;
        proof {
            assert(rawseq.skip(done as int)[0] == rawseq[done as int]);
            assert(grv == rawseq[done as int]);
            assert(rawseq.skip(done as int).remove(0) =~= rawseq.skip(done as int + 1));
        }
        let k = find_group_pos(&out, ggr.total_size);
        let ghost old_out = out@;
        out.insert(k, ggr);
        proof {
            assert(out@ == old_out.insert(k as int, grv));
            lemma_ranked_insert(old_out, out@, grv, k as int, dn, done as int);
            assert forall|a: int|
                0 <= a < out@.len() implies (#[trigger] out@[a]).members@ == sort_by_size(
                with_name(rs, out@[a].name@),
            ) && (#[trigger] out@[a]).total_size == sum_sizes(with_name(rs, out@[a].name@)) by {
                if a < k as int {
                    assert(out@[a] == old_out[a]);
                } else if a == k as int {
                    assert(out@[a] == grv);
                } else {
                    assert(out@[a] == old_out[a - 1]);
                }
            }
            assert forall|k2: int|
                #![trigger dn[k2]]
                0 <= k2 < done as int + 1 implies exists|a: int|
                    0 <= a < out@.len() && out@[a].name@ == dn[k2] by {
                if k2 < done as int {
                    let a0 = choose|a0: int|
                        0 <= a0 < old_out.len() && old_out[a0].name@ == dn[k2];
                    if a0 < k as int {
                        assert(out@[a0] == old_out[a0]);
                        assert(out@[a0].name@ == dn[k2]);
                    } else {
                        assert(out@[a0 + 1] == old_out[a0]);
                        assert(out@[a0 + 1].name@ == dn[k2]);
                    }
                } else {
                    assert(out@[k as int].name@ == dn[k2]);
                }
            }
            lemma_all_members_insert(old_out, k as int, grv);
            assert(rawseq.take(done as int + 1).drop_last() =~= rawseq.take(done as int));
            assert(rawseq.take(done as int + 1).last() == rawseq[done as int]);
            assert(all_members(rawseq.take(done as int + 1)) == all_members(
                rawseq.take(done as int),
            ) + rawseq[done as int].members@);
            vstd::seq_lib::lemma_multiset_commutative(
                all_members(rawseq.take(done as int)),
                rawseq[done as int].members@,
            );
            assert(all_members(out@).to_multiset() =~= all_members(
                rawseq.take(done as int + 1),
            ).to_multiset());
        }
        done = done + 1;
    }
    proof {
        assert(done as int == rawseq.len());
        assert(rawseq.take(done as int) =~= rawseq);
        assert forall|i2: int| 0 <= i2 < out@.len() implies distinct_names(records@).contains(
            (#[trigger] out@[i2]).name@,
        ) by {
            let fi = first_index(dn, out@[i2].name@);
            assert(dn[fi] == out@[i2].name@);
        }
        assert forall|n2: Seq<char>| #[trigger]
            distinct_names(records@).contains(n2) implies exists|i2: int|
            0 <= i2 < out@.len() && (#[trigger] out@[i2].name@) == n2 by {
            let kk = choose|kk: int| 0 <= kk < dn.len() && dn[kk] == n2;
            assert(exists|a: int| 0 <= a < out@.len() && out@[a].name@ == dn[kk]);
            let a1 = choose|a: int| 0 <= a < out@.len() && out@[a].name@ == dn[kk];
            assert(out@[a1].name@ == n2);
        }
        assert forall|i2: int| 0 <= i2 < out@.len() implies (
        #[trigger] out@[i2]).members@.to_multiset() == with_name(
            records@,
            out@[i2].name@,
        ).to_multiset() && (#[trigger] out@[i2]).total_size == sum_sizes(out@[i2].members@) && (
        #[trigger] out@[i2]).members@.len() > 0 by {
            lemma_sort_by_size_multiset(with_name(rs, out@[i2].name@));
            lemma_sum_sizes_permutation(out@[i2].members@, with_name(rs, out@[i2].name@));
            lemma_distinct_names_bucket(rs, out@[i2].name@);
            let fi = first_index(dn, out@[i2].name@);
            assert(dn[fi] == out@[i2].name@);
            assert(distinct_names(rs).contains(out@[i2].name@));
        }
        assert forall|i2: int, m: int|
            0 <= i2 < out@.len() && 0 <= m < out@[i2].members@.len() implies (#[trigger] out@[i2].members@[m]).name@ == out@[i2].name@ by {
            lemma_with_name_named(rs, out@[i2].name@);
            lemma_sort_by_size_named(with_name(rs, out@[i2].name@), out@[i2].name@);
        }
        assert forall|i2: int, a: int, b: int|
            0 <= i2 < out@.len() && 0 <= a <= b < out@[i2].members@.len() implies #[trigger] out@[i2].members@[a].size >= #[trigger] out@[i2].members@[b].size by {
            lemma_sort_by_size_sorted(with_name(rs, out@[i2].name@));
        }
    }
    out
}

} // verus!
