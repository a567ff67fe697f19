//! The data model: file records, filename groups, the report summary, and
//! the spec-level functions that contracts throughout the crate speak of.

use vstd::prelude::*;

verus! {

/// One discovered file: its bare filename, its size in bytes, and the full
/// path it was found under.
pub struct FileRecord {
    pub name: String,
    pub size: u64,
    pub path: String,
}

impl Clone for FileRecord {
    fn clone(&self) -> (r: Self)
        ensures
            r == *self,
    {
        FileRecord { name: self.name.clone(), size: self.size, path: self.path.clone() }
    }
}

/// A bucket of records sharing one filename, with the sum of their sizes
/// cached in `total_size`.
pub struct FileGroup {
    pub name: String,
    pub total_size: u64,
    pub members: Vec<FileRecord>,
}

/// Counts and byte totals over a whole record set.
#[derive(Clone, Copy, PartialEq, Eq, Structural, Debug)]
pub struct Summary {
    pub total_records: usize,
    pub total_size: u64,
    pub duplicated_size: u64,
}

/// Sum of the sizes of a record sequence.
pub open spec fn sum_sizes(s: Seq<FileRecord>) -> nat
    decreases s.len(),
{
    if s.len() == 0 {
        0
    } else {
        sum_sizes(s.drop_last()) + s.last().size as nat
    }
}

/// The records of `s` whose filename is `n`, in their original order.
pub open spec fn with_name(s: Seq<FileRecord>, n: Seq<char>) -> Seq<FileRecord>
    decreases s.len(),
{
    if s.len() == 0 {
        Seq::empty()
    } else if s.last().name@ == n {
        with_name(s.drop_last(), n).push(s.last())
    } else {
        with_name(s.drop_last(), n)
    }
}

/// Each distinct filename of `s`, in first-seen order.
pub open spec fn distinct_names(s: Seq<FileRecord>) -> Seq<Seq<char>>
    decreases s.len(),
{
    if s.len() == 0 {
        Seq::empty()
    } else if distinct_names(s.drop_last()).contains(s.last().name@) {
        distinct_names(s.drop_last())
    } else {
        distinct_names(s.drop_last()).push(s.last().name@)
    }
}

/// Index of the first occurrence of `n` in `ns` (`ns.len()` when absent).
pub open spec fn first_index(ns: Seq<Seq<char>>, n: Seq<char>) -> int
    decreases ns.len(),
{
    if ns.len() == 0 {
        0
    } else if ns.first() == n {
        0
    } else {
        1 + first_index(ns.drop_first(), n)
    }
}

/// Every member of every group, group by group.
pub open spec fn all_members(gs: Seq<FileGroup>) -> Seq<FileRecord>
    decreases gs.len(),
{
    if gs.len() == 0 {
        Seq::empty()
    } else {
        all_members(gs.drop_last()) + gs.last().members@
    }
}

/// Appending a record adds its size to the running total.
pub proof fn lemma_sum_sizes_push(s: Seq<FileRecord>, r: FileRecord)
    ensures
        sum_sizes(s.push(r)) == sum_sizes(s) + r.size,
{
    assert(s.push(r).drop_last() =~= s);
}

/// Appending a record extends exactly the bucket that bears its name.
pub proof fn lemma_with_name_push(s: Seq<FileRecord>, r: FileRecord, n: Seq<char>)
    ensures
        with_name(s.push(r), n) == (if r.name@ == n {
            with_name(s, n).push(r)
        } else {
            with_name(s, n)
        }),
{
    assert(s.push(r).drop_last() =~= s);
}

/// Appending a group appends its members to the member list.
pub proof fn lemma_all_members_push(gs: Seq<FileGroup>, g: FileGroup)
    ensures
        all_members(gs.push(g)) == all_members(gs) + g.members@,
{
    assert(gs.push(g).drop_last() =~= gs);
}

/// Sum of sizes distributes over concatenation.
pub proof fn lemma_sum_sizes_concat(a: Seq<FileRecord>, b: Seq<FileRecord>)
    ensures
        sum_sizes(a + b) == sum_sizes(a) + sum_sizes(b),
    decreases b.len(),
{
    if b.len() == 0 {
        assert(a + b =~= a);
    } else {
        assert((a + b).drop_last() =~= a + b.drop_last());
        lemma_sum_sizes_concat(a, b.drop_last());
    }
}

/// A prefix never outweighs the whole sequence.
pub proof fn lemma_sum_sizes_take(s: Seq<FileRecord>, i: int)
    requires
        0 <= i <= s.len(),
    ensures
        sum_sizes(s.take(i)) <= sum_sizes(s),
    decreases s.len() - i,
{
    if i == s.len() {
        assert(s.take(i) =~= s);
    } else {
        assert(s.take(i + 1).drop_last() =~= s.take(i));
        lemma_sum_sizes_take(s, i + 1);
    }
}

/// One name's bucket never outweighs the whole sequence.
pub proof fn lemma_sum_with_name_le(s: Seq<FileRecord>, n: Seq<char>)
    ensures
        sum_sizes(with_name(s, n)) <= sum_sizes(s),
    decreases s.len(),
{
    if s.len() > 0 {
        lemma_sum_with_name_le(s.drop_last(), n);
        if s.last().name@ == n {
            lemma_sum_sizes_push(with_name(s.drop_last(), n), s.last());
        }
    }
}

/// Every record in a bucket bears the bucket's name.
pub proof fn lemma_with_name_named(s: Seq<FileRecord>, n: Seq<char>)
    ensures
        forall|i: int| 0 <= i < with_name(s, n).len() ==> (#[trigger] with_name(s, n)[i]).name@
            == n,
    decreases s.len(),
{
    if s.len() > 0 {
        lemma_with_name_named(s.drop_last(), n);
    }
    let cur = with_name(s, n);
    assert forall|i: int| 0 <= i < cur.len() implies (#[trigger] cur[i]).name@ == n by {
        if s.len() > 0 {
            let prev = with_name(s.drop_last(), n);
            if s.last().name@ == n {
                assert(cur == prev.push(s.last()));
                if i < prev.len() {
                    assert(cur[i] == prev[i]);
                    assert(prev[i].name@ == n);
                } else {
                    assert(cur[i] == s.last());
                }
            } else {
                assert(cur == prev);
                assert(prev[i].name@ == n);
            }
        }
    }
}

/// The first-seen name list holds no name twice.
pub proof fn lemma_distinct_names_no_dup(s: Seq<FileRecord>)
    ensures
        forall|k1: int, k2: int|
            0 <= k1 < k2 < distinct_names(s).len() ==> distinct_names(s)[k1]
                != distinct_names(s)[k2],
    decreases s.len(),
{
    if s.len() > 0 {
        lemma_distinct_names_no_dup(s.drop_last());
        let dn = distinct_names(s.drop_last());
        if !dn.contains(s.last().name@) {
            assert forall|k1: int, k2: int|
                0 <= k1 < k2 < dn.push(s.last().name@).len() implies dn.push(s.last().name@)[k1]
                != dn.push(s.last().name@)[k2] by {
                if k2 == dn.len() {
                    assert(!dn.contains(s.last().name@));
                    assert(dn[k1] != s.last().name@);
                }
            }
        }
    }
}

/// `first_index` finds the position of a name in a duplicate-free list.
pub proof fn lemma_first_index_of(ns: Seq<Seq<char>>, k: int)
    requires
        0 <= k < ns.len(),
        forall|k1: int, k2: int| 0 <= k1 < k2 < ns.len() ==> ns[k1] != ns[k2],
    ensures
        first_index(ns, ns[k]) == k,
    decreases k,
{
    if k > 0 {
        assert(ns.first() != ns[k]);
        assert(ns.drop_first()[k - 1] == ns[k]);
        lemma_first_index_of(ns.drop_first(), k - 1);
    }
}

/// Removing one record subtracts exactly its size.
pub proof fn lemma_sum_sizes_remove(s: Seq<FileRecord>, i: int)
    requires
        0 <= i < s.len(),
    ensures
        sum_sizes(s) == sum_sizes(s.remove(i)) + s[i].size,
{
    let front = s.subrange(0, i);
    let mid = seq![s[i]];
    let back = s.subrange(i + 1, s.len() as int);
    assert(s =~= (front + mid) + back);
    lemma_sum_sizes_concat(front + mid, back);
    lemma_sum_sizes_concat(front, mid);
    assert(s.remove(i) =~= front + back);
    lemma_sum_sizes_concat(front, back);
    assert(sum_sizes(mid) == s[i].size) by {
        assert(mid.len() == 1);
        assert(mid.last() == s[i]);
        assert(mid.drop_last() =~= Seq::<FileRecord>::empty());
        assert(sum_sizes(Seq::<FileRecord>::empty()) == 0);
        assert(sum_sizes(mid) == sum_sizes(mid.drop_last()) + mid.last().size as nat);
    }
}

/// Sequences holding the same records, in any order, have the same total.
pub proof fn lemma_sum_sizes_permutation(a: Seq<FileRecord>, b: Seq<FileRecord>)
    requires
        a.to_multiset() == b.to_multiset(),
    ensures
        sum_sizes(a) == sum_sizes(b),
    decreases a.len(),
{
    broadcast use vstd::seq_lib::group_to_multiset_ensures;
    broadcast use vstd::multiset::group_multiset_axioms;

    if a.len() == 0 {
        assert(a.to_multiset().len() == 0);
    } else {
        let r = a.last();
        assert(a.drop_last().push(r) =~= a);
        assert(a.contains(r));
        assert(a.to_multiset().count(r) > 0);
        assert(b.to_multiset().count(r) > 0);
        assert(b.contains(r));
        let i = choose|i: int| 0 <= i < b.len() && b[i] == r;
        assert(b.remove(i).to_multiset() == b.to_multiset().remove(r));
        assert(a.drop_last().to_multiset() == a.to_multiset().remove(r)) by {
            assert(a.drop_last().push(r).to_multiset() =~= a.drop_last().to_multiset().insert(r));
            assert(a.drop_last().to_multiset().insert(r).remove(r) =~= a.drop_last().to_multiset());
        }
        lemma_sum_sizes_permutation(a.drop_last(), b.remove(i));
        lemma_sum_sizes_remove(b, i);
        lemma_sum_sizes_push(a.drop_last(), r);
    }
}

/// Buckets distribute over concatenation.
pub proof fn lemma_with_name_concat(a: Seq<FileRecord>, b: Seq<FileRecord>, n: Seq<char>)
    ensures
        with_name(a + b, n) == with_name(a, n) + with_name(b, n),
    decreases b.len(),
{
    if b.len() == 0 {
        assert(a + b =~= a);
        assert(with_name(a, n) + with_name(b, n) =~= with_name(a, n));
    } else {
        assert((a + b).drop_last() =~= a + b.drop_last());
        lemma_with_name_concat(a, b.drop_last(), n);
        if b.last().name@ == n {
            assert((with_name(a, n) + with_name(b.drop_last(), n)).push(b.last()) =~= with_name(
                a,
                n,
            ) + with_name(b.drop_last(), n).push(b.last()));
        }
    }
}

/// The bucket of a name depends only on which records are present, not on
/// their order.
pub proof fn lemma_with_name_permutation(a: Seq<FileRecord>, b: Seq<FileRecord>, n: Seq<char>)
    requires
        a.to_multiset() == b.to_multiset(),
    ensures
        with_name(a, n).to_multiset() == with_name(b, n).to_multiset(),
    decreases a.len(),
{
    broadcast use vstd::seq_lib::group_to_multiset_ensures;
    broadcast use vstd::multiset::group_multiset_axioms;

    if a.len() == 0 {
        assert(a.to_multiset().len() == 0);
        assert(b.len() == 0);
        assert(with_name(a, n) =~= with_name(b, n));
    } else {
        let r = a.last();
        assert(a.drop_last().push(r) =~= a);
        assert(a.contains(r));
        assert(a.to_multiset().count(r) > 0);
        assert(b.to_multiset().count(r) > 0);
        assert(b.contains(r));
        let i = choose|i: int| 0 <= i < b.len() && b[i] == r;
        assert(b.remove(i).to_multiset() == b.to_multiset().remove(r));
        assert(a.drop_last().to_multiset() == a.to_multiset().remove(r)) by {
            assert(a.drop_last().push(r).to_multiset() =~= a.drop_last().to_multiset().insert(r));
            assert(a.drop_last().to_multiset().insert(r).remove(r) =~= a.drop_last().to_multiset());
        }
        lemma_with_name_permutation(a.drop_last(), b.remove(i), n);
        // split b around position i and rebuild both buckets
        let front = b.subrange(0, i);
        let mid = seq![r];
        let back = b.subrange(i + 1, b.len() as int);
        assert(b =~= (front + mid) + back);
        lemma_with_name_concat(front + mid, back, n);
        lemma_with_name_concat(front, mid, n);
        assert(b.remove(i) =~= front + back);
        lemma_with_name_concat(front, back, n);
        vstd::seq_lib::lemma_multiset_commutative(
            with_name(front, n) + with_name(mid, n),
            with_name(back, n),
        );
        vstd::seq_lib::lemma_multiset_commutative(with_name(front, n), with_name(mid, n));
        vstd::seq_lib::lemma_multiset_commutative(with_name(front, n), with_name(back, n));
        if r.name@ == n {
            assert(with_name(mid, n) == with_name(mid.drop_last(), n).push(r));
            assert(mid.drop_last() =~= Seq::<FileRecord>::empty());
            assert(with_name(mid, n) == Seq::<FileRecord>::empty().push(r));
            vstd::seq_lib::to_multiset_build(Seq::<FileRecord>::empty(), r);
            vstd::seq_lib::to_multiset_build(with_name(a.drop_last(), n), r);
            assert(with_name(a, n) == with_name(a.drop_last(), n).push(r));
            assert forall|x: FileRecord| with_name(a, n).to_multiset().count(x) == with_name(
                b,
                n,
            ).to_multiset().count(x) by {
                assert(Seq::<FileRecord>::empty().to_multiset().count(x) == 0) by {
                    if Seq::<FileRecord>::empty().to_multiset().count(x) > 0 {
                        assert(Seq::<FileRecord>::empty().contains(x));
                    }
                }
            }
            assert(with_name(a, n).to_multiset() =~= with_name(b, n).to_multiset());
        } else {
            assert(mid.drop_last() =~= Seq::<FileRecord>::empty());
            assert(with_name(mid, n) == with_name(Seq::<FileRecord>::empty(), n));
            assert(with_name(mid, n) =~= Seq::<FileRecord>::empty());
            assert(with_name(a, n) == with_name(a.drop_last(), n));
            assert forall|x: FileRecord| with_name(a, n).to_multiset().count(x) == with_name(
                b,
                n,
            ).to_multiset().count(x) by {
                assert(Seq::<FileRecord>::empty().to_multiset().count(x) == 0) by {
                    if Seq::<FileRecord>::empty().to_multiset().count(x) > 0 {
                        assert(Seq::<FileRecord>::empty().contains(x));
                    }
                }
            }
            assert(with_name(a, n).to_multiset() =~= with_name(b, n).to_multiset());
        }
    }
}

/// A name occurs among the distinct names exactly when some record bears it.
pub proof fn lemma_distinct_names_bucket(s: Seq<FileRecord>, n: Seq<char>)
    ensures
        distinct_names(s).contains(n) <==> with_name(s, n).len() > 0,
    decreases s.len(),
{
    if s.len() > 0 {
        lemma_distinct_names_bucket(s.drop_last(), n);
        let dn = distinct_names(s.drop_last());
        if s.last().name@ == n {
            if !dn.contains(n) {
                assert(dn.push(n)[dn.len() as int] == n);
                assert(distinct_names(s).contains(n));
            }
        } else {
            if !dn.contains(s.last().name@) {
                if dn.contains(n) {
                    let j = choose|j: int| 0 <= j < dn.len() && dn[j] == n;
                    assert(dn.push(s.last().name@)[j] == n);
                    assert(distinct_names(s).contains(n));
                }
                if distinct_names(s).contains(n) {
                    let j = choose|j: int|
                        0 <= j < distinct_names(s).len() && distinct_names(s)[j] == n;
                    assert(dn.push(s.last().name@)[j] == n);
                    assert(dn.contains(n));
                }
            }
        }
    }
}

} // verus!
