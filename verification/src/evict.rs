use vstd::prelude::*;
use vstd::multiset::Multiset;
use vstd::seq_lib::lemma_multiset_commutative;
use crate::entry::EntryKind;
use crate::entry::FileInfo;
use crate::entry::entry_size;
use crate::entry::is_file_entry;
use crate::entry::size_of_entries;
use crate::entry::lemma_size_nonneg;
use crate::entry::lemma_size_split;
use crate::entry::get_size;
use crate::order::entries_sorted;
use crate::order::entry_le;
use crate::order::sort_entries;

verus! {

/// The regular files of a snapshot, in snapshot order: the candidates
/// eviction may delete. Symbolic links, directories and unknown
/// entries are never candidates.
pub open spec fn files_of(s: Seq<FileInfo>) -> Seq<FileInfo>
    decreases s.len(),
{
    if s.len() == 0 {
        Seq::empty()
    } else {
        let rest = files_of(s.drop_last());
        if is_file_entry(s.last()) {
            rest.push(s.last())
        } else {
            rest
        }
    }
}

/// Appending an entry adds its size.
pub proof fn lemma_size_push(s: Seq<FileInfo>, e: FileInfo)
    ensures
        size_of_entries(s.push(e)) == size_of_entries(s) + entry_size(e),
    decreases s.len(),
{
    if s.len() == 0 {
        assert(s.push(e)[0] == e);
        assert(s.push(e).drop_first() =~= Seq::<FileInfo>::empty());
        assert(size_of_entries(s.push(e)) == entry_size(e) + size_of_entries(
            s.push(e).drop_first(),
        ));
    } else {
        assert(s.push(e)[0] == s[0]);
        assert(s.push(e).drop_first() =~= s.drop_first().push(e));
        lemma_size_push(s.drop_first(), e);
        assert(size_of_entries(s.push(e)) == entry_size(s[0]) + size_of_entries(
            s.drop_first().push(e),
        ));
    }
}

/// Taking one entry out takes its size out.
pub proof fn lemma_size_remove(s: Seq<FileInfo>, i: int)
    requires
        0 <= i < s.len(),
    ensures
        size_of_entries(s) == size_of_entries(s.remove(i)) + entry_size(s[i]),
{
    lemma_size_split(s, i);
    lemma_size_split(s.skip(i), 1);
    assert(s.skip(i).take(1) =~= seq![s[i]]);
    assert(seq![s[i]].drop_first() =~= Seq::<FileInfo>::empty());
    assert(s.skip(i).skip(1) =~= s.skip(i + 1));
    lemma_size_split(s.remove(i), i);
    assert(s.remove(i).take(i) =~= s.take(i));
    assert(s.remove(i).skip(i) =~= s.skip(i + 1));
}

/// The total size of a snapshot depends only on which entries it
/// holds, not on their order.
pub proof fn lemma_size_permutation(s: Seq<FileInfo>, t: Seq<FileInfo>)
    requires
        s.to_multiset() == t.to_multiset(),
    ensures
        size_of_entries(s) == size_of_entries(t),
    decreases s.len(),
{
    broadcast use vstd::seq_lib::group_to_multiset_ensures;

    if s.len() == 0 {
        assert(t.to_multiset().len() == 0);
        assert(t.len() == 0);
    } else {
        let x = s[0];
        assert(s.contains(x));
        assert(s.to_multiset().count(x) > 0);
        assert(t.to_multiset().count(x) > 0);
        assert(t.contains(x));
        let i = choose|i: int| 0 <= i < t.len() && t[i] == x;
        assert(s.remove(0).to_multiset() == s.to_multiset().remove(x));
        assert(t.remove(i).to_multiset() == t.to_multiset().remove(x));
        assert(s.remove(0) =~= s.drop_first());
        lemma_size_permutation(s.drop_first(), t.remove(i));
        lemma_size_remove(t, i);
    }
}

/// Keeping only the regular files keeps the total size: nothing else
/// contributed to it.
pub proof fn lemma_files_of_size(s: Seq<FileInfo>)
    ensures
        size_of_entries(files_of(s)) == size_of_entries(s),
    decreases s.len(),
{
    if s.len() > 0 {
        lemma_files_of_size(s.drop_last());
        assert(s.drop_last().push(s.last()) =~= s);
        lemma_size_push(s.drop_last(), s.last());
        if is_file_entry(s.last()) {
            lemma_size_push(files_of(s.drop_last()), s.last());
        }
    }
}

/// Every candidate is a regular file.
pub proof fn lemma_files_of_files(s: Seq<FileInfo>)
    ensures
        forall|i: int| 0 <= i < files_of(s).len() ==> is_file_entry(#[trigger] files_of(s)[i]),
    decreases s.len(),
{
    if s.len() > 0 {
        lemma_files_of_files(s.drop_last());
        let rest = files_of(s.drop_last());
        assert forall|i: int| 0 <= i < files_of(s).len() implies is_file_entry(
            #[trigger] files_of(s)[i],
        ) by {
            if is_file_entry(s.last()) {
                assert(files_of(s) == rest.push(s.last()));
                if i < rest.len() {
                    assert(files_of(s)[i] == rest[i]);
                } else {
                    assert(files_of(s)[i] == s.last());
                }
            } else {
                assert(files_of(s) == rest);
            }
        }
    }
}

/// A snapshot of nothing but symbolic links has size zero and no
/// candidates at all.
pub proof fn lemma_symlinks_excluded(s: Seq<FileInfo>)
    requires
        forall|i: int| 0 <= i < s.len() ==> #[trigger] s[i].file_type is Symlink,
    ensures
        size_of_entries(s) == 0,
        files_of(s) == Seq::<FileInfo>::empty(),
    decreases s.len(),
{
    if s.len() > 0 {
        assert(forall|i: int|
            0 <= i < s.drop_last().len() ==> #[trigger] s.drop_last()[i].file_type is Symlink);
        lemma_symlinks_excluded(s.drop_last());
        assert(s.drop_last().push(s.last()) =~= s);
        lemma_size_push(s.drop_last(), s.last());
        assert(!is_file_entry(s.last()));
    }
}

/// Keeps the regular files of a snapshot, in order.
pub fn filter_files(entries: Vec<FileInfo>) -> (files: Vec<FileInfo>)
    ensures
        files@ == files_of(entries@),
{
    let mut files: Vec<FileInfo> = Vec::new();
    let mut i: usize = 0;
    proof {
        assert(entries@.take(0) =~= Seq::<FileInfo>::empty());
    }
    while i < entries.len()
        invariant
            i <= entries.len(),
            files@ == files_of(entries@.take(i as int)),
        decreases entries.len() - i,
    {
        proof {
            assert(entries@.take(i as int + 1).drop_last() =~= entries@.take(i as int));
            assert(entries@.take(i as int + 1).last() == entries@[i as int]);
        }
        let e = &entries[i];
        if matches!(e.file_type, EntryKind::File) {
            files.push(e.clone());
        }
        i = i + 1;
    }
    proof {
        assert(entries@.take(entries@.len() as int) =~= entries@);
    }
    files
}

/// What eviction removes from a sorted candidate list `s`, starting
/// at size `size` with budget `keep`: the shortest prefix whose
/// removal brings the size to the budget, or all of `s` if even that
/// is not enough.
pub open spec fn plan_from(s: Seq<FileInfo>, size: int, keep: int) -> Seq<FileInfo>
    decreases s.len(),
{
    if size <= keep || s.len() == 0 {
        Seq::empty()
    } else {
        seq![s[0]] + plan_from(s.drop_first(), size - entry_size(s[0]), keep)
    }
}

/// The plan is a prefix of the candidate list.
pub proof fn lemma_plan_prefix(s: Seq<FileInfo>, size: int, keep: int)
    ensures
        plan_from(s, size, keep).len() <= s.len(),
        plan_from(s, size, keep) == s.take(plan_from(s, size, keep).len() as int),
    decreases s.len(),
{
    let p = plan_from(s, size, keep);
    if size <= keep || s.len() == 0 {
        assert(p =~= s.take(0));
    } else {
        lemma_plan_prefix(s.drop_first(), size - entry_size(s[0]), keep);
        let q = plan_from(s.drop_first(), size - entry_size(s[0]), keep);
        assert(p =~= s.take(q.len() as int + 1));
    }
}

/// Each removal in the plan was needed (the size before it was still
/// over budget), and the plan stops as soon as the budget is met or
/// the candidates run out.
pub proof fn lemma_plan_props(s: Seq<FileInfo>, size: int, keep: int)
    ensures
        size <= keep ==> plan_from(s, size, keep) == Seq::<FileInfo>::empty(),
        forall|n: int|
            0 <= n < plan_from(s, size, keep).len() ==> size - size_of_entries(
                #[trigger] plan_from(s, size, keep).take(n),
            ) > keep,
        size - size_of_entries(plan_from(s, size, keep)) <= keep || plan_from(s, size, keep)
            == s,
    decreases s.len(),
{
    let p = plan_from(s, size, keep);
    if size <= keep || s.len() == 0 {
        if s.len() == 0 {
            assert(p =~= s);
        }
    } else {
        let size1 = size - entry_size(s[0]);
        let q = plan_from(s.drop_first(), size1, keep);
        lemma_plan_props(s.drop_first(), size1, keep);
        assert forall|n: int| 0 <= n < p.len() implies size - size_of_entries(
            #[trigger] p.take(n),
        ) > keep by {
            if n == 0 {
                assert(p.take(0) =~= Seq::<FileInfo>::empty());
            } else {
                assert(p.take(n) =~= seq![s[0]] + q.take(n - 1));
                assert((seq![s[0]] + q.take(n - 1)).drop_first() =~= q.take(n - 1));
                assert(size_of_entries(p.take(n)) == entry_size(s[0]) + size_of_entries(
                    q.take(n - 1),
                ));
                assert(size1 - size_of_entries(q.take(n - 1)) > keep);
            }
        }
        assert(p.drop_first() =~= q);
        assert(size_of_entries(p) == entry_size(s[0]) + size_of_entries(q));
        if !(size - size_of_entries(p) <= keep) {
            assert(q == s.drop_first());
            assert(p =~= s);
        }
    }
}

/// Removing a set of entries from a snapshot lowers its size by
/// exactly the sum of their sizes: eviction can only shrink a
/// directory, and by just what it removed.
pub proof fn lemma_size_after_removal(
    before: Seq<FileInfo>,
    removed: Seq<FileInfo>,
    after: Seq<FileInfo>,
)
    requires
        removed.to_multiset().subset_of(before.to_multiset()),
        after.to_multiset() == before.to_multiset().sub(removed.to_multiset()),
    ensures
        size_of_entries(after) == size_of_entries(before) - size_of_entries(removed),
    decreases removed.len(),
{
    broadcast use vstd::seq_lib::group_to_multiset_ensures;
    broadcast use vstd::multiset::group_multiset_axioms;

    if removed.len() == 0 {
        assert(removed.to_multiset() =~= Multiset::<FileInfo>::empty());
        assert(after.to_multiset() =~= before.to_multiset());
        lemma_size_permutation(after, before);
    } else {
        let x = removed[0];
        assert(removed.contains(x));
        assert(removed.to_multiset().count(x) > 0);
        assert(before.to_multiset().count(x) > 0);
        assert(before.contains(x));
        let i = choose|i: int| 0 <= i < before.len() && before[i] == x;
        let before1 = before.remove(i);
        let removed1 = removed.drop_first();
        assert(removed.remove(0) =~= removed1);
        assert(before1.to_multiset() == before.to_multiset().remove(x));
        assert(removed1.to_multiset() == removed.to_multiset().remove(x));
        assert(removed1.to_multiset().subset_of(before1.to_multiset()));
        assert(after.to_multiset() =~= before1.to_multiset().sub(removed1.to_multiset()));
        lemma_size_after_removal(before1, removed1, after);
        lemma_size_remove(before, i);
    }
}

/// Plans an eviction for a snapshot: returns, oldest first, the
/// regular files whose removal brings the total size of the snapshot
/// to at most `keep` bytes, each of them needed, and all of them if
/// even that leaves the snapshot over budget. Entries that are not
/// regular files (symbolic links among them) are never returned.
pub fn plan_eviction(entries: Vec<FileInfo>, keep: u64) -> (r: Vec<FileInfo>)
    requires
        size_of_entries(entries@) <= u64::MAX,
    ensures
        entries_sorted(r@),
        forall|i: int| 0 <= i < r@.len() ==> is_file_entry(#[trigger] r@[i]),
        r@.to_multiset().subset_of(files_of(entries@).to_multiset()),
        size_of_entries(r@) <= size_of_entries(entries@),
        size_of_entries(entries@) <= keep ==> r@ == Seq::<FileInfo>::empty(),
        forall|n: int|
            0 <= n < r@.len() ==> size_of_entries(entries@) - size_of_entries(
                #[trigger] r@.take(n),
            ) > keep,
        size_of_entries(entries@) - size_of_entries(r@) <= keep || r@.to_multiset() == files_of(
            entries@,
        ).to_multiset(),
        forall|i: int, x: FileInfo|
            #![trigger entry_le(r@[i], x)]
            0 <= i < r@.len() && files_of(entries@).to_multiset().sub(r@.to_multiset()).count(x)
                > 0 ==> entry_le(r@[i], x),
{
    broadcast use vstd::seq_lib::group_to_multiset_ensures;
    broadcast use vstd::multiset::group_multiset_axioms;

    let ghost all = entries@;
    let files = filter_files(entries);
    let sorted = sort_entries(files);
    let ghost s0 = sorted@;
    proof {
        lemma_files_of_size(all);
        lemma_size_permutation(s0, files_of(all));
        lemma_files_of_files(all);
        assert forall|i: int| 0 <= i < s0.len() implies is_file_entry(#[trigger] s0[i]) by {
            assert(s0.contains(s0[i]));
            assert(s0.to_multiset().count(s0[i]) > 0);
            assert(files_of(all).to_multiset().count(s0[i]) > 0);
            assert(files_of(all).contains(s0[i]));
            let j = choose|j: int| 0 <= j < files_of(all).len() && files_of(all)[j] == s0[i];
            assert(is_file_entry(files_of(all)[j]));
        }
    }
    let total = get_size(&sorted);
    let mut current: u64 = total;
    let mut rest = sorted;
    let mut removed: Vec<FileInfo> = Vec::new();
    proof {
        assert(removed@ + rest@ =~= s0);
        assert(removed@ =~= Seq::<FileInfo>::empty());
        assert(plan_from(s0, total as int, keep as int) =~= removed@ + plan_from(
            rest@,
            current as int,
            keep as int,
        ));
    }
    while current > keep && rest.len() > 0
        invariant
            entries_sorted(s0),
            forall|i: int| 0 <= i < s0.len() ==> is_file_entry(#[trigger] s0[i]),
            total as int == size_of_entries(s0),
            removed@ + rest@ == s0,
            current as int == total - size_of_entries(removed@),
            size_of_entries(rest@) <= current as int,
            plan_from(s0, total as int, keep as int) == removed@ + plan_from(
                rest@,
                current as int,
                keep as int,
            ),
        decreases rest.len(),
    {
        let ghost prev_rest = rest@;
        let ghost prev_removed = removed@;
        proof {
            assert(prev_rest[0] == s0[prev_removed.len() as int]);
            assert(is_file_entry(prev_rest[0]));
            assert(entry_size(prev_rest[0]) == prev_rest[0].size as int);
            assert(prev_rest.drop_first() =~= prev_rest.remove(0));
            lemma_size_nonneg(prev_rest.drop_first());
            assert(size_of_entries(prev_rest) == entry_size(prev_rest[0]) + size_of_entries(
                prev_rest.drop_first(),
            ));
            assert(plan_from(prev_rest, current as int, keep as int) =~= seq![prev_rest[0]]
                + plan_from(
                prev_rest.drop_first(),
                current as int - entry_size(prev_rest[0]),
                keep as int,
            ));
        }
        let e = rest.remove(0);
        current = current - e.size;
        removed.push(e);
        proof {
            assert(removed@ =~= prev_removed.push(e));
            assert(removed@ + rest@ =~= prev_removed + prev_rest);
            lemma_size_push(prev_removed, e);
            assert(prev_removed + plan_from(prev_rest, (total - size_of_entries(prev_removed))
                as int, keep as int) =~= removed@ + plan_from(
                rest@,
                current as int,
                keep as int,
            ));
        }
    }
    proof {
        assert(plan_from(rest@, current as int, keep as int) =~= Seq::<FileInfo>::empty());
        assert(removed@ + Seq::<FileInfo>::empty() =~= removed@);
        let p = removed@;
        let k = p.len() as int;
        assert(p == plan_from(s0, total as int, keep as int));
        lemma_plan_prefix(s0, total as int, keep as int);
        lemma_plan_props(s0, total as int, keep as int);
        assert(p == s0.take(k));
        assert forall|i: int, j: int| 0 <= i < j < p.len() implies #[trigger] entry_le(
            p[i],
            p[j],
        ) by {
            assert(p[i] == s0[i]);
            assert(p[j] == s0[j]);
        }
        assert(forall|i: int| 0 <= i < p.len() ==> is_file_entry(#[trigger] p[i]));
        assert(s0.take(k) + s0.skip(k) =~= s0);
        lemma_multiset_commutative(s0.take(k), s0.skip(k));
        assert(s0.to_multiset() == p.to_multiset().add(s0.skip(k).to_multiset()));
        assert(p.to_multiset().subset_of(files_of(all).to_multiset()));
        lemma_size_split(s0, k);
        lemma_size_nonneg(s0.skip(k));
        assert(size_of_entries(p) <= size_of_entries(all));
        if p.to_multiset() != files_of(all).to_multiset() {
            assert(size_of_entries(all) - size_of_entries(p) <= keep || p == s0);
            if p == s0 {
                assert(p.to_multiset() =~= files_of(all).to_multiset());
            }
        }
        assert forall|i: int, x: FileInfo|
            #![trigger entry_le(p[i], x)]
            0 <= i < p.len() && files_of(all).to_multiset().sub(p.to_multiset()).count(x)
                > 0 implies entry_le(p[i], x) by {
            assert(files_of(all).to_multiset().sub(p.to_multiset()) =~= s0.skip(
                k,
            ).to_multiset());
            assert(s0.skip(k).to_multiset().count(x) > 0);
            assert(s0.skip(k).contains(x));
            let m = choose|m: int| 0 <= m < s0.skip(k).len() && s0.skip(k)[m] == x;
            assert(s0[k + m] == x);
            assert(p[i] == s0[i]);
            assert(entry_le(s0[i], s0[k + m]));
        }
    }
    removed
}

} // verus!
