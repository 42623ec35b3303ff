use vstd::prelude::*;
use crate::entry::FileInfo;
use vstd::multiset::Multiset;

verus! {

/// Lexicographic order on byte sequences: the empty sequence comes
/// first, otherwise the first differing byte decides.
pub open spec fn lex_le(a: Seq<u8>, b: Seq<u8>) -> bool
    decreases a.len(),
{
    if a.len() == 0 {
        true
    } else if b.len() == 0 {
        false
    } else if a[0] < b[0] {
        true
    } else if a[0] > b[0] {
        false
    } else {
        lex_le(a.drop_first(), b.drop_first())
    }
}

/// Any two byte sequences are comparable under `lex_le`.
pub proof fn lemma_lex_le_total(a: Seq<u8>, b: Seq<u8>)
    ensures
        lex_le(a, b) || lex_le(b, a),
    decreases a.len(),
{
    if a.len() > 0 && b.len() > 0 && a[0] == b[0] {
        lemma_lex_le_total(a.drop_first(), b.drop_first());
    }
}

/// `lex_le` is transitive.
pub proof fn lemma_lex_le_trans(a: Seq<u8>, b: Seq<u8>, c: Seq<u8>)
    requires
        lex_le(a, b),
        lex_le(b, c),
    ensures
        lex_le(a, c),
    decreases a.len(),
{
    if a.len() > 0 && b.len() > 0 && c.len() > 0 && a[0] == b[0] && b[0] == c[0] {
        lemma_lex_le_trans(a.drop_first(), b.drop_first(), c.drop_first());
    }
}

/// The sort key of an entry's path: its UTF-8 bytes.
pub open spec fn path_key(e: FileInfo) -> Seq<u8> {
    vstd::utf8::encode_utf8(e.file_path@)
}

/// The eviction order: ascending by modification time, ties broken by
/// the path's byte order, so that removal order is deterministic.
pub open spec fn entry_le(a: FileInfo, b: FileInfo) -> bool {
    if a.modified_time != b.modified_time {
        a.modified_time < b.modified_time
    } else {
        lex_le(path_key(a), path_key(b))
    }
}

/// Any two entries are comparable under `entry_le`.
pub proof fn lemma_entry_le_total(a: FileInfo, b: FileInfo)
    ensures
        entry_le(a, b) || entry_le(b, a),
{
    if a.modified_time == b.modified_time {
        lemma_lex_le_total(path_key(a), path_key(b));
    }
}

/// `entry_le` is transitive.
pub proof fn lemma_entry_le_trans(a: FileInfo, b: FileInfo, c: FileInfo)
    requires
        entry_le(a, b),
        entry_le(b, c),
    ensures
        entry_le(a, c),
{
    if a.modified_time == b.modified_time && b.modified_time == c.modified_time {
        lemma_lex_le_trans(path_key(a), path_key(b), path_key(c));
    }
}

/// A snapshot sorted for eviction: oldest first, ties by path.
pub open spec fn entries_sorted(s: Seq<FileInfo>) -> bool {
    forall|i: int, j: int| 0 <= i < j < s.len() ==> #[trigger] entry_le(s[i], s[j])
}

/// When modification times are all distinct, the eviction order is
/// strict: a removal sequence sorted for eviction lists strictly
/// increasing modification times, oldest first.
pub proof fn lemma_oldest_first(s: Seq<FileInfo>)
    requires
        entries_sorted(s),
        forall|i: int, j: int|
            #![trigger s[i], s[j]]
            0 <= i < j < s.len() ==> s[i].modified_time != s[j].modified_time,
    ensures
        forall|i: int, j: int|
            #![trigger s[i], s[j]]
            0 <= i < j < s.len() ==> s[i].modified_time < s[j].modified_time,
{
    assert forall|i: int, j: int|
        #![trigger s[i], s[j]]
        0 <= i < j < s.len() implies s[i].modified_time < s[j].modified_time by {
        assert(entry_le(s[i], s[j]));
    }
}

/// Decides `lex_le` on two byte slices.
fn bytes_le(a: &[u8], b: &[u8]) -> (r: bool)
    ensures
        r == lex_le(a@, b@),
{
    let mut i: usize = 0;
    proof {
        assert(a@.skip(0) =~= a@);
        assert(b@.skip(0) =~= b@);
    }
    loop
        invariant
            i <= a@.len(),
            i <= b@.len(),
            forall|k: int| 0 <= k < i ==> a@[k] == b@[k],
            lex_le(a@, b@) == lex_le(a@.skip(i as int), b@.skip(i as int)),
        decreases a@.len() - i,
    {
        if i == a.len() {
            return true;
        }
        if i == b.len() {
            return false;
        }
        let x = a[i];
        let y = b[i];
        if x < y {
            return true;
        }
        if x > y {
            return false;
        }
        proof {
            assert(a@.skip(i as int).drop_first() =~= a@.skip(i as int + 1));
            assert(b@.skip(i as int).drop_first() =~= b@.skip(i as int + 1));
        }
        i = i + 1;
    }
}

/// Decides the eviction order on two entries.
pub fn entry_le_exec(a: &FileInfo, b: &FileInfo) -> (r: bool)
    ensures
        r == entry_le(*a, *b),
{
    if a.modified_time < b.modified_time {
        true
    } else if a.modified_time > b.modified_time {
        false
    } else {
        bytes_le(a.file_path.as_str().as_bytes(), b.file_path.as_str().as_bytes())
    }
}

/// Inserting an element anywhere adds exactly it to the multiset.
pub proof fn lemma_insert_to_multiset(s: Seq<FileInfo>, i: int, x: FileInfo)
    requires
        0 <= i <= s.len(),
    ensures
        s.insert(i, x).to_multiset() =~= s.to_multiset().insert(x),
{
    broadcast use vstd::seq_lib::group_to_multiset_ensures;

    let t = s.insert(i, x);
    assert(t[i] == x);
    assert(t.remove(i) =~= s);
    assert(s.to_multiset() == t.to_multiset().remove(x));
    assert(t.contains(x));
    assert(t.to_multiset().count(x) > 0);
}

/// Sorts a snapshot for eviction: ascending by modification time,
/// ties broken by path, keeping exactly the entries it was given.
pub fn sort_entries(entries: Vec<FileInfo>) -> (r: Vec<FileInfo>)
    ensures
        entries_sorted(r@),
        r@.to_multiset() == entries@.to_multiset(),
{
    broadcast use vstd::seq_lib::group_to_multiset_ensures;

    let mut rest = entries;
    let mut out: Vec<FileInfo> = Vec::new();
    proof {
        assert(out@.to_multiset() =~= Multiset::<FileInfo>::empty());
        assert(out@.to_multiset().add(rest@.to_multiset()) =~= entries@.to_multiset());
    }
    while rest.len() > 0
        invariant
            entries_sorted(out@),
            out@.to_multiset().add(rest@.to_multiset()) == entries@.to_multiset(),
        decreases rest.len(),
    {
        let ghost prev_rest = rest@;
        let ghost prev_out = out@;
        let x = rest.pop().unwrap();
        proof {
            vstd::seq_lib::to_multiset_build::<FileInfo>(rest@, x);
            assert(rest@.push(x) =~= prev_rest);
            assert(rest@.to_multiset().insert(x) == prev_rest.to_multiset());
        }
        let mut j: usize = 0;
        while j < out.len() && entry_le_exec(&out[j], &x)
            invariant
                j <= out@.len(),
                forall|k: int| 0 <= k < j ==> entry_le(#[trigger] out@[k], x),
            decreases out@.len() - j,
        {
            j = j + 1;
        }
        proof {
            if j < out@.len() {
                lemma_entry_le_total(out@[j as int], x);
                assert forall|k: int| j <= k < out@.len() implies entry_le(
                    x,
                    #[trigger] out@[k],
                ) by {
                    if k > j {
                        assert(entry_le(out@[j as int], out@[k]));
                        lemma_entry_le_trans(x, out@[j as int], out@[k]);
                    }
                }
            }
            let t = out@.insert(j as int, x);
            assert forall|p: int, q: int| 0 <= p < q < t.len() implies #[trigger] entry_le(
                t[p],
                t[q],
            ) by {
                if p < j && q < j {
                    assert(entry_le(out@[p], out@[q]));
                } else if p < j && q == j {
                    assert(entry_le(out@[p], x));
                } else if p < j && q > j {
                    assert(entry_le(out@[p], out@[q - 1]));
                } else if p == j && q > j {
                    assert(entry_le(x, out@[q - 1]));
                } else if p > j && q > j {
                    assert(entry_le(out@[p - 1], out@[q - 1]));
                }
            }
            lemma_insert_to_multiset(out@, j as int, x);
        }
        out.insert(j, x);
        proof {
            assert(out@.to_multiset() == prev_out.to_multiset().insert(x));
            assert(out@.to_multiset().add(rest@.to_multiset()) =~= prev_out.to_multiset().add(
                rest@.to_multiset().insert(x),
            ));
            assert(out@.to_multiset().add(rest@.to_multiset()) =~= entries@.to_multiset());
        }
    }
    proof {
        assert(rest@ =~= Seq::<FileInfo>::empty());
        assert(rest@.to_multiset() =~= Multiset::<FileInfo>::empty());
        assert(out@.to_multiset() =~= entries@.to_multiset());
    }
    out
}

} // verus!
