use vstd::prelude::*;

verus! {

/// What kind of object a directory entry is.
#[derive(Clone, Copy, Debug, PartialEq, Eq, Structural)]
pub enum EntryKind {
    File,
    Directory,
    Symlink,
    Unknown,
}

/// One entry of a directory snapshot: the plain facts the eviction
/// logic reads. Timestamps are seconds since the Unix epoch.
#[derive(Debug)]
pub struct FileInfo {
    pub file_name: String,
    pub file_type: EntryKind,
    pub file_path: String,
    pub created_time: u64,
    pub modified_time: u64,
    pub size: u64,
}

impl Clone for FileInfo {
    fn clone(&self) -> (res: Self)
        ensures
            res == *self,
    {
        FileInfo {
            file_name: self.file_name.clone(),
            file_type: self.file_type,
            file_path: self.file_path.clone(),
            created_time: self.created_time,
            modified_time: self.modified_time,
            size: self.size,
        }
    }
}

/// Classifies a directory entry from the flags the platform reports:
/// a symbolic link wins over everything else (it is never followed),
/// then a regular file, then a directory; anything else (a device, a
/// socket, a fifo) is unknown.
pub fn classify_entry(is_symlink: bool, is_file: bool, is_dir: bool) -> (k: EntryKind)
    ensures
        k == (if is_symlink {
            EntryKind::Symlink
        } else if is_file {
            EntryKind::File
        } else if is_dir {
            EntryKind::Directory
        } else {
            EntryKind::Unknown
        }),
{
    if is_symlink {
        EntryKind::Symlink
    } else if is_file {
        EntryKind::File
    } else if is_dir {
        EntryKind::Directory
    } else {
        EntryKind::Unknown
    }
}

/// Whether an entry is a regular file: the only kind that counts
/// toward a directory's size and the only kind eviction may delete.
pub open spec fn is_file_entry(e: FileInfo) -> bool {
    e.file_type is File
}

/// How many bytes an entry contributes to the directory's size:
/// its length for a regular file, zero for everything else
/// (directories are measured through their children, symbolic links
/// are never followed).
pub open spec fn entry_size(e: FileInfo) -> int {
    if is_file_entry(e) {
        e.size as int
    } else {
        0
    }
}

/// The total size of a snapshot: the sum of the sizes of its regular
/// files.
pub open spec fn size_of_entries(s: Seq<FileInfo>) -> int
    decreases s.len(),
{
    if s.len() == 0 {
        0
    } else {
        entry_size(s[0]) + size_of_entries(s.drop_first())
    }
}

/// The total size of a snapshot is never negative.
pub proof fn lemma_size_nonneg(s: Seq<FileInfo>)
    ensures
        size_of_entries(s) >= 0,
    decreases s.len(),
{
    if s.len() > 0 {
        lemma_size_nonneg(s.drop_first());
    }
}

/// Splitting a snapshot splits its size.
pub proof fn lemma_size_split(s: Seq<FileInfo>, i: int)
    requires
        0 <= i <= s.len(),
    ensures
        size_of_entries(s) == size_of_entries(s.take(i)) + size_of_entries(s.skip(i)),
    decreases i,
{
    if i == 0 {
        assert(s.take(0) =~= Seq::<FileInfo>::empty());
        assert(s.skip(0) =~= s);
    } else {
        lemma_size_split(s.drop_first(), i - 1);
        assert(s.take(i).drop_first() =~= s.drop_first().take(i - 1));
        assert(s.skip(i) =~= s.drop_first().skip(i - 1));
        assert(s.take(i)[0] == s[0]);
        assert(size_of_entries(s.take(i)) == entry_size(s[0]) + size_of_entries(
            s.drop_first().take(i - 1),
        ));
    }
}

/// Computes the total size of a directory snapshot: the sum of the
/// byte lengths of its regular files. Symbolic links and every other
/// non-file entry contribute zero.
pub fn get_size(entries: &Vec<FileInfo>) -> (total: u64)
    requires
        size_of_entries(entries@) <= u64::MAX,
    ensures
        total as int == size_of_entries(entries@),
{
    let mut total: u64 = 0;
    let mut i: usize = 0;
    while i < entries.len()
        invariant
            i <= entries.len(),
            size_of_entries(entries@) <= u64::MAX,
            total as int == size_of_entries(entries@.take(i as int)),
        decreases entries.len() - i,
    {
        proof {
            lemma_size_split(entries@, i as int);
            lemma_size_split(entries@.skip(i as int), 1);
            assert(entries@.skip(i as int).take(1) =~= seq![entries@[i as int]]);
            assert(size_of_entries(seq![entries@[i as int]]) == entry_size(entries@[i as int]));
            lemma_size_nonneg(entries@.skip(i as int).skip(1));
            assert(entries@.take(i as int + 1) =~= entries@.take(i as int) + seq![
                entries@[i as int],
            ]);
            lemma_size_split(entries@.take(i as int + 1), i as int);
            assert(entries@.take(i as int + 1).take(i as int) =~= entries@.take(i as int));
            assert(entries@.take(i as int + 1).skip(i as int) =~= seq![entries@[i as int]]);
        }
        let e = &entries[i];
        if matches!(e.file_type, EntryKind::File) {
            total = total + e.size;
        }
        i = i + 1;
    }
    proof {
        assert(entries@.take(entries@.len() as int) =~= entries@);
    }
    total
}

} // verus!
