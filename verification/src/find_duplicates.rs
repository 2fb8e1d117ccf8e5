//! Finds duplicates in an archive

pub mod run;

use {
    crate::{
        archive::import::{
            lemma_read_entry_advances, spec_read_entry, DirEntry, DirEntryKind,
            ImportError, Importer, spec_name_read, spec_read_dir_footer,
        },
        util::{
            empty_md5, file_md5, md5_digest, push_path, pushed_path,
            sort::{is_stable_sort_of, lemma_is_stable_sorted, lemma_stable_sort_is_permutation, stable_sort, stable_sorted},
        },
    },
    std::collections::HashMap,
    vstd::prelude::*,
};

verus! {

broadcast use vstd::std_specs::hash::group_hash_axioms;

/// An MD5 digest
pub type Digest = [u8; 16];

/// A file that the walk of an archive meets
#[derive(PartialEq, Eq, Clone, Debug)]
pub enum FoundEntry {
    /// A file, with its path and size
    File { path: Vec<u8>, size: u64 },
    /// A symlink, which is skipped
    Symlink { path: Vec<u8> },
}

/// A file or symlink that a walk meets, as values: its path, and its size if it is a file
pub open spec fn found_view(found: FoundEntry) -> (Seq<u8>, Option<u64>) {
    match found {
        FoundEntry::File { path, size } => (path@, Some(size)),
        FoundEntry::Symlink { path } => (path@, None),
    }
}

/// The files and symlinks met, as values
pub open spec fn founds_view(found: Seq<FoundEntry>) -> Seq<(Seq<u8>, Option<u64>)> {
    found.map_values(|f: FoundEntry| found_view(f))
}

proof fn lemma_founds_view_push(found: Seq<FoundEntry>, new_found: FoundEntry)
    ensures
        founds_view(found.push(new_found)) == founds_view(found).push(found_view(new_found)),
{
    assert(founds_view(found.push(new_found)) =~= founds_view(found).push(found_view(new_found)));
}

/// How much a walk of an entry has left to visit at its own level
pub open spec fn walk_size(entry: DirEntry) -> nat {
    match entry.kind {
        DirEntryKind::Dir(dir) => dir.entries_len as nat + 1,
        _ => 0,
    }
}

/// What a walk of `entry`, whose path is `path`, meets, with the archive at
/// `pos` just after its header: a file or symlink is met itself; a directory's
/// entries are walked in the order of the archive, each with its name pushed
/// onto the path, and then its footer is read. Gives the files and symlinks
/// met, and where the walk ends.
pub open spec fn spec_walk(data: Seq<u8>, pos: nat, entry: DirEntry, path: Seq<u8>) -> Result<
    (Seq<(Seq<u8>, Option<u64>)>, nat),
    ImportError,
>
    decreases data.len() - pos, walk_size(entry),
{
    match entry.kind {
        DirEntryKind::Dir(dir) => match spec_walk_entries(data, pos, dir.entries_len as nat, path) {
            Err(e) => Err(e),
            Ok((found, p)) => match spec_read_dir_footer(data, p) {
                Err(e) => Err(e),
                Ok((_, q)) => Ok((found, q)),
            },
        },
        DirEntryKind::File(file) => Ok((seq![(path, Some(file.size))], pos)),
        DirEntryKind::Symlink(_) => Ok((seq![(path, None::<u64>)], pos)),
    }
}

/// What a walk of the next `count` entries of a directory whose path is
/// `path` meets, with the archive at `pos`, and where it ends.
pub open spec fn spec_walk_entries(data: Seq<u8>, pos: nat, count: nat, path: Seq<u8>) -> Result<
    (Seq<(Seq<u8>, Option<u64>)>, nat),
    ImportError,
>
    decreases data.len() - pos, count,
{
    if count == 0 {
        Ok((Seq::empty(), pos))
    } else {
        match spec_read_entry(data, pos) {
            Err(e) => Err(e),
            Ok((child, _nul, end)) => if pos < end <= data.len() {
                match spec_walk(data, end, child, pushed_path(path, spec_name_read(data, pos))) {
                    Err(e) => Err(e),
                    Ok((found, p)) => if end <= p <= data.len() {
                        match spec_walk_entries(data, p, (count - 1) as nat, path) {
                            Err(e) => Err(e),
                            Ok((rest, q)) => Ok((found + rest, q)),
                        }
                    } else {
                        // A walk never ends before it starts, nor past the end
                        Err(ImportError::UnexpectedEof)
                    },
                }
            } else {
                // An entry never ends before it starts, nor past the end
                Err(ImportError::UnexpectedEof)
            },
        }
    }
}

/// `walked` put before what a walk meets
pub open spec fn after_walked(walked: Seq<(Seq<u8>, Option<u64>)>, res: Result<(Seq<(Seq<u8>, Option<u64>)>, nat), ImportError>) -> Result<
    (Seq<(Seq<u8>, Option<u64>)>, nat),
    ImportError,
> {
    match res {
        Ok((found, end)) => Ok((walked + found, end)),
        Err(e) => Err(e),
    }
}

/// Walks the entries within `entry`, whose path is `path`, with the importer
/// just after its header: appends each file and symlink met to `found`, in the
/// order of the archive.
fn entry(importer: &mut Importer, entry_import: DirEntry, path: &[u8], found: &mut Vec<FoundEntry>) -> (res: Result<(), ImportError>)
    requires
        old(importer).wf(),
    ensures
        final(importer).data() == old(importer).data(),
        final(importer).wf(),
        match spec_walk(old(importer).data(), old(importer).pos(), entry_import, path@) {
            Ok((walked, end)) => {
                &&& res is Ok
                &&& final(importer).pos() == end
                &&& founds_view(final(found)@) == founds_view(old(found)@) + walked
            },
            Err(e) => res == Err::<(), ImportError>(e),
        },
        res is Ok ==> final(importer).pos() >= old(importer).pos(),
    decreases old(importer).data().len() - old(importer).pos(),
{
    let ghost data = importer.data();
    let ghost start_pos = importer.pos();
    let ghost start_found = found@;
    proof {
        importer.lemma_wf_len();
    }
    match entry_import.kind {
        DirEntryKind::Dir(dir) => {
            let ghost goal = spec_walk_entries(data, start_pos, dir.entries_len as nat, path@);
            let ghost mut walked: Seq<(Seq<u8>, Option<u64>)> = Seq::empty();
            assert(after_walked(walked, goal) == goal) by {
                if let Ok((f, e)) = goal {
                    assert(walked + f =~= f);
                }
            }
            let mut cur_name: Vec<u8> = Vec::new();
            let mut remaining = dir.entries_len;
            while remaining > 0
                invariant
                    importer.wf(),
                    importer.data() == data,
                    data == old(importer).data(),
                    data.len() <= usize::MAX,
                    start_pos == old(importer).pos(),
                    start_pos <= importer.pos(),
                    start_found == old(found)@,
                    founds_view(found@) == founds_view(start_found) + walked,
                    goal == spec_walk_entries(data, start_pos, dir.entries_len as nat, path@),
                    entry_import.kind == DirEntryKind::Dir(dir),
                    goal == after_walked(walked, spec_walk_entries(data, importer.pos(), remaining as nat, path@)),
                decreases remaining,
            {
                let ghost pos = importer.pos();
                let ghost found_before = found@;
                proof {
                    importer.lemma_wf_len();
                    lemma_read_entry_advances(data, pos);
                }
                cur_name.clear();
                let (child, _) = match importer.read_entry(&mut cur_name) {
                    Ok(read) => read,
                    Err(e) => {
                        assert(spec_walk_entries(data, pos, remaining as nat, path@) == Err::<
                            (Seq<(Seq<u8>, Option<u64>)>, nat),
                            ImportError,
                        >(e));
                        return Err(e);
                    },
                };
                assert(cur_name@ =~= spec_name_read(data, pos));
                let mut child_path = Vec::new();
                child_path.extend_from_slice(path);
                push_path(&mut child_path, cur_name.as_slice());
                assert(child_path@ == pushed_path(path@, spec_name_read(data, pos)));
                let ghost end = importer.pos();
                if let Err(e) = self::entry(importer, child, child_path.as_slice(), found) {
                    assert(spec_walk_entries(data, pos, remaining as nat, path@) == Err::<
                        (Seq<(Seq<u8>, Option<u64>)>, nat),
                        ImportError,
                    >(e));
                    return Err(e);
                }
                proof {
                    let (child_found, p) = spec_walk(data, end, child, child_path@).unwrap();
                    importer.lemma_wf_len();
                    assert(pos < end <= data.len());
                    assert(end <= p <= data.len());
                    let rest = spec_walk_entries(data, p, (remaining - 1) as nat, path@);
                    assert(spec_walk_entries(data, pos, remaining as nat, path@) == after_walked(child_found, rest));
                    assert(after_walked(walked, after_walked(child_found, rest)) == after_walked(walked + child_found, rest)) by {
                        if let Ok((f, q)) = rest {
                            assert(walked + (child_found + f) =~= (walked + child_found) + f);
                        }
                    }
                    assert(founds_view(found@) =~= founds_view(start_found) + (walked + child_found));
                    walked = walked + child_found;
                }
                remaining -= 1;
            }
            assert(walked + Seq::<(Seq<u8>, Option<u64>)>::empty() =~= walked);
            importer.read_dir_footer()?;
        },
        DirEntryKind::File(file) => {
            let mut file_path = Vec::new();
            file_path.extend_from_slice(path);
            assert(file_path@ =~= path@);
            let new_found = FoundEntry::File { path: file_path, size: file.size };
            proof {
                lemma_founds_view_push(found@, new_found);
            }
            found.push(new_found);
            assert(founds_view(found@) =~= founds_view(start_found) + seq![(path@, Some(file.size))]);
        },
        DirEntryKind::Symlink(_) => {
            let mut file_path = Vec::new();
            file_path.extend_from_slice(path);
            assert(file_path@ =~= path@);
            let new_found = FoundEntry::Symlink { path: file_path };
            proof {
                lemma_founds_view_push(found@, new_found);
            }
            found.push(new_found);
            assert(founds_view(found@) =~= founds_view(start_found) + seq![(path@, None::<u64>)]);
        },
    }
    Ok(())
}

/// The files that share a digest
#[derive(Debug)]
pub struct DigestFiles {
    pub digest: Digest,
    pub files: Vec<Vec<u8>>,
}

/// Files with one size
#[derive(Debug)]
pub struct FilesBySize {
    /// Last file with this size that hasn't been read yet.
    ///
    /// Only `Some(...)` if `files_by_md5` is empty, since otherwise
    /// the file is read at once.
    pub last_unread: Option<Vec<u8>>,
    /// Files by their md5 hash, in the order in which their digests were first met
    pub files_by_md5: Vec<DigestFiles>,
}

/// The digests and their files, as values
pub type GroupsView = Seq<(Seq<u8>, Seq<Seq<u8>>)>;

/// The digests and their files of a list, as values
pub open spec fn groups_view(groups: Seq<DigestFiles>) -> GroupsView {
    groups.map_values(|g: DigestFiles| (g.digest@, g.files@.map_values(|f: Vec<u8>| f@)))
}

/// `groups` with `path` added to the files of `digest`: to the first group
/// with that digest, or to a new group at the end if there is none.
pub open spec fn groups_with(groups: GroupsView, digest: Seq<u8>, path: Seq<u8>) -> GroupsView
    decreases groups.len(),
{
    if groups.len() == 0 {
        seq![(digest, seq![path])]
    } else if groups[0].0 == digest {
        groups.update(0, (digest, groups[0].1.push(path)))
    } else {
        seq![groups[0]] + groups_with(groups.drop_first(), digest, path)
    }
}

/// What a scan of files found so far
#[derive(Debug)]
pub struct Output {
    pub files_by_size: HashMap<u64, FilesBySize>,
    pub files_total: usize,
    pub files_read: usize,
    pub size_total: u64,
    pub size_read: u64,
}

/// The files with one size, as values: the unread file, and the files by digest
pub type SizeView = (Option<Seq<u8>>, GroupsView);

impl Output {
    /// The files with a size, as values
    pub open spec fn size_view(&self, size: u64) -> SizeView {
        if self.files_by_size@.contains_key(size) {
            files_view(self.files_by_size@[size])
        } else {
            (None, Seq::empty())
        }
    }

    /// Whether a file is left unread only while no file of its size was read
    pub open spec fn unread_alone(&self) -> bool {
        forall|s: u64| #[trigger] self.size_view(s).0 is Some ==> self.size_view(s).1.len() == 0
    }

    /// Whether `other` has the same counters as `self`
    pub open spec fn same_counts(&self, other: &Output) -> bool {
        &&& self.files_total == other.files_total
        &&& self.files_read == other.files_read
        &&& self.size_total == other.size_total
        &&& self.size_read == other.size_read
    }

    /// Whether `other` has the files of `self` for every size but `size`
    pub open spec fn same_but(&self, other: &Output, size: u64) -> bool {
        forall|s: u64| s != size ==> #[trigger] self.size_view(s) == other.size_view(s)
    }

    /// What recording an empty file at `path` does
    pub open spec fn empty_file_post(old: Output, new: Output, path: Seq<u8>) -> bool {
        &&& new.files_total == old.files_total + 1
        &&& new.files_read == old.files_read
        &&& new.size_total == old.size_total
        &&& new.size_read == old.size_read
        &&& new.same_but(&old, 0)
        &&& new.size_view(0) == (old.size_view(0).0, groups_with(old.size_view(0).1, md5_digest(Seq::empty()), path))
        &&& old.unread_alone() && old.size_view(0).0 is None ==> new.unread_alone()
    }

    /// What starting to record a file of `size` does, giving back `unread`
    pub open spec fn begin_file_post(old: Output, new: Output, size: u64, unread: Option<Seq<u8>>) -> bool {
        &&& new.files_total == old.files_total + 1
        &&& new.size_total == old.size_total + size
        &&& new.files_read == old.files_read
        &&& new.size_read == old.size_read
        &&& new.same_but(&old, size)
        &&& new.size_view(size) == (None::<Seq<u8>>, old.size_view(size).1)
        &&& unread == old.size_view(size).0
        &&& old.unread_alone() ==> new.unread_alone()
    }

    /// What recording that the unread file `path` of `size` was read, giving `digest`, does
    pub open spec fn unread_hashed_post(old: Output, new: Output, size: u64, path: Seq<u8>, digest: Option<Seq<u8>>) -> bool {
        &&& new.files_total == old.files_total
        &&& new.size_total == old.size_total
        &&& new.files_read == old.files_read + 1
        &&& new.size_read == old.size_read + size
        &&& new.same_but(&old, size)
        &&& new.size_view(size) == match digest {
            Some(digest) => (old.size_view(size).0, groups_with(old.size_view(size).1, digest, path)),
            None => old.size_view(size),
        }
        &&& old.unread_alone() && old.size_view(size).0 is None ==> new.unread_alone()
    }

    /// What continuing to record the file `path` of `size` does, giving back `to_read`
    pub open spec fn needs_hash_post(old: Output, new: Output, size: u64, path: Seq<u8>, to_read: Option<Seq<u8>>) -> bool {
        &&& new.same_counts(&old)
        &&& new.same_but(&old, size)
        &&& if old.size_view(size).1.len() == 0 {
            &&& to_read is None
            &&& new.size_view(size) == (Some(path), old.size_view(size).1)
        } else {
            &&& to_read == Some(path)
            &&& new.size_view(size) == old.size_view(size)
        }
        &&& old.unread_alone() ==> new.unread_alone()
    }

    /// What recording that the file `path` of `size` was read, giving `digest`, does
    pub open spec fn file_hashed_post(old: Output, new: Output, size: u64, path: Seq<u8>, digest: Option<Seq<u8>>) -> bool {
        &&& new.files_total == old.files_total
        &&& new.size_total == old.size_total
        &&& new.same_but(&old, size)
        &&& match digest {
            Some(digest) => {
                &&& new.files_read == old.files_read + 1
                &&& new.size_read == old.size_read + size
                &&& new.size_view(size) == (old.size_view(size).0, groups_with(old.size_view(size).1, digest, path))
            },
            None => new.same_counts(&old) && new.size_view(size) == old.size_view(size),
        }
        &&& old.unread_alone() && old.size_view(size).0 is None ==> new.unread_alone()
    }

    /// Creates an empty output
    pub fn new() -> (output: Self)
        ensures
            output.files_total == 0 && output.files_read == 0 && output.size_total == 0 && output.size_read == 0,
            forall|s: u64| #[trigger] output.size_view(s) == (None::<Seq<u8>>, Seq::<(Seq<u8>, Seq<Seq<u8>>)>::empty()),
            output.unread_alone(),
    {
        Output { files_by_size: HashMap::new(), files_total: 0, files_read: 0, size_total: 0, size_read: 0 }
    }

    /// Takes out the files with a size, leaving none
    fn take_size(&mut self, size: u64) -> (files: FilesBySize)
        ensures
            final(self).same_counts(old(self)),
            !final(self).files_by_size@.contains_key(size),
            final(self).same_but(old(self), size),
            old(self).size_view(size) == (
                match files.last_unread {
                    Some(path) => Some(path@),
                    None => None,
                },
                groups_view(files.files_by_md5@),
            ),
    {
        let files = match self.files_by_size.remove(&size) {
            Some(files) => files,
            None => FilesBySize { last_unread: None, files_by_md5: Vec::new() },
        };
        proof {
            if !old(self).files_by_size@.contains_key(size) {
                assert(groups_view(files.files_by_md5@) =~= Seq::empty());
            }
            assert forall|s: u64| s != size implies #[trigger] self.size_view(s) == old(self).size_view(s) by {}
        }
        files
    }

    /// Puts back the files with a size
    fn put_size(&mut self, size: u64, files: FilesBySize)
        requires
            !old(self).files_by_size@.contains_key(size),
        ensures
            final(self).same_counts(old(self)),
            final(self).same_but(old(self), size),
            final(self).size_view(size) == (
                match files.last_unread {
                    Some(path) => Some(path@),
                    None => None,
                },
                groups_view(files.files_by_md5@),
            ),
    {
        self.files_by_size.insert(size, files);
        assert forall|s: u64| s != size implies #[trigger] self.size_view(s) == old(self).size_view(s) by {}
    }

    /// Records an empty file: it needs no reading, and has the digest of no data
    pub fn empty_file(&mut self, path: Vec<u8>)
        requires
            old(self).files_total < usize::MAX,
        ensures
        Output::empty_file_post(*old(self), *final(self), path@),
    {
        self.files_total += 1;
        let digest = empty_md5();
        let mut files = self.take_size(0);
        add_file(&mut files.files_by_md5, digest, path);
        self.put_size(0, files);
        proof {
            if old(self).unread_alone() && old(self).size_view(0).0 is None {
                assert forall|s: u64| #[trigger] self.size_view(s).0 is Some implies self.size_view(s).1.len() == 0 by {
                    if s != 0 {
                        assert(self.size_view(s) == old(self).size_view(s));
                    }
                }
            }
        }
    }

    /// Starts recording an entry that the walk found: a symlink is skipped; an
    /// empty file is recorded at once, without being opened (it has the digest
    /// of no data); another file is given back with its size, to go on with
    /// `begin_file` and `needs_hash`.
    pub fn found(&mut self, entry: FoundEntry) -> (file: Option<(u64, Vec<u8>)>)
        requires
            match entry {
                FoundEntry::File { size, .. } => size == 0 ==> old(self).files_total < usize::MAX,
                FoundEntry::Symlink { .. } => true,
            },
        ensures
            match entry {
                FoundEntry::Symlink { .. } => file is None && *final(self) == *old(self),
                FoundEntry::File { path, size } => if size == 0 {
                    file is None && Output::empty_file_post(*old(self), *final(self), path@)
                } else {
                    file matches Some((s, p)) && s == size && p@ == path@ && *final(self) == *old(self)
                },
            },
    {
        match entry {
            FoundEntry::Symlink { .. } => None,
            FoundEntry::File { path, size } => {
                if size == 0 {
                    self.empty_file(path);
                    None
                } else {
                    Some((size, path))
                }
            },
        }
    }

    /// Starts recording a file with a size that is not zero: counts it, and
    /// takes out the file of that size that was left unread, if any, which
    /// must be read first.
    pub fn begin_file(&mut self, size: u64) -> (unread: Option<Vec<u8>>)
        requires
            size > 0,
            old(self).files_total < usize::MAX,
            old(self).size_total + size <= u64::MAX,
        ensures
        Output::begin_file_post(*old(self), *final(self), size, opt_path_view(unread)),
    {
        self.files_total += 1;
        self.size_total += size;
        let mut files = self.take_size(size);
        let unread = files.last_unread.take();
        self.put_size(size, files);
        proof {
            if old(self).unread_alone() {
                assert forall|s: u64| #[trigger] self.size_view(s).0 is Some implies self.size_view(s).1.len() == 0 by {
                    if s != size {
                        assert(self.size_view(s) == old(self).size_view(s));
                    }
                }
            }
        }
        unread
    }

    /// Records that the file that was left unread was read: it counts as read
    /// and, if its contents could be read, joins the files with their md5 digest.
    pub fn unread_hashed(&mut self, size: u64, path: Vec<u8>, contents: Option<&[u8]>)
        requires
            old(self).files_read < usize::MAX,
            old(self).size_read + size <= u64::MAX,
        ensures
        Output::unread_hashed_post(*old(self), *final(self), size, path@, contents_digest(contents)),
    {
        self.files_read += 1;
        self.size_read += size;
        if let Some(contents) = contents {
            let digest = file_md5(contents);
            let mut files = self.take_size(size);
            add_file(&mut files.files_by_md5, digest, path);
            self.put_size(size, files);
        } else {
            assert forall|s: u64| s != size implies #[trigger] self.size_view(s) == old(self).size_view(s) by {}
        }
        proof {
            if old(self).unread_alone() && old(self).size_view(size).0 is None {
                assert forall|s: u64| #[trigger] self.size_view(s).0 is Some implies self.size_view(s).1.len() == 0 by {
                    if s != size {
                        assert(self.size_view(s) == old(self).size_view(s));
                    }
                }
            }
        }
    }

    /// Continues recording a file with a size that is not zero: if no file of
    /// that size was read yet, it is left unread; otherwise it must be read,
    /// and its path is given back.
    pub fn needs_hash(&mut self, size: u64, path: Vec<u8>) -> (to_read: Option<Vec<u8>>)
        requires
            old(self).size_view(size).0 is None,
        ensures
        Output::needs_hash_post(*old(self), *final(self), size, path@, opt_path_view(to_read)),
    {
        let mut files = self.take_size(size);
        if files.files_by_md5.len() == 0 {
            files.last_unread = Some(path);
            self.put_size(size, files);
            None
        } else {
            self.put_size(size, files);
            Some(path)
        }
    }

    /// Records that a file was read: if its contents could be read, it counts
    /// as read and joins the files with their md5 digest.
    pub fn file_hashed(&mut self, size: u64, path: Vec<u8>, contents: Option<&[u8]>)
        requires
            old(self).files_read < usize::MAX,
            old(self).size_read + size <= u64::MAX,
        ensures
        Output::file_hashed_post(*old(self), *final(self), size, path@, contents_digest(contents)),
    {
        if let Some(contents) = contents {
            let digest = file_md5(contents);
            self.files_read += 1;
            self.size_read += size;
            let mut files = self.take_size(size);
            add_file(&mut files.files_by_md5, digest, path);
            self.put_size(size, files);
        } else {
            assert forall|s: u64| s != size implies #[trigger] self.size_view(s) == old(self).size_view(s) by {}
        }
        proof {
            if old(self).unread_alone() && old(self).size_view(size).0 is None {
                assert forall|s: u64| #[trigger] self.size_view(s).0 is Some implies self.size_view(s).1.len() == 0 by {
                    if s != size {
                        assert(self.size_view(s) == old(self).size_view(s));
                    }
                }
            }
        }
    }
}

/// A path given back, as values
pub open spec fn opt_path_view(path: Option<Vec<u8>>) -> Option<Seq<u8>> {
    match path {
        Some(path) => Some(path@),
        None => None,
    }
}

/// The md5 digest of a file's contents, if they could be read
pub open spec fn contents_digest(contents: Option<&[u8]>) -> Option<Seq<u8>> {
    match contents {
        Some(contents) => Some(md5_digest(contents@)),
        None => None,
    }
}

/// The files with one size, as values: the unread file, and the files by digest
pub open spec fn files_view(files: FilesBySize) -> SizeView {
    (
        match files.last_unread {
            Some(path) => Some(path@),
            None => None,
        },
        groups_view(files.files_by_md5@),
    )
}

/// The files by size of a list, as values
pub open spec fn sizes_view(files_by_size: Seq<(u64, FilesBySize)>) -> Seq<(u64, SizeView)> {
    files_by_size.map_values(|p: (u64, FilesBySize)| (p.0, files_view(p.1)))
}

/// The files of one size and one digest, when more than one has them
#[derive(PartialEq, Eq, Clone, Debug)]
pub struct DuplicateGroup {
    pub size: u64,
    pub digest: Digest,
    pub files: Vec<Vec<u8>>,
}

/// A group of duplicates, as values: its size, its digest and its files
pub type DuplicateView = (u64, Seq<u8>, Seq<Seq<u8>>);

/// A group of duplicates, as values
pub open spec fn duplicate_view(group: DuplicateGroup) -> DuplicateView {
    (group.size, group.digest@, group.files@.map_values(|f: Vec<u8>| f@))
}

/// The groups of duplicates, as values
pub open spec fn duplicates_view(groups: Seq<DuplicateGroup>) -> Seq<DuplicateView> {
    groups.map_values(|g: DuplicateGroup| duplicate_view(g))
}

/// The groups of duplicates among the groups of files of one size: in their
/// order, those that hold more than one file
pub open spec fn groups_duplicates(size: u64, groups: GroupsView) -> Seq<DuplicateView>
    decreases groups.len(),
{
    if groups.len() == 0 {
        Seq::empty()
    } else {
        let rest = groups_duplicates(size, groups.drop_last());
        let (digest, files) = groups.last();
        if files.len() > 1 {
            rest.push((size, digest, files))
        } else {
            rest
        }
    }
}

/// The groups of duplicates among the files of one size: none if a file was
/// left unread, since then no file of that size was read
pub open spec fn size_duplicates(size: u64, files: SizeView) -> Seq<DuplicateView> {
    if files.0 is Some {
        Seq::empty()
    } else {
        groups_duplicates(size, files.1)
    }
}

/// The groups of duplicates among the files of each size, in order
pub open spec fn all_duplicates(sizes: Seq<(u64, SizeView)>) -> Seq<DuplicateView>
    decreases sizes.len(),
{
    if sizes.len() == 0 {
        Seq::empty()
    } else {
        all_duplicates(sizes.drop_last()) + size_duplicates(sizes.last().0, sizes.last().1)
    }
}

/// Each size with its position in a list of files by size
pub open spec fn size_keys(sizes: Seq<(u64, SizeView)>) -> Seq<(u64, usize)> {
    Seq::new(sizes.len(), |i: int| (sizes[i].0, i as usize))
}

/// The order of sizes
pub open spec fn size_le() -> spec_fn((u64, usize), (u64, usize)) -> bool {
    |lhs: (u64, usize), rhs: (u64, usize)| lhs.0 <= rhs.0
}

/// Files by size, from the smallest size up; files of equal sizes keep their order
pub open spec fn by_size(sizes: Seq<(u64, SizeView)>) -> Seq<(u64, SizeView)> {
    stable_sorted(size_keys(sizes), size_le()).map_values(|k: (u64, usize)| sizes[k.1 as int])
}

/// Whether a slot holds the files of a size, if it holds any
spec fn slot_holds(slot: Option<FilesBySize>, view: (u64, SizeView)) -> bool {
    match slot {
        Some(files) => files_view(files) == view.1,
        None => true,
    }
}

/// Collects the groups of duplicated files among the files found, by size:
/// from the smallest size up, the groups of files with one digest that hold
/// more than one file. A size whose file was left unread has none.
pub fn duplicate_groups(files_by_size: Vec<(u64, FilesBySize)>) -> (groups: Vec<DuplicateGroup>)
    ensures
        duplicates_view(groups@) == all_duplicates(by_size(sizes_view(files_by_size@))),
{
    let ghost views = sizes_view(files_by_size@);
    let n = files_by_size.len();
    let mut keys: Vec<(u64, usize)> = Vec::new();
    let mut i: usize = 0;
    while i < n
        invariant
            n == files_by_size@.len(),
            views == sizes_view(files_by_size@),
            i <= n,
            keys@ == size_keys(views).take(i as int),
        decreases n - i,
    {
        keys.push((files_by_size[i].0, i));
        i += 1;
        assert(keys@ =~= size_keys(views).take(i as int));
    }
    assert(keys@ =~= size_keys(views));
    let le = |lhs: &(u64, usize), rhs: &(u64, usize)| -> (b: bool)
        ensures
            b == size_le()(*lhs, *rhs),
        {
            lhs.0 <= rhs.0
        };
    let (sorted, Ghost(perm)) = stable_sort(keys.as_slice(), &le, Ghost(size_le()));
    proof {
        lemma_is_stable_sorted(sorted@, keys@, perm, size_le());
        lemma_stable_sort_is_permutation(sorted@, keys@, perm, size_le());
    }

    // The files of each size, to take them out in the sorted order
    let mut source = files_by_size;
    let mut slots: Vec<Option<FilesBySize>> = Vec::new();
    while source.len() > 0
        invariant
            views == sizes_view(files_by_size@),
            n == files_by_size@.len(),
            source@.len() + slots@.len() == n,
            source@ == files_by_size@.take(source@.len() as int),
            forall|j: int| 0 <= j < slots@.len() ==> (#[trigger] slots@[j]) is Some && slot_holds(slots@[j], views[n - 1 - j]),
        decreases source@.len(),
    {
        let (_size, files) = source.pop().unwrap();
        proof {
            assert(views[source@.len() as int].1 == files_view(files));
        }
        slots.push(Some(files));
        assert(source@ =~= files_by_size@.take(source@.len() as int));
    }

    let mut groups: Vec<DuplicateGroup> = Vec::new();
    let mut k: usize = 0;
    while k < n
        invariant
            views == sizes_view(files_by_size@),
            n == files_by_size@.len(),
            n == views.len(),
            slots@.len() == n,
            sorted@.len() == n,
            keys@ == size_keys(views),
            is_stable_sort_of(sorted@, keys@, perm, size_le()),
            forall|a: int, b: int| 0 <= a < b < n ==> perm[a] != perm[b],
            k <= n,
            forall|j: int|
                0 <= j < n ==> (#[trigger] slots@[n - 1 - j] is Some <==> forall|a: int| 0 <= a < k ==> perm[a] != j),
            forall|j: int| 0 <= j < n ==> slot_holds(#[trigger] slots@[n - 1 - j], views[j]),
            duplicates_view(groups@) == all_duplicates(
                sorted@.take(k as int).map_values(|key: (u64, usize)| views[key.1 as int]),
            ),
        decreases n - k,
    {
        let (size, idx) = sorted[k];
        proof {
            assert(sorted@[k as int] == keys@[perm[k as int]]);
            assert(idx == perm[k as int] && 0 <= idx < n);
            assert(size == views[idx as int].0);
            assert forall|a: int| 0 <= a < k implies perm[a] != idx by {
                assert(perm[a] != perm[k as int]);
            }
        }
        assert(slot_holds(slots@[n - 1 - idx as int], views[idx as int]));
        assert(slots@[n - 1 - idx as int] is Some);
        let ghost slot = slots@[n - 1 - idx as int];
        let files = slots[n - 1 - idx].take().unwrap();
        assert(Some(files) == slot);
        assert(files_view(files) == views[idx as int].1);
        let ghost size_groups = views[idx as int].1.1;
        if files.last_unread.is_none() {
            let mut digest_groups = files.files_by_md5;
            let ghost total = groups_view(digest_groups@);
            let ghost start = duplicates_view(groups@);
            let mut done: usize = 0;
            assert(total.len() == digest_groups@.len());
            assert(total.skip(0) =~= total);
            assert(total.take(0) =~= Seq::<(Seq<u8>, Seq<Seq<u8>>)>::empty());
            assert(start + Seq::<DuplicateView>::empty() =~= start);
            assert(files_view(files).1 == total);
            assert(total == size_groups);
            assert(digest_groups@.len() == digest_groups.len());
            while digest_groups.len() > 0
                invariant
                    total == size_groups,
                    total.len() <= usize::MAX,
                    groups_view(digest_groups@) == total.skip(done as int),
                    done <= total.len(),
                    duplicates_view(groups@) == start + groups_duplicates(size, total.take(done as int)),
                decreases digest_groups@.len(),
            {
                let ghost before = digest_groups@;
                assert(groups_view(before).len() == before.len());
                assert(done < total.len());
                let group = digest_groups.remove(0);
                proof {
                    assert(groups_view(before)[0] == total[done as int]);
                    assert forall|j: int| 0 <= j < digest_groups@.len() implies #[trigger] groups_view(digest_groups@)[j]
                        == total.skip(done + 1)[j] by {
                        assert(digest_groups@[j] == before[j + 1]);
                        assert(groups_view(before)[j + 1] == total.skip(done as int)[j + 1]);
                    }
                    assert(groups_view(digest_groups@) =~= total.skip(done + 1));
                    assert(total.take(done + 1).drop_last() =~= total.take(done as int));
                    assert(total.take(done + 1).last() == total[done as int]);
                    assert(total[done as int] == (group.digest@, group.files@.map_values(|f: Vec<u8>| f@)));
                }
                let ghost before_groups = groups@;
                let ghost earlier = groups_duplicates(size, total.take(done as int));
                if group.files.len() > 1 {
                    let duplicate = DuplicateGroup { size, digest: group.digest, files: group.files };
                    groups.push(duplicate);
                    proof {
                        assert(groups_duplicates(size, total.take(done + 1)) == earlier.push(duplicate_view(duplicate)));
                        assert(duplicates_view(groups@) =~= duplicates_view(before_groups).push(duplicate_view(duplicate)));
                        assert(duplicates_view(groups@) =~= start + groups_duplicates(size, total.take(done + 1)));
                    }
                } else {
                    assert(groups_duplicates(size, total.take(done + 1)) == earlier);
                }
                done += 1;
            }
            assert(total.take(done as int) =~= total);
        }
        proof {
            let prefix = sorted@.take(k + 1).map_values(|key: (u64, usize)| views[key.1 as int]);
            assert(prefix.drop_last() =~= sorted@.take(k as int).map_values(|key: (u64, usize)| views[key.1 as int]));
            assert(prefix.last() == views[idx as int]);
            assert forall|j: int| 0 <= j < n implies (#[trigger] slots@[n - 1 - j] is Some <==> forall|a: int|
                0 <= a < k + 1 ==> perm[a] != j) by {
                if j == idx {
                    assert(perm[k as int] == j);
                }
            }
        }
        k += 1;
    }
    proof {
        assert(sorted@.take(n as int) =~= sorted@);
        assert(by_size(views) =~= sorted@.map_values(|key: (u64, usize)| views[key.1 as int]));
    }
    groups
}

/// What the duplicates take beyond one copy of each: for each group, its size
/// times the number of its files but one (none if it has none), summed,
/// wrapping around as `u64` arithmetic does
pub open spec fn duplicates_overhead(groups: Seq<DuplicateView>) -> u64
    decreases groups.len(),
{
    if groups.len() == 0 {
        0
    } else {
        let (size, _, files) = groups.last();
        let copies: u64 = if files.len() > 0 {
            (files.len() - 1) as u64
        } else {
            0
        };
        vstd::wrapping::u64_specs::wrapping_add(
            duplicates_overhead(groups.drop_last()),
            vstd::wrapping::u64_specs::wrapping_mul(copies, size),
        )
    }
}

/// Computes what the duplicates take beyond one copy of each
pub fn duplicate_overhead(groups: &Vec<DuplicateGroup>) -> (overhead: u64)
    ensures
        overhead == duplicates_overhead(duplicates_view(groups@)),
{
    let mut total: u64 = 0;
    let mut i: usize = 0;
    while i < groups.len()
        invariant
            i <= groups@.len(),
            total == duplicates_overhead(duplicates_view(groups@.take(i as int))),
        decreases groups@.len() - i,
    {
        let group = &groups[i];
        let len = group.files.len();
        let copies: u64 = if len > 0 {
            (len - 1) as u64
        } else {
            0
        };
        total = total.wrapping_add(copies.wrapping_mul(group.size));
        proof {
            let taken = duplicates_view(groups@.take(i + 1));
            assert(taken.drop_last() =~= duplicates_view(groups@.take(i as int)));
            assert(taken.last() == duplicate_view(groups@[i as int]));
        }
        i += 1;
    }
    assert(groups@.take(groups@.len() as int) =~= groups@);
    total
}

/// Adds a file to the files of its digest
fn add_file(groups: &mut Vec<DigestFiles>, digest: Digest, path: Vec<u8>)
    ensures
        groups_view(final(groups)@) == groups_with(groups_view(old(groups)@), digest@, path@),
{
    let ghost old_view = groups_view(groups@);
    let mut i: usize = 0;
    while i < groups.len()
        invariant
            groups@ == old(groups)@,
            old_view == groups_view(groups@),
            i <= groups@.len(),
            forall|j: int| 0 <= j < i ==> (#[trigger] groups@[j]).digest@ != digest@,
        decreases groups@.len() - i,
    {
        if crate::util::bytes_eq(&groups[i].digest, &digest) {
            let mut group = groups.remove(i);
            let ghost old_files = group.files@;
            group.files.push(path);
            groups.insert(i, group);
            proof {
                lemma_groups_with_at(old_view, digest@, path@, i as int);
                assert(groups@ =~= old(groups)@.update(i as int, group));
                assert(group.files@.map_values(|f: Vec<u8>| f@) =~= old_files.map_values(|f: Vec<u8>| f@).push(path@));
                assert(group.digest@ == digest@);
                assert(groups_view(groups@) =~= old_view.update(i as int, (digest@, old_view[i as int].1.push(path@))));
            }
            return;
        }
        i += 1;
    }
    let mut files = Vec::new();
    files.push(path);
    groups.push(DigestFiles { digest, files });
    proof {
        lemma_groups_with_none(old_view, digest@, path@);
        let new_group = groups@.last();
        assert(new_group.files@.map_values(|f: Vec<u8>| f@) =~= seq![path@]);
        assert(groups_view(groups@) =~= old_view.push((digest@, seq![path@])));
    }
}

proof fn lemma_groups_with_at(groups: GroupsView, digest: Seq<u8>, path: Seq<u8>, i: int)
    requires
        0 <= i < groups.len(),
        groups[i].0 == digest,
        forall|j: int| 0 <= j < i ==> groups[j].0 != digest,
    ensures
        groups_with(groups, digest, path) == groups.update(i, (digest, groups[i].1.push(path))),
    decreases i,
{
    if i > 0 {
        lemma_groups_with_at(groups.drop_first(), digest, path, i - 1);
        assert(seq![groups[0]] + groups.drop_first().update(i - 1, (digest, groups[i].1.push(path))) =~= groups.update(
            i,
            (digest, groups[i].1.push(path)),
        ));
    }
}

proof fn lemma_groups_with_none(groups: GroupsView, digest: Seq<u8>, path: Seq<u8>)
    requires
        forall|j: int| 0 <= j < groups.len() ==> groups[j].0 != digest,
    ensures
        groups_with(groups, digest, path) == groups.push((digest, seq![path])),
    decreases groups.len(),
{
    if groups.len() > 0 {
        lemma_groups_with_none(groups.drop_first(), digest, path);
        assert(seq![groups[0]] + groups.drop_first().push((digest, seq![path])) =~= groups.push((digest, seq![path])));
    }
}

/// Finds duplicated files within an archive import: walks the entries within
/// `entry_import`, whose path is `entry_path`, with the importer just after its
/// header, and gives the files and symlinks met, in the order of the archive.
///
/// Their contents are read by the caller, which records them in an `Output`.
pub fn find_duplicates(importer: &mut Importer, entry_import: DirEntry, entry_path: Vec<u8>) -> (res: Result<Vec<FoundEntry>, ImportError>)
    requires
        old(importer).wf(),
    ensures
        final(importer).data() == old(importer).data(),
        final(importer).wf(),
        match spec_walk(old(importer).data(), old(importer).pos(), entry_import, entry_path@) {
            Ok((walked, end)) => res matches Ok(found) && founds_view(found@) == walked && final(importer).pos() == end,
            Err(e) => res == Err::<Vec<FoundEntry>, ImportError>(e),
        },
{
    let mut found = Vec::new();
    assert(founds_view(found@) =~= Seq::empty());
    self::entry(importer, entry_import, entry_path.as_slice(), &mut found)?;
    proof {
        if let Ok((walked, _)) = spec_walk(old(importer).data(), old(importer).pos(), entry_import, entry_path@) {
            assert(Seq::<(Seq<u8>, Option<u64>)>::empty() + walked =~= walked);
        }
    }
    Ok(found)
}

} // verus!
