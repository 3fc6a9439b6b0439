//! The disc image project that mkpsxiso reads and writes: its tracks and
//! their directory trees.

use vstd::prelude::*;

verus! {

/// A disc image project.
pub struct IsoProject {
    pub image_name: String,
    pub cue_sheet: String,
    pub track: Vec<Track>,
}

/// One track of the image.
pub struct Track {
    pub track_type: String,
    pub directory_tree: DirectoryTree,
    pub identifiers: Option<Identifiers>,
    pub license: Option<License>,
    pub default_attributes: Option<DefaultAttributes>,
}

/// An entry of a directory: a subdirectory or a file.
pub enum DirEntry {
    Dir(Dir),
    File(File),
}

/// The root of a track's files.
pub struct DirectoryTree {
    pub field: Vec<DirEntry>,
}

/// The identifiers written into the image.
pub struct Identifiers {
    pub system: String,
    pub application: String,
    pub volume: String,
    pub publisher: String,
    pub data_preparer: String,
    pub copyright: String,
    pub creation_date: String,
}

/// The license file of the image.
pub struct License {
    pub file: String,
}

/// Attributes of the entries that do not give their own.
pub struct DefaultAttributes {
    pub gmt_offs: i32,
    pub xa_attrib: i32,
    pub xa_perm: i32,
    pub xa_gid: i32,
    pub xa_uid: i32,
}

/// A directory of the image.
pub struct Dir {
    pub field: Vec<DirEntry>,
    pub name: String,
    pub source: String,
}

/// A file of the image, with the sector it is placed at if the project
/// fixes one.
pub struct File {
    pub name: String,
    pub source: String,
    pub offs: Option<u32>,
    pub file_type: String,
}

/// Why a project cannot be worked on.
#[derive(Debug, Clone, Copy, PartialEq, Eq, Structural)]
pub enum IsoError {
    /// No track of type "data".
    MissingDataTrack,
}

impl File {
    /// A copy of the file entry.
    pub fn copy(&self) -> (r: File)
        ensures
            r == *self,
    {
        File {
            name: self.name.clone(),
            source: self.source.clone(),
            offs: self.offs,
            file_type: self.file_type.clone(),
        }
    }
}

/// The files of a list of entries, depth first, in order.
pub open spec fn files_in(entries: Seq<DirEntry>) -> Seq<File>
    decreases entries,
{
    if entries.len() == 0 {
        Seq::empty()
    } else {
        let last = entries[entries.len() - 1];
        let rest = files_in(entries.subrange(0, entries.len() - 1));
        match last {
            DirEntry::File(f) => rest.push(f),
            DirEntry::Dir(d) => rest + files_in(d.field@),
        }
    }
}

/// Appends the files of the entries, depth first.
fn rflatten(entries: &Vec<DirEntry>, result: &mut Vec<File>)
    ensures
        final(result)@ == old(result)@ + files_in(entries@),
    decreases entries@,
{
    let mut i: usize = 0;
    while i < entries.len()
        invariant
            i <= entries.len(),
            result@ == old(result)@ + files_in(entries@.subrange(0, i as int)),
        decreases entries.len() - i,
    {
        let ghost before = result@;
        assert(entries@.subrange(0, i + 1).subrange(0, i as int) =~= entries@.subrange(0, i as int));
        match &entries[i] {
            DirEntry::File(f) => {
                result.push(f.copy());
            },
            DirEntry::Dir(d) => {
                assert(decreases_to!(entries@ => d.field@)) by {
                    assert(decreases_to!(entries@ => entries@[i as int]));
                };
                rflatten(&d.field, result);
            },
        }
        assert(result@ =~= old(result)@ + files_in(entries@.subrange(0, i + 1)));
        i += 1;
    }
    assert(entries@.subrange(0, i as int) =~= entries@);
}

/// The file entry without a fixed sector.
pub open spec fn without_offset(f: File) -> File {
    File { offs: None, ..f }
}

/// `new` is `old` with the sector of every file, at any depth, removed.
pub open spec fn entries_cleared(old_e: Seq<DirEntry>, new_e: Seq<DirEntry>) -> bool
    decreases old_e,
{
    &&& old_e.len() == new_e.len()
    &&& forall|i: int| 0 <= i < old_e.len() ==> entry_cleared(#[trigger] old_e[i], new_e[i])
}

/// `new` is the entry `old` with the sector of every file removed.
pub open spec fn entry_cleared(old_e: DirEntry, new_e: DirEntry) -> bool
    decreases old_e,
{
    match old_e {
        DirEntry::File(f) => new_e == DirEntry::File(without_offset(f)),
        DirEntry::Dir(d) => match new_e {
            DirEntry::Dir(d2) => d2.name == d.name && d2.source == d.source && entries_cleared(d.field@, d2.field@),
            DirEntry::File(_) => false,
        },
    }
}

/// Removes the sector of every file of the entries, at any depth.
fn rremove_offsets(entries: &mut Vec<DirEntry>)
    ensures
        entries_cleared(old(entries)@, final(entries)@),
    decreases old(entries)@,
{
    let mut i: usize = 0;
    while i < entries.len()
        invariant
            i <= entries.len() == old(entries).len(),
            forall|q: int| 0 <= q < i ==> entry_cleared(#[trigger] old(entries)@[q], entries@[q]),
            forall|q: int| i <= q < entries.len() ==> #[trigger] entries@[q] == old(entries)@[q],
        decreases entries.len() - i,
    {
        let ghost before = entries@;
        let e = &mut entries[i];
        match e {
            DirEntry::File(f) => {
                f.offs = None;
            },
            DirEntry::Dir(d) => {
                assert(decreases_to!(old(entries)@ => d.field@)) by {
                    assert(decreases_to!(old(entries)@ => old(entries)@[i as int]));
                };
                rremove_offsets(&mut d.field);
            },
        }
        proof {
            assert forall|q: int| 0 <= q < i + 1 implies entry_cleared(#[trigger] old(entries)@[q], entries@[q]) by {
                if q < i {
                    assert(entries@[q] == before[q]);
                }
            }
        }
        i += 1;
    }
}

/// Removing the sectors leaves the same files, in the same order, each
/// without its sector.
pub proof fn lemma_cleared_files(old_e: Seq<DirEntry>, new_e: Seq<DirEntry>)
    requires
        entries_cleared(old_e, new_e),
    ensures
        files_in(new_e) == files_in(old_e).map_values(|f: File| without_offset(f)),
    decreases old_e,
{
    if old_e.len() > 0 {
        let n = old_e.len() - 1;
        let old_rest = old_e.subrange(0, n);
        let new_rest = new_e.subrange(0, n);
        assert(entries_cleared(old_rest, new_rest)) by {
            assert forall|i: int| 0 <= i < old_rest.len() implies entry_cleared(#[trigger] old_rest[i], new_rest[i]) by {
                assert(entry_cleared(old_e[i], new_e[i]));
            }
        }
        lemma_cleared_files(old_rest, new_rest);
        assert(entry_cleared(old_e[n], new_e[n]));
        match old_e[n] {
            DirEntry::File(f) => {
                assert(files_in(old_e) == files_in(old_rest).push(f));
                assert(files_in(new_e) == files_in(new_rest).push(without_offset(f)));
                assert(files_in(old_rest).push(f).map_values(|f: File| without_offset(f)) =~= files_in(
                    old_rest,
                ).map_values(|f: File| without_offset(f)).push(without_offset(f)));
            },
            DirEntry::Dir(d) => {
                let d2 = new_e[n]->Dir_0;
                assert(decreases_to!(old_e => d.field@)) by {
                    assert(decreases_to!(old_e => old_e[n]));
                };
                lemma_cleared_files(d.field@, d2.field@);
                assert(files_in(old_e) == files_in(old_rest) + files_in(d.field@));
                assert(files_in(new_e) == files_in(new_rest) + files_in(d2.field@));
                assert((files_in(old_rest) + files_in(d.field@)).map_values(|f: File| without_offset(f))
                    =~= files_in(old_rest).map_values(|f: File| without_offset(f)) + files_in(d.field@).map_values(
                    |f: File| without_offset(f),
                ));
            },
        }
    } else {
        assert(files_in(new_e) =~= files_in(old_e).map_values(|f: File| without_offset(f)));
    }
}

/// The track holds the data files.
pub open spec fn is_data(t: Track) -> bool {
    t.track_type@ == "data"@
}

/// `k` is the first data track.
pub open spec fn first_data(tracks: Seq<Track>, k: int) -> bool {
    &&& 0 <= k < tracks.len()
    &&& is_data(tracks[k])
    &&& forall|j: int| 0 <= j < k ==> !is_data(#[trigger] tracks[j])
}

/// Some track holds the data files.
pub open spec fn has_data(tracks: Seq<Track>) -> bool {
    exists|k: int| 0 <= k < tracks.len() && is_data(#[trigger] tracks[k])
}

/// There is only one first data track.
proof fn lemma_first_data_unique(tracks: Seq<Track>, a: int, b: int)
    requires
        first_data(tracks, a),
        first_data(tracks, b),
    ensures
        a == b,
{
    if a < b {
        assert(!is_data(tracks[a]));
    } else if b < a {
        assert(!is_data(tracks[b]));
    }
}

/// The first data track, if there is one.
fn find_data(tracks: &Vec<Track>) -> (r: Option<usize>)
    ensures
        match r {
            Some(k) => first_data(tracks@, k as int),
            None => !has_data(tracks@),
        },
{
    let data = String::from_str("data");
    let mut k: usize = 0;
    while k < tracks.len()
        invariant
            k <= tracks.len(),
            data@ == "data"@,
            forall|j: int| 0 <= j < k ==> !is_data(#[trigger] tracks@[j]),
        decreases tracks.len() - k,
    {
        if tracks[k].track_type == data {
            return Some(k);
        }
        k += 1;
    }
    None
}

/// The project's tracks are those of `old` but for the first data track,
/// whose files have lost their sectors.
pub open spec fn offsets_removed(old_t: Seq<Track>, new_t: Seq<Track>) -> bool {
    &&& new_t.len() == old_t.len()
    &&& forall|k: int|
        0 <= k < old_t.len() && !first_data(old_t, k) ==> #[trigger] new_t[k] == old_t[k]
    &&& forall|k: int|
        #![trigger first_data(old_t, k)]
        first_data(old_t, k) ==> {
            &&& new_t[k].track_type == old_t[k].track_type
            &&& new_t[k].identifiers == old_t[k].identifiers
            &&& new_t[k].license == old_t[k].license
            &&& new_t[k].default_attributes == old_t[k].default_attributes
            &&& entries_cleared(old_t[k].directory_tree.field@, new_t[k].directory_tree.field@)
        }
}

impl IsoProject {
    /// The files of the first data track, depth first.
    pub fn flatten(&self) -> (r: Result<Vec<File>, IsoError>)
        ensures
            r is Ok <==> has_data(self.track@),
            forall|k: int|
                #![trigger first_data(self.track@, k)]
                first_data(self.track@, k) ==> (r matches Ok(files) && files@ == files_in(
                    self.track@[k].directory_tree.field@,
                )),
    {
        match find_data(&self.track) {
            None => Err(IsoError::MissingDataTrack),
            Some(k) => {
                let mut result: Vec<File> = Vec::new();
                rflatten(&self.track[k].directory_tree.field, &mut result);
                proof {
                    assert(result@ =~= files_in(self.track@[k as int].directory_tree.field@));
                    assert forall|j: int| #![trigger first_data(self.track@, j)] first_data(self.track@, j) implies j == k by {
                        lemma_first_data_unique(self.track@, j, k as int);
                    }
                }
                Ok(result)
            },
        }
    }

    /// Removes the sector of every file of the first data track, so that
    /// mkpsxiso lays the files out anew.
    pub fn remove_offsets(&mut self) -> (r: Result<(), IsoError>)
        ensures
            r is Ok <==> has_data(old(self).track@),
            final(self).image_name == old(self).image_name,
            final(self).cue_sheet == old(self).cue_sheet,
            r is Err ==> final(self).track@ == old(self).track@,
            offsets_removed(old(self).track@, final(self).track@),
    {
        match find_data(&self.track) {
            None => Err(IsoError::MissingDataTrack),
            Some(k) => {
                let ghost before = self.track@;
                let t = &mut self.track[k];
                rremove_offsets(&mut t.directory_tree.field);
                proof {
                    assert forall|j: int|
                        #![trigger first_data(before, j)]
                        first_data(before, j) implies j == k by {
                        lemma_first_data_unique(before, j, k as int);
                    }
                }
                Ok(())
            },
        }
    }
}

/// After `remove_offsets`, the first data track is the same one, and
/// `flatten` gives the same files as before, in the same order, each
/// without its sector.
pub proof fn lemma_flatten_after_remove_offsets(old_t: Seq<Track>, new_t: Seq<Track>, k: int)
    requires
        offsets_removed(old_t, new_t),
        first_data(old_t, k),
    ensures
        first_data(new_t, k),
        files_in(new_t[k].directory_tree.field@) == files_in(old_t[k].directory_tree.field@).map_values(
            |f: File| without_offset(f),
        ),
{
    assert forall|j: int| 0 <= j < k implies !is_data(#[trigger] new_t[j]) by {
        assert(!is_data(old_t[j]));
        assert(!first_data(old_t, j));
        assert(new_t[j] == old_t[j]);
    }
    lemma_cleared_files(old_t[k].directory_tree.field@, new_t[k].directory_tree.field@);
}

} // verus!
