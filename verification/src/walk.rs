use vstd::prelude::*;

use crate::db::{add_all, Database, FileEntry, MAX_ID};
use crate::error::FotosError;

verus! {

/// What kind of directory entry the reader saw.
#[derive(Clone, Copy, Debug, PartialEq, Eq, Structural)]
pub enum EntryKind {
    Directory,
    File,
    Other,
}

/// Metadata as read from the filesystem; a timestamp is `None` when it
/// could not be read or precedes the epoch.
#[derive(Debug, Clone)]
pub struct RawMeta {
    pub size: u64,
    pub created_at: Option<u64>,
    pub modified_at: Option<u64>,
}

/// One directory entry as the application shell reports it: the full
/// path (used to recurse into directories), the path relative to the
/// base directory (`None` when it cannot be formed), the entry's kind
/// (`Other` when it could not be determined), and its metadata (`None`
/// when it could not be read).
#[derive(Debug, Clone)]
pub struct RawEntry {
    pub path: String,
    pub rel_path: Option<String>,
    pub kind: EntryKind,
    pub meta: Option<RawMeta>,
}

/// A relative path beginning with a dot is hidden — judged by the
/// literal prefix, not per path segment.
pub open spec fn is_hidden(p: Seq<char>) -> bool {
    p.len() > 0 && p[0] == '.'
}

/// Whether a record is made of this entry: a regular file inside the
/// base directory, not hidden, with every metadata field readable. An
/// entry failing any of these is dropped whole, never half-recorded.
pub open spec fn wanted(e: RawEntry) -> bool {
    match (e.rel_path, e.meta) {
        (Some(rel), Some(m)) => e.kind == EntryKind::File && m.created_at is Some
            && m.modified_at is Some && !is_hidden(rel@),
        _ => false,
    }
}

/// The record a wanted entry becomes: relative path, size, both
/// timestamps, no id (the store assigns one), no fingerprint yet.
pub open spec fn entry_file(e: RawEntry) -> FileEntry
    recommends
        wanted(e),
{
    match (e.rel_path, e.meta) {
        (Some(rel), Some(m)) => match (m.created_at, m.modified_at) {
            (Some(c), Some(mo)) => FileEntry {
                id: None,
                path: rel,
                size: m.size,
                created_at: c,
                modified_at: mo,
            },
            _ => arbitrary(),
        },
        _ => arbitrary(),
    }
}

/// The records of one directory listing, in listing order.
pub open spec fn batch_of(entries: Seq<RawEntry>) -> Seq<FileEntry>
    decreases entries.len(),
{
    if entries.len() == 0 {
        Seq::empty()
    } else if wanted(entries.last()) {
        batch_of(entries.drop_last()).push(entry_file(entries.last()))
    } else {
        batch_of(entries.drop_last())
    }
}

/// The full paths of the subdirectories of one listing, in order.
pub open spec fn dirs_of(entries: Seq<RawEntry>) -> Seq<String>
    decreases entries.len(),
{
    if entries.len() == 0 {
        Seq::empty()
    } else if entries.last().kind == EntryKind::Directory {
        dirs_of(entries.drop_last()).push(entries.last().path)
    } else {
        dirs_of(entries.drop_last())
    }
}

/// Build the record batch of one directory listing.
pub fn build_dir_batch(entries: &Vec<RawEntry>) -> (batch: Vec<FileEntry>)
    ensures
        batch@ == batch_of(entries@),
{
    let mut batch: Vec<FileEntry> = Vec::new();
    let mut j: usize = 0;
    while j < entries.len()
        invariant
            j <= entries@.len(),
            batch@ == batch_of(entries@.take(j as int)),
        decreases entries@.len() - j,
    {
        proof {
            assert(entries@.take(j + 1).drop_last() =~= entries@.take(j as int));
            assert(entries@.take(j + 1).last() == entries@[j as int]);
        }
        let e = &entries[j];
        match (&e.rel_path, &e.meta) {
            (Some(rel), Some(m)) => {
                if e.kind == EntryKind::File && m.created_at.is_some() && m.modified_at.is_some() {
                    let hidden = if rel.as_str().is_empty() {
                        false
                    } else {
                        rel.as_str().get_char(0) == '.'
                    };
                    if !hidden {
                        let ghost before = batch@;
                        batch.push(
                            FileEntry {
                                id: None,
                                path: rel.clone(),
                                size: m.size,
                                created_at: m.created_at.unwrap(),
                                modified_at: m.modified_at.unwrap(),
                            },
                        );
                        proof {
                            assert(wanted(entries@[j as int]));
                            assert(batch@.last() == entry_file(entries@[j as int]));
                            assert(batch@ =~= before.push(entry_file(entries@[j as int])));
                        }
                    } else {
                        proof {
                            assert(!wanted(entries@[j as int]));
                        }
                    }
                } else {
                    proof {
                        assert(!wanted(entries@[j as int]));
                    }
                }
            },
            _ => {
                proof {
                    assert(!wanted(entries@[j as int]));
                }
            },
        }
        j += 1;
    }
    proof {
        assert(entries@.take(entries@.len() as int) =~= entries@);
    }
    batch
}

/// Collect the subdirectories of one directory listing.
pub fn subdir_paths(entries: &Vec<RawEntry>) -> (dirs: Vec<String>)
    ensures
        dirs@ == dirs_of(entries@),
{
    let mut dirs: Vec<String> = Vec::new();
    let mut j: usize = 0;
    while j < entries.len()
        invariant
            j <= entries@.len(),
            dirs@ == dirs_of(entries@.take(j as int)),
        decreases entries@.len() - j,
    {
        proof {
            assert(entries@.take(j + 1).drop_last() =~= entries@.take(j as int));
            assert(entries@.take(j + 1).last() == entries@[j as int]);
        }
        let e = &entries[j];
        if matches!(e.kind, EntryKind::Directory) {
            let ghost before = dirs@;
            dirs.push(e.path.clone());
            proof {
                assert(dirs@ =~= before.push(entries@[j as int].path));
            }
        }
        j += 1;
    }
    proof {
        assert(entries@.take(entries@.len() as int) =~= entries@);
    }
    dirs
}

/// Every entry that qualifies for a record — a regular file inside the
/// base directory, not hidden, with fully readable metadata — appears
/// in its directory's batch. Content readability is never consulted: a
/// file whose bytes cannot be read is still recorded with its size and
/// timestamps, and without a fingerprint, which only the filling loop
/// assigns.
pub proof fn lemma_batch_records_wanted(entries: Seq<RawEntry>, i: int)
    requires
        0 <= i < entries.len(),
        wanted(entries[i]),
    ensures
        batch_of(entries).contains(entry_file(entries[i])),
    decreases entries.len(),
{
    if i == entries.len() - 1 {
        assert(batch_of(entries)[batch_of(entries).len() - 1] == entry_file(entries[i]));
    } else {
        assert(entries.drop_last()[i] == entries[i]);
        lemma_batch_records_wanted(entries.drop_last(), i);
        let prev = batch_of(entries.drop_last());
        let w = choose|w: int| 0 <= w < prev.len() && prev[w] == entry_file(entries[i]);
        assert(batch_of(entries)[w] == entry_file(entries[i]));
    }
}

/// The mathematical value of one frame of the walk's work stack.
pub ghost struct FrameModel {
    pub batch: Seq<FileEntry>,
    pub pending: Seq<String>,
    pub next: int,
}

/// One frame of the walk: a directory's file batch, waiting until every
/// pending subdirectory below it has been walked and committed.
pub struct Frame {
    pub batch: Vec<FileEntry>,
    pub pending: Vec<String>,
    pub next: usize,
}

impl View for Frame {
    type V = FrameModel;

    open spec fn view(&self) -> FrameModel {
        FrameModel { batch: self.batch@, pending: self.pending@, next: self.next as int }
    }
}

/// What the walk asks its driver to do next.
pub enum WalkStep {
    Read(String),
    Commit,
    Done,
}

/// The recursive tree walk as an explicit work stack, so that the
/// driver only reads directories and forwards listings. A frame's batch
/// is committed only after every subdirectory below it: children's
/// batches reach the store before their parent's (post-order), which
/// bounds the records held in memory to one batch per open directory.
pub struct Walker {
    pub frames: Vec<Frame>,
}

impl View for Walker {
    type V = Seq<FrameModel>;

    open spec fn view(&self) -> Seq<FrameModel> {
        self.frames@.map_values(|f: Frame| f@)
    }
}

impl Walker {
    /// Every frame's cursor stays within its pending list.
    pub open spec fn wf(&self) -> bool {
        forall|i: int|
            0 <= i < self@.len() ==> 0 <= (#[trigger] self@[i]).next <= self@[i].pending.len()
    }

    /// A walk of the tree rooted at `root`: one sentinel frame with an
    /// empty batch whose only pending directory is the root itself.
    pub fn new(root: String) -> (w: Walker)
        ensures
            w.wf(),
            w@.len() == 1,
            w@[0].batch == Seq::<FileEntry>::empty(),
            w@[0].pending == seq![root],
            w@[0].next == 0,
    {
        let mut pending: Vec<String> = Vec::new();
        pending.push(root);
        let mut frames: Vec<Frame> = Vec::new();
        let frame = Frame { batch: Vec::new(), pending, next: 0 };
        frames.push(frame);
        let w = Walker { frames };
        proof {
            assert(w@[0].pending =~= seq![root]);
            assert(w@[0].batch =~= Seq::<FileEntry>::empty());
        }
        w
    }

    /// What to do next: read the next pending directory of the top
    /// frame, commit the top frame once nothing below it is pending, or
    /// stop when the stack is empty.
    pub fn next_step(&self) -> (s: WalkStep)
        requires
            self.wf(),
        ensures
            match s {
                WalkStep::Done => self@.len() == 0,
                WalkStep::Commit => self@.len() > 0 && self@.last().next == self@.last(
                ).pending.len(),
                WalkStep::Read(d) => self@.len() > 0 && self@.last().next < self@.last(
                ).pending.len() && d == self@.last().pending[self@.last().next],
            },
    {
        if self.frames.len() == 0 {
            return WalkStep::Done;
        }
        let f = &self.frames[self.frames.len() - 1];
        if f.next < f.pending.len() {
            WalkStep::Read(f.pending[f.next].clone())
        } else {
            WalkStep::Commit
        }
    }

    /// Consume the listing of the directory `next_step` asked for:
    /// advance past it and push a frame holding its record batch and its
    /// subdirectories, so those are walked before the batch is
    /// committed.
    pub fn on_listing(&mut self, entries: &Vec<RawEntry>)
        requires
            old(self).wf(),
            old(self)@.len() > 0,
            old(self)@.last().next < old(self)@.last().pending.len(),
        ensures
            final(self).wf(),
            final(self)@ == old(self)@.update(
                old(self)@.len() - 1,
                FrameModel {
                    batch: old(self)@.last().batch,
                    pending: old(self)@.last().pending,
                    next: old(self)@.last().next + 1,
                },
            ).push(FrameModel { batch: batch_of(entries@), pending: dirs_of(entries@), next: 0 }),
    {
        let ghost before = self@;
        let mut f = self.frames.pop().unwrap();
        proof {
            assert(f@ == before.last());
            assert(f.next < f.pending.len());
        }
        f.next = f.next + 1;
        self.frames.push(f);
        let fresh = Frame { batch: build_dir_batch(entries), pending: subdir_paths(entries), next: 0 };
        self.frames.push(fresh);
        proof {
            assert(self@ =~= before.update(
                before.len() - 1,
                FrameModel {
                    batch: before.last().batch,
                    pending: before.last().pending,
                    next: before.last().next + 1,
                },
            ).push(FrameModel { batch: batch_of(entries@), pending: dirs_of(entries@), next: 0 }));
        }
    }

    /// Commit the top frame once all its subdirectories are done: its
    /// batch goes to the store in one batched insert and the frame is
    /// popped. A store failure (exhausted id space) leaves the store and
    /// the walker unchanged, and the walk is aborted.
    pub fn commit_top(&mut self, db: &mut Database) -> (r: crate::Result<()>)
        requires
            old(self).wf(),
            old(self)@.len() > 0,
            old(self)@.last().next == old(self)@.last().pending.len(),
            old(db).inv(),
        ensures
            final(self).wf(),
            final(db).inv(),
            ({
                let t = add_all(old(db)@, old(db).next_id as int, old(self)@.last().batch);
                if t.1 <= MAX_ID + 1 {
                    &&& r is Ok
                    &&& final(db)@ == t.0
                    &&& final(db).next_id as int == t.1
                    &&& final(self)@ == old(self)@.drop_last()
                } else {
                    &&& r == crate::Result::<()>::Err(FotosError::Sqlite)
                    &&& final(db)@ == old(db)@
                    &&& final(db).next_id == old(db).next_id
                    &&& final(self)@ == old(self)@
                }
            }),
    {
        let idx = self.frames.len() - 1;
        let r = db.add_files(self.frames[idx].batch.as_slice());
        match r {
            Ok(()) => {
                let ghost before = self@;
                let _ = self.frames.pop();
                proof {
                    assert(self@ =~= before.drop_last());
                }
                Ok(())
            },
            Err(e) => Err(e),
        }
    }
}

} // verus!
