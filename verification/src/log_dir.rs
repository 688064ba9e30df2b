//! The data directory: log files named by generation number, oldest first.
//!
//! A file grows at its end and is changed in no other way. Records are
//! written to the newest file; compaction writes the file before it, and
//! drops the files that are older.

use vstd::prelude::*;
use vstd::slice::{slice_subrange, slice_to_vec};
use crate::index::CommandPos;

verus! {

/// One log file: its generation number and its bytes.
#[derive(Debug)]
pub struct LogFile {
    /// Generation number, which names the file.
    pub gen: u64,
    /// Contents.
    pub data: Vec<u8>,
}

impl View for LogFile {
    type V = (u64, Seq<u8>);

    open spec fn view(&self) -> (u64, Seq<u8>) {
        (self.gen, self.data@)
    }
}

/// The mathematical value of a directory: generation and bytes of each
/// file, in the order in which the files are replayed.
pub type Logs = Seq<(u64, Seq<u8>)>;

/// The mathematical value of a list of files.
pub open spec fn logs_of(files: Seq<LogFile>) -> Logs {
    files.map_values(|file: LogFile| file@)
}

/// The generations rise strictly from each file to the next.
pub open spec fn ascending(logs: Logs) -> bool {
    forall|i: int, j: int| 0 <= i < j < logs.len() ==> logs[i].0 < logs[j].0
}

/// No file is longer than an offset can say.
pub open spec fn addressable(logs: Logs) -> bool {
    forall|i: int| 0 <= i < logs.len() ==> (#[trigger] logs[i]).1.len() <= u64::MAX
}

/// The logs have a file of generation `gen`.
pub open spec fn has_gen(logs: Logs, gen: u64) -> bool {
    exists|i: int| 0 <= i < logs.len() && (#[trigger] logs[i]).0 == gen
}

/// The bytes of the file of generation `gen`.
pub open spec fn log_of(logs: Logs, gen: u64) -> Seq<u8>
    recommends
        has_gen(logs, gen),
{
    let i = choose|i: int| 0 <= i < logs.len() && (#[trigger] logs[i]).0 == gen;
    logs[i].1
}

/// The bytes that `place` names, where the logs hold them.
pub open spec fn bytes_at(logs: Logs, place: CommandPos) -> Option<Seq<u8>> {
    if has_gen(logs, place.gen) && place.end() <= log_of(logs, place.gen).len() {
        Some(log_of(logs, place.gen).subrange(place.pos as int, place.end()))
    } else {
        None
    }
}

/// In ascending logs a generation names one file.
pub proof fn lemma_log_of(logs: Logs, i: int)
    requires
        ascending(logs),
        0 <= i < logs.len(),
    ensures
        has_gen(logs, logs[i].0),
        log_of(logs, logs[i].0) == logs[i].1,
{
    let j = choose|j: int| 0 <= j < logs.len() && (#[trigger] logs[j]).0 == logs[i].0;
    assert(j == i) by {
        if j < i {
            assert(logs[j].0 < logs[i].0);
        } else if i < j {
            assert(logs[i].0 < logs[j].0);
        }
    }
}

/// The logs with `bytes` written at the end of the file at position `at`.
pub open spec fn grown_at(logs: Logs, at: int, bytes: Seq<u8>) -> Logs
    recommends
        0 <= at < logs.len(),
{
    logs.update(at, (logs[at].0, logs[at].1 + bytes))
}

/// The logs with `bytes` written at the end of the newest.
pub open spec fn grown(logs: Logs, bytes: Seq<u8>) -> Logs
    recommends
        logs.len() > 0,
{
    logs.update(logs.len() - 1, (logs.last().0, logs.last().1 + bytes))
}

/// One change of the files of a directory.
#[derive(Debug)]
pub enum DiskOp {
    /// An empty file of this generation appears.
    Create { gen: u64 },
    /// The file of this generation grows by these bytes at its end.
    Append { gen: u64, data: Vec<u8> },
    /// The file of this generation goes, at the end of a compaction. Where
    /// a file cannot be deleted, a program finds it again at the next
    /// compaction among the files that are older than the compaction log.
    Remove { gen: u64 },
}

/// The mathematical value of a [`DiskOp`].
pub enum DiskOpView {
    Create { gen: u64 },
    Append { gen: u64, data: Seq<u8> },
    Remove { gen: u64 },
}

impl View for DiskOp {
    type V = DiskOpView;

    open spec fn view(&self) -> DiskOpView {
        match self {
            DiskOp::Create { gen } => DiskOpView::Create { gen: *gen },
            DiskOp::Append { gen, data } => DiskOpView::Append { gen: *gen, data: data@ },
            DiskOp::Remove { gen } => DiskOpView::Remove { gen: *gen },
        }
    }
}

/// The mathematical value of a list of changes.
pub open spec fn ops_of(ops: Seq<DiskOp>) -> Seq<DiskOpView> {
    ops.map_values(|op: DiskOp| op@)
}

/// The files of a directory as a file system holds them: the bytes under
/// each generation.
pub type Image = Map<u64, Seq<u8>>;

/// The files that hold the logs.
pub open spec fn image(logs: Logs) -> Image {
    Map::new(|gen: u64| has_gen(logs, gen), |gen: u64| log_of(logs, gen))
}

/// The files after one change.
pub open spec fn apply_op(files: Image, op: DiskOpView) -> Image {
    match op {
        DiskOpView::Create { gen } => files.insert(gen, Seq::empty()),
        DiskOpView::Append { gen, data } => files.insert(gen, files[gen] + data),
        DiskOpView::Remove { gen } => files.remove(gen),
    }
}

/// The files after a list of changes, made in their order.
pub open spec fn apply_ops(files: Image, ops: Seq<DiskOpView>) -> Image
    decreases ops.len(),
{
    if ops.len() == 0 {
        files
    } else {
        apply_op(apply_ops(files, ops.drop_last()), ops.last())
    }
}

/// The journal `after` goes on from the journal `before`, and what it adds
/// turns the files of the logs `from` into the files of the logs `to`.
#[verifier::opaque]
pub open spec fn journaled(
    from: Logs,
    before: Seq<DiskOpView>,
    to: Logs,
    after: Seq<DiskOpView>,
) -> bool {
    &&& before.len() <= after.len()
    &&& after.take(before.len() as int) == before
    &&& apply_ops(image(from), after.skip(before.len() as int)) == image(to)
}

/// Changes made one list after the other are the changes of both lists.
pub proof fn lemma_apply_ops_concat(files: Image, first: Seq<DiskOpView>, second: Seq<DiskOpView>)
    ensures
        apply_ops(files, first + second) == apply_ops(apply_ops(files, first), second),
    decreases second.len(),
{
    if second.len() == 0 {
        assert(first + second =~= first);
    } else {
        assert((first + second).drop_last() =~= first + second.drop_last());
        lemma_apply_ops_concat(files, first, second.drop_last());
    }
}

/// A journal that has not moved records no change.
pub proof fn lemma_journaled_still(logs: Logs, journal: Seq<DiskOpView>)
    ensures
        journaled(logs, journal, logs, journal),
{
    reveal(journaled);
    assert(journal.take(journal.len() as int) =~= journal);
    assert(journal.skip(journal.len() as int).len() == 0);
}

/// What is journaled step by step is journaled as a whole.
pub proof fn lemma_journaled_chain(
    from: Logs,
    before: Seq<DiskOpView>,
    via: Logs,
    between: Seq<DiskOpView>,
    to: Logs,
    after: Seq<DiskOpView>,
)
    requires
        journaled(from, before, via, between),
        journaled(via, between, to, after),
    ensures
        journaled(from, before, to, after),
{
    reveal(journaled);
    let n = before.len() as int;
    let m = between.len() as int;
    assert(after.take(n) =~= between.take(n));
    assert(after.skip(n) =~= between.skip(n) + after.skip(m));
    lemma_apply_ops_concat(image(from), between.skip(n), after.skip(m));
}

/// One change that is added to a journal, and does to the files what was
/// done to the logs, is journaled.
pub proof fn lemma_journaled_step(from: Logs, journal: Seq<DiskOpView>, op: DiskOpView, to: Logs)
    requires
        image(to) == apply_op(image(from), op),
    ensures
        journaled(from, journal, to, journal.push(op)),
{
    reveal(journaled);
    let after = journal.push(op);
    let n = journal.len() as int;
    assert(after.take(n) =~= journal);
    let added = after.skip(n);
    assert(added.len() == 1 && added.last() == op);
    assert(added.drop_last().len() == 0);
    assert(apply_ops(image(from), added.drop_last()) == image(from));
}

/// Generations still rise when a file is added that is newer than all.
pub proof fn lemma_ascending_push(logs: Logs, gen: u64, data: Seq<u8>)
    requires
        ascending(logs),
        logs.len() > 0 ==> logs.last().0 < gen,
    ensures
        ascending(logs.push((gen, data))),
{
    let after = logs.push((gen, data));
    assert forall|a: int, b: int| 0 <= a < b < after.len() implies after[a].0 < after[b].0 by {
        if b == logs.len() && a < logs.len() - 1 {
            assert(logs[a].0 < logs[logs.len() - 1].0);
        }
    }
}

/// A new file, newer than all, is one file more.
pub proof fn lemma_image_created(logs: Logs, gen: u64)
    requires
        ascending(logs),
        logs.len() > 0 ==> logs.last().0 < gen,
    ensures
        ascending(logs.push((gen, Seq::<u8>::empty()))),
        image(logs.push((gen, Seq::<u8>::empty()))) == apply_op(
            image(logs),
            DiskOpView::Create { gen },
        ),
{
    let after = logs.push((gen, Seq::<u8>::empty()));
    lemma_ascending_push(logs, gen, Seq::empty());
    let wanted = apply_op(image(logs), DiskOpView::Create { gen });
    assert forall|g: u64| image(after).contains_key(g) <==> wanted.contains_key(g) by {
        if has_gen(after, g) {
            let i = choose|i: int| 0 <= i < after.len() && (#[trigger] after[i]).0 == g;
            if i < logs.len() {
                assert(logs[i].0 == g);
            }
        }
        if has_gen(logs, g) {
            let i = choose|i: int| 0 <= i < logs.len() && (#[trigger] logs[i]).0 == g;
            assert(after[i].0 == g);
        }
        if g == gen {
            assert(after[logs.len() as int].0 == g);
        }
    }
    assert forall|g: u64| image(after).contains_key(g) implies image(after)[g] == wanted[g] by {
        let i = choose|i: int| 0 <= i < after.len() && (#[trigger] after[i]).0 == g;
        lemma_log_of(after, i);
        if i < logs.len() {
            assert(logs[i] == after[i]);
            lemma_log_of(logs, i);
            assert(logs[i].0 < gen) by {
                if i < logs.len() - 1 {
                    assert(logs[i].0 < logs[logs.len() - 1].0);
                }
            }
        }
    }
    assert(image(after) =~= wanted);
}

/// Bytes written at the end of a log are bytes at the end of its file.
pub proof fn lemma_image_grown_at(logs: Logs, at: int, bytes: Seq<u8>)
    requires
        ascending(logs),
        0 <= at < logs.len(),
    ensures
        ascending(grown_at(logs, at, bytes)),
        image(grown_at(logs, at, bytes)) == apply_op(
            image(logs),
            DiskOpView::Append { gen: logs[at].0, data: bytes },
        ),
{
    let after = grown_at(logs, at, bytes);
    let wanted = apply_op(image(logs), DiskOpView::Append { gen: logs[at].0, data: bytes });
    lemma_log_of(logs, at);
    assert forall|a: int, b: int| 0 <= a < b < after.len() implies after[a].0 < after[b].0 by {
        assert(after[a].0 == logs[a].0 && after[b].0 == logs[b].0);
    }
    assert forall|g: u64| image(after).contains_key(g) <==> wanted.contains_key(g) by {
        if has_gen(after, g) {
            let i = choose|i: int| 0 <= i < after.len() && (#[trigger] after[i]).0 == g;
            assert(logs[i].0 == g);
        }
        if has_gen(logs, g) {
            let i = choose|i: int| 0 <= i < logs.len() && (#[trigger] logs[i]).0 == g;
            assert(after[i].0 == g);
        }
    }
    assert forall|g: u64| image(after).contains_key(g) implies image(after)[g] == wanted[g] by {
        let i = choose|i: int| 0 <= i < after.len() && (#[trigger] after[i]).0 == g;
        lemma_log_of(after, i);
        assert(logs[i].0 == g);
        lemma_log_of(logs, i);
        if i != at {
            assert(logs[i].0 != logs[at].0) by {
                if i < at {
                    assert(logs[i].0 < logs[at].0);
                } else {
                    assert(logs[at].0 < logs[i].0);
                }
            }
        }
    }
    assert(image(after) =~= wanted);
}

/// The logs without the oldest are the files without its file.
pub proof fn lemma_image_dropped(logs: Logs)
    requires
        ascending(logs),
        logs.len() > 0,
    ensures
        ascending(logs.drop_first()),
        image(logs.drop_first()) == apply_op(image(logs), DiskOpView::Remove { gen: logs[0].0 }),
{
    let after = logs.drop_first();
    let wanted = apply_op(image(logs), DiskOpView::Remove { gen: logs[0].0 });
    assert forall|a: int, b: int| 0 <= a < b < after.len() implies after[a].0 < after[b].0 by {
        assert(logs[a + 1].0 < logs[b + 1].0);
    }
    assert forall|g: u64| image(after).contains_key(g) <==> wanted.contains_key(g) by {
        if has_gen(after, g) {
            let i = choose|i: int| 0 <= i < after.len() && (#[trigger] after[i]).0 == g;
            assert(logs[i + 1].0 == g);
            assert(logs[0].0 < logs[i + 1].0);
        }
        if has_gen(logs, g) && g != logs[0].0 {
            let i = choose|i: int| 0 <= i < logs.len() && (#[trigger] logs[i]).0 == g;
            assert(after[i - 1].0 == g);
        }
    }
    assert forall|g: u64| image(after).contains_key(g) implies image(after)[g] == wanted[g] by {
        let i = choose|i: int| 0 <= i < after.len() && (#[trigger] after[i]).0 == g;
        lemma_log_of(after, i);
        assert(logs[i + 1] == after[i]);
        lemma_log_of(logs, i + 1);
    }
    assert(image(after) =~= wanted);
}

/// A directory of log files, oldest first.
#[derive(Debug)]
pub struct LogDir {
    /// The files, oldest first.
    files: Vec<LogFile>,
    /// The changes made to the files since the journal was last taken.
    journal: Vec<DiskOp>,
}

impl View for LogDir {
    type V = Logs;

    closed spec fn view(&self) -> Logs {
        logs_of(self.files@)
    }
}

impl LogDir {
    /// The files are in order of generation, each generation once.
    pub open spec fn wf(&self) -> bool {
        ascending(self@) && addressable(self@)
    }

    /// The changes made to the files since the journal was last taken.
    pub closed spec fn pending(&self) -> Seq<DiskOpView> {
        ops_of(self.journal@)
    }

    /// A directory without files.
    pub fn new() -> (dir: LogDir)
        ensures
            dir@ == Logs::empty(),
            dir.pending() == Seq::<DiskOpView>::empty(),
            dir.wf(),
    {
        let dir = LogDir { files: Vec::new(), journal: Vec::new() };
        assert(dir@ =~= Logs::empty());
        assert(dir.pending() =~= Seq::<DiskOpView>::empty());
        dir
    }

    /// A directory of the given files, if their generations rise strictly.
    pub fn from_files(files: Vec<LogFile>) -> (dir: Option<LogDir>)
        ensures
            dir is Some <==> ascending(logs_of(files@)),
            dir matches Some(d) ==> d.wf() && d@ == logs_of(files@) && d.pending() == Seq::<
                DiskOpView,
            >::empty(),
    {
        let ghost logs = logs_of(files@);
        let mut i: usize = 1;
        while i < files.len()
            invariant
                1 <= i,
                logs == logs_of(files@),
                forall|j: int|
                    0 < j < i && j < logs.len() ==> logs[j - 1].0 < (#[trigger] logs[j]).0,
            decreases files.len() - i,
        {
            if files[i - 1].gen >= files[i].gen {
                assert(!(logs[i - 1].0 < logs[i as int].0));
                return None;
            }
            i += 1;
        }
        proof {
            lemma_steps_ascend(logs);
            assert forall|j: int| 0 <= j < logs.len() implies (#[trigger] logs[j]).1.len()
                <= u64::MAX by {
                assert(files@[j].data.len() == logs[j].1.len());
            }
        }
        let dir = LogDir { files, journal: Vec::new() };
        assert(dir.pending() =~= Seq::<DiskOpView>::empty());
        Some(dir)
    }

    /// Number of files.
    pub fn len(&self) -> (n: usize)
        ensures
            n == self@.len(),
    {
        self.files.len()
    }

    /// Generation of the newest file.
    pub fn last_gen(&self) -> (gen: Option<u64>)
        ensures
            self@.len() == 0 ==> gen is None,
            self@.len() > 0 ==> gen == Some(self@.last().0),
    {
        if self.files.len() == 0 {
            None
        } else {
            Some(self.files[self.files.len() - 1].gen)
        }
    }

    /// The file at position `i`, counted from the oldest.
    pub fn file(&self, i: usize) -> (file: &LogFile)
        requires
            i < self@.len(),
        ensures
            file@ == self@[i as int],
    {
        &self.files[i]
    }

    /// Adds an empty file of generation `gen`, newer than all others.
    pub fn create(&mut self, gen: u64)
        requires
            old(self).wf(),
            old(self)@.len() > 0 ==> old(self)@.last().0 < gen,
        ensures
            final(self).wf(),
            final(self)@ == old(self)@.push((gen, Seq::<u8>::empty())),
            final(self).pending() == old(self).pending().push(DiskOpView::Create { gen }),
            journaled(old(self)@, old(self).pending(), final(self)@, final(self).pending()),
    {
        self.files.push(LogFile { gen, data: Vec::new() });
        self.journal.push(DiskOp::Create { gen });
        assert(self.files@.last()@ == (gen, Seq::<u8>::empty()));
        assert(self@ =~= old(self)@.push((gen, Seq::<u8>::empty())));
        assert(self.pending() =~= old(self).pending().push(DiskOpView::Create { gen }));
        proof {
            lemma_image_created(old(self)@, gen);
            lemma_journaled_step(
                old(self)@,
                old(self).pending(),
                DiskOpView::Create { gen },
                self@,
            );
        }
    }

    /// Writes `bytes` at the end of the file at position `at`, counted from
    /// the oldest, and returns the offsets where they start and end.
    pub fn append_at(&mut self, at: usize, bytes: &[u8]) -> (range: (u64, u64))
        requires
            old(self).wf(),
            at < old(self)@.len(),
        ensures
            final(self).wf(),
            journaled(old(self)@, old(self).pending(), final(self)@, final(self).pending()),
            final(self)@ == grown_at(old(self)@, at as int, bytes@),
            range == (
                old(self)@[at as int].1.len() as u64,
                (old(self)@[at as int].1.len() + bytes@.len()) as u64,
            ),
            final(self).pending() == old(self).pending().push(
                DiskOpView::Append { gen: old(self)@[at as int].0, data: bytes@ },
            ),
    {
        let mut file = self.files.remove(at);
        assert(file@ == old(self)@[at as int]);
        let gen = file.gen;
        let start = file.data.len();
        file.data.extend_from_slice(bytes);
        let end = file.data.len();
        let ghost longer = file@;
        self.files.insert(at, file);
        assert(self.files@ =~= old(self).files@.update(at as int, self.files@[at as int]));
        assert(longer == (old(self)@[at as int].0, old(self)@[at as int].1 + bytes@));
        assert forall|i: int| 0 <= i < self@.len() implies self@[i] == grown_at(
            old(self)@,
            at as int,
            bytes@,
        )[i] by {
            if i != at {
                assert(self.files@[i] == old(self).files@[i]);
            }
        }
        assert(self@ =~= grown_at(old(self)@, at as int, bytes@));
        self.journal.push(DiskOp::Append { gen, data: slice_to_vec(bytes) });
        let ghost op = DiskOpView::Append { gen: old(self)@[at as int].0, data: bytes@ };
        assert(self.pending() =~= old(self).pending().push(op));
        proof {
            lemma_image_grown_at(old(self)@, at as int, bytes@);
            lemma_journaled_step(old(self)@, old(self).pending(), op, self@);
            assert forall|i: int| 0 <= i < self@.len() implies (#[trigger] self@[i]).1.len()
                <= u64::MAX by {
                assert(self.files@[i].data.len() == self@[i].1.len());
            }
        }
        (start as u64, end as u64)
    }

    /// Writes `bytes` at the end of the newest file, and returns the offsets
    /// where they start and end. Without a file nothing is written.
    pub fn append(&mut self, bytes: &[u8]) -> (range: Option<(u64, u64)>)
        requires
            old(self).wf(),
        ensures
            final(self).wf(),
            journaled(old(self)@, old(self).pending(), final(self)@, final(self).pending()),
            old(self)@.len() == 0 ==> range is None && final(self)@ == old(self)@
                && final(self).pending() == old(self).pending(),
            old(self)@.len() > 0 ==> final(self)@ == grown(old(self)@, bytes@) && range == Some(
                (
                    old(self)@.last().1.len() as u64,
                    (old(self)@.last().1.len() + bytes@.len()) as u64,
                ),
            ) && final(self).pending() == old(self).pending().push(
                DiskOpView::Append { gen: old(self)@.last().0, data: bytes@ },
            ),
    {
        let n = self.files.len();
        if n == 0 {
            proof {
                lemma_journaled_still(self@, self.pending());
            }
            return None;
        }
        Some(self.append_at(n - 1, bytes))
    }

    /// The position of the file of generation `gen`.
    pub fn find(&self, gen: u64) -> (found: Option<usize>)
        ensures
            found is Some <==> has_gen(self@, gen),
            found matches Some(i) ==> i < self@.len() && self@[i as int].0 == gen,
    {
        let mut i: usize = 0;
        while i < self.files.len()
            invariant
                i <= self.files.len(),
                forall|j: int| 0 <= j < i ==> (#[trigger] self@[j]).0 != gen,
            decreases self.files.len() - i,
        {
            if self.files[i].gen == gen {
                assert(self@[i as int].0 == gen);
                return Some(i);
            }
            i += 1;
        }
        None
    }

    /// The bytes that `place` names: `len` bytes from offset `pos` of the
    /// file of generation `gen`.
    pub fn read(&self, place: CommandPos) -> (bytes: Option<&[u8]>)
        requires
            self.wf(),
        ensures
            bytes is Some <==> bytes_at(self@, place) is Some,
            bytes matches Some(b) ==> Some(b@) == bytes_at(self@, place),
    {
        match self.find(place.gen) {
            None => None,
            Some(i) => {
                proof {
                    lemma_log_of(self@, i as int);
                }
                let data = self.files[i].data.as_slice();
                let size = data.len() as u64;
                if place.pos > size || place.len > size - place.pos {
                    None
                } else {
                    Some(slice_subrange(data, place.pos as usize, (place.pos + place.len) as usize))
                }
            },
        }
    }

    /// Drops the oldest file, if there is one.
    pub fn remove_first(&mut self)
        requires
            old(self).wf(),
        ensures
            final(self).wf(),
            journaled(old(self)@, old(self).pending(), final(self)@, final(self).pending()),
            old(self)@.len() == 0 ==> final(self)@ == old(self)@ && final(self).pending() == old(
                self,
            ).pending(),
            old(self)@.len() > 0 ==> final(self)@ == old(self)@.drop_first()
                && final(self).pending() == old(self).pending().push(
                DiskOpView::Remove { gen: old(self)@[0].0 },
            ),
    {
        if self.files.len() == 0 {
            proof {
                lemma_journaled_still(self@, self.pending());
            }
            return ;
        }
        let first = self.files.remove(0);
        self.journal.push(DiskOp::Remove { gen: first.gen });
        let ghost op = DiskOpView::Remove { gen: old(self)@[0].0 };
        assert(self@ =~= old(self)@.drop_first());
        assert(self.pending() =~= old(self).pending().push(op));
        proof {
            lemma_image_dropped(old(self)@);
            lemma_journaled_step(old(self)@, old(self).pending(), op, self@);
        }
    }

    /// Hands out the changes made to the files since the journal was last
    /// taken, in the order in which they were made, and starts the journal
    /// anew. Files that hold the logs as they were then, and undergo these
    /// changes, hold the logs as they are now.
    pub fn take_journal(&mut self) -> (ops: Vec<DiskOp>)
        ensures
            ops_of(ops@) == old(self).pending(),
            final(self).pending() == Seq::<DiskOpView>::empty(),
            final(self)@ == old(self)@,
    {
        let mut ops: Vec<DiskOp> = Vec::new();
        std::mem::swap(&mut ops, &mut self.journal);
        assert(self.pending() =~= Seq::<DiskOpView>::empty());
        ops
    }

    /// Gives the files up, oldest first.
    pub fn into_files(self) -> (files: Vec<LogFile>)
        ensures
            logs_of(files@) == self@,
    {
        self.files
    }
}

/// Generations that rise at each step rise over any distance.
proof fn lemma_steps_ascend(logs: Logs)
    requires
        forall|j: int| 0 < j < logs.len() ==> logs[j - 1].0 < (#[trigger] logs[j]).0,
    ensures
        ascending(logs),
{
    assert forall|i: int, j: int| 0 <= i < j < logs.len() implies logs[i].0 < logs[j].0 by {
        lemma_steps_ascend_to(logs, i, j);
    }
}

/// Generations that rise at each step rise from `i` to `j`.
proof fn lemma_steps_ascend_to(logs: Logs, i: int, j: int)
    requires
        forall|j: int| 0 < j < logs.len() ==> logs[j - 1].0 < (#[trigger] logs[j]).0,
        0 <= i < j < logs.len(),
    ensures
        logs[i].0 < logs[j].0,
    decreases j - i,
{
    if i + 1 < j {
        lemma_steps_ascend_to(logs, i, j - 1);
    }
    assert(logs[j - 1].0 < logs[j].0);
}

} // verus!
