//! The log-structured store: every change is a record written at the end of
//! the newest log, and an index in memory says where the value of each key
//! stands.

use vstd::prelude::*;
use vstd::slice::slice_to_vec;
use crate::accounting::{
    accounted, lemma_accounted_less, lemma_compacted_accounted, lemma_key_order_lists_keys,
    lemma_opened_accounted, lemma_put_accounted, lemma_remove_accounted, total_size,
};
use crate::codec::{decode_record, encode_record, parse_record, record_bytes, Decoded, Parsed};
use crate::command::{Command, CommandView};
use crate::consistency::{
    all_copied, compaction_log, consistent, lemma_compacted, lemma_compaction_log_step,
    lemma_consistent_places_valid, lemma_copy_step, lemma_opened, lemma_put, lemma_remove,
    lemma_replay_log_counts_on, next_place,
};
use crate::error::KvsError;
use crate::index::{entries_list, key_order, keys_of, CommandPos, Index, Places};
use crate::log_dir::{
    addressable, ascending, bytes_at, grown, grown_at, journaled, lemma_ascending_push,
    lemma_journaled_chain, lemma_journaled_still, ops_of, DiskOp, DiskOpView, LogDir, Logs,
};
use crate::model::{after_remove, after_set, answer, found, Held};
use crate::replay::{
    clean, clip, contents, holds_key, initial_state, lemma_bytes_at_added, load, places_valid,
    recovered, replay_log, replay_logs, stale_len, IndexState,
};

verus! {

/// Compaction runs once more than this many bytes of the logs are useless.
pub const COMPACTION_THRESHOLD: u64 = 1024;

/// A store of string keys and string values.
///
/// The values live in the logs of a directory, which the store holds in
/// memory as bytes, every log whole; beside them it keeps the place of the
/// latest record of each key. When too much of the logs has become useless,
/// the store copies what is live into a new log and drops the old ones.
pub struct KvStore {
    /// The logs; the newest is the one written to.
    dir: LogDir,
    /// The place of the latest record of each live key.
    index: Index,
    /// Upper estimate of the bytes that compaction would save.
    uncompacted: u64,
    /// Generation of the log written to.
    current_gen: u64,
    /// No place of the index names a log older than this generation.
    safe_point: u64,
}

impl View for KvStore {
    type V = Held;

    /// What the store holds: the value of each live key.
    open spec fn view(&self) -> Held {
        contents(self.logs(), self.places())
    }
}

/// The generation of the log that a store opens to write to.
pub open spec fn first_write_gen(logs: Logs) -> int {
    if logs.len() == 0 {
        1
    } else {
        logs.last().0 + 1
    }
}

/// The value that is read at `place`: that of the record which stands
/// there, where it binds a key and takes exactly the bytes of the place.
pub open spec fn value_read(logs: Logs, place: CommandPos) -> Option<Seq<char>> {
    match bytes_at(logs, place) {
        Some(bytes) => match parse_record(bytes) {
            Parsed::Item { value: CommandView::Put { key, value }, len } => if len == place.len {
                Some(value)
            } else {
                None
            },
            _ => None,
        },
        None => None,
    }
}

/// Compaction is due: too many bytes are useless, and two more generations
/// can be named.
pub open spec fn compaction_due(uncompacted: u64, current_gen: u64) -> bool {
    uncompacted > COMPACTION_THRESHOLD && current_gen <= u64::MAX - 2
}

impl KvStore {
    /// The logs of the store, oldest first.
    pub closed spec fn logs(&self) -> Logs {
        self.dir@
    }

    /// The index of the store.
    pub closed spec fn places(&self) -> Places {
        self.index@
    }

    /// The bytes counted as useless.
    pub closed spec fn spec_uncompacted(&self) -> u64 {
        self.uncompacted
    }

    /// The generation written to.
    pub closed spec fn spec_current_gen(&self) -> u64 {
        self.current_gen
    }

    /// The safe point.
    pub closed spec fn spec_safe_point(&self) -> u64 {
        self.safe_point
    }

    /// The changes made to the files of the logs since the journal was last
    /// taken.
    pub closed spec fn pending(&self) -> Seq<DiskOpView> {
        self.dir.pending()
    }

    /// What the step from `before` did to the logs is in the journal.
    pub open spec fn journaled_from(&self, before: &KvStore) -> bool {
        journaled(before.logs(), before.pending(), self.logs(), self.pending())
    }

    /// The logs can be read: each generation names one file, and no file is
    /// longer than an offset can say. This holds of every store.
    pub open spec fn readable(&self) -> bool {
        ascending(self.logs()) && addressable(self.logs())
    }

    /// The store is well formed: a replay of its logs yields its index, the
    /// newest log is the one written to, no log is older than the safe
    /// point, and no more bytes are counted as useless than are.
    pub open spec fn wf(&self) -> bool {
        &&& consistent(self.logs(), self.places())
        &&& self.logs().last().0 == self.spec_current_gen()
        &&& self.spec_safe_point() <= self.logs()[0].0
        &&& accounted(self.logs(), self.places(), self.spec_uncompacted() as nat)
    }

    /// The state after compaction of the store `before`, once its logs were
    /// `logs`, its index `places`, and `counted` bytes counted as useless:
    /// the records of the live keys stand in one log, in the order of the
    /// keys; the index points at them; an empty log two generations on is
    /// written to; the logs have shrunk by what was counted, or more; and
    /// nothing is counted as useless.
    pub open spec fn compacted_from(
        &self,
        before: &KvStore,
        logs: Logs,
        places: Places,
        counted: u64,
    ) -> bool {
        &&& self.logs().len() == 2
        &&& total_size(self.logs()) + counted <= total_size(logs)
        &&& self.logs()[0].0 == before.spec_current_gen() + 1
        &&& exists|order: Seq<Seq<char>>| #[trigger]
            key_order(order, places) && self.logs()[0].1 == compaction_log(logs, places, order)
        &&& self.logs()[1] == ((before.spec_current_gen() + 2) as u64, Seq::<u8>::empty())
        &&& forall|key: Seq<char>| #[trigger]
            places.contains_key(key) ==> self.places().contains_key(key)
        &&& all_copied(logs, places, self.logs()[0].0, self.logs()[0].1, self.places())
        &&& self.spec_current_gen() == before.spec_current_gen() + 2
        &&& self.spec_safe_point() == before.spec_current_gen() + 1
        &&& self.spec_uncompacted() == 0
    }

    /// The state after a step on the store `before` that left the logs
    /// `logs` and the index `places`, and counted `counted` bytes as useless:
    /// compacted if that is due, else just so.
    pub open spec fn settled_from(
        &self,
        before: &KvStore,
        logs: Logs,
        places: Places,
        counted: u64,
    ) -> bool {
        if compaction_due(counted, before.spec_current_gen()) {
            self.compacted_from(before, logs, places, counted)
        } else {
            &&& self.logs() == logs
            &&& self.places() == places
            &&& self.spec_uncompacted() == counted
            &&& self.spec_current_gen() == before.spec_current_gen()
            &&& self.spec_safe_point() == before.spec_safe_point()
        }
    }

    /// The state is that of `before`.
    pub open spec fn same_as(&self, before: &KvStore) -> bool {
        &&& self.pending() == before.pending()
        &&& self.logs() == before.logs()
        &&& self.places() == before.places()
        &&& self.spec_uncompacted() == before.spec_uncompacted()
        &&& self.spec_current_gen() == before.spec_current_gen()
        &&& self.spec_safe_point() == before.spec_safe_point()
    }

    /// Opens the store on the logs of a directory.
    ///
    /// The logs are replayed, oldest first, to rebuild the index; then an
    /// empty log of the next generation is added to write to. A log that ends
    /// in the middle of a record is read up to that record. The store fails
    /// with `CorruptLog` where a log holds bytes that are no record, and with
    /// `Io` where no further generation can be named.
    pub fn open(dir: LogDir) -> (opened: Result<KvStore, KvsError>)
        requires
            dir.wf(),
        ensures
            match replay_logs(initial_state(), dir@) {
                None => opened matches Err(KvsError::CorruptLog),
                Some(st) => if first_write_gen(dir@) > u64::MAX {
                    opened matches Err(KvsError::Io(text)) && text@
                        == "Generation numbers are used up"@
                } else {
                    &&& opened matches Ok(store)
                    &&& store.wf()
                    &&& store@ == recovered(dir@)->0
                    &&& store.places() == st.places
                    &&& store.logs() == dir@.push(
                        (first_write_gen(dir@) as u64, Seq::<u8>::empty()),
                    )
                    &&& store.pending() == dir.pending().push(
                        DiskOpView::Create { gen: first_write_gen(dir@) as u64 },
                    )
                    &&& journaled(dir@, dir.pending(), store.logs(), store.pending())
                    &&& store.spec_uncompacted() == clip(st.uncompacted)
                    &&& store.spec_current_gen() == first_write_gen(dir@)
                    &&& store.spec_safe_point() == 0
                },
            },
    {
        let mut files = dir;
        let mut index = Index::new();
        let mut uncompacted: u64 = 0;
        let ghost mut st = initial_state();
        let mut i: usize = 0;
        assert(files@.skip(0) =~= files@);
        while i < files.len()
            invariant
                i <= files@.len(),
                files.wf(),
                files@ == dir@,
                files.pending() == dir.pending(),
                st.places == index@,
                uncompacted == clip(st.uncompacted),
                replay_logs(st, files@.skip(i as int)) == replay_logs(initial_state(), files@),
            decreases files@.len() - i,
        {
            let file = files.file(i);
            let ghost rest = files@.skip(i as int);
            assert(rest[0] == files@[i as int]);
            assert(rest.drop_first() =~= files@.skip(i + 1));
            proof {
                lemma_replay_log_counts_on(
                    IndexState { places: st.places, uncompacted: 0 },
                    st.uncompacted,
                    file.gen,
                    file.data@,
                    0,
                );
                assert(st == (IndexState {
                    places: st.places,
                    uncompacted: 0 + st.uncompacted,
                }));
            }
            match load(file.gen, file.data.as_slice(), &mut index) {
                Ok(more) => {
                    uncompacted = uncompacted.saturating_add(more);
                    proof {
                        st = replay_log(st, file.gen, file.data@, 0)->0;
                    }
                },
                Err(err) => {
                    assert(replay_log(st, file.gen, file.data@, 0) is None);
                    assert(replay_logs(st, rest) is None);
                    return Err(err);
                },
            }
            i += 1;
        }
        assert(files@.skip(i as int).len() == 0);
        let gen: u64 = match files.last_gen() {
            None => 1,
            Some(last) => {
                if last == u64::MAX {
                    return Err(KvsError::Io("Generation numbers are used up".to_owned()));
                }
                last + 1
            },
        };
        proof {
            lemma_opened(files@, gen);
            lemma_opened_accounted(files@, gen);
            lemma_accounted_less(
                files@.push((gen, Seq::<u8>::empty())),
                st.places,
                st.uncompacted,
                uncompacted as nat,
            );
        }
        files.create(gen);
        Ok(KvStore { dir: files, index, uncompacted, current_gen: gen, safe_point: 0 })
    }

    /// Gives up the store and hands back its directory.
    pub fn into_dir(self) -> (dir: LogDir)
        requires
            self.wf(),
        ensures
            dir.wf(),
            dir@ == self.logs(),
            dir.pending() == self.pending(),
    {
        self.dir
    }

    /// Hands out the changes made to the files of the logs since the journal
    /// was last taken, in the order in which they were made, and starts the
    /// journal anew. Files that held the logs as they were then, and undergo
    /// these changes, hold the logs as they are now.
    pub fn take_journal(&mut self) -> (ops: Vec<DiskOp>)
        ensures
            ops_of(ops@) == old(self).pending(),
            final(self).pending() == Seq::<DiskOpView>::empty(),
            final(self).logs() == old(self).logs(),
            final(self).places() == old(self).places(),
            final(self).spec_uncompacted() == old(self).spec_uncompacted(),
            final(self).spec_current_gen() == old(self).spec_current_gen(),
            final(self).spec_safe_point() == old(self).spec_safe_point(),
    {
        self.dir.take_journal()
    }

    /// The logs of the store, to read.
    pub fn dir(&self) -> (dir: &LogDir)
        ensures
            dir@ == self.logs(),
            dir.pending() == self.pending(),
    {
        &self.dir
    }

    /// The bytes counted as useless.
    pub fn uncompacted(&self) -> (bytes: u64)
        ensures
            bytes == self.spec_uncompacted(),
    {
        self.uncompacted
    }

    /// The generation of the log written to.
    pub fn current_gen(&self) -> (gen: u64)
        ensures
            gen == self.spec_current_gen(),
    {
        self.current_gen
    }

    /// The generation below which no log is read any more.
    pub fn safe_point(&self) -> (gen: u64)
        ensures
            gen == self.spec_safe_point(),
    {
        self.safe_point
    }

    /// Reads and decodes the record at `place`.
    ///
    /// Fails with `CorruptLog` where the logs hold no whole record of
    /// exactly that extent.
    pub fn read_command(&self, place: CommandPos) -> (read: Result<Command, KvsError>)
        requires
            self.readable(),
        ensures
            match bytes_at(self.logs(), place) {
                Some(bytes) => match parse_record(bytes) {
                    Parsed::Item { value, len } => if len == place.len {
                        read matches Ok(cmd) && cmd@ == value
                    } else {
                        read matches Err(KvsError::CorruptLog)
                    },
                    _ => read matches Err(KvsError::CorruptLog),
                },
                None => read matches Err(KvsError::CorruptLog),
            },
    {
        match self.dir.read(place) {
            None => Err(KvsError::CorruptLog),
            Some(bytes) => match decode_record(bytes) {
                Decoded::Record { cmd, len } => {
                    if len as u64 == place.len {
                        Ok(cmd)
                    } else {
                        Err(KvsError::CorruptLog)
                    }
                },
                _ => Err(KvsError::CorruptLog),
            },
        }
    }

    /// The value of `key`, or `None` if the key is not in the store.
    ///
    /// The value is read where the index points. Fails with `CorruptLog`
    /// where no record that binds a key stands there; in a well-formed store
    /// that is nowhere, and the answer is what the store holds for the key.
    pub fn get(&self, key: String) -> (got: Result<Option<String>, KvsError>)
        requires
            self.readable(),
        ensures
            match self.places().get(key@) {
                None => got matches Ok(None),
                Some(place) => match value_read(self.logs(), place) {
                    Some(value) => got matches Ok(Some(text)) && text@ == value,
                    None => got matches Err(KvsError::CorruptLog),
                },
            },
            self.wf() ==> (got matches Ok(value) && answer(value) == found(self@, key@)),
    {
        proof {
            if self.wf() {
                lemma_consistent_places_valid(self.logs(), self.places());
            }
        }
        match self.index.get(key.as_str()) {
            None => Ok(None),
            Some(place) => {
                assert(self.wf() ==> holds_key(self.logs(), key@, place));
                match self.read_command(place) {
                    Ok(Command::Put { value, .. }) => Ok(Some(value)),
                    Ok(Command::Remove { .. }) => Err(KvsError::CorruptLog),
                    Err(err) => Err(err),
                }
            },
        }
    }

    /// Binds `key` to `value`: a record is written at the end of the newest
    /// log and the index points at it. The record that the key had before,
    /// if any, is counted as useless; compaction runs if it is due then.
    pub fn set(&mut self, key: String, value: String) -> (done: Result<(), KvsError>)
        requires
            old(self).wf(),
        ensures
            final(self).wf(),
            done is Ok,
            final(self)@ == after_set(old(self)@, key@, value@),
            final(self).journaled_from(old(self)),
            final(self).settled_from(
                old(self),
                grown(
                    old(self).logs(),
                    record_bytes(CommandView::Put { key: key@, value: value@ }),
                ),
                old(self).places().insert(
                    key@,
                    next_place(
                        old(self).logs(),
                        record_bytes(CommandView::Put { key: key@, value: value@ }),
                    ),
                ),
                clip((old(self).spec_uncompacted() + stale_len(old(self).places(), key@)) as nat),
            ),
    {
        let command = Command::set(key, value);
        let bytes = encode_record(&command);
        let ghost before = self.logs();
        let ghost journal = self.pending();
        let range = self.dir.append(bytes.as_slice());
        let ghost written = self.logs();
        let ghost written_journal = self.pending();
        proof {
            assert(self.logs().last().1.len() <= u64::MAX);
            lemma_put(before, self.places(), key@, value@);
        }
        if let (Command::Put { key, .. }, Some((start, end))) = (command, range) {
            let place = CommandPos::from_range(self.current_gen, start, end);
            let ghost places = self.places();
            let ghost counted = self.uncompacted as nat;
            if let Some(prior) = self.index.insert(key, place) {
                self.uncompacted = self.uncompacted.saturating_add(prior.len);
            }
            proof {
                lemma_put_accounted(before, places, counted, key@, place, bytes@);
                lemma_accounted_less(
                    written,
                    self.places(),
                    counted + stale_len(places, key@),
                    self.uncompacted as nat,
                );
            }
        }
        self.settle();
        proof {
            lemma_journaled_chain(
                before,
                journal,
                written,
                written_journal,
                self.logs(),
                self.pending(),
            );
        }
        Ok(())
    }

    /// Drops `key`: a record is written at the end of the newest log and the
    /// key leaves the index. The record that the key had, and the new record
    /// itself, are counted as useless; compaction runs if it is due then.
    /// Fails with `KeyNotFound`, and changes nothing, if the key is not in
    /// the store.
    pub fn remove(&mut self, key: String) -> (done: Result<(), KvsError>)
        requires
            old(self).wf(),
        ensures
            final(self).wf(),
            after_remove(old(self)@, key@) is Some ==> {
                &&& done is Ok
                &&& final(self)@ == after_remove(old(self)@, key@)->0
                &&& final(self).journaled_from(old(self))
                &&& final(self).settled_from(
                    old(self),
                    grown(old(self).logs(), record_bytes(CommandView::Remove { key: key@ })),
                    old(self).places().remove(key@),
                    clip(
                        (old(self).spec_uncompacted() + old(self).places()[key@].len
                            + record_bytes(CommandView::Remove { key: key@ }).len()) as nat,
                    ),
                )
            },
            after_remove(old(self)@, key@) is None ==> {
                &&& done matches Err(KvsError::KeyNotFound)
                &&& final(self).same_as(old(self))
            },
    {
        if !self.index.contains_key(key.as_str()) {
            return Err(KvsError::KeyNotFound);
        }
        let command = Command::remove(key);
        let bytes = encode_record(&command);
        let ghost before = self.logs();
        let ghost journal = self.pending();
        let range = self.dir.append(bytes.as_slice());
        let ghost written = self.logs();
        let ghost written_journal = self.pending();
        proof {
            assert(self.logs().last().1.len() <= u64::MAX);
            lemma_remove(before, self.places(), key@);
        }
        if let (Command::Remove { key }, Some((start, end))) = (command, range) {
            let ghost places = self.places();
            let ghost counted = self.uncompacted as nat;
            if let Some(prior) = self.index.remove(key.as_str()) {
                self.uncompacted = self.uncompacted.saturating_add(prior.len);
            }
            self.uncompacted = self.uncompacted.saturating_add(end - start);
            proof {
                lemma_remove_accounted(before, places, counted, key@, bytes@);
                lemma_accounted_less(
                    written,
                    self.places(),
                    counted + stale_len(places, key@) + bytes@.len(),
                    self.uncompacted as nat,
                );
            }
        }
        self.settle();
        proof {
            lemma_journaled_chain(
                before,
                journal,
                written,
                written_journal,
                self.logs(),
                self.pending(),
            );
        }
        Ok(())
    }

    /// Runs compaction if it is due.
    fn settle(&mut self)
        requires
            old(self).wf(),
        ensures
            final(self).wf(),
            final(self)@ == old(self)@,
            final(self).journaled_from(old(self)),
            if compaction_due(old(self).spec_uncompacted(), old(self).spec_current_gen()) {
                final(self).compacted_from(
                    old(self),
                    old(self).logs(),
                    old(self).places(),
                    old(self).spec_uncompacted(),
                )
            } else {
                final(self).same_as(old(self))
            },
    {
        if self.uncompacted > COMPACTION_THRESHOLD && self.current_gen <= u64::MAX - 2 {
            self.compact();
        } else {
            proof {
                lemma_journaled_still(self.logs(), self.pending());
            }
        }
    }

    /// Saves space. Two logs are added: the compaction log, and after it the
    /// log that is written to from now on. The record of every live key is
    /// copied into the compaction log, in the order of the keys, and the
    /// index points at the copies. Then the older logs are dropped.
    fn compact(&mut self)
        requires
            old(self).wf(),
            old(self).spec_current_gen() <= u64::MAX - 2,
        ensures
            final(self).wf(),
            final(self)@ == old(self)@,
            final(self).compacted_from(
                old(self),
                old(self).logs(),
                old(self).places(),
                old(self).spec_uncompacted(),
            ),
            final(self).journaled_from(old(self)),
    {
        let compaction_gen = self.current_gen + 1;
        let next_gen = self.current_gen + 2;
        let entries = self.index.entries();
        let ghost logs = self.logs();
        let ghost places = self.places();
        let ghost journal = self.pending();
        let ghost order = keys_of(entries@);
        proof {
            lemma_consistent_places_valid(logs, places);
        }
        self.dir.create(compaction_gen);
        let ghost first = self.dir@;
        let ghost first_journal = self.dir.pending();
        self.dir.create(next_gen);
        let ghost created = self.dir@;
        let ghost created_journal = self.dir.pending();
        let fresh = copy_live(
            &mut self.dir,
            &entries,
            compaction_gen,
            next_gen,
            Ghost(logs),
            Ghost(places),
        );
        let ghost copy = self.dir@[logs.len() as int].1;
        let ghost kept = seq![(compaction_gen, copy), (next_gen, Seq::<u8>::empty())];
        assert(self.dir@ =~= logs + kept);
        let ghost copied = self.dir@;
        let ghost copied_journal = self.dir.pending();
        drop_older(&mut self.dir, Ghost(logs), Ghost(kept));
        proof {
            lemma_journaled_chain(logs, journal, first, first_journal, created, created_journal);
            lemma_journaled_chain(logs, journal, created, created_journal, copied, copied_journal);
            lemma_journaled_chain(
                logs,
                journal,
                copied,
                copied_journal,
                self.dir@,
                self.dir.pending(),
            );
            lemma_compacted(logs, places, compaction_gen, next_gen, copy, fresh@);
            lemma_key_order_lists_keys(order, places);
            lemma_compacted_accounted(
                logs,
                places,
                self.uncompacted as nat,
                compaction_gen,
                next_gen,
                copy,
                fresh@,
                order,
            );
        }
        self.index = fresh;
        self.current_gen = next_gen;
        self.safe_point = compaction_gen;
        self.uncompacted = 0;
    }
}

/// The logs in the middle of compaction: the older logs `logs`, the
/// compaction log with the bytes `copy`, and the empty log to write to.
spec fn compacting(logs: Logs, gen: u64, copy: Seq<u8>, next_gen: u64) -> Logs {
    logs.push((gen, copy)).push((next_gen, Seq::<u8>::empty()))
}

/// A record written at the end of the compaction log is a record more in
/// it, and the other logs are as they were.
proof fn lemma_compacting_grown(
    logs: Logs,
    gen: u64,
    copy: Seq<u8>,
    next_gen: u64,
    record: Seq<u8>,
)
    ensures
        grown_at(compacting(logs, gen, copy, next_gen), logs.len() as int, record) == compacting(
            logs,
            gen,
            copy + record,
            next_gen,
        ),
{
    assert(grown_at(compacting(logs, gen, copy, next_gen), logs.len() as int, record)
        =~= compacting(logs, gen, copy + record, next_gen));
}

/// The bytes at a place of the older logs are what they were.
proof fn lemma_bytes_at_compacting(
    logs: Logs,
    gen: u64,
    copy: Seq<u8>,
    next_gen: u64,
    place: CommandPos,
)
    requires
        ascending(logs),
        logs.len() > 0,
        logs.last().0 < gen < next_gen,
        bytes_at(logs, place) is Some,
    ensures
        bytes_at(compacting(logs, gen, copy, next_gen), place) == bytes_at(logs, place),
{
    lemma_bytes_at_added(logs, gen, copy, place);
    lemma_ascending_push(logs, gen, copy);
    lemma_bytes_at_added(logs.push((gen, copy)), next_gen, Seq::<u8>::empty(), place);
}

/// Copies the record of each entry to the end of the compaction log, which
/// is the log before the newest of `dir`, and returns the index of the
/// copies. The entries are those of the index `places`, which is valid in
/// the older logs `logs`.
fn copy_live(
    dir: &mut LogDir,
    entries: &Vec<(String, CommandPos)>,
    gen: u64,
    next_gen: u64,
    Ghost(logs): Ghost<Logs>,
    Ghost(places): Ghost<Places>,
) -> (fresh: Index)
    requires
        logs.len() > 0,
        ascending(logs),
        logs.last().0 < gen < next_gen,
        old(dir).wf(),
        old(dir)@ == compacting(logs, gen, Seq::<u8>::empty(), next_gen),
        places_valid(logs, places),
        entries_list(entries@, places),
    ensures
        final(dir).wf(),
        final(dir)@ == compacting(logs, gen, final(dir)@[logs.len() as int].1, next_gen),
        journaled(old(dir)@, old(dir).pending(), final(dir)@, final(dir).pending()),
        clean(final(dir)@[logs.len() as int].1, 0),
        replay_log(initial_state(), gen, final(dir)@[logs.len() as int].1, 0) is Some,
        replay_log(initial_state(), gen, final(dir)@[logs.len() as int].1, 0)->0.places == fresh@,
        all_copied(logs, places, gen, final(dir)@[logs.len() as int].1, fresh@),
        final(dir)@[logs.len() as int].1 == compaction_log(logs, places, keys_of(entries@)),
        forall|key: Seq<char>| #[trigger] places.contains_key(key) ==> fresh@.contains_key(key),
{
    let mut fresh = Index::new();
    let at = dir.len() - 2;
    let ghost mut copy: Seq<u8> = Seq::empty();
    let ghost order = keys_of(entries@);
    let ghost journal = dir.pending();
    proof {
        reveal(all_copied);
        lemma_journaled_still(dir@, journal);
        assert forall|j: int| 0 <= j < entries@.len() implies places.contains_key(
            #[trigger] entries@[j].0@,
        ) && places[entries@[j].0@] == entries@[j].1 by {
            assert(order[j] == entries@[j].0@);
        }
    }
    let mut i: usize = 0;
    while i < entries.len()
        invariant
            i <= entries@.len(),
            at == logs.len(),
            logs.len() > 0,
            ascending(logs),
            logs.last().0 < gen < next_gen,
            dir.wf(),
            dir@ == compacting(logs, gen, copy, next_gen),
            journaled(old(dir)@, journal, dir@, dir.pending()),
            places_valid(logs, places),
            forall|j: int|
                0 <= j < entries@.len() ==> places.contains_key(#[trigger] entries@[j].0@)
                    && places[entries@[j].0@] == entries@[j].1,
            clean(copy, 0),
            replay_log(initial_state(), gen, copy, 0) is Some,
            replay_log(initial_state(), gen, copy, 0)->0.places == fresh@,
            all_copied(logs, places, gen, copy, fresh@),
            order.len() == entries@.len(),
            forall|j: int| 0 <= j < order.len() ==> #[trigger] order[j] == entries@[j].0@,
            copy == compaction_log(logs, places, order.take(i as int)),
            forall|j: int| 0 <= j < i ==> fresh@.contains_key(#[trigger] entries@[j].0@),
        decreases entries@.len() - i,
    {
        let key = entries[i].0.clone();
        let place = entries[i].1;
        assert(places.contains_key(entries@[i as int].0@));
        assert(holds_key(logs, key@, place));
        proof {
            lemma_bytes_at_compacting(logs, gen, copy, next_gen, place);
        }
        let found = dir.read(place);
        assert(found is Some);
        let record = slice_to_vec(found.unwrap());
        let ghost copying = dir@;
        let ghost copying_journal = dir.pending();
        let (start, end) = dir.append_at(at, record.as_slice());
        proof {
            lemma_compacting_grown(logs, gen, copy, next_gen, record@);
            assert(dir@[at as int].1.len() <= u64::MAX);
            lemma_copy_step(logs, places, gen, copy, fresh@, key@);
            lemma_journaled_chain(
                old(dir)@,
                journal,
                copying,
                copying_journal,
                dir@,
                dir.pending(),
            );
            lemma_compaction_log_step(logs, places, order, i as int);
            copy = copy + record@;
        }
        fresh.insert(key, CommandPos::from_range(gen, start, end));
        i += 1;
    }
    proof {
        assert(order.take(i as int) =~= order);
        assert forall|key: Seq<char>| #[trigger]
            places.contains_key(key) implies fresh@.contains_key(key) by {
            let j = choose|j: int| 0 <= j < order.len() && #[trigger] order[j] == key;
            assert(fresh@.contains_key(entries@[j].0@));
        }
    }
    fresh
}

/// Drops the logs `older` from `dir`, which holds them before the logs
/// `kept`.
fn drop_older(dir: &mut LogDir, Ghost(older): Ghost<Logs>, Ghost(kept): Ghost<Logs>)
    requires
        old(dir).wf(),
        old(dir)@ == older + kept,
        kept.len() == 2,
    ensures
        final(dir).wf(),
        final(dir)@ == kept,
        journaled(old(dir)@, old(dir).pending(), final(dir)@, final(dir).pending()),
{
    let ghost journal = dir.pending();
    let ghost mut dropped: int = 0;
    proof {
        lemma_journaled_still(dir@, journal);
        assert(older.skip(0) =~= older);
    }
    while dir.len() > 2
        invariant
            0 <= dropped <= older.len(),
            dir.wf(),
            dir@ == older.skip(dropped) + kept,
            kept.len() == 2,
            journaled(old(dir)@, journal, dir@, dir.pending()),
        decreases older.len() - dropped,
    {
        let ghost dropping = dir@;
        let ghost dropping_journal = dir.pending();
        dir.remove_first();
        assert(dir@ =~= older.skip(dropped + 1) + kept);
        proof {
            lemma_journaled_chain(
                old(dir)@,
                journal,
                dropping,
                dropping_journal,
                dir@,
                dir.pending(),
            );
            dropped = dropped + 1;
        }
    }
    assert(dir@ =~= kept);
}

} // verus!
