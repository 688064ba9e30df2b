//! Recovery: what a directory of logs says, read from its first byte to its
//! last.
//!
//! Replaying the records in order rebuilds the index. A log may end in the
//! middle of a record, where a write was cut short: the replay of that log
//! stops there and keeps what came before. Bytes that start no record make
//! the whole replay fail.

use vstd::prelude::*;
use vstd::slice::slice_subrange;
use crate::codec::{
    decode_record, lemma_parse_record_cut, lemma_parse_record_exact,
    lemma_parse_record_ignores_rest, lemma_parse_record_of_encoded,
    lemma_parsed_record_is_encoded, parse_record, record_bytes, Decoded, Parsed,
};
use crate::command::{Command, CommandView};
use crate::error::KvsError;
use crate::index::{CommandPos, Index, Places};
use crate::log_dir::{
    addressable, ascending, bytes_at, grown, lemma_ascending_push, lemma_log_of, Logs,
};

verus! {

/// What a replay has gathered so far.
pub struct IndexState {
    /// The place of the latest record of each live key.
    pub places: Places,
    /// The bytes of the records that later ones made useless.
    pub uncompacted: nat,
}

/// The state before any record.
pub open spec fn initial_state() -> IndexState {
    IndexState { places: Places::empty(), uncompacted: 0 }
}

/// The bytes that the record of `key` takes, if the key is live.
pub open spec fn stale_len(places: Places, key: Seq<char>) -> nat {
    if places.contains_key(key) {
        places[key].len as nat
    } else {
        0
    }
}

/// The state after the record `cmd`, which takes `len` bytes from offset
/// `pos` of log `gen`.
pub open spec fn apply_record(
    st: IndexState,
    gen: u64,
    pos: int,
    cmd: CommandView,
    len: int,
) -> IndexState {
    match cmd {
        CommandView::Put { key, value } => IndexState {
            places: st.places.insert(key, CommandPos { gen, pos: pos as u64, len: len as u64 }),
            uncompacted: st.uncompacted + stale_len(st.places, key),
        },
        CommandView::Remove { key } => IndexState {
            places: st.places.remove(key),
            uncompacted: st.uncompacted + stale_len(st.places, key) + len as nat,
        },
    }
}

/// The state after the records of `log` from offset `pos` on, or `None`
/// where the log is corrupt. A record takes some of the bytes that are
/// left, so each step moves on; anything else would count as corrupt.
pub open spec fn replay_log(st: IndexState, gen: u64, log: Seq<u8>, pos: int) -> Option<IndexState>
    decreases log.len() - pos,
{
    if pos < 0 || pos >= log.len() {
        Some(st)
    } else {
        match parse_record(log.skip(pos)) {
            Parsed::Item { value: cmd, len } => {
                if len <= 0 || pos + len > log.len() {
                    None
                } else {
                    replay_log(apply_record(st, gen, pos, cmd, len), gen, log, pos + len)
                }
            },
            Parsed::Truncated => Some(st),
            Parsed::Corrupt => None,
        }
    }
}

/// The state at which the replay of `log` from offset `pos` on stops: at the
/// end of the log, at a record that is cut short, or at bytes that are no
/// record.
pub open spec fn replay_reach(st: IndexState, gen: u64, log: Seq<u8>, pos: int) -> IndexState
    decreases log.len() - pos,
{
    if pos < 0 || pos >= log.len() {
        st
    } else {
        match parse_record(log.skip(pos)) {
            Parsed::Item { value: cmd, len } => {
                if len <= 0 || pos + len > log.len() {
                    st
                } else {
                    replay_reach(apply_record(st, gen, pos, cmd, len), gen, log, pos + len)
                }
            },
            Parsed::Truncated => st,
            Parsed::Corrupt => st,
        }
    }
}

/// From offset `pos` on, `log` is whole records up to its last byte.
pub open spec fn clean(log: Seq<u8>, pos: int) -> bool
    decreases log.len() - pos,
{
    if pos < 0 || pos > log.len() {
        false
    } else if pos == log.len() {
        true
    } else {
        match parse_record(log.skip(pos)) {
            Parsed::Item { value: cmd, len } => 0 < len <= log.len() - pos && clean(
                log,
                pos + len,
            ),
            Parsed::Truncated => false,
            Parsed::Corrupt => false,
        }
    }
}

/// The state after all the logs, taken in their order.
pub open spec fn replay_logs(st: IndexState, logs: Logs) -> Option<IndexState>
    decreases logs.len(),
{
    if logs.len() == 0 {
        Some(st)
    } else {
        match replay_log(st, logs[0].0, logs[0].1, 0) {
            Some(next) => replay_logs(next, logs.drop_first()),
            None => None,
        }
    }
}

/// A count of bytes as the store keeps it: it stops at the largest number.
pub open spec fn clip(n: nat) -> u64 {
    if n > u64::MAX {
        u64::MAX
    } else {
        n as u64
    }
}

/// A record written at the end of a clean log is replayed after all the
/// others, and leaves the log clean.
pub proof fn lemma_replay_log_append(
    st: IndexState,
    gen: u64,
    log: Seq<u8>,
    pos: int,
    cmd: CommandView,
)
    requires
        clean(log, pos),
    ensures
        clean(log + record_bytes(cmd), pos),
        replay_log(st, gen, log, pos) is Some,
        replay_log(st, gen, log + record_bytes(cmd), pos) == Some(
            apply_record(
                replay_log(st, gen, log, pos)->0,
                gen,
                log.len() as int,
                cmd,
                record_bytes(cmd).len() as int,
            ),
        ),
    decreases log.len() - pos,
{
    let rec = record_bytes(cmd);
    let grown = log + rec;
    if pos == log.len() {
        assert(grown.skip(pos) =~= rec + Seq::<u8>::empty());
        lemma_parse_record_of_encoded(cmd, Seq::empty());
        assert(parse_record(grown.skip(pos)) == (Parsed::Item {
            value: cmd,
            len: rec.len() as int,
        }));
        assert(rec.len() > 0);
        let end = pos + rec.len();
        assert(end == grown.len());
        assert(clean(grown, end));
        assert(replay_log(st, gen, log, pos) == Some(st));
        let next = apply_record(st, gen, pos, cmd, rec.len() as int);
        assert(replay_log(next, gen, grown, end) == Some(next));
    } else {
        let found = parse_record(log.skip(pos));
        assert(found is Item && found->len > 0 && clean(log, pos + found->len));
        lemma_parse_record_ignores_rest(log.skip(pos), rec);
        assert(grown.skip(pos) =~= log.skip(pos) + rec);
        assert(parse_record(grown.skip(pos)) == found);
        lemma_replay_log_append(
            apply_record(st, gen, pos, found->value, found->len),
            gen,
            log,
            pos + found->len,
            cmd,
        );
    }
}

/// A record that is cut short at the end of a clean log changes nothing of
/// the replay.
pub proof fn lemma_replay_log_cut(
    st: IndexState,
    gen: u64,
    log: Seq<u8>,
    pos: int,
    cmd: CommandView,
    k: int,
)
    requires
        clean(log, pos),
        0 <= k < record_bytes(cmd).len(),
    ensures
        replay_log(st, gen, log + record_bytes(cmd).take(k), pos) == replay_log(st, gen, log, pos),
    decreases log.len() - pos,
{
    let part = record_bytes(cmd).take(k);
    let torn = log + part;
    if pos == log.len() {
        assert(torn.skip(pos) =~= part);
        lemma_parse_record_cut(cmd, k);
    } else {
        let found = parse_record(log.skip(pos));
        lemma_parse_record_ignores_rest(log.skip(pos), part);
        assert(torn.skip(pos) =~= log.skip(pos) + part);
        lemma_replay_log_cut(
            apply_record(st, gen, pos, found->value, found->len),
            gen,
            log,
            pos + found->len,
            cmd,
            k,
        );
    }
}

/// A record that is cut short at the end of the newest log, when that log is
/// clean, changes nothing of the replay.
pub proof fn lemma_replay_logs_cut(st: IndexState, logs: Logs, cmd: CommandView, k: int)
    requires
        logs.len() > 0,
        clean(logs.last().1, 0),
        0 <= k < record_bytes(cmd).len(),
    ensures
        replay_logs(st, grown(logs, record_bytes(cmd).take(k))) == replay_logs(st, logs),
    decreases logs.len(),
{
    let part = record_bytes(cmd).take(k);
    let torn = grown(logs, part);
    if logs.len() == 1 {
        lemma_replay_log_cut(st, logs[0].0, logs[0].1, 0, cmd, k);
        assert(torn.drop_first() =~= logs.drop_first());
    } else {
        assert(torn[0] == logs[0]);
        assert(torn.drop_first() =~= grown(logs.drop_first(), part));
        match replay_log(st, logs[0].0, logs[0].1, 0) {
            Some(next) => {
                lemma_replay_logs_cut(next, logs.drop_first(), cmd, k);
            },
            None => {},
        }
    }
}

/// The record at `place` binds `key`.
pub open spec fn holds_key(logs: Logs, key: Seq<char>, place: CommandPos) -> bool {
    match bytes_at(logs, place) {
        Some(bytes) => match parse_record(bytes) {
            Parsed::Item { value: CommandView::Put { key: found, value }, len } => found == key
                && len == place.len,
            _ => false,
        },
        None => false,
    }
}

/// The value that the record at `place` binds.
pub open spec fn value_at(logs: Logs, place: CommandPos) -> Seq<char>
    recommends
        exists|key: Seq<char>| holds_key(logs, key, place),
{
    match parse_record(bytes_at(logs, place)->0) {
        Parsed::Item { value: CommandView::Put { key, value }, len } => value,
        _ => Seq::empty(),
    }
}

/// Each place is that of a record which binds its key.
pub open spec fn places_valid(logs: Logs, places: Places) -> bool {
    forall|key: Seq<char>| #[trigger] places.contains_key(key) ==> holds_key(logs, key, places[key])
}

/// What the store holds: the value of each live key, read where the index
/// points.
pub open spec fn contents(logs: Logs, places: Places) -> Map<Seq<char>, Seq<char>> {
    Map::new(
        |key: Seq<char>| places.contains_key(key),
        |key: Seq<char>| value_at(logs, places[key]),
    )
}

/// What a directory says when it is opened: the value of each key that its
/// records leave live, or `None` where a log is corrupt.
pub open spec fn recovered(logs: Logs) -> Option<Map<Seq<char>, Seq<char>>> {
    match replay_logs(initial_state(), logs) {
        Some(st) => Some(contents(logs, st.places)),
        None => None,
    }
}

/// The replay of one log leaves valid places valid, and adds only valid ones.
pub proof fn lemma_replay_log_valid(logs: Logs, i: int, st: IndexState, pos: int)
    requires
        ascending(logs),
        addressable(logs),
        0 <= i < logs.len(),
        0 <= pos,
        places_valid(logs, st.places),
        replay_log(st, logs[i].0, logs[i].1, pos) is Some,
    ensures
        places_valid(logs, replay_log(st, logs[i].0, logs[i].1, pos)->0.places),
    decreases logs[i].1.len() - pos,
{
    let gen = logs[i].0;
    let log = logs[i].1;
    if pos < log.len() {
        let rest = log.skip(pos);
        match parse_record(rest) {
            Parsed::Item { value: cmd, len } => {
                lemma_parsed_record_is_encoded(rest);
                lemma_parse_record_exact(rest);
                lemma_log_of(logs, i);
                let next = apply_record(st, gen, pos, cmd, len);
                let place = CommandPos { gen, pos: pos as u64, len: len as u64 };
                assert(rest.subrange(0, len) =~= log.subrange(pos, pos + len));
                assert(bytes_at(logs, place) == Some(log.subrange(pos, pos + len)));
                assert forall|key: Seq<char>| #[trigger]
                    next.places.contains_key(key) implies holds_key(
                    logs,
                    key,
                    next.places[key],
                ) by {
                    if !(cmd is Put && cmd->Put_key == key) {
                        assert(st.places.contains_key(key));
                    }
                }
                lemma_replay_log_valid(logs, i, next, pos + len);
            },
            _ => {},
        }
    }
}

/// The replay of the logs from file `i` on leaves valid places valid.
pub proof fn lemma_replay_logs_valid(logs: Logs, i: int, st: IndexState)
    requires
        ascending(logs),
        addressable(logs),
        0 <= i <= logs.len(),
        places_valid(logs, st.places),
        replay_logs(st, logs.skip(i)) is Some,
    ensures
        places_valid(logs, replay_logs(st, logs.skip(i))->0.places),
    decreases logs.len() - i,
{
    let rest = logs.skip(i);
    if i < logs.len() {
        assert(rest[0] == logs[i]);
        assert(rest.drop_first() =~= logs.skip(i + 1));
        lemma_replay_log_valid(logs, i, st, 0);
        lemma_replay_logs_valid(logs, i + 1, replay_log(st, logs[i].0, logs[i].1, 0)->0);
    }
}

/// In logs that replay to an index, each place of the index is that of a
/// record which binds its key.
pub proof fn lemma_replayed_places_valid(logs: Logs)
    requires
        ascending(logs),
        addressable(logs),
        replay_logs(initial_state(), logs) is Some,
    ensures
        places_valid(logs, replay_logs(initial_state(), logs)->0.places),
{
    assert(logs.skip(0) =~= logs);
    lemma_replay_logs_valid(logs, 0, initial_state());
}

/// A record written at the end of the newest log, when that log is clean, is
/// replayed after all the others.
pub proof fn lemma_replay_logs_append(st: IndexState, logs: Logs, cmd: CommandView)
    requires
        logs.len() > 0,
        clean(logs.last().1, 0),
        replay_logs(st, logs) is Some,
    ensures
        clean(grown(logs, record_bytes(cmd)).last().1, 0),
        replay_logs(st, grown(logs, record_bytes(cmd))) == Some(
            apply_record(
                replay_logs(st, logs)->0,
                logs.last().0,
                logs.last().1.len() as int,
                cmd,
                record_bytes(cmd).len() as int,
            ),
        ),
    decreases logs.len(),
{
    let rec = record_bytes(cmd);
    let after = grown(logs, rec);
    if logs.len() == 1 {
        lemma_replay_log_append(st, logs[0].0, logs[0].1, 0, cmd);
        let next = replay_log(st, logs[0].0, logs[0].1, 0)->0;
        assert(logs.drop_first().len() == 0);
        assert(after.drop_first().len() == 0);
        assert(replay_logs(next, logs.drop_first()) == Some(next));
        let last = replay_log(st, after[0].0, after[0].1, 0)->0;
        assert(replay_logs(last, after.drop_first()) == Some(last));
    } else {
        let next = replay_log(st, logs[0].0, logs[0].1, 0)->0;
        assert(after[0] == logs[0]);
        assert(after.drop_first() =~= grown(logs.drop_first(), rec));
        lemma_replay_logs_append(next, logs.drop_first(), cmd);
    }
}

/// An empty file added as the newest changes nothing of the replay.
pub proof fn lemma_replay_logs_create(st: IndexState, logs: Logs, gen: u64)
    requires
        replay_logs(st, logs) is Some,
    ensures
        replay_logs(st, logs.push((gen, Seq::<u8>::empty()))) == replay_logs(st, logs),
    decreases logs.len(),
{
    let after = logs.push((gen, Seq::<u8>::empty()));
    if logs.len() == 0 {
        assert(replay_log(st, gen, Seq::<u8>::empty(), 0) == Some(st));
        assert(after.drop_first().len() == 0);
        assert(replay_logs(st, after.drop_first()) == Some(st));
    } else {
        let next = replay_log(st, logs[0].0, logs[0].1, 0)->0;
        assert(after[0] == logs[0]);
        assert(after.drop_first() =~= logs.drop_first().push((gen, Seq::<u8>::empty())));
        lemma_replay_logs_create(next, logs.drop_first(), gen);
    }
}

/// The bytes at a place stay what they are when the newest log grows.
pub proof fn lemma_bytes_at_grown(logs: Logs, bytes: Seq<u8>, place: CommandPos)
    requires
        ascending(logs),
        logs.len() > 0,
        bytes_at(logs, place) is Some,
    ensures
        bytes_at(grown(logs, bytes), place) == bytes_at(logs, place),
{
    let after = grown(logs, bytes);
    let i = choose|i: int| 0 <= i < logs.len() && (#[trigger] logs[i]).0 == place.gen;
    lemma_log_of(logs, i);
    assert(ascending(after));
    lemma_log_of(after, i);
    if i == logs.len() - 1 {
        assert(after[i].1.subrange(place.pos as int, place.end()) =~= logs[i].1.subrange(
            place.pos as int,
            place.end(),
        ));
    }
}

/// The bytes at a place stay what they are when a newer file is added.
pub proof fn lemma_bytes_at_added(logs: Logs, gen: u64, data: Seq<u8>, place: CommandPos)
    requires
        ascending(logs),
        logs.len() > 0 ==> logs.last().0 < gen,
        bytes_at(logs, place) is Some,
    ensures
        bytes_at(logs.push((gen, data)), place) == bytes_at(logs, place),
{
    let after = logs.push((gen, data));
    let i = choose|i: int| 0 <= i < logs.len() && (#[trigger] logs[i]).0 == place.gen;
    lemma_log_of(logs, i);
    lemma_ascending_push(logs, gen, data);
    assert(after[i] == logs[i]);
    lemma_log_of(after, i);
}

/// Replays one log into `index`, and returns the bytes that its records
/// made useless. Fails with `CorruptLog` at bytes that are no record; the
/// index has then taken the records that stand before them.
pub fn load(gen: u64, data: &[u8], index: &mut Index) -> (loaded: Result<u64, KvsError>)
    ensures
        final(index)@ == replay_reach(
            IndexState { places: old(index)@, uncompacted: 0 },
            gen,
            data@,
            0,
        ).places,
        match replay_log(
            IndexState { places: old(index)@, uncompacted: 0 },
            gen,
            data@,
            0,
        ) {
            Some(st) => loaded == Ok::<u64, KvsError>(clip(st.uncompacted)) && final(index)@
                == st.places,
            None => loaded == Err::<u64, KvsError>(KvsError::CorruptLog),
        },
{
    let ghost start = IndexState { places: index@, uncompacted: 0 };
    let ghost mut st = start;
    let mut uncompacted: u64 = 0;
    let mut pos: usize = 0;
    while pos < data.len()
        invariant
            pos <= data@.len(),
            start == (IndexState { places: old(index)@, uncompacted: 0 }),
            st.places == index@,
            uncompacted == clip(st.uncompacted),
            replay_log(st, gen, data@, pos as int) == replay_log(start, gen, data@, 0),
            replay_reach(st, gen, data@, pos as int) == replay_reach(start, gen, data@, 0),
        decreases data@.len() - pos,
    {
        let rest = slice_subrange(data, pos, data.len());
        assert(rest@ =~= data@.skip(pos as int));
        match decode_record(rest) {
            Decoded::Record { cmd, len } => {
                proof {
                    lemma_parsed_record_is_encoded(rest@);
                    st = apply_record(st, gen, pos as int, cmd@, len as int);
                }
                let place = CommandPos { gen, pos: pos as u64, len: len as u64 };
                match cmd {
                    Command::Put { key, value } => {
                        if let Some(prior) = index.insert(key, place) {
                            uncompacted = uncompacted.saturating_add(prior.len);
                        }
                    },
                    Command::Remove { key } => {
                        if let Some(prior) = index.remove(key.as_str()) {
                            uncompacted = uncompacted.saturating_add(prior.len);
                        }
                        uncompacted = uncompacted.saturating_add(len as u64);
                    },
                }
                pos = pos + len;
            },
            Decoded::Truncated => {
                assert(replay_log(st, gen, data@, pos as int) == Some(st));
                assert(replay_reach(st, gen, data@, pos as int) == st);
                return Ok(uncompacted);
            },
            Decoded::Corrupt => {
                assert(replay_log(st, gen, data@, pos as int) is None);
                assert(replay_reach(st, gen, data@, pos as int) == st);
                return Err(KvsError::CorruptLog);
            },
        }
    }
    Ok(uncompacted)
}

} // verus!
