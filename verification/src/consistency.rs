//! The invariant that ties an index to its logs, and the proofs that each
//! step of the store keeps it.
//!
//! An index is consistent with a directory when replaying the directory
//! yields exactly that index: what the store answers now is what it would
//! answer after a restart.

use vstd::prelude::*;
use crate::codec::{
    lemma_parse_record_of_encoded, lemma_parsed_record_is_encoded, parse_record, record_bytes,
    Parsed,
};
use crate::command::CommandView;
use crate::index::{CommandPos, Places};
use crate::log_dir::{
    addressable, ascending, bytes_at, grown, lemma_ascending_push, lemma_log_of, Logs,
};
use crate::replay::{
    apply_record, clean, contents, holds_key, initial_state, lemma_bytes_at_added,
    lemma_bytes_at_grown, lemma_replay_log_append, lemma_replay_logs_append,
    lemma_replay_logs_create, lemma_replayed_places_valid, places_valid, recovered, replay_log,
    replay_logs, IndexState,
};

verus! {

/// The index `places` is what a replay of `logs` yields, and the newest log
/// can take another record.
pub open spec fn consistent(logs: Logs, places: Places) -> bool {
    &&& logs.len() > 0
    &&& ascending(logs)
    &&& addressable(logs)
    &&& clean(logs.last().1, 0)
    &&& replay_logs(initial_state(), logs) == Some(
        IndexState {
            places,
            uncompacted: replay_logs(initial_state(), logs)->0.uncompacted,
        },
    )
}

/// The place of a record written at the end of the newest log.
pub open spec fn next_place(logs: Logs, record: Seq<u8>) -> CommandPos
    recommends
        logs.len() > 0,
{
    CommandPos {
        gen: logs.last().0,
        pos: logs.last().1.len() as u64,
        len: record.len() as u64,
    }
}

/// In a consistent store each place of the index is that of a record which
/// binds its key.
pub proof fn lemma_consistent_places_valid(logs: Logs, places: Places)
    requires
        consistent(logs, places),
    ensures
        places_valid(logs, places),
{
    lemma_replayed_places_valid(logs);
}

/// A restart of a consistent store recovers what the store holds.
pub proof fn lemma_consistent_recovers(logs: Logs, places: Places)
    requires
        consistent(logs, places),
    ensures
        recovered(logs) == Some(contents(logs, places)),
{
}

/// Writing a record that binds `key`, and pointing the index at it, keeps
/// the store consistent and binds `key` to `value`.
pub proof fn lemma_put(logs: Logs, places: Places, key: Seq<char>, value: Seq<char>)
    requires
        consistent(logs, places),
        logs.last().1.len() + record_bytes(CommandView::Put { key, value }).len() <= u64::MAX,
    ensures
        ({
            let record = record_bytes(CommandView::Put { key, value });
            let place = next_place(logs, record);
            &&& consistent(grown(logs, record), places.insert(key, place))
            &&& contents(grown(logs, record), places.insert(key, place)) == contents(
                logs,
                places,
            ).insert(key, value)
        }),
{
    let cmd = CommandView::Put { key, value };
    let record = record_bytes(cmd);
    let place = next_place(logs, record);
    let after = grown(logs, record);
    let last = logs.len() - 1;
    lemma_replay_logs_append(initial_state(), logs, cmd);
    lemma_replayed_places_valid(logs);
    lemma_log_of(after, last);
    assert(record + Seq::<u8>::empty() =~= record);
    lemma_parse_record_of_encoded(cmd, Seq::empty());
    assert(after[last].1.subrange(place.pos as int, place.end()) =~= record);
    assert(bytes_at(after, place) == Some(record));
    let before = contents(logs, places);
    let now = contents(after, places.insert(key, place));
    assert forall|other: Seq<char>| #[trigger]
        now.contains_key(other) && other != key implies now[other] == before[other] by {
        assert(places.contains_key(other));
        lemma_bytes_at_grown(logs, record, places[other]);
    }
    assert(now =~= before.insert(key, value));
}

/// Writing a record that drops `key`, and taking the key out of the index,
/// keeps the store consistent and drops `key`.
pub proof fn lemma_remove(logs: Logs, places: Places, key: Seq<char>)
    requires
        consistent(logs, places),
        logs.last().1.len() + record_bytes(CommandView::Remove { key }).len() <= u64::MAX,
    ensures
        ({
            let record = record_bytes(CommandView::Remove { key });
            &&& consistent(grown(logs, record), places.remove(key))
            &&& contents(grown(logs, record), places.remove(key)) == contents(logs, places).remove(
                key,
            )
        }),
{
    let cmd = CommandView::Remove { key };
    let record = record_bytes(cmd);
    let after = grown(logs, record);
    lemma_replay_logs_append(initial_state(), logs, cmd);
    lemma_replayed_places_valid(logs);
    let before = contents(logs, places);
    let now = contents(after, places.remove(key));
    assert forall|other: Seq<char>| #[trigger] now.contains_key(other) implies now[other]
        == before[other] by {
        assert(places.contains_key(other));
        lemma_bytes_at_grown(logs, record, places[other]);
    }
    assert(now =~= before.remove(key));
}

/// Logs that replay without fault are consistent with the index they yield,
/// once an empty log is added to write to; the contents stay what they were.
pub proof fn lemma_opened(logs: Logs, gen: u64)
    requires
        ascending(logs),
        addressable(logs),
        replay_logs(initial_state(), logs) is Some,
        logs.len() > 0 ==> logs.last().0 < gen,
    ensures
        ({
            let places = replay_logs(initial_state(), logs)->0.places;
            let after = logs.push((gen, Seq::<u8>::empty()));
            &&& consistent(after, places)
            &&& contents(after, places) == contents(logs, places)
        }),
{
    let places = replay_logs(initial_state(), logs)->0.places;
    let after = logs.push((gen, Seq::<u8>::empty()));
    lemma_replay_logs_create(initial_state(), logs, gen);
    lemma_replayed_places_valid(logs);
    lemma_ascending_push(logs, gen, Seq::empty());
    let before = contents(logs, places);
    let now = contents(after, places);
    assert forall|key: Seq<char>| #[trigger] now.contains_key(key) implies now[key]
        == before[key] by {
        lemma_bytes_at_added(logs, gen, Seq::empty(), places[key]);
    }
    assert(now =~= before);
}

/// The record at `to` in the log `copy` of generation `gen` is the bytes
/// that stood at `from` in `logs`.
pub open spec fn copied(
    logs: Logs,
    from: CommandPos,
    gen: u64,
    copy: Seq<u8>,
    to: CommandPos,
) -> bool {
    &&& to.gen == gen
    &&& to.end() <= copy.len()
    &&& bytes_at(logs, from) == Some(copy.subrange(to.pos as int, to.end()))
}

/// Each place of `fresh` is that of a faithful copy of the record that
/// `places` gives for the same key.
#[verifier::opaque]
pub open spec fn all_copied(
    logs: Logs,
    places: Places,
    gen: u64,
    copy: Seq<u8>,
    fresh: Places,
) -> bool {
    forall|key: Seq<char>| #[trigger]
        fresh.contains_key(key) ==> places.contains_key(key) && copied(
            logs,
            places[key],
            gen,
            copy,
            fresh[key],
        )
}

/// The log that compaction writes: the records of the keys, in the order
/// given, one after the other.
pub open spec fn compaction_log(logs: Logs, places: Places, order: Seq<Seq<char>>) -> Seq<u8>
    decreases order.len(),
{
    if order.len() == 0 {
        Seq::empty()
    } else {
        compaction_log(logs, places, order.drop_last()) + bytes_at(logs, places[order.last()])->0
    }
}

/// The log that compaction writes grows by one record with each key.
pub proof fn lemma_compaction_log_step(logs: Logs, places: Places, order: Seq<Seq<char>>, i: int)
    requires
        0 <= i < order.len(),
    ensures
        compaction_log(logs, places, order.take(i + 1)) == compaction_log(
            logs,
            places,
            order.take(i),
        ) + bytes_at(logs, places[order[i]])->0,
{
    assert(order.take(i + 1).drop_last() =~= order.take(i));
    assert(order.take(i + 1).last() == order[i]);
}

/// One step of compaction: the record of `key` is copied to the end of the
/// compaction log, and the new index points at the copy.
pub proof fn lemma_copy_step(
    logs: Logs,
    places: Places,
    gen: u64,
    copy: Seq<u8>,
    fresh: Places,
    key: Seq<char>,
)
    requires
        places_valid(logs, places),
        places.contains_key(key),
        clean(copy, 0),
        replay_log(initial_state(), gen, copy, 0) is Some,
        replay_log(initial_state(), gen, copy, 0)->0.places == fresh,
        all_copied(logs, places, gen, copy, fresh),
        copy.len() + places[key].len <= u64::MAX,
    ensures
        ({
            let record = bytes_at(logs, places[key])->0;
            let to = CommandPos { gen, pos: copy.len() as u64, len: places[key].len };
            &&& record.len() == places[key].len
            &&& clean(copy + record, 0)
            &&& replay_log(initial_state(), gen, copy + record, 0) is Some
            &&& replay_log(initial_state(), gen, copy + record, 0)->0.places == fresh.insert(
                key,
                to,
            )
            &&& all_copied(logs, places, gen, copy + record, fresh.insert(key, to))
        }),
{
    reveal(all_copied);
    let from = places[key];
    let record = bytes_at(logs, from)->0;
    let to = CommandPos { gen, pos: copy.len() as u64, len: from.len };
    assert(holds_key(logs, key, from));
    lemma_parsed_record_is_encoded(record);
    let cmd = parse_record(record)->value;
    assert(record.subrange(0, record.len() as int) =~= record);
    assert(record == record_bytes(cmd));
    lemma_replay_log_append(initial_state(), gen, copy, 0, cmd);
    let after = copy + record;
    let now = fresh.insert(key, to);
    assert forall|other: Seq<char>| #[trigger] now.contains_key(other) implies places.contains_key(
        other,
    ) && copied(logs, places[other], gen, after, now[other]) by {
        if other == key {
            assert(after.subrange(to.pos as int, to.end()) =~= record);
        } else {
            let at = fresh[other];
            assert(after.subrange(at.pos as int, at.end()) =~= copy.subrange(
                at.pos as int,
                at.end(),
            ));
        }
    }
}

/// The end of compaction: a directory of the compaction log and an empty log
/// to write to is consistent with the new index, and holds what the old
/// directory held.
pub proof fn lemma_compacted(
    logs: Logs,
    places: Places,
    gen: u64,
    next_gen: u64,
    copy: Seq<u8>,
    fresh: Places,
)
    requires
        places_valid(logs, places),
        gen < next_gen,
        copy.len() <= u64::MAX,
        clean(copy, 0),
        replay_log(initial_state(), gen, copy, 0) is Some,
        replay_log(initial_state(), gen, copy, 0)->0.places == fresh,
        all_copied(logs, places, gen, copy, fresh),
        forall|key: Seq<char>| #[trigger] places.contains_key(key) ==> fresh.contains_key(key),
    ensures
        ({
            let after = seq![(gen, copy), (next_gen, Seq::<u8>::empty())];
            &&& consistent(after, fresh)
            &&& contents(after, fresh) == contents(logs, places)
            &&& forall|key: Seq<char>| #[trigger] fresh.contains_key(key) ==> fresh[key].gen == gen
        }),
{
    reveal(all_copied);
    let after = seq![(gen, copy), (next_gen, Seq::<u8>::empty())];
    let st = replay_log(initial_state(), gen, copy, 0)->0;
    let rest = after.drop_first();
    assert(rest.len() == 1 && rest[0] == (next_gen, Seq::<u8>::empty()));
    assert(replay_log(st, next_gen, Seq::<u8>::empty(), 0) == Some(st));
    assert(rest.drop_first().len() == 0);
    assert(replay_logs(st, rest.drop_first()) == Some(st));
    assert(replay_logs(st, rest) == Some(st));
    assert(replay_logs(initial_state(), after) == Some(st));
    assert(clean(Seq::<u8>::empty(), 0));
    lemma_log_of(after, 0);
    let before = contents(logs, places);
    let now = contents(after, fresh);
    assert forall|key: Seq<char>| #[trigger] now.contains_key(key) implies before.contains_key(key)
        && now[key] == before[key] by {
        assert(fresh.contains_key(key));
        assert(bytes_at(after, fresh[key]) == bytes_at(logs, places[key]));
    }
    assert forall|key: Seq<char>| #[trigger] before.contains_key(key) implies now.contains_key(
        key,
    ) by {
        assert(places.contains_key(key));
    }
    assert(now =~= before);
}

/// A replay that starts with more bytes counted ends with as many more.
pub proof fn lemma_replay_log_counts_on(
    st: IndexState,
    extra: nat,
    gen: u64,
    log: Seq<u8>,
    pos: int,
)
    ensures
        replay_log(
            IndexState { places: st.places, uncompacted: st.uncompacted + extra },
            gen,
            log,
            pos,
        ) == match replay_log(st, gen, log, pos) {
            Some(end) => Some(
                IndexState { places: end.places, uncompacted: end.uncompacted + extra },
            ),
            None => None,
        },
    decreases log.len() - pos,
{
    if 0 <= pos < log.len() {
        match parse_record(log.skip(pos)) {
            Parsed::Item { value: cmd, len } => {
                if 0 < len <= log.len() - pos {
                    let more = IndexState {
                        places: st.places,
                        uncompacted: st.uncompacted + extra,
                    };
                    let next = apply_record(st, gen, pos, cmd, len);
                    assert(apply_record(more, gen, pos, cmd, len) == (IndexState {
                        places: next.places,
                        uncompacted: next.uncompacted + extra,
                    }));
                    lemma_replay_log_counts_on(next, extra, gen, log, pos + len);
                }
            },
            _ => {},
        }
    }
}

} // verus!
