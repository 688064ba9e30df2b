//! What holds of the store whatever is done with it.

use vstd::prelude::*;
use vstd::utf8::encode_utf8;
use crate::accounting::total_size;
use crate::cli::{engine_named, name_of, Engine};
use crate::consistency::{all_copied, lemma_consistent_places_valid, lemma_consistent_recovers};
use crate::codec::{escape, record_bytes, BACKSLASH, QUOTE};
use crate::command::CommandView;
use crate::index::Places;
use crate::log_dir::{bytes_at, grown, has_gen, lemma_log_of, Logs};
use crate::model::{after_remove, after_set, found, Held};
use crate::naming::{digits, file_gen, lemma_digits, log_name, log_suffix};
use crate::replay::{
    contents, holds_key, initial_state, lemma_bytes_at_grown, lemma_replay_logs_cut, recovered,
    replay_logs, value_at,
};
use crate::store::{compaction_due, first_write_gen, KvStore, COMPACTION_THRESHOLD};

verus! {

/// A key that was set is found with the value it was set to.
pub proof fn law_get_after_set(held: Held, key: Seq<char>, value: Seq<char>)
    ensures
        found(after_set(held, key, value), key) == Some(value),
{
}

/// A key that was set again is found with the later value.
pub proof fn law_get_after_overwrite(
    held: Held,
    key: Seq<char>,
    first: Seq<char>,
    second: Seq<char>,
)
    ensures
        found(after_set(after_set(held, key, first), key, second), key) == Some(second),
{
}

/// A key that was set can be removed; it is not found then, and it cannot be
/// removed a second time.
pub proof fn law_get_after_remove(held: Held, key: Seq<char>, value: Seq<char>)
    ensures
        after_remove(after_set(held, key, value), key) is Some,
        found(after_remove(after_set(held, key, value), key)->0, key) is None,
        after_remove(after_remove(after_set(held, key, value), key)->0, key) is None,
{
}

/// Setting or removing one key leaves what is found for every other key.
pub proof fn law_other_keys_untouched(
    held: Held,
    key: Seq<char>,
    value: Seq<char>,
    other: Seq<char>,
)
    requires
        other != key,
    ensures
        found(after_set(held, key, value), other) == found(held, other),
        after_remove(held, key) is Some ==> found(after_remove(held, key)->0, other) == found(
            held,
            other,
        ),
{
}

/// A store that is closed and opened again on its directory answers as it
/// did: the replay of the logs of a well-formed store fails on no record, and
/// recovers exactly what the store holds.
pub proof fn law_reopen_recovers(store: KvStore)
    requires
        store.wf(),
    ensures
        replay_logs(initial_state(), store.logs()) is Some,
        replay_logs(initial_state(), store.logs())->0.places == store.places(),
        recovered(store.logs()) == Some(store@),
{
    lemma_consistent_recovers(store.logs(), store.places());
}

/// A store that is closed can be opened again, and then holds what it held,
/// as long as the generation after the one it wrote to can be named: its
/// logs are replayed without a failure, the generation to write to next is
/// a number of 64 bits, and what is recovered is what the store held.
pub proof fn law_reopen_succeeds(store: KvStore)
    requires
        store.wf(),
        store.spec_current_gen() < u64::MAX,
    ensures
        replay_logs(initial_state(), store.logs()) is Some,
        first_write_gen(store.logs()) == store.spec_current_gen() + 1,
        first_write_gen(store.logs()) <= u64::MAX,
        recovered(store.logs()) == Some(store@),
{
    lemma_consistent_recovers(store.logs(), store.places());
}

/// The threshold decides: after a step that has counted `counted` bytes as
/// useless, the store is compacted if that is more than the threshold and
/// two more generations can be named, and is left as the step left it if
/// not.
pub proof fn law_threshold_decides_compaction(
    store: KvStore,
    before: KvStore,
    logs: Logs,
    places: Places,
    counted: u64,
)
    requires
        store.settled_from(&before, logs, places, counted),
    ensures
        counted > COMPACTION_THRESHOLD && before.spec_current_gen() <= u64::MAX - 2
            ==> store.compacted_from(&before, logs, places, counted) && store.spec_uncompacted()
            == 0,
        counted <= COMPACTION_THRESHOLD ==> store.logs() == logs && store.places() == places
            && store.spec_uncompacted() == counted,
{
}

/// A write that is cut short loses nothing: where the newest log of a
/// well-formed store has grown by only a part of one more record, a restart
/// recovers what the store held.
pub proof fn law_torn_write_is_ignored(store: KvStore, cmd: CommandView, k: int)
    requires
        store.wf(),
        0 <= k < record_bytes(cmd).len(),
    ensures
        recovered(grown(store.logs(), record_bytes(cmd).take(k))) == Some(store@),
{
    let logs = store.logs();
    let places = store.places();
    let part = record_bytes(cmd).take(k);
    lemma_replay_logs_cut(initial_state(), logs, cmd, k);
    lemma_consistent_places_valid(logs, places);
    let torn = contents(grown(logs, part), places);
    assert forall|key: Seq<char>| #[trigger] torn.contains_key(key) implies torn[key]
        == store@[key] by {
        lemma_bytes_at_grown(logs, part, places[key]);
    }
    assert(torn =~= store@);
}

/// In a well-formed store, the place that the index gives for a key is that
/// of a record which binds this key, and the value of the record is what the
/// store holds for the key.
pub proof fn law_index_points_at_values(store: KvStore, key: Seq<char>)
    requires
        store.wf(),
        store.places().contains_key(key),
    ensures
        holds_key(store.logs(), key, store.places()[key]),
        found(store@, key) == Some(value_at(store.logs(), store.places()[key])),
{
    lemma_consistent_places_valid(store.logs(), store.places());
}

/// In a well-formed store, no place of the index names a log older than the
/// safe point, and no such log is left.
pub proof fn law_safe_point(store: KvStore, key: Seq<char>)
    requires
        store.wf(),
        store.places().contains_key(key),
    ensures
        store.spec_safe_point() <= store.places()[key].gen,
        forall|gen: u64| has_gen(store.logs(), gen) ==> store.spec_safe_point() <= gen,
{
    lemma_consistent_places_valid(store.logs(), store.places());
    let logs = store.logs();
    assert forall|gen: u64| has_gen(logs, gen) implies store.spec_safe_point() <= gen by {
        let i = choose|i: int| 0 <= i < logs.len() && (#[trigger] logs[i]).0 == gen;
        if i > 0 {
            assert(logs[0].0 < logs[i].0);
        }
    }
    assert(holds_key(logs, key, store.places()[key]));
    assert(bytes_at(logs, store.places()[key]) is Some);
}

/// Compaction changes no value: the store that compaction leaves holds what
/// the logs and the index held before it.
pub proof fn law_compaction_keeps_values(
    store: KvStore,
    before: KvStore,
    logs: Logs,
    places: Places,
    counted: u64,
)
    requires
        store.wf(),
        store.compacted_from(&before, logs, places, counted),
    ensures
        store@ == contents(logs, places),
{
    reveal(all_copied);
    let fresh = store.places();
    lemma_log_of(store.logs(), 0);
    assert forall|key: Seq<char>| #[trigger] fresh.contains_key(key) implies value_at(
        store.logs(),
        fresh[key],
    ) == value_at(logs, places[key]) by {
        assert(bytes_at(store.logs(), fresh[key]) == bytes_at(logs, places[key]));
    }
    assert(store@ =~= contents(logs, places));
}

/// After compaction every place of the index names the log that compaction
/// wrote, whose generation is the safe point; and the index has the keys it
/// had, and no others.
pub proof fn law_compaction_moves_every_place(
    store: KvStore,
    before: KvStore,
    logs: Logs,
    places: Places,
    counted: u64,
    key: Seq<char>,
)
    requires
        store.compacted_from(&before, logs, places, counted),
    ensures
        store.places().contains_key(key) <==> places.contains_key(key),
        store.places().contains_key(key) ==> store.places()[key].gen == store.spec_safe_point()
            && store.places()[key].gen == store.logs()[0].0,
{
    reveal(all_copied);
}

/// Compaction that was due saves space: the logs that it leaves are smaller,
/// taken together, than the logs that it found, by no less than the bytes
/// that were counted as useless.
pub proof fn law_compaction_shrinks_logs(
    store: KvStore,
    before: KvStore,
    logs: Logs,
    places: Places,
    counted: u64,
)
    requires
        store.compacted_from(&before, logs, places, counted),
        compaction_due(counted, before.spec_current_gen()),
    ensures
        total_size(store.logs()) + counted <= total_size(logs),
        total_size(store.logs()) < total_size(logs),
{
}

/// The file of a log is found again under its generation: the name written
/// for a generation is read as the name of a log of this generation.
pub proof fn law_log_name_names_its_generation(gen: u64)
    ensures
        file_gen(log_name(gen)) == Some(gen),
{
    lemma_digits(gen as nat);
    let name = log_name(gen);
    assert(name.skip(name.len() - 4) =~= log_suffix());
    assert(name.take(name.len() - 4) =~= digits(gen as nat));
}

/// Each engine is found again under its name.
pub proof fn law_engine_found_by_name(engine: Engine)
    ensures
        engine_named(name_of(engine)) == Some(engine),
{
    reveal_strlit("kvs");
    reveal_strlit("sled");
    assert("kvs"@.len() != "sled"@.len());
}

/// A text without quotes, backslashes and control characters is written as
/// it is: its bytes stand for themselves.
pub proof fn law_plain_text_is_written_as_it_is(s: Seq<u8>)
    requires
        forall|i: int|
            0 <= i < s.len() ==> #[trigger] s[i] >= 0x20 && s[i] != QUOTE && s[i] != BACKSLASH,
    ensures
        escape(s) == s,
    decreases s.len(),
{
    if s.len() > 0 {
        let rest = s.drop_first();
        assert forall|i: int| 0 <= i < rest.len() implies #[trigger] rest[i] >= 0x20 && rest[i]
            != QUOTE && rest[i] != BACKSLASH by {
            assert(rest[i] == s[i + 1]);
        }
        law_plain_text_is_written_as_it_is(rest);
        assert(seq![s[0]] + rest =~= s);
    } else {
        assert(escape(s) =~= s);
    }
}

/// The size of a record: beside its two texts a record that binds a key
/// takes 29 bytes, and beside its text a record that drops a key takes 21.
pub proof fn law_record_sizes(key: Seq<char>, value: Seq<char>)
    ensures
        record_bytes(CommandView::Put { key, value }).len() == 29 + escape(encode_utf8(key)).len()
            + escape(encode_utf8(value)).len(),
        record_bytes(CommandView::Remove { key }).len() == 21 + escape(encode_utf8(key)).len(),
{
}

} // verus!
