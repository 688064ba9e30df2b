//! The bytes of the logs, live and useless.
//!
//! A record is live while the index points at it. The store counts the bytes
//! of the records that have become useless; the count never says more than
//! the logs hold beside their live records, so a compaction frees at least
//! what was counted.

use vstd::prelude::*;
use crate::codec::{lemma_parsed_record_is_encoded, parse_record, Parsed};
use crate::command::CommandView;
use crate::consistency::{all_copied, compaction_log, copied};
use crate::index::{bytes_before, key_before, key_order, CommandPos, Places};
use crate::log_dir::{addressable, bytes_at, grown, Logs};
use crate::replay::{
    apply_record, holds_key, initial_state, places_valid, replay_log, replay_logs, stale_len,
    IndexState,
};

verus! {

/// The bytes that the logs take.
pub open spec fn total_size(logs: Logs) -> nat
    decreases logs.len(),
{
    if logs.len() == 0 {
        0
    } else {
        logs[0].1.len() + total_size(logs.drop_first())
    }
}

/// `order` lists the keys of `places`, each once.
pub open spec fn lists_keys(order: Seq<Seq<char>>, places: Places) -> bool {
    &&& order.no_duplicates()
    &&& forall|key: Seq<char>| order.contains(key) <==> places.contains_key(key)
}

/// The bytes that the records of the keys of `order` take.
pub open spec fn live_sum(places: Places, order: Seq<Seq<char>>) -> nat
    decreases order.len(),
{
    if order.len() == 0 {
        0
    } else {
        live_sum(places, order.drop_last()) + places[order.last()].len as nat
    }
}

/// The keys of `places` can be listed.
pub open spec fn countable(places: Places) -> bool {
    exists|order: Seq<Seq<char>>| lists_keys(order, places)
}

/// The bytes that the live records take.
pub open spec fn live_size(places: Places) -> nat {
    live_sum(places, choose|order: Seq<Seq<char>>| lists_keys(order, places))
}

/// The count `useless` says no more than the logs hold beside their live
/// records.
#[verifier::opaque]
pub open spec fn accounted(logs: Logs, places: Places, useless: nat) -> bool {
    countable(places) && live_size(places) + useless <= total_size(logs)
}

/// The sum over a list is the sum over the list without one key, and the
/// bytes of that key.
proof fn lemma_live_sum_without(places: Places, order: Seq<Seq<char>>, at: int)
    requires
        0 <= at < order.len(),
    ensures
        live_sum(places, order) == live_sum(places, order.remove(at)) + places[order[at]].len,
    decreases order.len(),
{
    if at == order.len() - 1 {
        assert(order.remove(at) =~= order.drop_last());
    } else {
        lemma_live_sum_without(places, order.drop_last(), at);
        assert(order.remove(at).drop_last() =~= order.drop_last().remove(at));
        assert(order.remove(at).last() == order.last());
    }
}

/// Indexes that agree on the keys of a list give the same sum.
proof fn lemma_live_sum_agrees(first: Places, second: Places, order: Seq<Seq<char>>)
    requires
        forall|i: int|
            0 <= i < order.len() ==> first[#[trigger] order[i]].len == second[order[i]].len,
    ensures
        live_sum(first, order) == live_sum(second, order),
    decreases order.len(),
{
    if order.len() > 0 {
        let rest = order.drop_last();
        assert forall|i: int| 0 <= i < rest.len() implies first[#[trigger] rest[i]].len
            == second[rest[i]].len by {
            assert(rest[i] == order[i]);
        }
        lemma_live_sum_agrees(first, second, rest);
    }
}

/// Two lists of the same keys, each once, give the same sum.
proof fn lemma_live_sum_any_order(places: Places, first: Seq<Seq<char>>, second: Seq<Seq<char>>)
    requires
        first.no_duplicates(),
        second.no_duplicates(),
        forall|key: Seq<char>| first.contains(key) <==> second.contains(key),
    ensures
        live_sum(places, first) == live_sum(places, second),
    decreases first.len(),
{
    if first.len() == 0 {
        if second.len() > 0 {
            assert(second.contains(second[0]));
            assert(first.contains(second[0]));
        }
    } else {
        let key = first.last();
        assert(first.contains(key));
        let at = choose|at: int| 0 <= at < second.len() && second[at] == key;
        let rest = first.drop_last();
        let other = second.remove(at);
        assert forall|k: Seq<char>| rest.contains(k) <==> other.contains(k) by {
            if rest.contains(k) {
                let i = choose|i: int| 0 <= i < rest.len() && rest[i] == k;
                assert(first[i] == k);
                assert(k != key);
                assert(second.contains(k));
                let j = choose|j: int| 0 <= j < second.len() && second[j] == k;
                if j < at {
                    assert(other[j] == k);
                } else {
                    assert(other[j - 1] == k);
                }
            }
            if other.contains(k) {
                let j = choose|j: int| 0 <= j < other.len() && other[j] == k;
                if j < at {
                    assert(second[j] == k);
                } else {
                    assert(second[j + 1] == k);
                }
                assert(second.contains(k));
                assert(k != key);
                assert(first.contains(k));
                let i = choose|i: int| 0 <= i < first.len() && first[i] == k;
                assert(rest[i] == k);
            }
        }
        assert(rest.no_duplicates());
        assert(other.no_duplicates()) by {
            assert forall|i: int, j: int| 0 <= i < j < other.len() implies other[i] != other[j] by {
                let a = if i < at {
                    i
                } else {
                    i + 1
                };
                let b = if j < at {
                    j
                } else {
                    j + 1
                };
                assert(other[i] == second[a] && other[j] == second[b]);
            }
        }
        lemma_live_sum_any_order(places, rest, other);
        lemma_live_sum_without(places, second, at);
    }
}

/// The live size is the sum over any list of the keys.
pub proof fn lemma_live_size(places: Places, order: Seq<Seq<char>>)
    requires
        lists_keys(order, places),
    ensures
        countable(places),
        live_size(places) == live_sum(places, order),
{
    let chosen = choose|order: Seq<Seq<char>>| lists_keys(order, places);
    lemma_live_sum_any_order(places, chosen, order);
}

/// No index without keys has live bytes.
pub proof fn lemma_live_size_empty()
    ensures
        countable(Places::empty()),
        live_size(Places::empty()) == 0,
{
    let none = Seq::<Seq<char>>::empty();
    assert(lists_keys(none, Places::empty()));
    lemma_live_size(Places::empty(), none);
}

/// A key that is bound anew brings the bytes of its record, and takes away
/// those of the record it had.
pub proof fn lemma_live_size_insert(places: Places, key: Seq<char>, place: CommandPos)
    requires
        countable(places),
    ensures
        countable(places.insert(key, place)),
        live_size(places.insert(key, place)) + stale_len(places, key) == live_size(places)
            + place.len,
{
    let order = choose|order: Seq<Seq<char>>| lists_keys(order, places);
    let after = places.insert(key, place);
    if places.contains_key(key) {
        assert(order.contains(key));
        let at = choose|at: int| 0 <= at < order.len() && order[at] == key;
        assert(lists_keys(order, after));
        lemma_live_size(after, order);
        lemma_live_sum_without(places, order, at);
        lemma_live_sum_without(after, order, at);
        let rest = order.remove(at);
        assert forall|i: int| 0 <= i < rest.len() implies places[#[trigger] rest[i]].len
            == after[rest[i]].len by {
            let j = if i < at {
                i
            } else {
                i + 1
            };
            assert(rest[i] == order[j]);
            assert(order[j] != order[at]);
        }
        lemma_live_sum_agrees(places, after, rest);
    } else {
        let longer = order.push(key);
        assert(longer.no_duplicates()) by {
            assert forall|i: int, j: int| 0 <= i < j < longer.len() implies longer[i]
                != longer[j] by {
                if j == order.len() {
                    assert(order.contains(order[i]));
                }
            }
        }
        assert forall|k: Seq<char>| longer.contains(k) <==> after.contains_key(k) by {
            if longer.contains(k) {
                let i = choose|i: int| 0 <= i < longer.len() && longer[i] == k;
                if i < order.len() {
                    assert(order.contains(k));
                }
            }
            if after.contains_key(k) {
                if k == key {
                    assert(longer[order.len() as int] == k);
                } else {
                    assert(order.contains(k));
                    let i = choose|i: int| 0 <= i < order.len() && order[i] == k;
                    assert(longer[i] == k);
                }
            }
        }
        lemma_live_size(after, longer);
        assert(longer.drop_last() =~= order);
        assert forall|i: int| 0 <= i < order.len() implies places[#[trigger] order[i]].len
            == after[order[i]].len by {
            assert(order.contains(order[i]));
        }
        lemma_live_sum_agrees(places, after, order);
    }
}

/// A key that is dropped takes away the bytes of the record it had.
pub proof fn lemma_live_size_remove(places: Places, key: Seq<char>)
    requires
        countable(places),
    ensures
        countable(places.remove(key)),
        live_size(places.remove(key)) + stale_len(places, key) == live_size(places),
{
    let order = choose|order: Seq<Seq<char>>| lists_keys(order, places);
    let after = places.remove(key);
    if places.contains_key(key) {
        assert(order.contains(key));
        let at = choose|at: int| 0 <= at < order.len() && order[at] == key;
        let rest = order.remove(at);
        assert(rest.no_duplicates()) by {
            assert forall|i: int, j: int| 0 <= i < j < rest.len() implies rest[i] != rest[j] by {
                let a = if i < at {
                    i
                } else {
                    i + 1
                };
                let b = if j < at {
                    j
                } else {
                    j + 1
                };
                assert(rest[i] == order[a] && rest[j] == order[b]);
            }
        }
        assert forall|k: Seq<char>| rest.contains(k) <==> after.contains_key(k) by {
            if rest.contains(k) {
                let i = choose|i: int| 0 <= i < rest.len() && rest[i] == k;
                let j = if i < at {
                    i
                } else {
                    i + 1
                };
                assert(order[j] == k);
                assert(order.contains(k));
                assert(order[j] != order[at]);
            }
            if after.contains_key(k) {
                assert(order.contains(k));
                let j = choose|j: int| 0 <= j < order.len() && order[j] == k;
                if j < at {
                    assert(rest[j] == k);
                } else {
                    assert(rest[j - 1] == k);
                }
            }
        }
        lemma_live_size(after, rest);
        lemma_live_sum_without(places, order, at);
        assert forall|i: int| 0 <= i < rest.len() implies places[#[trigger] rest[i]].len
            == after[rest[i]].len by {
            assert(rest.contains(rest[i]));
        }
        lemma_live_sum_agrees(places, after, rest);
    } else {
        assert(after =~= places);
    }
}

/// Bytes written at the end of the newest log are so many bytes more.
pub proof fn lemma_total_size_grown(logs: Logs, bytes: Seq<u8>)
    requires
        logs.len() > 0,
    ensures
        total_size(grown(logs, bytes)) == total_size(logs) + bytes.len(),
    decreases logs.len(),
{
    let after = grown(logs, bytes);
    if logs.len() == 1 {
        assert(after.drop_first().len() == 0);
        assert(logs.drop_first().len() == 0);
        assert(total_size(after.drop_first()) == 0);
        assert(total_size(logs.drop_first()) == 0);
    } else {
        assert(after.drop_first() =~= grown(logs.drop_first(), bytes));
        lemma_total_size_grown(logs.drop_first(), bytes);
    }
}

/// A file that is added is so many bytes more.
pub proof fn lemma_total_size_push(logs: Logs, gen: u64, data: Seq<u8>)
    ensures
        total_size(logs.push((gen, data))) == total_size(logs) + data.len(),
    decreases logs.len(),
{
    let after = logs.push((gen, data));
    if logs.len() == 0 {
        assert(after.drop_first().len() == 0);
        assert(total_size(after.drop_first()) == 0);
    } else {
        assert(after.drop_first() =~= logs.drop_first().push((gen, data)));
        lemma_total_size_push(logs.drop_first(), gen, data);
    }
}

/// One record more keeps the account: what it adds to the logs is either
/// live or counted.
pub proof fn lemma_apply_record_accounted(
    st: IndexState,
    gen: u64,
    pos: int,
    cmd: CommandView,
    len: int,
    scanned: nat,
)
    requires
        countable(st.places),
        live_size(st.places) + st.uncompacted <= scanned,
        0 < len <= u64::MAX,
    ensures
        countable(apply_record(st, gen, pos, cmd, len).places),
        live_size(apply_record(st, gen, pos, cmd, len).places) + apply_record(
            st,
            gen,
            pos,
            cmd,
            len,
        ).uncompacted <= scanned + len,
{
    match cmd {
        CommandView::Put { key, value } => {
            lemma_live_size_insert(
                st.places,
                key,
                CommandPos { gen, pos: pos as u64, len: len as u64 },
            );
        },
        CommandView::Remove { key } => {
            lemma_live_size_remove(st.places, key);
        },
    }
}

/// The replay of one log keeps the account.
pub proof fn lemma_replay_log_accounted(
    st: IndexState,
    gen: u64,
    log: Seq<u8>,
    pos: int,
    before: nat,
)
    requires
        0 <= pos <= log.len() <= u64::MAX,
        countable(st.places),
        live_size(st.places) + st.uncompacted <= before + pos,
        replay_log(st, gen, log, pos) is Some,
    ensures
        countable(replay_log(st, gen, log, pos)->0.places),
        live_size(replay_log(st, gen, log, pos)->0.places) + replay_log(
            st,
            gen,
            log,
            pos,
        )->0.uncompacted <= before + log.len(),
    decreases log.len() - pos,
{
    if pos < log.len() {
        match parse_record(log.skip(pos)) {
            Parsed::Item { value: cmd, len } => {
                lemma_parsed_record_is_encoded(log.skip(pos));
                lemma_apply_record_accounted(st, gen, pos, cmd, len, before + pos as nat);
                lemma_replay_log_accounted(
                    apply_record(st, gen, pos, cmd, len),
                    gen,
                    log,
                    pos + len,
                    before,
                );
            },
            _ => {},
        }
    }
}

/// The replay of the logs keeps the account.
pub proof fn lemma_replay_logs_accounted(st: IndexState, logs: Logs, before: nat)
    requires
        forall|i: int| 0 <= i < logs.len() ==> (#[trigger] logs[i]).1.len() <= u64::MAX,
        countable(st.places),
        live_size(st.places) + st.uncompacted <= before,
        replay_logs(st, logs) is Some,
    ensures
        countable(replay_logs(st, logs)->0.places),
        live_size(replay_logs(st, logs)->0.places) + replay_logs(st, logs)->0.uncompacted
            <= before + total_size(logs),
    decreases logs.len(),
{
    if logs.len() > 0 {
        lemma_replay_log_accounted(st, logs[0].0, logs[0].1, 0, before);
        let next = replay_log(st, logs[0].0, logs[0].1, 0)->0;
        let rest = logs.drop_first();
        assert forall|i: int| 0 <= i < rest.len() implies (#[trigger] rest[i]).1.len()
            <= u64::MAX by {
            assert(rest[i] == logs[i + 1]);
        }
        lemma_replay_logs_accounted(next, rest, before + logs[0].1.len());
    }
}

/// No key stands before itself.
proof fn lemma_bytes_not_before_themselves(bytes: Seq<u8>)
    ensures
        !bytes_before(bytes, bytes),
    decreases bytes.len(),
{
    if bytes.len() > 0 {
        lemma_bytes_not_before_themselves(bytes.drop_first());
    }
}

/// The keys of an index in rising order are a list of its keys, each once.
pub proof fn lemma_key_order_lists_keys(order: Seq<Seq<char>>, places: Places)
    requires
        key_order(order, places),
    ensures
        lists_keys(order, places),
{
    assert forall|i: int, j: int| 0 <= i < j < order.len() implies order[i] != order[j] by {
        assert(key_before(order[i], order[j]));
        lemma_bytes_not_before_themselves(vstd::utf8::encode_utf8(order[i]));
    }
    assert forall|key: Seq<char>| order.contains(key) <==> places.contains_key(key) by {
        if order.contains(key) {
            let i = choose|i: int| 0 <= i < order.len() && order[i] == key;
            assert(places.contains_key(order[i]));
        }
    }
}

/// A count that says less is right where one that says more is.
pub proof fn lemma_accounted_less(logs: Logs, places: Places, useless: nat, less: nat)
    requires
        accounted(logs, places, useless),
        less <= useless,
    ensures
        accounted(logs, places, less),
{
    reveal(accounted);
}

/// A record that binds a key keeps the account, when the record that the key
/// had is counted.
pub proof fn lemma_put_accounted(
    logs: Logs,
    places: Places,
    useless: nat,
    key: Seq<char>,
    place: CommandPos,
    record: Seq<u8>,
)
    requires
        logs.len() > 0,
        accounted(logs, places, useless),
        place.len == record.len(),
    ensures
        accounted(
            grown(logs, record),
            places.insert(key, place),
            useless + stale_len(places, key),
        ),
{
    reveal(accounted);
    lemma_live_size_insert(places, key, place);
    lemma_total_size_grown(logs, record);
}

/// A record that drops a key keeps the account, when the record that the key
/// had and the new record are counted.
pub proof fn lemma_remove_accounted(
    logs: Logs,
    places: Places,
    useless: nat,
    key: Seq<char>,
    record: Seq<u8>,
)
    requires
        logs.len() > 0,
        accounted(logs, places, useless),
    ensures
        accounted(
            grown(logs, record),
            places.remove(key),
            useless + stale_len(places, key) + record.len(),
        ),
{
    reveal(accounted);
    lemma_live_size_remove(places, key);
    lemma_total_size_grown(logs, record);
}

/// The count that a replay makes is right, and stays right when an empty log
/// is added.
pub proof fn lemma_opened_accounted(logs: Logs, gen: u64)
    requires
        addressable(logs),
        replay_logs(initial_state(), logs) is Some,
    ensures
        accounted(
            logs.push((gen, Seq::<u8>::empty())),
            replay_logs(initial_state(), logs)->0.places,
            replay_logs(initial_state(), logs)->0.uncompacted,
        ),
{
    reveal(accounted);
    lemma_live_size_empty();
    lemma_replay_logs_accounted(initial_state(), logs, 0);
    lemma_total_size_push(logs, gen, Seq::empty());
}

/// The log that compaction writes takes the bytes of the live records.
proof fn lemma_compaction_log_len(logs: Logs, places: Places, order: Seq<Seq<char>>)
    requires
        places_valid(logs, places),
        forall|i: int| 0 <= i < order.len() ==> places.contains_key(#[trigger] order[i]),
    ensures
        compaction_log(logs, places, order).len() == live_sum(places, order),
    decreases order.len(),
{
    if order.len() > 0 {
        let rest = order.drop_last();
        assert forall|i: int| 0 <= i < rest.len() implies places.contains_key(
            #[trigger] rest[i],
        ) by {
            assert(rest[i] == order[i]);
        }
        lemma_compaction_log_len(logs, places, rest);
        let key = order.last();
        assert(places.contains_key(order[order.len() - 1]));
        assert(holds_key(logs, key, places[key]));
    }
}

/// The copies of the live records take the bytes that the records took.
proof fn lemma_copies_as_long(
    logs: Logs,
    places: Places,
    gen: u64,
    copy: Seq<u8>,
    fresh: Places,
    order: Seq<Seq<char>>,
)
    requires
        all_copied(logs, places, gen, copy, fresh),
        forall|i: int| 0 <= i < order.len() ==> fresh.contains_key(#[trigger] order[i]),
    ensures
        live_sum(fresh, order) == live_sum(places, order),
{
    reveal(all_copied);
    assert forall|i: int| 0 <= i < order.len() implies places[#[trigger] order[i]].len
        == fresh[order[i]].len by {
        let key = order[i];
        assert(fresh.contains_key(key));
        let from = places[key];
        let to = fresh[key];
        assert(copied(logs, from, gen, copy, to));
        assert(bytes_at(logs, from)->0.len() == from.len);
        assert(copy.subrange(to.pos as int, to.end()).len() == to.len);
    }
    lemma_live_sum_agrees(places, fresh, order);
}

/// The index after compaction has the keys of the index before.
proof fn lemma_copies_same_keys(
    logs: Logs,
    places: Places,
    gen: u64,
    copy: Seq<u8>,
    fresh: Places,
    order: Seq<Seq<char>>,
)
    requires
        lists_keys(order, places),
        all_copied(logs, places, gen, copy, fresh),
        forall|key: Seq<char>| #[trigger] places.contains_key(key) ==> fresh.contains_key(key),
    ensures
        lists_keys(order, fresh),
        forall|i: int| 0 <= i < order.len() ==> fresh.contains_key(#[trigger] order[i]),
        forall|i: int| 0 <= i < order.len() ==> places.contains_key(#[trigger] order[i]),
{
    reveal(all_copied);
    assert forall|key: Seq<char>| order.contains(key) <==> fresh.contains_key(key) by {
        if order.contains(key) {
            assert(places.contains_key(key));
        }
        if fresh.contains_key(key) {
            assert(places.contains_key(key));
        }
    }
    assert forall|i: int| 0 <= i < order.len() implies fresh.contains_key(#[trigger] order[i])
        && places.contains_key(order[i]) by {
        assert(order.contains(order[i]));
    }
}

/// Two logs, of which the second is empty, take the bytes of the first.
proof fn lemma_total_size_pair(gen: u64, copy: Seq<u8>, next_gen: u64)
    ensures
        total_size(seq![(gen, copy), (next_gen, Seq::<u8>::empty())]) == copy.len(),
{
    let after = seq![(gen, copy), (next_gen, Seq::<u8>::empty())];
    let rest = after.drop_first();
    assert(rest.len() == 1);
    assert(rest.drop_first().len() == 0);
    assert(total_size(rest.drop_first()) == 0);
    assert(total_size(rest) == 0);
}

/// After compaction the logs take the bytes of the live records and no
/// more: whatever was counted as useless before is gone.
pub proof fn lemma_compacted_accounted(
    logs: Logs,
    places: Places,
    useless: nat,
    gen: u64,
    next_gen: u64,
    copy: Seq<u8>,
    fresh: Places,
    order: Seq<Seq<char>>,
)
    requires
        places_valid(logs, places),
        accounted(logs, places, useless),
        lists_keys(order, places),
        copy == compaction_log(logs, places, order),
        all_copied(logs, places, gen, copy, fresh),
        forall|key: Seq<char>| #[trigger] places.contains_key(key) ==> fresh.contains_key(key),
    ensures
        accounted(seq![(gen, copy), (next_gen, Seq::<u8>::empty())], fresh, 0),
        total_size(seq![(gen, copy), (next_gen, Seq::<u8>::empty())]) + useless <= total_size(
            logs,
        ),
{
    reveal(accounted);
    lemma_copies_same_keys(logs, places, gen, copy, fresh, order);
    lemma_live_size(places, order);
    lemma_compaction_log_len(logs, places, order);
    lemma_copies_as_long(logs, places, gen, copy, fresh, order);
    lemma_live_size(fresh, order);
    lemma_total_size_pair(gen, copy, next_gen);
}

} // verus!
