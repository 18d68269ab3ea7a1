//! The log of the last graph events shown in the debug panel.
use vstd::prelude::*;

verus! {

/// Once the log holds more entries than this, the oldest goes before a new
/// one is added.
pub const EVENTS_LIMIT: usize = 100;

/// The log after recording `entry`.
pub open spec fn logged(log: Seq<Seq<char>>, entry: Seq<char>) -> Seq<Seq<char>> {
    if log.len() > EVENTS_LIMIT {
        log.drop_first().push(entry)
    } else {
        log.push(entry)
    }
}

/// Appends `entry` to the log, first dropping the oldest entry when the
/// log holds more than `EVENTS_LIMIT`.
pub fn record_event(log: &mut Vec<String>, entry: String)
    ensures
        final(log)@.map_values(|s: String| s@) == logged(old(log)@.map_values(|s: String| s@), entry@),
{
    let ghost before = log@.map_values(|s: String| s@);
    if log.len() > EVENTS_LIMIT {
        log.remove(0);
        assert(log@.map_values(|s: String| s@) =~= before.drop_first());
    }
    let ghost mid = log@.map_values(|s: String| s@);
    log.push(entry);
    assert(log@.map_values(|s: String| s@) =~= mid.push(entry@));
}

/// A log never grows past `EVENTS_LIMIT + 1` entries and always ends with
/// the newest entry, the others in their order.
pub proof fn law_log_bounded(log: Seq<Seq<char>>, entry: Seq<char>)
    requires
        log.len() <= EVENTS_LIMIT + 1,
    ensures
        logged(log, entry).len() <= EVENTS_LIMIT + 1,
        logged(log, entry).last() == entry,
        logged(log, entry).drop_last() == (if log.len() > EVENTS_LIMIT { log.drop_first() } else { log }),
{
    let r = logged(log, entry);
    assert(r.drop_last() =~= (if log.len() > EVENTS_LIMIT { log.drop_first() } else { log }));
}

} // verus!
