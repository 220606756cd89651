//! The compatibility projection of a bundle: kill feed, per-player kill and
//! death counts, per-second positions and deployable events, as older
//! consumers of match data expect them.
//!
//! Positions are floating point and are rounded by the caller; this module
//! decides which sample each second shows, and everything else that the
//! projection derives.
use crate::classify::{classify_deployable_event_type, deployable_event_label};
use crate::text::{decimal, decimal_string};
use vstd::prelude::*;
use vstd::utf8::encode_utf8;

verus! {

/* ---------- per-second positions ---------- */

/// The whole second in which a sample taken at `t_ms` milliseconds falls,
/// truncated to 32 bits.
pub open spec fn second_of(t_ms: u64) -> u32 {
    (t_ms / 1000) as u32
}

/// Sample `a` comes before sample `b` when sorted by time, ties kept in
/// their input order.
pub open spec fn sample_before(times: Seq<u64>, a: usize, b: usize) -> bool {
    times[a as int] < times[b as int] || (times[a as int] == times[b as int] && a < b)
}

/// `order` lists the index `i`.
pub open spec fn lists(order: Seq<usize>, i: int) -> bool {
    exists|a: int| 0 <= a < order.len() && order[a] == i
}

/// `order` lists the indices of `times` sorted by time, ties in their
/// input order (what a stable sort by time gives).
pub open spec fn time_order(times: Seq<u64>, order: Seq<usize>) -> bool {
    &&& order.len() == times.len()
    &&& forall|a: int| 0 <= a < order.len() ==> #[trigger] order[a] < times.len()
    &&& forall|i: int| 0 <= i < times.len() ==> #[trigger] lists(order, i)
    &&& forall|a: int, b: int|
        0 <= a < b < order.len() ==> sample_before(times, #[trigger] order[a], #[trigger] order[b])
}

proof fn lemma_orders_agree(times: Seq<u64>, o1: Seq<usize>, o2: Seq<usize>, k: int)
    requires
        time_order(times, o1),
        time_order(times, o2),
        0 <= k <= o1.len(),
    ensures
        forall|j: int| 0 <= j < k ==> o1[j] == o2[j],
    decreases k,
{
    if k > 0 {
        lemma_orders_agree(times, o1, o2, k - 1);
        let i = k - 1;
        let a = o1[i];
        let b = o2[i];
        if a != b {
            assert(lists(o2, a as int));
            let j2 = choose|j: int| 0 <= j < o2.len() && o2[j] == a;
            assert(lists(o1, b as int));
            let j1 = choose|j: int| 0 <= j < o1.len() && o1[j] == b;
            if j2 < i {
                assert(sample_before(times, o1[j2], o1[i]));
            }
            if j1 < i {
                assert(sample_before(times, o2[j1], o2[i]));
            }
            assert(sample_before(times, o2[i], o2[j2]));
            assert(sample_before(times, o1[i], o1[j1]));
        }
    }
}

/// Only one order of the samples is their stable order by time.
pub proof fn law_time_order_unique(times: Seq<u64>, o1: Seq<usize>, o2: Seq<usize>)
    requires
        time_order(times, o1),
        time_order(times, o2),
    ensures
        o1 == o2,
{
    lemma_orders_agree(times, o1, o2, o1.len() as int);
    assert(o1 =~= o2);
}

/// The last second that the `k`-th sample (in time order) covers: up to the
/// second of the next sample, the last one up to `end_second`, and never
/// before its own second.
pub open spec fn span_end(times: Seq<u64>, order: Seq<usize>, end_second: u32, k: int) -> u32 {
    let start = second_of(times[order[k] as int]);
    let end = if k + 1 < order.len() {
        second_of(times[order[k + 1] as int])
    } else {
        end_second
    };
    if end < start {
        start
    } else {
        end
    }
}

/// One position write per second from `start` through `end`, all showing
/// sample `sample`.
pub open spec fn span_writes(start: u32, end: u32, sample: usize) -> Seq<(u32, usize)> {
    Seq::new((end - start + 1) as nat, |j: int| ((start + j) as u32, sample))
}

/// The position writes of the first `k` samples in time order, in the order
/// in which they are made; a later write to a second replaces an earlier one.
pub open spec fn fill_writes(times: Seq<u64>, order: Seq<usize>, end_second: u32, k: int) -> Seq<
    (u32, usize),
>
    decreases k,
{
    if k <= 0 {
        Seq::empty()
    } else {
        fill_writes(times, order, end_second, k - 1) + span_writes(
            second_of(times[order[k - 1] as int]),
            span_end(times, order, end_second, k - 1),
            order[k - 1],
        )
    }
}

/// Indices of `times`, stably sorted by time. Insertion from the back:
/// linear when the samples already come in time order.
pub fn stable_time_order(times: &Vec<u64>) -> (order: Vec<usize>)
    ensures
        time_order(times@, order@),
{
    let mut order: Vec<usize> = Vec::new();
    let mut i: usize = 0;
    while i < times.len()
        invariant
            i <= times@.len(),
            order@.len() == i,
            forall|a: int| 0 <= a < order@.len() ==> #[trigger] order@[a] < i,
            forall|k: int| 0 <= k < i ==> #[trigger] lists(order@, k),
            forall|a: int, b: int|
                0 <= a < b < order@.len() ==> sample_before(
                    times@,
                    #[trigger] order@[a],
                    #[trigger] order@[b],
                ),
        decreases times@.len() - i,
    {
        let t = times[i];
        let mut pos = order.len();
        while pos > 0 && times[order[pos - 1]] > t
            invariant
                i < times@.len(),
                t == times@[i as int],
                order@.len() == i,
                pos <= order@.len(),
                forall|a: int| 0 <= a < order@.len() ==> #[trigger] order@[a] < i,
                forall|a: int| pos <= a < order@.len() ==> times@[#[trigger] order@[a] as int] > t,
            decreases pos,
        {
            pos -= 1;
        }
        proof {
            if pos > 0 {
                assert(times@[order@[pos - 1] as int] <= t);
            }
            assert forall|a: int| 0 <= a < pos implies times@[#[trigger] order@[a] as int] <= t by {
                if a < pos - 1 {
                    assert(sample_before(times@, order@[a], order@[pos - 1]));
                }
            }
        }
        let ghost before = order@;
        order.insert(pos, i);
        proof {
            assert forall|a: int, b: int|
                0 <= a < b < order@.len() implies sample_before(
                times@,
                #[trigger] order@[a],
                #[trigger] order@[b],
            ) by {
                if b < pos {
                    assert(order@[a] == before[a] && order@[b] == before[b]);
                } else if b == pos {
                    assert(order@[a] == before[a]);
                } else if a == pos {
                    assert(order@[b] == before[b - 1]);
                } else if a < pos {
                    assert(order@[a] == before[a] && order@[b] == before[b - 1]);
                    assert(before[a] < i);
                    assert(sample_before(times@, before[a], before[b - 1]));
                } else {
                    assert(order@[a] == before[a - 1] && order@[b] == before[b - 1]);
                }
            }
            assert forall|k: int| 0 <= k < i + 1 implies #[trigger] lists(order@, k) by {
                if k == i {
                    assert(order@[pos as int] == i);
                } else {
                    assert(lists(before, k));
                    let a = choose|a: int| 0 <= a < before.len() && before[a] == k;
                    if a < pos {
                        assert(order@[a] == k);
                    } else {
                        assert(order@[a + 1] == k);
                    }
                }
            }
        }
        i += 1;
    }
    order
}

/// The position writes of one track: which sample each second shows, in
/// the order in which the seconds are written. A track without samples
/// writes nothing.
pub fn fill_forward_track(times: &Vec<u64>, end_second: u32) -> (writes: Vec<(u32, usize)>)
    ensures
        times@.len() == 0 ==> writes@.len() == 0,
        track_writes(times@, writes@, end_second),
{
    let order = stable_time_order(times);
    let n = order.len();
    let mut writes: Vec<(u32, usize)> = Vec::new();
    let mut k: usize = 0;
    while k < n
        invariant
            n == order@.len(),
            time_order(times@, order@),
            k <= n,
            writes@ == fill_writes(times@, order@, end_second, k as int),
        decreases n - k,
    {
        let sample = order[k];
        let start = (times[sample] / 1000) as u32;
        let end = if k + 1 < n {
            (times[order[k + 1]] / 1000) as u32
        } else {
            end_second
        };
        let end = if end < start {
            start
        } else {
            end
        };
        assert(end == span_end(times@, order@, end_second, k as int));
        let ghost base = writes@;
        let mut second: u64 = start as u64;
        while second <= end as u64
            invariant
                start <= end,
                start as u64 <= second <= end as u64 + 1,
                writes@ == base + span_writes(start, end, sample).take(second - start),
            decreases end as u64 + 1 - second,
        {
            writes.push((second as u32, sample));
            assert(span_writes(start, end, sample).take(second - start + 1) =~= span_writes(
                start,
                end,
                sample,
            ).take(second - start).push((second as u32, sample)));
            second += 1;
        }
        assert(span_writes(start, end, sample).take(end - start + 1) =~= span_writes(
            start,
            end,
            sample,
        ));
        k += 1;
    }
    writes
}

/* ---------- kill feed and player statistics ---------- */

/// A kill as the projection reads it.
pub struct KillRecord {
    pub second: u32,
    pub victim_name: Option<String>,
    pub killer_name: Option<String>,
    pub victim_guid: Option<u64>,
    pub killer_guid: Option<u64>,
    pub was_incap: Option<bool>,
}

/// A kill of the compatibility feed.
pub struct CompatKillEvent {
    pub timestamp: u32,
    pub victim_name: String,
    pub killer_name: String,
    pub victim_guid_str: String,
    pub killer_guid_str: String,
    pub was_incap: bool,
}

/// Kills and deaths credited to one player name.
pub struct PlayerStat {
    pub name: String,
    pub kills: usize,
    pub deaths: usize,
}

/// A name, or `Unknown` when there is none.
pub open spec fn name_or_unknown(name: Option<String>) -> Seq<char> {
    match name {
        Some(n) => n@,
        None => "Unknown"@,
    }
}

/// A guid in decimal, or `null` when there is none.
pub open spec fn guid_text(guid: Option<u64>) -> Seq<char> {
    match guid {
        Some(g) => decimal(g as nat),
        None => "null"@,
    }
}

/// `e` is the feed event of the kill `k`.
pub open spec fn feed_event(e: CompatKillEvent, k: KillRecord) -> bool {
    &&& e.timestamp == k.second
    &&& e.victim_name@ == name_or_unknown(k.victim_name)
    &&& e.killer_name@ == name_or_unknown(k.killer_name)
    &&& e.victim_guid_str@ == guid_text(k.victim_guid)
    &&& e.killer_guid_str@ == guid_text(k.killer_guid)
    &&& e.was_incap == match k.was_incap {
        Some(b) => b,
        None => false,
    }
}

/// Names that earn credit: neither empty nor `Unknown`.
pub open spec fn credited_name(name: Seq<char>) -> bool {
    name.len() > 0 && name != "Unknown"@
}

/// The kills credited to `name` by the kill records `ks`.
pub open spec fn kills_credited(ks: Seq<KillRecord>, name: Seq<char>) -> nat
    decreases ks.len(),
{
    if ks.len() == 0 {
        0
    } else {
        kills_credited(ks.drop_last(), name) + if credited_name(name_or_unknown(ks.last().killer_name))
            && name_or_unknown(ks.last().killer_name) == name {
            1nat
        } else {
            0nat
        }
    }
}

/// The deaths credited to `name` by the kill records `ks`.
pub open spec fn deaths_credited(ks: Seq<KillRecord>, name: Seq<char>) -> nat
    decreases ks.len(),
{
    if ks.len() == 0 {
        0
    } else {
        deaths_credited(ks.drop_last(), name) + if credited_name(name_or_unknown(ks.last().victim_name))
            && name_or_unknown(ks.last().victim_name) == name {
            1nat
        } else {
            0nat
        }
    }
}

/// No two entries share a name.
pub open spec fn distinct_names(stats: Seq<PlayerStat>) -> bool {
    forall|a: int, b: int|
        0 <= a < b < stats.len() ==> #[trigger] stats[a].name@ != #[trigger] stats[b].name@
}

pub open spec fn has_name(stats: Seq<PlayerStat>, name: Seq<char>) -> bool {
    exists|a: int| 0 <= a < stats.len() && #[trigger] stats[a].name@ == name
}

pub open spec fn stat_index(stats: Seq<PlayerStat>, name: Seq<char>) -> int {
    choose|a: int| 0 <= a < stats.len() && #[trigger] stats[a].name@ == name
}

/// The kills recorded for `name` (none when it has no entry).
pub open spec fn kills_for(stats: Seq<PlayerStat>, name: Seq<char>) -> nat {
    if has_name(stats, name) {
        stats[stat_index(stats, name)].kills as nat
    } else {
        0
    }
}

/// The deaths recorded for `name` (none when it has no entry).
pub open spec fn deaths_for(stats: Seq<PlayerStat>, name: Seq<char>) -> nat {
    if has_name(stats, name) {
        stats[stat_index(stats, name)].deaths as nat
    } else {
        0
    }
}

/// Some player of `players` carries `name`.
pub open spec fn player_named(players: Seq<Option<String>>, name: Seq<char>) -> bool {
    exists|p: int| 0 <= p < players.len() && (#[trigger] players[p] matches Some(n) && n@ == name)
}

proof fn lemma_stat_index(stats: Seq<PlayerStat>, name: Seq<char>, a: int)
    requires
        distinct_names(stats),
        0 <= a < stats.len(),
        stats[a].name@ == name,
    ensures
        has_name(stats, name),
        stat_index(stats, name) == a,
{
    assert(has_name(stats, name));
    let c = stat_index(stats, name);
    if c != a {
        if c < a {
            assert(stats[c].name@ != stats[a].name@);
        } else {
            assert(stats[a].name@ != stats[c].name@);
        }
    }
}

proof fn lemma_credited_bounded(ks: Seq<KillRecord>, name: Seq<char>)
    ensures
        kills_credited(ks, name) <= ks.len(),
        deaths_credited(ks, name) <= ks.len(),
    decreases ks.len(),
{
    if ks.len() > 0 {
        lemma_credited_bounded(ks.drop_last(), name);
    }
}

fn find_stat(stats: &Vec<PlayerStat>, name: &String) -> (res: Option<usize>)
    ensures
        match res {
            Some(a) => a < stats@.len() && stats@[a as int].name@ == name@,
            None => !has_name(stats@, name@),
        },
{
    let mut a: usize = 0;
    while a < stats.len()
        invariant
            a <= stats@.len(),
            forall|b: int| 0 <= b < a ==> #[trigger] stats@[b].name@ != name@,
        decreases stats@.len() - a,
    {
        if stats[a].name == *name {
            return Some(a);
        }
        a += 1;
    }
    None
}

/// Credits `name` with a kill (`add_kill`) and/or a death (`add_death`),
/// adding an entry for it, with nothing credited yet, when there is none.
fn credit(stats: &mut Vec<PlayerStat>, name: &String, add_kill: bool, add_death: bool)
    requires
        distinct_names(old(stats)@),
        add_kill ==> kills_for(old(stats)@, name@) < usize::MAX,
        add_death ==> deaths_for(old(stats)@, name@) < usize::MAX,
    ensures
        distinct_names(final(stats)@),
        forall|n: Seq<char>|
            #[trigger] has_name(final(stats)@, n) == (has_name(old(stats)@, n) || n == name@),
        forall|n: Seq<char>|
            #[trigger] kills_for(final(stats)@, n) == kills_for(old(stats)@, n) + if add_kill && n
                == name@ {
                1nat
            } else {
                0nat
            },
        forall|n: Seq<char>|
            #[trigger] deaths_for(final(stats)@, n) == deaths_for(old(stats)@, n) + if add_death
                && n == name@ {
                1nat
            } else {
                0nat
            },
{
    let ghost old_stats = stats@;
    let ghost new_index: int;
    match find_stat(stats, name) {
        Some(a) => {
            proof {
                lemma_stat_index(old_stats, name@, a as int);
            }
            let kills = if add_kill {
                stats[a].kills + 1
            } else {
                stats[a].kills
            };
            let deaths = if add_death {
                stats[a].deaths + 1
            } else {
                stats[a].deaths
            };
            let entry = PlayerStat { name: stats[a].name.clone(), kills, deaths };
            stats.set(a, entry);
            proof {
                new_index = a as int;
                let new_stats = stats@;
                assert forall|x: int, y: int|
                    0 <= x < y < new_stats.len() implies #[trigger] new_stats[x].name@
                    != #[trigger] new_stats[y].name@ by {
                    assert(old_stats[x].name@ != old_stats[y].name@);
                }
            }
        },
        None => {
            let entry = PlayerStat {
                name: name.clone(),
                kills: if add_kill {
                    1
                } else {
                    0
                },
                deaths: if add_death {
                    1
                } else {
                    0
                },
            };
            stats.push(entry);
            proof {
                new_index = old_stats.len() as int;
                let new_stats = stats@;
                assert forall|x: int, y: int|
                    0 <= x < y < new_stats.len() implies #[trigger] new_stats[x].name@
                    != #[trigger] new_stats[y].name@ by {
                    if y == new_index {
                        assert(old_stats[x].name@ != name@);
                    } else {
                        assert(old_stats[x].name@ != old_stats[y].name@);
                    }
                }
            }
        },
    }
    proof {
        let new_stats = stats@;
        assert(new_stats.len() >= old_stats.len());
        assert(forall|c: int|
            0 <= c < old_stats.len() && c != new_index ==> new_stats[c] == old_stats[c]);
        assert(new_stats[new_index].name@ == name@);
        assert forall|n: Seq<char>|
            #[trigger] has_name(new_stats, n) == (has_name(old_stats, n) || n == name@) by {
            if has_name(old_stats, n) {
                let c = choose|c: int| 0 <= c < old_stats.len() && #[trigger] old_stats[c].name@ == n;
                if c != new_index {
                    assert(new_stats[c].name@ == n);
                } else {
                    assert(new_stats[c].name@ == n);
                }
            }
            if has_name(new_stats, n) {
                let c = choose|c: int| 0 <= c < new_stats.len() && #[trigger] new_stats[c].name@ == n;
                if c != new_index {
                    assert(old_stats[c].name@ == n);
                }
            }
        }
        assert forall|n: Seq<char>|
            kills_for(new_stats, n) == kills_for(old_stats, n) + (if add_kill && n == name@ {
                1nat
            } else {
                0nat
            }) && deaths_for(new_stats, n) == deaths_for(old_stats, n) + (if add_death && n
                == name@ {
                1nat
            } else {
                0nat
            }) by {
            if n == name@ {
                lemma_stat_index(new_stats, n, new_index);
            } else if has_name(old_stats, n) {
                let c = stat_index(old_stats, n);
                lemma_stat_index(old_stats, n, c);
                assert(c != new_index);
                assert(new_stats[c].name@ == n);
                lemma_stat_index(new_stats, n, c);
            } else {
                assert(!has_name(new_stats, n));
            }
        }
    }
}

fn name_or_unknown_string(name: &Option<String>) -> (res: String)
    ensures
        res@ == name_or_unknown(*name),
{
    match name {
        Some(n) => n.clone(),
        None => String::from_str("Unknown"),
    }
}

fn guid_string(guid: Option<u64>) -> (res: String)
    ensures
        res@ == guid_text(guid),
{
    match guid {
        Some(g) => decimal_string(g),
        None => String::from_str("null"),
    }
}

fn is_credited(name: &String, unknown: &String) -> (res: bool)
    requires
        unknown@ == "Unknown"@,
    ensures
        res == credited_name(name@),
{
    !name.as_str().is_empty() && *name != *unknown
}

/// The kill feed: one event per kill, in order.
pub fn kill_feed(kills: &Vec<KillRecord>) -> (feed: Vec<CompatKillEvent>)
    ensures
        feed@.len() == kills@.len(),
        forall|i: int| 0 <= i < kills@.len() ==> feed_event(#[trigger] feed@[i], kills@[i]),
        forall|i: int|
            0 <= i < kills@.len() ==> (#[trigger] feed@[i]).was_incap == (kills@[i].was_incap
                == Some(true)),
{
    let mut feed: Vec<CompatKillEvent> = Vec::new();
    let mut i: usize = 0;
    while i < kills.len()
        invariant
            i <= kills@.len(),
            feed@.len() == i,
            forall|k: int| 0 <= k < i ==> feed_event(#[trigger] feed@[k], kills@[k]),
        decreases kills@.len() - i,
    {
        let kill = &kills[i];
        let event = CompatKillEvent {
            timestamp: kill.second,
            victim_name: name_or_unknown_string(&kill.victim_name),
            killer_name: name_or_unknown_string(&kill.killer_name),
            victim_guid_str: guid_string(kill.victim_guid),
            killer_guid_str: guid_string(kill.killer_guid),
            was_incap: match kill.was_incap {
                Some(b) => b,
                None => false,
            },
        };
        feed.push(event);
        i += 1;
    }
    feed
}

/// Kills and deaths per player name: every credited killer and victim of
/// `kills`, and every named player of `players`, once each.
pub fn player_stats(kills: &Vec<KillRecord>, players: &Vec<Option<String>>) -> (stats: Vec<
    PlayerStat,
>)
    ensures
        distinct_names(stats@),
        forall|n: Seq<char>|
            #[trigger] has_name(stats@, n) == (kills_credited(kills@, n) + deaths_credited(kills@, n)
                > 0 || player_named(players@, n)),
        forall|n: Seq<char>| #[trigger] kills_for(stats@, n) == kills_credited(kills@, n),
        forall|n: Seq<char>| #[trigger] deaths_for(stats@, n) == deaths_credited(kills@, n),
{
    let ghost ks = kills@;
    let unknown = String::from_str("Unknown");
    let mut stats: Vec<PlayerStat> = Vec::new();
    let mut i: usize = 0;
    assert(ks.take(0) =~= Seq::<KillRecord>::empty());
    while i < kills.len()
        invariant
            ks == kills@,
            unknown@ == "Unknown"@,
            i <= ks.len(),
            distinct_names(stats@),
            forall|n: Seq<char>|
                #[trigger] has_name(stats@, n) == (kills_credited(ks.take(i as int), n)
                    + deaths_credited(ks.take(i as int), n) > 0),
            forall|n: Seq<char>| #[trigger] kills_for(stats@, n) == kills_credited(ks.take(i as int), n),
            forall|n: Seq<char>| #[trigger] deaths_for(stats@, n) == deaths_credited(ks.take(i as int), n),
        decreases ks.len() - i,
    {
        let ghost prefix = ks.take(i as int);
        let ghost next = ks.take(i + 1);
        assert(next.drop_last() =~= prefix);
        let killer = name_or_unknown_string(&kills[i].killer_name);
        let victim = name_or_unknown_string(&kills[i].victim_name);
        let ghost before = stats@;
        proof {
            lemma_credited_bounded(prefix, killer@);
            lemma_credited_bounded(prefix, victim@);
        }
        let killer_credited = is_credited(&killer, &unknown);
        if killer_credited {
            credit(&mut stats, &killer, true, false);
        }
        let ghost middle = stats@;
        let victim_credited = is_credited(&victim, &unknown);
        if victim_credited {
            proof {
                assert(deaths_for(middle, victim@) == deaths_for(before, victim@));
            }
            credit(&mut stats, &victim, false, true);
        }
        proof {
            assert forall|n: Seq<char>|
                #[trigger] kills_for(stats@, n) == kills_credited(next, n) && deaths_for(stats@, n)
                    == deaths_credited(next, n) && has_name(stats@, n) == (kills_credited(next, n)
                    + deaths_credited(next, n) > 0) by {
                assert(kills_for(middle, n) == kills_for(before, n) + if killer_credited && n
                    == killer@ {
                    1nat
                } else {
                    0nat
                });
                assert(deaths_for(middle, n) == deaths_for(before, n));
                assert(has_name(middle, n) == (has_name(before, n) || (killer_credited && n
                    == killer@)));
            }
        }
        i += 1;
    }
    assert(ks.take(ks.len() as int) =~= ks);
    let mut p: usize = 0;
    while p < players.len()
        invariant
            ks == kills@,
            p <= players@.len(),
            distinct_names(stats@),
            forall|n: Seq<char>|
                #[trigger] has_name(stats@, n) == (kills_credited(ks, n) + deaths_credited(ks, n) > 0
                    || player_named(players@.take(p as int), n)),
            forall|n: Seq<char>| #[trigger] kills_for(stats@, n) == kills_credited(ks, n),
            forall|n: Seq<char>| #[trigger] deaths_for(stats@, n) == deaths_credited(ks, n),
        decreases players@.len() - p,
    {
        let ghost before = stats@;
        match &players[p] {
            Some(name) => {
                credit(&mut stats, name, false, false);
            },
            None => {},
        }
        proof {
            let tp = players@.take(p + 1);
            assert forall|n: Seq<char>|
                #[trigger] has_name(stats@, n) == (kills_credited(ks, n) + deaths_credited(ks, n) > 0
                    || player_named(tp, n)) by {
                if player_named(players@.take(p as int), n) {
                    let q = choose|q: int|
                        0 <= q < p && (#[trigger] players@.take(p as int)[q] matches Some(m) && m@
                            == n);
                    assert(tp[q] == players@.take(p as int)[q]);
                }
                if player_named(tp, n) {
                    let q = choose|q: int| 0 <= q < tp.len() && (#[trigger] tp[q] matches Some(m) && m@ == n);
                    if q < p {
                        assert(tp[q] == players@.take(p as int)[q]);
                    }
                }
                match players@[p as int] {
                    Some(m) => {
                        if m@ == n {
                            assert(tp[p as int] == players@[p as int]);
                        }
                    },
                    None => {},
                }
            }
        }
        p += 1;
    }
    assert(players@.take(players@.len() as int) =~= players@);
    stats
}

/// `writes` are the position writes of a track with sample times `times`.
pub open spec fn track_writes(times: Seq<u64>, writes: Seq<(u32, usize)>, end_second: u32) -> bool {
    exists|order: Seq<usize>|
        time_order(times, order) && writes == fill_writes(times, order, end_second, times.len() as int)
}

/// Each track's writes follow its samples in time order.
pub open spec fn positions_of(
    writes: Seq<Vec<(u32, usize)>>,
    tracks: Seq<Vec<u64>>,
    end_second: u32,
) -> bool {
    &&& writes.len() == tracks.len()
    &&& forall|t: int|
        0 <= t < tracks.len() ==> track_writes(tracks[t]@, #[trigger] writes[t]@, end_second)
}

/// The position writes of every track, track by track.
pub fn fill_forward_tracks(tracks: &Vec<Vec<u64>>, end_second: u32) -> (writes: Vec<
    Vec<(u32, usize)>,
>)
    ensures
        positions_of(writes@, tracks@, end_second),
{
    let mut writes: Vec<Vec<(u32, usize)>> = Vec::new();
    let mut t: usize = 0;
    while t < tracks.len()
        invariant
            t <= tracks@.len(),
            writes@.len() == t,
            forall|u: int|
                0 <= u < t ==> track_writes(tracks@[u]@, #[trigger] writes@[u]@, end_second),
        decreases tracks@.len() - t,
    {
        let track = fill_forward_track(&tracks[t], end_second);
        let ghost before = writes@;
        writes.push(track);
        assert(forall|u: int| 0 <= u < t ==> writes@[u] == before[u]);
        t += 1;
    }
    writes
}

/* ---------- deployable events ---------- */

/// A deployment event as the projection reads it.
pub struct DeploymentRecord {
    pub deployment_type: String,
    pub class_name: Option<String>,
    pub second: u32,
}

/// A deployable actor as the projection reads it.
pub struct DeployableActorRecord {
    pub class_name: Option<String>,
    pub archetype_path: Option<String>,
    pub open_time_ms: u64,
}

/// A deployable event of the projection; its coordinates are those of record
/// `source` (a deployment, or a deployable actor when there are no
/// deployments).
pub struct DeployableEvent {
    pub kind: String,
    pub class_path: String,
    pub second: u32,
    pub source: usize,
}

/// The UTF-8 bytes of an optional class name; none for no name.
pub open spec fn class_bytes(name: Option<String>) -> Seq<u8> {
    match name {
        Some(n) => encode_utf8(n@),
        None => Seq::empty(),
    }
}

pub open spec fn deployment_event(e: DeployableEvent, d: DeploymentRecord, i: int) -> bool {
    &&& e.kind@ == d.deployment_type@
    &&& e.class_path@ == name_or_unknown(d.class_name)
    &&& e.second == d.second
    &&& e.source == i
}

pub open spec fn actor_event(e: DeployableEvent, a: DeployableActorRecord, i: int) -> bool {
    &&& e.kind@ == deployable_event_label(class_bytes(a.class_name))@
    &&& e.class_path@ == match a.archetype_path {
        Some(p) => p@,
        None => name_or_unknown(a.class_name),
    }
    &&& e.second == second_of(a.open_time_ms)
    &&& e.source == i
}

/// One event per deployment, or, when there are none, one per deployable
/// actor classified by its class name; the flag tells which.
pub fn deployable_events(
    deployments: &Vec<DeploymentRecord>,
    actors: &Vec<DeployableActorRecord>,
) -> (res: (Vec<DeployableEvent>, bool))
    ensures
        res.1 == (deployments@.len() == 0),
        !res.1 ==> res.0@.len() == deployments@.len() && forall|i: int|
            0 <= i < deployments@.len() ==> deployment_event(#[trigger] res.0@[i], deployments@[i], i),
        res.1 ==> res.0@.len() == actors@.len() && forall|i: int|
            0 <= i < actors@.len() ==> actor_event(#[trigger] res.0@[i], actors@[i], i),
{
    let mut events: Vec<DeployableEvent> = Vec::new();
    if deployments.len() > 0 {
        let mut i: usize = 0;
        while i < deployments.len()
            invariant
                i <= deployments@.len(),
                events@.len() == i,
                forall|k: int|
                    0 <= k < i ==> deployment_event(#[trigger] events@[k], deployments@[k], k),
            decreases deployments@.len() - i,
        {
            let d = &deployments[i];
            events.push(
                DeployableEvent {
                    kind: d.deployment_type.clone(),
                    class_path: name_or_unknown_string(&d.class_name),
                    second: d.second,
                    source: i,
                },
            );
            i += 1;
        }
        (events, false)
    } else {
        proof {
            reveal_strlit("");
        }
        let mut i: usize = 0;
        while i < actors.len()
            invariant
                i <= actors@.len(),
                events@.len() == i,
                ""@ =~= Seq::<char>::empty(),
                forall|k: int| 0 <= k < i ==> actor_event(#[trigger] events@[k], actors@[k], k),
            decreases actors@.len() - i,
        {
            let a = &actors[i];
            let label = match &a.class_name {
                Some(c) => classify_deployable_event_type(c.as_str()),
                None => classify_deployable_event_type(""),
            };
            let class_path = match &a.archetype_path {
                Some(p) => p.clone(),
                None => name_or_unknown_string(&a.class_name),
            };
            events.push(
                DeployableEvent {
                    kind: String::from_str(label),
                    class_path,
                    second: (a.open_time_ms / 1000) as u32,
                    source: i,
                },
            );
            i += 1;
        }
        (events, true)
    }
}

/* ---------- the projection ---------- */

/// What the projection reads of a bundle.
pub struct CompatSource {
    pub duration_ms: u64,
    pub map_name: Option<String>,
    pub squad_version: Option<String>,
    pub kills: Vec<KillRecord>,
    pub player_names: Vec<Option<String>>,
    /// Sample times (ms) of each player track.
    pub player_tracks: Vec<Vec<u64>>,
    pub helicopter_tracks: Vec<Vec<u64>>,
    pub vehicle_tracks: Vec<Vec<u64>>,
    pub deployments: Vec<DeploymentRecord>,
    pub deployable_actors: Vec<DeployableActorRecord>,
}

/// The projection; positions name the sample that each second shows, for
/// the caller to round.
pub struct CompatProjection {
    pub map_name: String,
    pub squad_version: String,
    pub match_duration_seconds: u32,
    pub kills: Vec<CompatKillEvent>,
    pub player_stats: Vec<PlayerStat>,
    pub player_positions: Vec<Vec<(u32, usize)>>,
    pub helicopter_positions: Vec<Vec<(u32, usize)>>,
    pub vehicle_positions: Vec<Vec<(u32, usize)>>,
    pub deployable_events: Vec<DeployableEvent>,
    pub deployables_from_actors: bool,
}

/// A text, or the empty text when there is none.
pub open spec fn text_or_empty(s: Option<String>) -> Seq<char> {
    match s {
        Some(t) => t@,
        None => Seq::empty(),
    }
}

fn text_or_empty_string(s: &Option<String>) -> (res: String)
    ensures
        res@ == text_or_empty(*s),
{
    match s {
        Some(t) => t.clone(),
        None => String::new(),
    }
}

/// The compatibility projection of a bundle.
pub fn from_bundle(bundle: &CompatSource) -> (res: CompatProjection)
    ensures
        res.map_name@ == text_or_empty(bundle.map_name),
        res.squad_version@ == text_or_empty(bundle.squad_version),
        res.match_duration_seconds == second_of(bundle.duration_ms),
        res.kills@.len() == bundle.kills@.len(),
        forall|i: int|
            0 <= i < bundle.kills@.len() ==> feed_event(#[trigger] res.kills@[i], bundle.kills@[i]),
        distinct_names(res.player_stats@),
        forall|n: Seq<char>|
            #[trigger] has_name(res.player_stats@, n) == (kills_credited(bundle.kills@, n)
                + deaths_credited(bundle.kills@, n) > 0 || player_named(bundle.player_names@, n)),
        forall|n: Seq<char>|
            #[trigger] kills_for(res.player_stats@, n) == kills_credited(bundle.kills@, n),
        forall|n: Seq<char>|
            #[trigger] deaths_for(res.player_stats@, n) == deaths_credited(bundle.kills@, n),
        positions_of(
            res.player_positions@,
            bundle.player_tracks@,
            second_of(bundle.duration_ms),
        ),
        positions_of(
            res.helicopter_positions@,
            bundle.helicopter_tracks@,
            second_of(bundle.duration_ms),
        ),
        positions_of(
            res.vehicle_positions@,
            bundle.vehicle_tracks@,
            second_of(bundle.duration_ms),
        ),
        res.deployables_from_actors == (bundle.deployments@.len() == 0),
        !res.deployables_from_actors ==> res.deployable_events@.len() == bundle.deployments@.len()
            && forall|i: int|
            0 <= i < bundle.deployments@.len() ==> deployment_event(
                #[trigger] res.deployable_events@[i],
                bundle.deployments@[i],
                i,
            ),
        res.deployables_from_actors ==> res.deployable_events@.len()
            == bundle.deployable_actors@.len() && forall|i: int|
            0 <= i < bundle.deployable_actors@.len() ==> actor_event(
                #[trigger] res.deployable_events@[i],
                bundle.deployable_actors@[i],
                i,
            ),
{
    let duration_seconds = (bundle.duration_ms / 1000) as u32;
    let kills = kill_feed(&bundle.kills);
    let player_stats = player_stats(&bundle.kills, &bundle.player_names);
    let player_positions = fill_forward_tracks(&bundle.player_tracks, duration_seconds);
    let helicopter_positions = fill_forward_tracks(&bundle.helicopter_tracks, duration_seconds);
    let vehicle_positions = fill_forward_tracks(&bundle.vehicle_tracks, duration_seconds);
    let (deployable_events, deployables_from_actors) = deployable_events(
        &bundle.deployments,
        &bundle.deployable_actors,
    );
    CompatProjection {
        map_name: text_or_empty_string(&bundle.map_name),
        squad_version: text_or_empty_string(&bundle.squad_version),
        match_duration_seconds: duration_seconds,
        kills,
        player_stats,
        player_positions,
        helicopter_positions,
        vehicle_positions,
        deployable_events,
        deployables_from_actors,
    }
}

/* ---------- what each second shows ---------- */

/// The sample that the last write to `second` shows, if any write does.
pub open spec fn last_write(writes: Seq<(u32, usize)>, second: u32) -> Option<usize>
    decreases writes.len(),
{
    if writes.len() == 0 {
        None
    } else if writes.last().0 == second {
        Some(writes.last().1)
    } else {
        last_write(writes.drop_last(), second)
    }
}

proof fn lemma_last_write_push(writes: Seq<(u32, usize)>, w: (u32, usize), second: u32)
    ensures
        last_write(writes.push(w), second) == if w.0 == second {
            Some(w.1)
        } else {
            last_write(writes, second)
        },
{
    assert(writes.push(w).drop_last() =~= writes);
}

fn find_second(entries: &Vec<(u32, usize)>, second: u32) -> (res: Option<usize>)
    ensures
        match res {
            Some(j) => j < entries@.len() && entries@[j as int].0 == second,
            None => forall|h: int| 0 <= h < entries@.len() ==> #[trigger] entries@[h].0 != second,
        },
{
    let mut j: usize = 0;
    while j < entries.len()
        invariant
            j <= entries@.len(),
            forall|h: int| 0 <= h < j ==> #[trigger] entries@[h].0 != second,
        decreases entries@.len() - j,
    {
        if entries[j].0 == second {
            return Some(j);
        }
        j += 1;
    }
    None
}

/// The writes of one track reduced to the one that stands at each second:
/// one entry per second that is written, holding the sample of the last
/// write to it, in the order in which the seconds are first written.
pub fn latest_writes(writes: &Vec<(u32, usize)>) -> (res: Vec<(u32, usize)>)
    ensures
        forall|a: int, b: int|
            0 <= a < b < res@.len() ==> #[trigger] res@[a].0 != #[trigger] res@[b].0,
        forall|j: int|
            0 <= j < res@.len() ==> last_write(writes@, #[trigger] res@[j].0) == Some(res@[j].1),
        forall|second: u32|
            #[trigger] last_write(writes@, second) is Some ==> exists|j: int|
                0 <= j < res@.len() && #[trigger] res@[j].0 == second,
{
    let mut res: Vec<(u32, usize)> = Vec::new();
    let mut i: usize = 0;
    while i < writes.len()
        invariant
            i <= writes@.len(),
            forall|a: int, b: int|
                0 <= a < b < res@.len() ==> #[trigger] res@[a].0 != #[trigger] res@[b].0,
            forall|j: int|
                0 <= j < res@.len() ==> last_write(writes@.take(i as int), #[trigger] res@[j].0)
                    == Some(res@[j].1),
            forall|second: u32|
                #[trigger] last_write(writes@.take(i as int), second) is Some ==> exists|j: int|
                    0 <= j < res@.len() && #[trigger] res@[j].0 == second,
        decreases writes@.len() - i,
    {
        let w = writes[i];
        let ghost before = res@;
        let ghost prefix = writes@.take(i as int);
        assert(writes@.take(i + 1) =~= prefix.push(w));
        let slot = find_second(&res, w.0);
        let ghost found = slot is Some;
        let ghost j: int = match slot {
            Some(k) => k as int,
            None => 0,
        };
        match slot {
            Some(k) => res.set(k, w),
            None => res.push(w),
        }
        proof {
            let after = res@;
            assert forall|h: int|
                0 <= h < after.len() implies last_write(prefix.push(w), #[trigger] after[h].0) == Some(
                after[h].1,
            ) by {
                lemma_last_write_push(prefix, w, after[h].0);
                if after[h].0 != w.0 {
                    assert(after[h] == before[h]);
                }
            }
            assert forall|second: u32| #[trigger]
                last_write(prefix.push(w), second) is Some implies exists|h: int|
                0 <= h < after.len() && #[trigger] after[h].0 == second by {
                lemma_last_write_push(prefix, w, second);
                if second == w.0 {
                    if found {
                        assert(after[j].0 == second);
                    } else {
                        assert(after[before.len() as int].0 == second);
                    }
                } else {
                    assert(last_write(prefix, second) is Some);
                    let h = choose|h: int| 0 <= h < before.len() && #[trigger] before[h].0 == second;
                    assert(after[h].0 == second);
                }
            }
            assert forall|a: int, b: int|
                0 <= a < b < after.len() implies #[trigger] after[a].0 != #[trigger] after[b].0 by {
                if !found && b == before.len() {
                    assert(before[a].0 != w.0);
                } else {
                    assert(before[a].0 != before[b].0);
                }
            }
        }
        i += 1;
    }
    assert(writes@.take(writes@.len() as int) =~= writes@);
    res
}

/// Position (in time order) of the latest of the first `m` samples whose
/// second is at or before `second`; `-1` when there is none.
pub open spec fn latest_at_or_before(times: Seq<u64>, order: Seq<usize>, m: int, second: u32) -> int
    decreases m,
{
    if m <= 0 {
        -1
    } else if second_of(times[order[m - 1] as int]) <= second {
        m - 1
    } else {
        latest_at_or_before(times, order, m - 1, second)
    }
}

proof fn lemma_last_write_miss(w: Seq<(u32, usize)>, extra: Seq<(u32, usize)>, second: u32)
    requires
        forall|j: int| 0 <= j < extra.len() ==> (#[trigger] extra[j]).0 != second,
    ensures
        last_write(w + extra, second) == last_write(w, second),
    decreases extra.len(),
{
    if extra.len() > 0 {
        assert((w + extra).drop_last() =~= w + extra.drop_last());
        lemma_last_write_miss(w, extra.drop_last(), second);
        assert(extra.last() == extra[extra.len() - 1]);
    } else {
        assert(w + extra =~= w);
    }
}

proof fn lemma_last_write_hit(
    w: Seq<(u32, usize)>,
    extra: Seq<(u32, usize)>,
    second: u32,
    sample: usize,
    hit: int,
)
    requires
        0 <= hit < extra.len(),
        extra[hit].0 == second,
        forall|j: int| 0 <= j < extra.len() ==> (#[trigger] extra[j]).1 == sample,
    ensures
        last_write(w + extra, second) == Some(sample),
    decreases extra.len(),
{
    assert((w + extra).last() == extra[extra.len() - 1]);
    if extra.last().0 != second {
        assert((w + extra).drop_last() =~= w + extra.drop_last());
        lemma_last_write_hit(w, extra.drop_last(), second, sample, hit);
    }
}

/// Under no truncation, the seconds of samples in time order never go down.
proof fn lemma_seconds_sorted(times: Seq<u64>, order: Seq<usize>, a: int, b: int)
    requires
        time_order(times, order),
        forall|i: int| 0 <= i < times.len() ==> #[trigger] times[i] / 1000 <= u32::MAX,
        0 <= a <= b < order.len(),
    ensures
        second_of(times[order[a] as int]) <= second_of(times[order[b] as int]),
{
    if a < b {
        assert(sample_before(times, order[a], order[b]));
    }
    let ta = times[order[a] as int];
    let tb = times[order[b] as int];
    assert(ta <= tb);
    assert(ta / 1000 <= tb / 1000) by (nonlinear_arith)
        requires
            ta <= tb,
    ;
}

proof fn lemma_fill_prefix(times: Seq<u64>, order: Seq<usize>, end_second: u32, m: int)
    requires
        time_order(times, order),
        forall|i: int| 0 <= i < times.len() ==> #[trigger] times[i] / 1000 <= u32::MAX,
        1 <= m <= order.len(),
    ensures
        forall|second: u32|
            #[trigger] last_write(fill_writes(times, order, end_second, m), second) == if second_of(
                times[order[0] as int],
            ) <= second <= span_end(times, order, end_second, m - 1) {
                Some(order[latest_at_or_before(times, order, m, second)])
            } else {
                None
            },
    decreases m,
{
    let w = fill_writes(times, order, end_second, m - 1);
    let start = second_of(times[order[m - 1] as int]);
    let end = span_end(times, order, end_second, m - 1);
    let span = span_writes(start, end, order[m - 1]);
    assert(fill_writes(times, order, end_second, m) == w + span);
    if m > 1 {
        lemma_fill_prefix(times, order, end_second, m - 1);
        lemma_seconds_sorted(times, order, m - 2, m - 1);
        lemma_seconds_sorted(times, order, 0, m - 1);
        assert(span_end(times, order, end_second, m - 2) == start);
    }
    assert forall|second: u32|
        #[trigger] last_write(fill_writes(times, order, end_second, m), second) == if second_of(
            times[order[0] as int],
        ) <= second <= end {
            Some(order[latest_at_or_before(times, order, m, second)])
        } else {
            None
        } by {
        if start <= second <= end {
            let hit = second - start;
            assert(span[hit].0 == second);
            lemma_last_write_hit(w, span, second, order[m - 1], hit);
            if m > 1 {
                lemma_seconds_sorted(times, order, 0, m - 1);
            }
        } else {
            assert forall|j: int| 0 <= j < span.len() implies (#[trigger] span[j]).0 != second by {}
            lemma_last_write_miss(w, span, second);
            if m == 1 {
                assert(w =~= Seq::<(u32, usize)>::empty());
            }
        }
    }
}

/// Positions fill forward: when no sample time overflows the seconds, every
/// second from the first sample's through the last written one shows the
/// latest sample at or before it, and no other second is written. The last
/// written second is the match's last second, or the last sample's second
/// when that is later.
pub proof fn law_fill_forward(times: Seq<u64>, order: Seq<usize>, end_second: u32, second: u32)
    requires
        time_order(times, order),
        times.len() > 0,
        forall|i: int| 0 <= i < times.len() ==> #[trigger] times[i] / 1000 <= u32::MAX,
    ensures
        last_write(fill_writes(times, order, end_second, times.len() as int), second) == if second_of(
            times[order[0] as int],
        ) <= second <= span_end(times, order, end_second, times.len() - 1) {
            Some(order[latest_at_or_before(times, order, times.len() as int, second)])
        } else {
            None
        },
        second_of(times[order[0] as int]) <= second ==> 0 <= latest_at_or_before(
            times,
            order,
            times.len() as int,
            second,
        ) < times.len(),
{
    lemma_fill_prefix(times, order, end_second, times.len() as int);
    assert(last_write(fill_writes(times, order, end_second, times.len() as int), second) == if second_of(
        times[order[0] as int],
    ) <= second <= span_end(times, order, end_second, times.len() - 1) {
        Some(order[latest_at_or_before(times, order, times.len() as int, second)])
    } else {
        None
    });
    if second_of(times[order[0] as int]) <= second {
        lemma_latest_in_range(times, order, times.len() as int, second);
    }
}

proof fn lemma_latest_in_range(times: Seq<u64>, order: Seq<usize>, m: int, second: u32)
    requires
        1 <= m <= order.len(),
        second_of(times[order[0] as int]) <= second,
    ensures
        0 <= latest_at_or_before(times, order, m, second) < m,
    decreases m,
{
    if m > 1 && !(second_of(times[order[m - 1] as int]) <= second) {
        lemma_latest_in_range(times, order, m - 1, second);
    }
}

/* ---------- kills grouped by second ---------- */

/// Kill `k` of the feed is listed in some group.
pub open spec fn grouped(groups: Seq<(u32, Vec<usize>)>, k: int) -> bool {
    exists|g: int, j: int|
        0 <= g < groups.len() && 0 <= j < groups[g].1@.len() && #[trigger] groups[g].1@[j] == k
}

/// `groups` sorts the kills of `feed` by second: one group per second that
/// has a kill and none for a second without one, each group listing the
/// positions of that second's kills in feed order, every kill listed.
pub open spec fn kills_grouped(groups: Seq<(u32, Vec<usize>)>, feed: Seq<CompatKillEvent>) -> bool {
    &&& forall|a: int, b: int|
        0 <= a < b < groups.len() ==> #[trigger] groups[a].0 != #[trigger] groups[b].0
    &&& forall|g: int| 0 <= g < groups.len() ==> #[trigger] groups[g].1@.len() > 0
    &&& forall|g: int, j: int|
        0 <= g < groups.len() && 0 <= j < groups[g].1@.len() ==> #[trigger] groups[g].1@[j]
            < feed.len() && feed[groups[g].1@[j] as int].timestamp == groups[g].0
    &&& forall|g: int, j: int, k: int|
        0 <= g < groups.len() && 0 <= j < k < groups[g].1@.len() ==> #[trigger] groups[g].1@[j]
            < #[trigger] groups[g].1@[k]
    &&& forall|k: int| 0 <= k < feed.len() ==> #[trigger] grouped(groups, k)
}

fn find_group(groups: &Vec<(u32, Vec<usize>)>, second: u32) -> (res: Option<usize>)
    ensures
        match res {
            Some(g) => g < groups@.len() && groups@[g as int].0 == second,
            None => forall|h: int| 0 <= h < groups@.len() ==> #[trigger] groups@[h].0 != second,
        },
{
    let mut g: usize = 0;
    while g < groups.len()
        invariant
            g <= groups@.len(),
            forall|h: int| 0 <= h < g ==> #[trigger] groups@[h].0 != second,
        decreases groups@.len() - g,
    {
        if groups[g].0 == second {
            return Some(g);
        }
        g += 1;
    }
    None
}

/// The kills of the feed grouped by second, for the kills-by-second index.
pub fn kills_by_second(feed: &Vec<CompatKillEvent>) -> (groups: Vec<(u32, Vec<usize>)>)
    ensures
        kills_grouped(groups@, feed@),
{
    let mut groups: Vec<(u32, Vec<usize>)> = Vec::new();
    let mut i: usize = 0;
    while i < feed.len()
        invariant
            i <= feed@.len(),
            forall|a: int, b: int|
                0 <= a < b < groups@.len() ==> #[trigger] groups@[a].0 != #[trigger] groups@[b].0,
            forall|g: int| 0 <= g < groups@.len() ==> #[trigger] groups@[g].1@.len() > 0,
            forall|g: int, j: int|
                0 <= g < groups@.len() && 0 <= j < groups@[g].1@.len() ==> #[trigger] groups@[g].1@[j]
                    < i && feed@[groups@[g].1@[j] as int].timestamp == groups@[g].0,
            forall|g: int, j: int, k: int|
                0 <= g < groups@.len() && 0 <= j < k < groups@[g].1@.len()
                    ==> #[trigger] groups@[g].1@[j] < #[trigger] groups@[g].1@[k],
            forall|k: int| 0 <= k < i ==> #[trigger] grouped(groups@, k),
        decreases feed@.len() - i,
    {
        let t = feed[i].timestamp;
        let ghost before = groups@;
        let found = find_group(&groups, t);
        if let Some(g) = found {
            let mut members = groups[g].1.clone();
            let ghost old_members = members@;
            assert(old_members == before[g as int].1@);
            members.push(i);
            groups.set(g, (t, members));
            proof {
                let after = groups@;
                assert forall|k: int| 0 <= k < i + 1 implies #[trigger] grouped(after, k) by {
                    if k == i {
                        assert(after[g as int].1@[old_members.len() as int] == k);
                    } else {
                        assert(grouped(before, k));
                        let (h, j) = choose|h: int, j: int|
                            0 <= h < before.len() && 0 <= j < before[h].1@.len()
                                && #[trigger] before[h].1@[j] == k;
                        assert(after[h].1@[j] == k);
                    }
                }
                assert forall|h: int, j: int, k: int|
                    0 <= h < after.len() && 0 <= j < k < after[h].1@.len() implies #[trigger] after[h].1@[j]
                    < #[trigger] after[h].1@[k] by {
                    if h == g {
                        if k == old_members.len() {
                            assert(before[h].1@[j] < i);
                        } else {
                            assert(before[h].1@[j] < before[h].1@[k]);
                        }
                    } else {
                        assert(before[h].1@[j] < before[h].1@[k]);
                    }
                }
                assert forall|h: int, j: int|
                    0 <= h < after.len() && 0 <= j < after[h].1@.len() implies #[trigger] after[h].1@[j]
                    < i + 1 && feed@[after[h].1@[j] as int].timestamp == after[h].0 by {
                    if h == g && j == old_members.len() {
                    } else {
                        assert(before[h].1@[j] < i);
                    }
                }
                assert forall|a: int, b: int|
                    0 <= a < b < after.len() implies #[trigger] after[a].0 != #[trigger] after[b].0 by {
                    assert(before[a].0 != before[b].0);
                }
            }
        } else {
            let mut members: Vec<usize> = Vec::new();
            members.push(i);
            groups.push((t, members));
            proof {
                let after = groups@;
                let last = before.len() as int;
                assert forall|k: int| 0 <= k < i + 1 implies #[trigger] grouped(after, k) by {
                    if k == i {
                        assert(after[last].1@[0] == k);
                    } else {
                        assert(grouped(before, k));
                        let (h, j) = choose|h: int, j: int|
                            0 <= h < before.len() && 0 <= j < before[h].1@.len()
                                && #[trigger] before[h].1@[j] == k;
                        assert(after[h].1@[j] == k);
                    }
                }
                assert forall|a: int, b: int|
                    0 <= a < b < after.len() implies #[trigger] after[a].0 != #[trigger] after[b].0 by {
                    if b == last {
                        assert(before[a].0 != t);
                    } else {
                        assert(before[a].0 != before[b].0);
                    }
                }
                assert forall|h: int, j: int|
                    0 <= h < after.len() && 0 <= j < after[h].1@.len() implies #[trigger] after[h].1@[j]
                    < i + 1 && feed@[after[h].1@[j] as int].timestamp == after[h].0 by {
                    if h < last {
                        assert(before[h].1@[j] < i);
                    }
                }
                assert forall|h: int, j: int, k: int|
                    0 <= h < after.len() && 0 <= j < k < after[h].1@.len() implies #[trigger] after[h].1@[j]
                    < #[trigger] after[h].1@[k] by {
                    if h < last {
                        assert(before[h].1@[j] < before[h].1@[k]);
                    }
                }
            }
        }
        i += 1;
    }
    groups
}

} // verus!
