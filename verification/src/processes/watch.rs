//! What the live process view decides between two scans: which processes
//! started or exited, how a name is cut to fit, and what a key press does.
use vstd::prelude::*;

use crate::group::{all_groups, group_all, members};
use crate::processes::scan::ProcessReport;
use crate::processes::ProjectProcesses;
use crate::text::{chars_of, concat3, decimal, decimal_string, slice, string_of};

verus! {

/// `value` cut to at most `max` characters, the last shown one replaced by `…`.
pub open spec fn truncated(value: Seq<char>, max: nat) -> Seq<char> {
    if value.len() <= max {
        value
    } else {
        value.take(
            if max == 0 {
                0
            } else {
                max - 1
            },
        ) + seq!['\u{2026}']
    }
}

pub fn truncate(value: &str, max: usize) -> (r: String)
    ensures
        r@ == truncated(value@, max as nat),
{
    let cs = chars_of(value);
    if cs.len() <= max {
        return String::from_str(value);
    }
    let keep = if max == 0 {
        0
    } else {
        max - 1
    };
    let mut head = slice(&cs, 0, keep);
    assert(head@ =~= value@.take(keep as int));
    head.push('\u{2026}');
    string_of(&head)
}

/// How a process is named in a lifecycle event: project, `:`, process.
pub open spec fn process_label(project: Seq<char>, name: Seq<char>) -> Seq<char> {
    project + ":"@ + name
}

/// The processes of one project as (pid, label).
pub open spec fn project_labels(p: ProjectProcesses) -> Seq<(u32, Seq<char>)> {
    p.processes@.map_values(|q: crate::processes::ProcessInfo| (q.pid, process_label(p.project@, q.name@)))
}

/// Every process of a report as (pid, label), project after project.
pub open spec fn report_labels(projects: Seq<ProjectProcesses>) -> Seq<(u32, Seq<char>)>
    decreases projects.len(),
{
    if projects.len() == 0 {
        seq![]
    } else {
        report_labels(projects.drop_last()) + project_labels(projects.last())
    }
}

pub open spec fn pair_views(v: Seq<(u32, String)>) -> Seq<(u32, Seq<char>)> {
    v.map_values(|e: (u32, String)| (e.0, e.1@))
}

/// `map` holds the labels of `entries` (pid, label) as a map in pid order:
/// each pid once, with the last label given for it.
pub open spec fn label_map_of(entries: Seq<(u32, String)>, map: Seq<(u32, String)>) -> bool {
    &&& forall|a: int, b: int| 0 <= a < b < map.len() ==> (#[trigger] map[a]).0 < (#[trigger] map[b]).0
    &&& forall|k: int|
        0 <= k < map.len() ==> members(entries, (#[trigger] map[k]).0).len() > 0 && map[k].1@ == members(
            entries,
            map[k].0,
        ).last()@
    &&& forall|m: int|
        0 <= m < entries.len() ==> exists|k: int| 0 <= k < map.len() && (#[trigger] map[k]).0 == (#[trigger] entries[m]).0
}

/// Pids in strictly increasing order.
pub open spec fn pid_ordered(map: Seq<(u32, String)>) -> bool {
    forall|a: int, b: int| 0 <= a < b < map.len() ==> (#[trigger] map[a]).0 < (#[trigger] map[b]).0
}

pub open spec fn has_pid(map: Seq<(u32, String)>, pid: u32) -> bool {
    exists|k: int| 0 <= k < map.len() && (#[trigger] map[k]).0 == pid
}

/// The events of processes in `map` whose pid is not in `other`, in order,
/// each `prefix`, label, ` (pid `, pid, `)`.
pub open spec fn lifecycle_events(map: Seq<(u32, String)>, other: Seq<(u32, String)>, prefix: Seq<char>) -> Seq<Seq<char>>
    decreases map.len(),
{
    if map.len() == 0 {
        seq![]
    } else {
        let prev = lifecycle_events(map.drop_last(), other, prefix);
        let e = map.last();
        if has_pid(other, e.0) {
            prev
        } else {
            prev.push(prefix + e.1@ + " (pid "@ + decimal(e.0 as nat) + ")"@)
        }
    }
}

/// The recent events after adding `added` one by one at the front: newest
/// first, at most four.
pub open spec fn recent_events(old: Seq<Seq<char>>, added: Seq<Seq<char>>) -> Seq<Seq<char>>
    decreases added.len(),
{
    if added.len() == 0 {
        old
    } else {
        let s = seq![added.last()] + recent_events(old, added.drop_last());
        if s.len() > 4 {
            s.take(4)
        } else {
            s
        }
    }
}

fn find_pid(map: &Vec<(u32, String)>, pid: u32) -> (r: bool)
    ensures
        r == has_pid(map@, pid),
{
    let mut k: usize = 0;
    while k < map.len()
        invariant
            k <= map.len(),
            forall|j: int| 0 <= j < k ==> (#[trigger] map@[j]).0 != pid,
        decreases map.len() - k,
    {
        if map[k].0 == pid {
            return true;
        }
        k += 1;
    }
    false
}

fn events_of(map: &Vec<(u32, String)>, other: &Vec<(u32, String)>, prefix: &str) -> (r: Vec<String>)
    ensures
        r@.map_values(|s: String| s@) == lifecycle_events(map@, other@, prefix@),
{
    let mut r: Vec<String> = Vec::new();
    let mut i: usize = 0;
    while i < map.len()
        invariant
            i <= map.len(),
            r@.map_values(|s: String| s@) == lifecycle_events(map@.take(i as int), other@, prefix@),
        decreases map.len() - i,
    {
        assert(map@.take(i + 1).drop_last() =~= map@.take(i as int));
        assert(map@.take(i + 1).last() == map@[i as int]);
        if !find_pid(other, map[i].0) {
            let ghost before = r@.map_values(|s: String| s@);
            let head = concat3(prefix, map[i].1.as_str(), " (pid ");
            let msg = concat3(head.as_str(), decimal_string(map[i].0 as u64).as_str(), ")");
            r.push(msg);
            assert(r@.map_values(|s: String| s@) =~= before.push(msg@));
        }
        i += 1;
    }
    assert(map@.take(map.len() as int) =~= map@);
    r
}

/// The processes of a report as a map from pid to label, in pid order.
pub fn current_labels(report: &ProcessReport) -> (r: Vec<(u32, String)>)
    ensures
        exists|entries: Seq<(u32, String)>|
            pair_views(entries) == report_labels(report.projects@) && #[trigger] label_map_of(entries, r@),
{
    let mut items: Vec<(u32, String)> = Vec::new();
    let mut i: usize = 0;
    while i < report.projects.len()
        invariant
            i <= report.projects.len(),
            pair_views(items@) == report_labels(report.projects@.take(i as int)),
        decreases report.projects.len() - i,
    {
        let p = &report.projects[i];
        let ghost base = pair_views(items@);
        let mut j: usize = 0;
        while j < p.processes.len()
            invariant
                j <= p.processes.len(),
                pair_views(items@) == base + project_labels(*p).take(j as int),
            decreases p.processes.len() - j,
        {
            let ghost before = pair_views(items@);
            let label = concat3(p.project.as_str(), ":", p.processes[j].name.as_str());
            items.push((p.processes[j].pid, label));
            assert(pair_views(items@) =~= before.push((p.processes@[j as int].pid, label@)));
            assert(project_labels(*p).take(j + 1) =~= project_labels(*p).take(j as int).push(
                (p.processes@[j as int].pid, process_label(p.project@, p.processes@[j as int].name@)),
            ));
            j += 1;
        }
        assert(project_labels(*p).take(j as int) =~= project_labels(*p));
        assert(report.projects@.take(i + 1).drop_last() =~= report.projects@.take(i as int));
        assert(report.projects@.take(i + 1).last() == *p);
        i += 1;
    }
    assert(report.projects@.take(report.projects.len() as int) =~= report.projects@);
    let ghost entries = items@;
    let groups = group_all(items);
    let mut r: Vec<(u32, String)> = Vec::new();
    let mut k: usize = 0;
    while k < groups.len()
        invariant
            k <= groups.len(),
            all_groups(entries, groups@),
            r@.len() == k,
            forall|x: int|
                0 <= x < k ==> (#[trigger] r@[x]).0 == groups@[x].0 && r@[x].1@ == groups@[x].1@.last()@,
        decreases groups.len() - k,
    {
        let last = groups[k].1.len() - 1;
        r.push((groups[k].0, groups[k].1[last].clone()));
        k += 1;
    }
    proof {
        assert forall|a: int, b: int| 0 <= a < b < r@.len() implies (#[trigger] r@[a]).0 < (#[trigger] r@[b]).0 by {
            assert(groups@[a].0 < groups@[b].0);
        }
        assert forall|k: int|
            0 <= k < r@.len() implies members(entries, (#[trigger] r@[k]).0).len() > 0 && r@[k].1@ == members(
                entries,
                r@[k].0,
            ).last()@ by {
            assert(groups@[k].1@ == members(entries, groups@[k].0));
            assert(groups@[k].1@.len() > 0);
        }
        let map = r@;
        assert(forall|a: int, b: int| 0 <= a < b < map.len() ==> (#[trigger] map[a]).0 < (#[trigger] map[b]).0);
        assert(forall|k: int|
            0 <= k < map.len() ==> members(entries, (#[trigger] map[k]).0).len() > 0 && map[k].1@ == members(
                entries,
                map[k].0,
            ).last()@);
        assert forall|m: int| 0 <= m < entries.len() implies exists|k: int|
            0 <= k < map.len() && (#[trigger] map[k]).0 == (#[trigger] entries[m]).0 by {
            let x = choose|x: int| 0 <= x < groups@.len() && (#[trigger] groups@[x]).0 == (#[trigger] entries[m]).0;
            assert(map[x].0 == entries[m].0);
        }
        assert(label_map_of(entries, r@));
    }
    r
}

/// Records what changed since the last scan: a `started` event for each
/// process now seen whose pid was not seen before, then an `exited` event for
/// each pid no longer seen (each in pid order), newest first, at most four
/// kept; then the processes now seen become the ones seen before. The
/// processes seen before are kept in strict pid order, one entry per pid.
pub fn update_events(report: &ProcessReport, previous: &mut Vec<(u32, String)>, events: &mut Vec<String>)
    requires
        pid_ordered(old(previous)@),
    ensures
        pid_ordered(final(previous)@),
        exists|entries: Seq<(u32, String)>|
            pair_views(entries) == report_labels(report.projects@) && #[trigger] label_map_of(entries, final(previous)@),
        final(events)@.map_values(|s: String| s@) == recent_events(
            old(events)@.map_values(|s: String| s@),
            lifecycle_events(final(previous)@, old(previous)@, "started  "@) + lifecycle_events(
                old(previous)@,
                final(previous)@,
                "exited   "@,
            ),
        ),
{
    let current = current_labels(report);
    let started = events_of(&current, previous, "started  ");
    let exited = events_of(previous, &current, "exited   ");
    let ghost old_events = events@.map_values(|s: String| s@);
    let ghost added = started@.map_values(|s: String| s@) + exited@.map_values(|s: String| s@);
    let mut all = started;
    let mut ex = exited;
    all.append(&mut ex);
    assert(all@.map_values(|s: String| s@) =~= added);
    let mut i: usize = 0;
    while i < all.len()
        invariant
            i <= all.len(),
            all@.map_values(|s: String| s@) == added,
            events@.map_values(|s: String| s@) == recent_events(old_events, added.take(i as int)),
        decreases all.len() - i,
    {
        let ghost before = events@.map_values(|s: String| s@);
        let e = all[i].clone();
        events.insert(0, e);
        assert(events@.map_values(|s: String| s@) =~= seq![e@] + before);
        events.truncate(4);
        assert(added.take(i + 1).drop_last() =~= added.take(i as int));
        assert(added.take(i + 1).last() == e@);
        if events.len() == 4 {
            assert(events@.map_values(|s: String| s@) =~= (seq![e@] + before).take(4));
        } else {
            assert(events@.map_values(|s: String| s@) =~= seq![e@] + before);
        }
        i += 1;
    }
    assert(added.take(all.len() as int) =~= added);
    *previous = current;
}

/// A key as the live view tells keys apart.
#[derive(Clone, Copy, Debug, PartialEq, Eq, Structural)]
pub enum WatchKey {
    Char(char),
    Esc,
    Other,
}

/// What the terminal reported while the live view waited.
#[derive(Clone, Copy, Debug, PartialEq, Eq, Structural)]
pub enum WatchEvent {
    Key { key: WatchKey, pressed: bool, control: bool },
    Resize,
    Other,
}

/// What the live view does next.
#[derive(Clone, Copy, Debug, PartialEq, Eq, Structural)]
pub enum WatchAction {
    Quit,
    Refresh,
    Wait,
}

/// A pressed `q`, `Esc` or `Ctrl-C` quits; a pressed `r` or a resize scans
/// again at once; anything else keeps waiting.
pub open spec fn spec_watch_action(event: WatchEvent) -> WatchAction {
    match event {
        WatchEvent::Key { key, pressed, control } => if !pressed {
            WatchAction::Wait
        } else if key == WatchKey::Char('q') || key == WatchKey::Esc || (key == WatchKey::Char('c') && control) {
            WatchAction::Quit
        } else if key == WatchKey::Char('r') {
            WatchAction::Refresh
        } else {
            WatchAction::Wait
        },
        WatchEvent::Resize => WatchAction::Refresh,
        WatchEvent::Other => WatchAction::Wait,
    }
}

pub fn watch_action(event: WatchEvent) -> (r: WatchAction)
    ensures
        r == spec_watch_action(event),
{
    match event {
        WatchEvent::Key { key, pressed, control } => {
            if !pressed {
                WatchAction::Wait
            } else if key == WatchKey::Char('q') || key == WatchKey::Esc || (key == WatchKey::Char('c') && control) {
                WatchAction::Quit
            } else if key == WatchKey::Char('r') {
                WatchAction::Refresh
            } else {
                WatchAction::Wait
            }
        },
        WatchEvent::Resize => WatchAction::Refresh,
        WatchEvent::Other => WatchAction::Wait,
    }
}

/// At most four events are kept, once there were at most four.
pub proof fn lemma_events_bounded(old: Seq<Seq<char>>, added: Seq<Seq<char>>)
    requires
        old.len() <= 4,
    ensures
        recent_events(old, added).len() <= 4,
        added.len() > 0 ==> recent_events(old, added)[0] == added.last(),
    decreases added.len(),
{
    if added.len() > 0 {
        lemma_events_bounded(old, added.drop_last());
    }
}

/// A cut name is no longer than the room it is cut for (one character where
/// there is no room at all and the name is not empty).
pub proof fn lemma_truncated_fits(value: Seq<char>, max: nat)
    ensures
        max > 0 ==> truncated(value, max).len() <= max,
        value.len() <= max ==> truncated(value, max) == value,
{
}

} // verus!
