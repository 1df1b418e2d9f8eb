//! The decisions of the incremental watcher: which file-system events count as changes,
//! and when the accumulated changes trigger a rebuild.
//!
//! The caller watches the tree, waits for events with a debounce timeout, and performs
//! the rebuilds; this module holds the pending changes between them.

use vstd::prelude::*;

verus! {

/// The kind of a file-system event.
pub enum ChangeKind {
    Create,
    Modify,
    Remove,
    /// Any other event (access, metadata, ...).
    Other,
}

/// Whether an event of this kind changes the indexed content.
pub open spec fn is_content_change(kind: ChangeKind) -> bool {
    kind is Create || kind is Modify || kind is Remove
}

/// The pending paths after an event of this kind with these paths: the paths of a create,
/// modify or remove event are added in order; any other event changes nothing.
pub open spec fn after_event(pending: Seq<Seq<char>>, kind: ChangeKind, paths: Seq<Seq<char>>) -> Seq<
    Seq<char>,
> {
    if is_content_change(kind) {
        pending + paths
    } else {
        pending
    }
}

/// The pending paths after a run of events, starting from `pending`.
pub open spec fn pending_after(pending: Seq<Seq<char>>, events: Seq<(ChangeKind, Seq<Seq<char>>)>) -> Seq<
    Seq<char>,
>
    decreases events.len(),
{
    if events.len() == 0 {
        pending
    } else {
        after_event(pending_after(pending, events.drop_last()), events.last().0, events.last().1)
    }
}

/// The paths carried by the create, modify and remove events of a run of events, in order.
pub open spec fn changed_paths(events: Seq<(ChangeKind, Seq<Seq<char>>)>) -> Seq<Seq<char>>
    decreases events.len(),
{
    if events.len() == 0 {
        Seq::empty()
    } else {
        changed_paths(events.drop_last()) + if is_content_change(events.last().0) {
            events.last().1
        } else {
            Seq::empty()
        }
    }
}

/// After a rebuild nothing is pending. From then on, the paths pending after a run of
/// events are exactly those of its create, modify and remove events, in order; so a
/// rebuild is due at the next quiet period (`take_due` gives `Some`) exactly when one of
/// those events carried a path, and other events never make one due.
pub proof fn lemma_rebuild_due_only_after_change(events: Seq<(ChangeKind, Seq<Seq<char>>)>)
    ensures
        pending_after(Seq::empty(), events) == changed_paths(events),
        pending_after(Seq::empty(), events).len() > 0 <==> exists|i: int|
            0 <= i < events.len() && is_content_change(#[trigger] events[i].0)
                && events[i].1.len() > 0,
    decreases events.len(),
{
    if events.len() > 0 {
        let prev = events.drop_last();
        lemma_rebuild_due_only_after_change(prev);
        assert(pending_after(Seq::empty(), events) =~= changed_paths(events));
        let n = events.len() - 1;
        if pending_after(Seq::empty(), events).len() > 0 {
            if changed_paths(prev).len() > 0 {
                let i = choose|i: int|
                    0 <= i < prev.len() && is_content_change(#[trigger] prev[i].0)
                        && prev[i].1.len() > 0;
                assert(events[i] == prev[i]);
            } else {
                assert(is_content_change(events[n].0) && events[n].1.len() > 0);
            }
        }
        if exists|i: int|
            0 <= i < events.len() && is_content_change(#[trigger] events[i].0)
                && events[i].1.len() > 0 {
            let i = choose|i: int|
                0 <= i < events.len() && is_content_change(#[trigger] events[i].0)
                    && events[i].1.len() > 0;
            if i < n {
                assert(prev[i] == events[i]);
            }
        }
    }
}

/// The changed paths seen since the last rebuild.
pub struct PendingChanges {
    paths: Vec<String>,
}

impl PendingChanges {
    /// The pending paths, in the order they were seen.
    pub closed spec fn view_paths(&self) -> Seq<Seq<char>> {
        self.paths@.map_values(|p: String| p@)
    }

    /// No pending change.
    pub fn new() -> (p: PendingChanges)
        ensures
            p.view_paths() == Seq::<Seq<char>>::empty(),
    {
        let p = PendingChanges { paths: Vec::new() };
        assert(p.view_paths() =~= Seq::<Seq<char>>::empty());
        p
    }

    /// The number of pending paths.
    pub fn len(&self) -> (n: usize)
        ensures
            n == self.view_paths().len(),
    {
        self.paths.len()
    }

    /// Record an event: the paths of a create, modify or remove event become pending; other
    /// events are ignored. Returns whether the paths were recorded.
    pub fn record(&mut self, kind: ChangeKind, paths: Vec<String>) -> (recorded: bool)
        ensures
            recorded == is_content_change(kind),
            final(self).view_paths() == after_event(
                old(self).view_paths(),
                kind,
                paths@.map_values(|p: String| p@),
            ),
    {
        match kind {
            ChangeKind::Create | ChangeKind::Modify | ChangeKind::Remove => {
                let ghost before = self.view_paths();
                let ghost added = paths@;
                for path in it: paths
                    invariant
                        it.seq() == added,
                        self.view_paths() == before + added.take(it.index()).map_values(
                            |p: String| p@,
                        ),
                {
                    let ghost k = it.index();
                    let ghost old_paths = self.paths@;
                    self.paths.push(path);
                    assert(added.take(k + 1) =~= added.take(k).push(path));
                    assert(self.paths@.map_values(|p: String| p@) =~= old_paths.map_values(
                        |p: String| p@,
                    ).push(path@));
                    assert(added.take(k + 1).map_values(|p: String| p@) =~= added.take(k).map_values(
                        |p: String| p@,
                    ).push(path@));
                    assert(self.view_paths() =~= before + added.take(k + 1).map_values(
                        |p: String| p@,
                    ));
                }
                assert(added.take(added.len() as int) =~= added);
                true
            },
            ChangeKind::Other => false,
        }
    }

    /// The debounce period elapsed: when changes are pending, they are handed over (their
    /// number is returned, and a rebuild is due) and none stay pending; otherwise nothing
    /// is due.
    pub fn take_due(&mut self) -> (due: Option<usize>)
        ensures
            old(self).view_paths().len() == 0 ==> due is None && final(self).view_paths()
                == old(self).view_paths(),
            old(self).view_paths().len() > 0 ==> due == Some(old(self).view_paths().len() as usize)
                && final(self).view_paths() == Seq::<Seq<char>>::empty(),
    {
        if self.paths.len() == 0 {
            return None;
        }
        let n = self.paths.len();
        self.paths.clear();
        assert(self.view_paths() =~= Seq::<Seq<char>>::empty());
        Some(n)
    }
}

} // verus!
