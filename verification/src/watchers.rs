//! The watchers of all registered projects, one for each.
//!
//! Every registered project is watched, and selection only changes a watcher's
//! mode. What a watcher is held by is the caller's.

use vstd::prelude::*;

use crate::model::ProjectId;
use crate::sink::{StatusModel, StatusPayload, StatusState};
use crate::watcher::refused_status;

verus! {

/// The handle of each watcher, under the id of its project.
pub struct Watchers<H> {
    handles: Vec<(ProjectId, H)>,
}

impl<H> View for Watchers<H> {
    type V = Seq<(Seq<char>, H)>;

    closed spec fn view(&self) -> Seq<(Seq<char>, H)> {
        self.handles@.map_values(|held: (ProjectId, H)| (held.0@, held.1))
    }
}

/// Whether a project is watched.
pub open spec fn is_watched<H>(handles: Seq<(Seq<char>, H)>, id: Seq<char>) -> bool {
    exists|i: int| 0 <= i < handles.len() && (#[trigger] handles[i]).0 == id
}

/// Whether each project is watched once.
pub open spec fn watched_once<H>(handles: Seq<(Seq<char>, H)>) -> bool {
    forall|i: int, j: int|
        0 <= i < j < handles.len() ==> (#[trigger] handles[i]).0 != (#[trigger] handles[j]).0
}

impl<H> Watchers<H> {
    /// Whether each project is watched once.
    pub open spec fn wf(&self) -> bool {
        watched_once(self@)
    }

    pub fn new() -> (watchers: Self)
        ensures
            watchers.wf(),
            watchers@.len() == 0,
    {
        Watchers { handles: Vec::new() }
    }

    fn position(&self, project_id: &ProjectId) -> (at: Option<usize>)
        ensures
            at matches Some(at) ==> at < self@.len() && self@[at as int].0 == project_id@,
            at is None ==> !is_watched(self@, project_id@),
    {
        let mut i: usize = 0;
        while i < self.handles.len()
            invariant
                i <= self.handles@.len(),
                self@.len() == self.handles@.len(),
                forall|j: int| 0 <= j < i ==> (#[trigger] self@[j]).0 != project_id@,
            decreases self.handles@.len() - i,
        {
            assert(self@[i as int].0 == self.handles@[i as int].0@);
            if self.handles[i].0.same(project_id) {
                return Some(i);
            }
            i += 1;
        }
        None
    }

    /// How many projects are watched.
    pub fn len(&self) -> (len: usize)
        ensures
            len == self@.len(),
    {
        self.handles.len()
    }

    /// The handle at a position.
    pub fn at(&self, i: usize) -> (handle: &H)
        requires
            i < self@.len(),
        ensures
            *handle == self@[i as int].1,
    {
        &self.handles[i].1
    }

    /// The handle of a project's watcher, if it has one.
    pub fn get(&self, project_id: &ProjectId) -> (handle: Option<&H>)
        ensures
            handle is Some <==> is_watched(self@, project_id@),
            handle matches Some(handle) ==> self@.contains((project_id@, *handle)),
    {
        match self.position(project_id) {
            Some(at) => {
                assert(self@[at as int] == (project_id@, self.handles@[at as int].1));
                Some(&self.handles[at].1)
            },
            None => None,
        }
    }

    /// Keep the handle of a watcher that was started, or leave the one that is
    /// already there alone.
    ///
    /// A handle is kept only if there is a watcher behind it: where none could
    /// be started nothing is, so that it is tried again, and what is to be told
    /// is returned.
    pub fn ensure(&mut self, project_id: &ProjectId, started: Result<H, String>) -> (told: Option<
        StatusPayload,
    >)
        requires
            old(self).wf(),
        ensures
            final(self).wf(),
            is_watched(old(self)@, project_id@) ==> final(self)@ == old(self)@ && told is None,
            !is_watched(old(self)@, project_id@) ==> match started {
                Ok(handle) => final(self)@ == old(self)@.push((project_id@, handle))
                    && told is None,
                Err(err) => final(self)@ == old(self)@ && (told matches Some(payload) && payload@
                    == (StatusModel {
                    project_id: project_id@,
                    state: StatusState::Offline,
                    reason: Some("could not start a watcher: "@ + err@),
                })),
            },
    {
        let ghost before = self@;
        if self.position(project_id).is_some() {
            return None;
        }
        match started {
            Ok(handle) => {
                self.handles.push((project_id.clone(), handle));
                assert(self@ =~= before.push((project_id@, handle)));
                None
            },
            Err(err) => Some(refused_status(project_id, err.as_str())),
        }
    }

    /// Let go of the watcher of a project that is no longer registered.
    pub fn stop(&mut self, project_id: &ProjectId) -> (handle: Option<H>)
        requires
            old(self).wf(),
        ensures
            final(self).wf(),
            !is_watched(final(self)@, project_id@),
            handle is Some <==> is_watched(old(self)@, project_id@),
            handle is None ==> final(self)@ == old(self)@,
            handle matches Some(handle) ==> exists|at: int|
                {
                    &&& 0 <= at < old(self)@.len()
                    &&& #[trigger] old(self)@[at] == (project_id@, handle)
                    &&& final(self)@ == old(self)@.remove(at)
                },
    {
        let ghost before = self@;
        match self.position(project_id) {
            Some(at) => {
                let ghost list = self.handles@;
                let held = self.handles.remove(at);
                assert(before[at as int] == (project_id@, held.1));
                assert(self@ =~= before.remove(at as int));
                assert forall|i: int, j: int| 0 <= i < j < self@.len() implies (
                #[trigger] self@[i]).0 != (#[trigger] self@[j]).0 by {
                    let x: int = if i < at {
                        i
                    } else {
                        i + 1
                    };
                    let y: int = if j < at {
                        j
                    } else {
                        j + 1
                    };
                    assert(before[x].0 != before[y].0);
                }
                assert forall|i: int| 0 <= i < self@.len() implies (#[trigger] self@[i]).0
                    != project_id@ by {
                    if i < at {
                        assert(before[i].0 != before[at as int].0);
                    } else {
                        assert(before[at as int].0 != before[i + 1].0);
                    }
                }
                Some(held.1)
            },
            None => None,
        }
    }

    /// Let go of every watcher.
    pub fn stop_all(&mut self)
        ensures
            final(self).wf(),
            final(self)@.len() == 0,
    {
        self.handles.clear();
    }
}

/// A project is watched exactly where a watcher was started for it.
pub proof fn a_project_is_watched_once_it_was_started<H>(
    handles: Seq<(Seq<char>, H)>,
    id: Seq<char>,
    handle: H,
    other: Seq<char>,
)
    ensures
        !is_watched(Seq::<(Seq<char>, H)>::empty(), id),
        is_watched(handles.push((id, handle)), other) <==> other == id || is_watched(
            handles,
            other,
        ),
{
    let more = handles.push((id, handle));
    assert(more[handles.len() as int].0 == id);
    if is_watched(handles, other) {
        let i = choose|i: int| 0 <= i < handles.len() && (#[trigger] handles[i]).0 == other;
        assert(more[i].0 == other);
    }
    if is_watched(more, other) && other != id {
        let i = choose|i: int| 0 <= i < more.len() && (#[trigger] more[i]).0 == other;
        assert(handles[i].0 == other);
    }
}

} // verus!
