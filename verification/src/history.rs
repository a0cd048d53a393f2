use vstd::prelude::*;

use crate::textmap::TextMap;

verus! {

/// A moment as plain values: whole seconds and nanoseconds since the Unix epoch, and the
/// offset from UTC (in seconds) it was written with.
#[derive(Clone, Copy, Debug, PartialEq, Eq, Structural)]
pub struct Timestamp {
    pub seconds: i64,
    pub nanos: u32,
    pub offset_seconds: i32,
}

/// When each scene of each event last ran, kept in memory.
pub struct InMemorySceneHistory {
    entries: TextMap<TextMap<Timestamp>>,
}

impl InMemorySceneHistory {
    /// The invariant: the map of events and the map of scenes of each event are well formed.
    pub closed spec fn wf(&self) -> bool {
        &&& self.entries.wf()
        &&& forall|e: Seq<char>| #[trigger] self.entries@.dom().contains(e) ==> self.entries@[e].wf()
    }

    /// When the scene `scene` of the event `event` last ran, if it has run.
    pub closed spec fn spec_last(&self, event: Seq<char>, scene: Seq<char>) -> Option<Timestamp> {
        if self.entries@.dom().contains(event) && self.entries@[event]@.dom().contains(scene) {
            Some(self.entries@[event]@[scene])
        } else {
            None
        }
    }

    /// A history in which nothing has run.
    pub fn new() -> (h: InMemorySceneHistory)
        ensures
            h.wf(),
            forall|event: Seq<char>, scene: Seq<char>| #[trigger] h.spec_last(event, scene) is None,
    {
        InMemorySceneHistory { entries: TextMap::new() }
    }

    /// When the scene `scene_name` of the event `event_name` last ran, if it has run.
    pub fn last_executed_at(&self, event_name: &str, scene_name: &str) -> (r: Option<Timestamp>)
        requires
            self.wf(),
        ensures
            r == self.spec_last(event_name@, scene_name@),
    {
        match self.entries.get(event_name) {
            Some(scenes) => match scenes.get(scene_name) {
                Some(at) => Some(*at),
                None => None,
            },
            None => None,
        }
    }

    /// Records that the scene `scene_name` of the event `event_name` ran at `at`; every
    /// other scene keeps its time.
    pub fn record_executed(&mut self, event_name: &str, scene_name: &str, at: Timestamp)
        requires
            old(self).wf(),
        ensures
            final(self).wf(),
            forall|event: Seq<char>, scene: Seq<char>| #[trigger] final(self).spec_last(event, scene)
                == if event == event_name@ && scene == scene_name@ {
                    Some(at)
                } else {
                    old(self).spec_last(event, scene)
                },
    {
        let ghost before = self.entries@;
        let mut scenes = match self.entries.remove(event_name) {
            Some(scenes) => scenes,
            None => TextMap::new(),
        };
        let ghost scenes_before = scenes@;
        scenes.insert(scene_name.to_owned(), at);
        self.entries.insert(event_name.to_owned(), scenes);
        proof {
            assert forall|e: Seq<char>| #[trigger] self.entries@.dom().contains(e) implies self.entries@[e].wf() by {
                if e != event_name@ {
                    assert(before.dom().contains(e));
                }
            }
        }
    }
}

} // verus!
