//! Frames seen as objects, and the events between two frames once the objects
//! of the earlier frame have been matched to those of the later one.

use vstd::prelude::*;

verus! {

#[derive(Debug, Clone, PartialEq, Eq)]
pub struct GenericObject {
    pub id: u32,
    pub color: u8,
    /// `[min_x, min_y, max_x, max_y]`
    pub bbox: [u8; 4],
    pub centroid: [u8; 2],
    pub pixel_count: u32,
}

#[derive(Debug, Clone, PartialEq, Eq)]
pub enum GridEvent {
    ObjectMoved { id: u32, dx: i8, dy: i8 },
    ObjectAppeared { id: u32, color: u8, centroid: [u8; 2] },
    ObjectDisappeared { id: u32 },
    ColorChanged { id: u32, old_color: u8, new_color: u8 },
    GridRestructured { pixel_delta: u32 },
}

#[derive(Debug, Clone)]
pub struct TemporalDiff {
    pub objects_appeared: Vec<u32>,
    pub objects_disappeared: Vec<u32>,
    pub objects_moved: Vec<u32>,
    pub color_changes: Vec<u32>,
    pub events: Vec<GridEvent>,
}

#[derive(Debug, Clone)]
pub struct CanonicalObservation {
    pub step: u64,
    pub frame_width: u8,
    pub frame_height: u8,
    pub objects: Vec<GenericObject>,
    pub diff: TemporalDiff,
}

/// `x` brought into the range of an `i8`.
pub open spec fn clamp_i8(x: int) -> i8 {
    if x < -128 {
        -128i8
    } else if x > 127 {
        127
    } else {
        x as i8
    }
}

/// The events of an object `p` of the earlier frame matched to `c` of the later
/// one: a move when the centroid shifted, then a colour change when the colour
/// did; both keep the earlier object's id.
pub open spec fn pair_events(p: GenericObject, c: GenericObject) -> Seq<GridEvent> {
    let dx = c.centroid[0] as int - p.centroid[0] as int;
    let dy = c.centroid[1] as int - p.centroid[1] as int;
    (if dx != 0 || dy != 0 {
        seq![GridEvent::ObjectMoved { id: p.id, dx: clamp_i8(dx), dy: clamp_i8(dy) }]
    } else {
        seq![]
    }) + (if c.color != p.color {
        seq![GridEvent::ColorChanged { id: p.id, old_color: p.color, new_color: c.color }]
    } else {
        seq![]
    })
}

/// The events of the first `k` objects of the earlier frame: those of each
/// match, or a disappearance for an object without one.
pub open spec fn match_events(
    prev: Seq<GenericObject>,
    curr: Seq<GenericObject>,
    matches: Seq<Option<usize>>,
    k: int,
) -> Seq<GridEvent>
    decreases k,
{
    if k <= 0 {
        seq![]
    } else {
        match_events(prev, curr, matches, k - 1) + match matches[k - 1] {
            Some(c) => pair_events(prev[k - 1], curr[c as int]),
            None => seq![GridEvent::ObjectDisappeared { id: prev[k - 1].id }],
        }
    }
}

/// Some of the first `k` matches is the later object at index `c`.
pub open spec fn matched_before(matches: Seq<Option<usize>>, c: int, k: int) -> bool {
    exists|j: int| 0 <= j < k && #[trigger] matches[j] == Some(c as usize)
}

/// An appearance for each of the first `k` later objects that no earlier object matched.
pub open spec fn appeared_events(curr: Seq<GenericObject>, matches: Seq<Option<usize>>, k: int) -> Seq<GridEvent>
    decreases k,
{
    if k <= 0 {
        seq![]
    } else {
        appeared_events(curr, matches, k - 1) + if matched_before(matches, k - 1, matches.len() as int) {
            seq![]
        } else {
            seq![
                GridEvent::ObjectAppeared {
                    id: curr[k - 1].id,
                    color: curr[k - 1].color,
                    centroid: curr[k - 1].centroid,
                },
            ]
        }
    }
}

fn clamp_to_i8(x: i16) -> (r: i8)
    ensures
        r == clamp_i8(x as int),
{
    if x < -128 {
        -128
    } else if x > 127 {
        127
    } else {
        x as i8
    }
}

impl CanonicalObservation {
    /// The events from `prev` to this frame, given for each object of `prev`
    /// the index of the object of this frame it continues as, or none: first
    /// the events of each earlier object in order, then the appearance of each
    /// object of this frame that continues none.
    pub fn events_from_matches(&self, prev: &CanonicalObservation, matches: &[Option<usize>]) -> (events: Vec<GridEvent>)
        requires
            matches@.len() == prev.objects@.len(),
            forall|i: int| 0 <= i < matches@.len() ==> (#[trigger] matches@[i] matches Some(c) ==> c < self.objects@.len()),
        ensures
            events@ == match_events(prev.objects@, self.objects@, matches@, matches@.len() as int) + appeared_events(
                self.objects@,
                matches@,
                self.objects@.len() as int,
            ),
    {
        let n = self.objects.len();
        let mut used: Vec<bool> = Vec::new();
        let mut c: usize = 0;
        while c < n
            invariant
                n == self.objects@.len(),
                c <= n,
                used@.len() == c,
                forall|t: int| 0 <= t < c ==> !#[trigger] used@[t],
            decreases n - c,
        {
            used.push(false);
            c = c + 1;
        }
        let mut events: Vec<GridEvent> = Vec::new();
        let mut i: usize = 0;
        while i < prev.objects.len()
            invariant
                n == self.objects@.len(),
                matches@.len() == prev.objects@.len(),
                forall|t: int| 0 <= t < matches@.len() ==> (#[trigger] matches@[t] matches Some(c) ==> c < n),
                i <= prev.objects@.len(),
                used@.len() == n,
                forall|t: int| 0 <= t < n ==> #[trigger] used@[t] == matched_before(matches@, t, i as int),
                events@ == match_events(prev.objects@, self.objects@, matches@, i as int),
            decreases prev.objects@.len() - i,
        {
            let p = &prev.objects[i];
            let ghost before = events@;
            match matches[i] {
                Some(ci) => {
                    used.set(ci, true);
                    let q = &self.objects[ci];
                    let dx: i16 = q.centroid[0] as i16 - p.centroid[0] as i16;
                    let dy: i16 = q.centroid[1] as i16 - p.centroid[1] as i16;
                    if dx != 0 || dy != 0 {
                        events.push(GridEvent::ObjectMoved { id: p.id, dx: clamp_to_i8(dx), dy: clamp_to_i8(dy) });
                    }
                    if q.color != p.color {
                        events.push(GridEvent::ColorChanged { id: p.id, old_color: p.color, new_color: q.color });
                    }
                    proof {
                        assert(events@ =~= before + pair_events(prev.objects@[i as int], self.objects@[ci as int]));
                    }
                },
                None => {
                    events.push(GridEvent::ObjectDisappeared { id: p.id });
                },
            }
            proof {
                assert forall|t: int| 0 <= t < n implies #[trigger] used@[t] == matched_before(matches@, t, i + 1) by {
                    if matched_before(matches@, t, i as int) {
                        let j = choose|j: int| 0 <= j < i && #[trigger] matches@[j] == Some(t as usize);
                        assert(0 <= j < i + 1 && matches@[j] == Some(t as usize));
                    }
                    if matches@[i as int] == Some(t as usize) {
                        assert(matches@[i as int] == Some(t as usize));
                    }
                }
            }
            i = i + 1;
        }
        let ghost head = events@;
        let mut c: usize = 0;
        while c < n
            invariant
                n == self.objects@.len(),
                c <= n,
                used@.len() == n,
                forall|t: int| 0 <= t < n ==> #[trigger] used@[t] == matched_before(matches@, t, matches@.len() as int),
                events@ == head + appeared_events(self.objects@, matches@, c as int),
            decreases n - c,
        {
            if !used[c] {
                let q = &self.objects[c];
                events.push(GridEvent::ObjectAppeared { id: q.id, color: q.color, centroid: q.centroid });
            }
            proof {
                assert(events@ =~= head + appeared_events(self.objects@, matches@, c + 1));
            }
            c = c + 1;
        }
        events
    }
}

} // verus!
