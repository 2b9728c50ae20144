use vstd::prelude::*;
use crate::geometry::{in_polygon, inside, Point, COORD_LIMIT};

verus! {

/// What an observer knows of one tracked object: whether it is in view this
/// tick, and whether it has ever been.
#[derive(Clone, Copy, Debug, PartialEq, Eq, Structural)]
pub struct Fog {
    pub visible: bool,
    pub discovered: bool,
}

impl Fog {
    /// A fog record for an object never seen.
    pub fn new() -> (r: Fog)
        ensures
            !r.visible,
            !r.discovered,
    {
        Fog { visible: false, discovered: false }
    }

    /// Whether `visible` implies `discovered`, as after every classification.
    pub open spec fn consistent(self) -> bool {
        self.visible ==> self.discovered
    }

    /// Records this tick's classification: `visible` is replaced, and
    /// `discovered` becomes true once the object is seen, never false again.
    pub fn observe(&mut self, visible: bool)
        ensures
            final(self).visible == visible,
            final(self).discovered == (old(self).discovered || visible),
    {
        self.visible = visible;
        if visible {
            self.discovered = true;
        }
    }
}

/// How a fog-tracked object is shown.
#[derive(Clone, Copy, Debug, PartialEq, Eq, Structural)]
pub enum FogLook {
    /// In view: its own appearance.
    Original,
    /// Seen before but not now: a dimmed, desaturated appearance.
    Dimmed,
    /// Never seen: not drawn.
    Hidden,
}

/// The look that a fog state calls for.
pub open spec fn look_of(fog: Fog) -> FogLook {
    if fog.visible {
        FogLook::Original
    } else if fog.discovered {
        FogLook::Dimmed
    } else {
        FogLook::Hidden
    }
}

/// The look that `fog` calls for: original when visible, dimmed when only
/// discovered, hidden otherwise.
pub fn fog_look(fog: &Fog) -> (r: FogLook)
    ensures
        r == look_of(*fog),
{
    if fog.visible {
        FogLook::Original
    } else if fog.discovered {
        FogLook::Dimmed
    } else {
        FogLook::Hidden
    }
}

/// An object whose visibility is tracked, with its world position.
#[derive(Clone, Copy, Debug, PartialEq, Eq, Structural)]
pub struct TrackedObject {
    pub position: Point,
    pub fog: Fog,
}

/// The fan polygon: the observer as apex, then the visibility boundary in
/// order. The closing edge runs from the last boundary point back to the
/// observer, so no chord between the two cone bounds cuts through occluders.
pub open spec fn fan(observer: Point, boundary: Seq<Point>) -> Seq<Point> {
    seq![observer] + boundary
}

/// Whether `position` lies in the region seen from `observer` whose
/// boundary is `boundary` (the fan over the observer, by the even-odd rule).
pub fn in_view(observer: Point, boundary: &Vec<Point>, position: Point) -> (r: bool)
    requires
        observer.within(4 * COORD_LIMIT),
        position.within(4 * COORD_LIMIT),
        forall|i: int| 0 <= i < boundary@.len() ==> (#[trigger] boundary@[i]).within(4 * COORD_LIMIT),
    ensures
        r == inside(position, fan(observer, boundary@)),
{
    let mut fan_polygon: Vec<Point> = Vec::new();
    fan_polygon.push(observer);
    let mut i: usize = 0;
    while i < boundary.len()
        invariant
            0 <= i <= boundary@.len(),
            fan_polygon@ == fan(observer, boundary@.subrange(0, i as int)),
        decreases boundary@.len() - i,
    {
        fan_polygon.push(boundary[i]);
        assert(boundary@.subrange(0, i + 1) =~= boundary@.subrange(0, i as int).push(boundary@[i as int]));
        assert(fan_polygon@ =~= fan(observer, boundary@.subrange(0, i + 1)));
        i = i + 1;
    }
    assert(boundary@.subrange(0, boundary@.len() as int) =~= boundary@);
    in_polygon(position, &fan_polygon)
}

/// Classifies every tracked object against this tick's view (observer and
/// visibility boundary): `visible` is whether it lies in the fan, and
/// `discovered` is set once it is visible and never cleared.
pub fn update_fog(observer: Point, boundary: &Vec<Point>, objects: &mut Vec<TrackedObject>)
    requires
        observer.within(4 * COORD_LIMIT),
        forall|i: int| 0 <= i < boundary@.len() ==> (#[trigger] boundary@[i]).within(4 * COORD_LIMIT),
        forall|i: int| 0 <= i < old(objects)@.len() ==> (#[trigger] old(objects)@[i]).position.within(4 * COORD_LIMIT),
    ensures
        final(objects)@.len() == old(objects)@.len(),
        forall|i: int| 0 <= i < final(objects)@.len() ==> {
            let before = #[trigger] old(objects)@[i];
            let after = final(objects)@[i];
            &&& after.position == before.position
            &&& after.fog.visible == inside(before.position, fan(observer, boundary@))
            &&& after.fog.discovered == (before.fog.discovered || after.fog.visible)
        },
{
    let ghost start = objects@;
    let mut i: usize = 0;
    while i < objects.len()
        invariant
            0 <= i <= objects@.len(),
            objects@.len() == start.len(),
            observer.within(4 * COORD_LIMIT),
            forall|j: int| 0 <= j < boundary@.len() ==> (#[trigger] boundary@[j]).within(4 * COORD_LIMIT),
            forall|j: int| 0 <= j < start.len() ==> (#[trigger] start[j]).position.within(4 * COORD_LIMIT),
            forall|j: int| i <= j < start.len() ==> #[trigger] objects@[j] == start[j],
            forall|j: int| 0 <= j < i ==> {
                let before = #[trigger] start[j];
                let after = objects@[j];
                &&& after.position == before.position
                &&& after.fog.visible == inside(before.position, fan(observer, boundary@))
                &&& after.fog.discovered == (before.fog.discovered || after.fog.visible)
            },
        decreases start.len() - i,
    {
        let mut obj = objects[i];
        assert(obj == start[i as int]);
        let seen = in_view(observer, boundary, obj.position);
        obj.fog.observe(seen);
        let ghost prev = objects@;
        objects.set(i, obj);
        assert forall|j: int| 0 <= j < i + 1 implies {
            let before = #[trigger] start[j];
            let after = objects@[j];
            &&& after.position == before.position
            &&& after.fog.visible == inside(before.position, fan(observer, boundary@))
            &&& after.fog.discovered == (before.fog.discovered || after.fog.visible)
        } by {
            if j < i {
                assert(objects@[j] == prev[j]);
            }
        }
        i = i + 1;
    }
}

/// One tick of classification took the fog state `before` to `after`, as
/// `Fog::observe` and `update_fog` do, whatever the object's visibility.
pub open spec fn fog_step(before: Fog, after: Fog) -> bool {
    after.discovered == (before.discovered || after.visible)
}

/// Monotone discovery: along any run of ticks, an object discovered at tick
/// `a` is still discovered at every later tick `b`, whatever its later
/// visibility; and after each tick `visible` implies `discovered`.
pub proof fn lemma_discovery_monotone(history: Seq<Fog>, a: int, b: int)
    requires
        forall|t: int| 0 <= t < history.len() - 1 ==> fog_step(#[trigger] history[t], history[t + 1]),
        0 <= a <= b < history.len(),
        history[a].discovered,
    ensures
        history[b].discovered,
        forall|t: int| 0 < t < history.len() ==> (#[trigger] history[t]).consistent(),
    decreases b - a,
{
    assert forall|t: int| 0 < t < history.len() implies (#[trigger] history[t]).consistent() by {
        assert(fog_step(history[t - 1], history[t]));
    }
    if a < b {
        lemma_discovery_monotone(history, a, b - 1);
        assert(fog_step(history[b - 1], history[b]));
    }
}

} // verus!
