//! Component data and the pure decisions made on it.

use std::collections::HashSet;
use vstd::prelude::*;
use vstd::std_specs::iter::IteratorSpec;

verus! {

broadcast use vstd::std_specs::hash::group_hash_axioms;

/// Stable identifier of an entity in the world (the bit pattern of the ECS
/// entity handle).
pub type EntityId = u64;

/// Marks the entity steered by the player's input.
pub struct Player;

/// Marks entities whose vertical velocity is pulled by gravity.
pub struct AffectedByGravity;

/// Marks entities that block movement and enter the spatial grid.
pub struct Collidable;

/// Marks the camera that follows the action and shakes on impact.
pub struct MainCamera;

/// Whether the entity rests on a surface, and the platform it stands on.
pub struct Grounded(pub bool, pub Option<EntityId>);

impl Grounded {
    /// The platform whose motion carries the entity along: the one it
    /// stands on, and only while it is grounded.
    pub fn riding_platform(&self) -> (res: Option<EntityId>)
        ensures
            res == (if self.0 {
                self.1
            } else {
                None
            }),
    {
        if self.0 {
            self.1
        } else {
            None
        }
    }
}

/// Event: the entity started to overlap trigger `target_entity`.
#[derive(Clone, Copy, Debug, PartialEq, Eq)]
pub struct OnTriggerEnter {
    pub target_entity: EntityId,
}

/// Event: the entity stopped overlapping trigger `target_entity`.
#[derive(Clone, Copy, Debug, PartialEq, Eq)]
pub struct OnTriggerExit {
    pub target_entity: EntityId,
}

/// Event: the entity keeps overlapping trigger `target_entity`.
#[derive(Clone, Copy, Debug, PartialEq, Eq)]
pub struct OnTriggerStay {
    pub target_entity: EntityId,
}

/// Kinds of damage, each mitigated by its own resistance.
#[derive(Clone, Copy, Debug, PartialEq, Eq)]
pub enum DamageType {
    Physical,
    Fire,
    Ice,
    Electric,
}

/// Collision layer masks of an entity.
#[derive(Clone, Copy, Debug, PartialEq, Eq)]
pub struct CollisionGroups {
    /// Layers this entity belongs to.
    pub memberships: u32,
    /// Layers this entity collides with.
    pub filters: u32,
}

/// Whether two groups interact: each one belongs to a layer the other
/// filters for.
pub open spec fn groups_collide(a: CollisionGroups, b: CollisionGroups) -> bool {
    (a.memberships & b.filters) != 0 && (b.memberships & a.filters) != 0
}

impl CollisionGroups {
    /// True when `self` and `other` collide with each other.
    pub fn can_collide(&self, other: &CollisionGroups) -> (res: bool)
        ensures
            res == groups_collide(*self, *other),
    {
        (self.memberships & other.filters) != 0 && (other.memberships & self.filters) != 0
    }
}

/// Layer `layer` (0..32) is set in `mask`.
pub open spec fn in_layer(mask: u32, layer: u32) -> bool {
    layer < 32 && (mask >> layer) & 1u32 == 1u32
}

/// The two masks have a layer in common.
pub open spec fn share_layer(a: u32, b: u32) -> bool {
    exists|l: u32| #[trigger] in_layer(a, l) && in_layer(b, l)
}

proof fn lemma_lowest_common_bit(a: u32, b: u32, l: u32)
    requires
        l < 32,
        ((a & b) >> l) != 0,
    ensures
        share_layer(a, b),
    decreases 32 - l,
{
    let c = a & b;
    if (c >> l) & 1u32 == 1u32 {
        assert(((a & b) >> l) & 1u32 == 1u32 ==> (a >> l) & 1u32 == 1u32 && (b >> l) & 1u32 == 1u32)
            by (bit_vector);
        assert(in_layer(a, l) && in_layer(b, l));
    } else {
        assert(l < 32 && (c >> l) != 0 && (c >> l) & 1u32 != 1u32 ==> l < 31 && (c >> (l + 1) as u32) != 0)
            by (bit_vector);
        lemma_lowest_common_bit(a, b, (l + 1) as u32);
    }
}

/// Two masks intersect exactly when they have a layer in common.
pub proof fn lemma_mask_overlap_is_shared_layer(a: u32, b: u32)
    ensures
        ((a & b) != 0) == share_layer(a, b),
{
    if (a & b) != 0 {
        assert((a & b) != 0 ==> ((a & b) >> 0u32) != 0) by (bit_vector);
        lemma_lowest_common_bit(a, b, 0);
    }
    if share_layer(a, b) {
        let l = choose|l: u32| #[trigger] in_layer(a, l) && in_layer(b, l);
        assert(l < 32 && (a >> l) & 1u32 == 1u32 && (b >> l) & 1u32 == 1u32 ==> (a & b) != 0)
            by (bit_vector);
    }
}

/// Two entities collide exactly when each belongs to a layer that the other
/// one filters for.
pub proof fn lemma_can_collide_by_layers(a: CollisionGroups, b: CollisionGroups)
    ensures
        groups_collide(a, b) == (share_layer(a.memberships, b.filters) && share_layer(
            b.memberships,
            a.filters,
        )),
{
    lemma_mask_overlap_is_shared_layer(a.memberships, b.filters);
    lemma_mask_overlap_is_shared_layer(b.memberships, a.filters);
}

/// Collision between groups is symmetric.
pub proof fn lemma_can_collide_symmetric(a: CollisionGroups, b: CollisionGroups)
    ensures
        groups_collide(a, b) == groups_collide(b, a),
{
}

/// Trigger volumes an entity overlaps in the current and in the previous
/// frame; the difference of the two yields the enter / exit / stay events.
pub struct TriggerTracker {
    /// Triggers overlapped in the frame being computed.
    pub current_frame: HashSet<EntityId>,
    /// Triggers overlapped in the previous frame.
    pub last_frame: HashSet<EntityId>,
}

/// Targets of the enter events: overlapped now, not in the previous frame.
pub open spec fn entered_set(t: TriggerTracker) -> Set<EntityId> {
    t.current_frame@.difference(t.last_frame@)
}

/// Targets of the exit events: overlapped in the previous frame, not now.
pub open spec fn exited_set(t: TriggerTracker) -> Set<EntityId> {
    t.last_frame@.difference(t.current_frame@)
}

/// Targets of the stay events: overlapped in both frames.
pub open spec fn stayed_set(t: TriggerTracker) -> Set<EntityId> {
    t.current_frame@.intersect(t.last_frame@)
}

/// The elements of `a` that are (`keep_common`) or are not in `b`, each once.
fn hash_set_filter(a: &HashSet<EntityId>, b: &HashSet<EntityId>, keep_common: bool) -> (res: Vec<
    EntityId,
>)
    ensures
        res@.no_duplicates(),
        res@.to_set() == (if keep_common {
            a@.intersect(b@)
        } else {
            a@.difference(b@)
        }),
{
    let mut res: Vec<EntityId> = Vec::new();
    let ghost keys = a.iter().remaining();
    let ghost mut n: int = 0;
    proof {
        assert(keys.unref().to_set() == a@);
    }
    for k in it: a.iter()
        invariant
            keys == it.seq(),
            keys.no_duplicates(),
            keys.unref().to_set() == a@,
            n == it.index(),
            res@.no_duplicates(),
            forall|x: EntityId|
                #![trigger res@.contains(x)]
                res@.contains(x) <==> (exists|j: int|
                    0 <= j < n && *keys[j] == x) && (b@.contains(x) == keep_common),
    {
        assert(k == keys[n]);
        let ghost old_res = res@;
        if b.contains(k) == keep_common {
            proof {
                if old_res.contains(*k) {
                    let j = choose|j: int| 0 <= j < n && *keys[j] == *k;
                    assert(keys[j] == keys[n]);
                }
            }
            res.push(*k);
        }
        proof {
            assert forall|x: EntityId|
                #![trigger res@.contains(x)]
                res@.contains(x) <==> (exists|j: int| 0 <= j < n + 1 && *keys[j] == x) && (
                b@.contains(x) == keep_common) by {
                if res@.contains(x) && x != *k {
                    assert(old_res.contains(x));
                }
                if res@.contains(x) && x == *k {
                    assert(0 <= n < n + 1 && *keys[n] == x);
                }
                if (exists|j: int| 0 <= j < n + 1 && *keys[j] == x) && (b@.contains(x)
                    == keep_common) {
                    let j = choose|j: int| 0 <= j < n + 1 && *keys[j] == x;
                    if j < n {
                        assert(old_res.contains(x));
                        let i = choose|i: int| 0 <= i < old_res.len() && old_res[i] == x;
                        assert(res@[i] == x);
                        assert(res@.contains(x));
                    } else {
                        assert(res@.last() == x);
                        assert(res@.contains(x));
                    }
                }
            }
            n = n + 1;
        }
    }
    proof {
        let target = if keep_common { a@.intersect(b@) } else { a@.difference(b@) };
        assert(n == keys.len());
        assert forall|x: EntityId| res@.to_set().contains(x) <==> target.contains(x) by {
            if target.contains(x) {
                assert(keys.unref().to_set().contains(x));
                let j = choose|j: int| 0 <= j < keys.unref().len() && keys.unref()[j] == x;
                assert(*keys[j] == x);
                assert(res@.contains(x));
            }
            if res@.to_set().contains(x) {
                assert(res@.contains(x));
                let j = choose|j: int| 0 <= j < n && *keys[j] == x;
                assert(keys.unref()[j] == x);
                assert(keys.unref().to_set().contains(x));
            }
        }
        assert(res@.to_set() =~= target);
    }
    res
}

impl Default for TriggerTracker {
    /// A tracker that has seen no trigger yet.
    fn default() -> (t: TriggerTracker)
        ensures
            t.current_frame@ == Set::<EntityId>::empty(),
            t.last_frame@ == Set::<EntityId>::empty(),
    {
        TriggerTracker { current_frame: HashSet::new(), last_frame: HashSet::new() }
    }
}

impl TriggerTracker {
    /// Starts a new frame: the triggers of the frame just computed become the
    /// previous frame, and the current frame starts empty.
    pub fn begin_frame(&mut self)
        ensures
            final(self).last_frame@ == old(self).current_frame@,
            final(self).current_frame@ == Set::<EntityId>::empty(),
    {
        std::mem::swap(&mut self.current_frame, &mut self.last_frame);
        self.current_frame.clear();
    }

    /// Records that the entity overlaps trigger `target` in this frame.
    pub fn record_overlap(&mut self, target: EntityId)
        ensures
            final(self).current_frame@ == old(self).current_frame@.insert(target),
            final(self).last_frame@ == old(self).last_frame@,
    {
        self.current_frame.insert(target);
    }

    /// Triggers entered this frame (each once, in no particular order).
    pub fn entered(&self) -> (res: Vec<EntityId>)
        ensures
            res@.no_duplicates(),
            res@.to_set() == entered_set(*self),
    {
        hash_set_filter(&self.current_frame, &self.last_frame, false)
    }

    /// Triggers left this frame (each once, in no particular order).
    pub fn exited(&self) -> (res: Vec<EntityId>)
        ensures
            res@.no_duplicates(),
            res@.to_set() == exited_set(*self),
    {
        hash_set_filter(&self.last_frame, &self.current_frame, false)
    }

    /// Triggers still overlapped this frame (each once, in no particular
    /// order).
    pub fn stayed(&self) -> (res: Vec<EntityId>)
        ensures
            res@.no_duplicates(),
            res@.to_set() == stayed_set(*self),
    {
        hash_set_filter(&self.current_frame, &self.last_frame, true)
    }
}

/// Every trigger of the current or previous frame raises exactly one of the
/// enter, exit and stay events: enter and stay together are the current
/// frame, exit and stay together are the previous frame, and no two of the
/// three event sets share a target.
pub proof fn lemma_trigger_events_partition(t: TriggerTracker)
    ensures
        entered_set(t).union(stayed_set(t)) == t.current_frame@,
        exited_set(t).union(stayed_set(t)) == t.last_frame@,
        entered_set(t).disjoint(stayed_set(t)),
        exited_set(t).disjoint(stayed_set(t)),
        entered_set(t).disjoint(exited_set(t)),
{
    assert(entered_set(t).union(stayed_set(t)) =~= t.current_frame@);
    assert(exited_set(t).union(stayed_set(t)) =~= t.last_frame@);
}

/// Over two frames: if `prev` is the tracker after the earlier frame was
/// computed, and `now` is obtained from it by `begin_frame` followed by
/// recording exactly the triggers `overlaps` of the new frame, then the
/// events of the new frame compare `overlaps` with the earlier frame's
/// triggers.
pub proof fn lemma_trigger_events_across_frames(
    prev: TriggerTracker,
    started: TriggerTracker,
    now: TriggerTracker,
    overlaps: Set<EntityId>,
)
    requires
        started.last_frame@ == prev.current_frame@,
        started.current_frame@ == Set::<EntityId>::empty(),
        now.last_frame@ == started.last_frame@,
        now.current_frame@ == started.current_frame@.union(overlaps),
    ensures
        entered_set(now) == overlaps.difference(prev.current_frame@),
        exited_set(now) == prev.current_frame@.difference(overlaps),
        stayed_set(now) == overlaps.intersect(prev.current_frame@),
{
    assert(now.current_frame@ =~= overlaps);
}

} // verus!
