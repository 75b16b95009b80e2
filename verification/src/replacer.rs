//! Clock replacement: which frame of a shard leaves the cache next.

use vstd::prelude::*;

use crate::error::BufferPoolError;

verus! {

/// The clock. A frame that can be evicted gets a second chance if it has been
/// used since the hand last passed it.
pub struct ClockReplacer {
    pub evictable: Vec<bool>,
    pub referenced: Vec<bool>,
    pub hand: usize,
}

/// How far the hand has to move to reach a frame.
pub open spec fn distance(hand: int, f: int, n: int) -> int {
    if f >= hand {
        f - hand
    } else {
        f + n - hand
    }
}

/// The frame at a distance from the hand.
pub open spec fn frame_at(hand: int, d: int, n: int) -> int {
    if hand + d < n {
        hand + d
    } else {
        hand + d - n
    }
}

impl ClockReplacer {
    pub open spec fn wf(&self) -> bool {
        &&& self.evictable@.len() == self.referenced@.len()
        &&& self.hand <= self.evictable@.len()
        &&& self.evictable@.len() > 0 ==> self.hand < self.evictable@.len()
    }

    pub open spec fn size(&self) -> nat {
        self.evictable@.len()
    }

    /// Whether a frame can be evicted.
    pub open spec fn can_evict(&self, f: int) -> bool {
        0 <= f < self.size() && self.evictable@[f]
    }

    /// How far the hand has to move to reach a frame.
    pub open spec fn dist(&self, f: int) -> int {
        distance(self.hand as int, f, self.size() as int)
    }

    /// Whether a frame is the next to go: the nearest before the hand among
    /// those that can be evicted and have not been used, or, if all have been
    /// used, the nearest that can be evicted.
    pub open spec fn is_victim(&self, f: int) -> bool {
        &&& self.can_evict(f)
        &&& if self.referenced@[f] {
            forall|g: int| #[trigger]
                self.can_evict(g) ==> self.referenced@[g] && self.dist(f) <= self.dist(g)
        } else {
            forall|g: int| #[trigger]
                self.can_evict(g) && !self.referenced@[g] ==> self.dist(f) <= self.dist(g)
        }
    }

    /// Whether `after` is the clock once the hand has stopped at frame `f`, which
    /// stays and counts as just used.
    pub open spec fn spared(&self, f: int, after: ClockReplacer) -> bool {
        &&& after.wf()
        &&& after.evictable@ == self.evictable@
        &&& after.hand == frame_at(f, 1, self.size() as int)
        &&& forall|g: int|
            #![trigger after.referenced@[g]]
            0 <= g < self.size() ==> after.referenced@[g] == (g == f || (self.referenced@[g] && !(
            self.can_evict(g) && (self.referenced@[f] || self.dist(g) < self.dist(f)))))
    }

    /// A clock for `size` frames, none of which can be evicted.
    pub fn new(size: usize) -> (r: ClockReplacer)
        ensures
            r.wf(),
            r.size() == size,
            forall|f: int| !(#[trigger] r.can_evict(f)),
            r.hand == 0,
    {
        let mut evictable: Vec<bool> = Vec::new();
        let mut referenced: Vec<bool> = Vec::new();
        let mut i: usize = 0;
        while i < size
            invariant
                i <= size,
                evictable@.len() == i,
                referenced@.len() == i,
                forall|f: int| 0 <= f < i ==> !(#[trigger] evictable@[f]),
            decreases size - i,
        {
            evictable.push(false);
            referenced.push(false);
            i = i + 1;
        }
        ClockReplacer { evictable, referenced, hand: 0 }
    }

    /// The frame is in use: it cannot be evicted.
    pub fn pin(&mut self, frame_id: usize)
        requires
            old(self).wf(),
            frame_id < old(self).size(),
        ensures
            final(self).wf(),
            final(self).evictable@ == old(self).evictable@.update(frame_id as int, false),
            final(self).referenced@ == old(self).referenced@,
            final(self).hand == old(self).hand,
    {
        self.evictable.set(frame_id, false);
    }

    /// The frame is no longer in use: it can be evicted, and has just been used.
    pub fn unpin(&mut self, frame_id: usize)
        requires
            old(self).wf(),
            frame_id < old(self).size(),
        ensures
            final(self).wf(),
            final(self).evictable@ == old(self).evictable@.update(frame_id as int, true),
            final(self).referenced@ == old(self).referenced@.update(frame_id as int, true),
            final(self).hand == old(self).hand,
    {
        self.evictable.set(frame_id, true);
        self.referenced.set(frame_id, true);
    }

    /// Takes the next frame to go out of the clock. The hand clears the marks of
    /// the frames that it passes and stops behind the victim.
    pub fn victim(&mut self) -> (r: Result<usize, BufferPoolError>)
        requires
            old(self).wf(),
        ensures
            final(self).wf(),
            r is Ok <==> exists|f: int| old(self).can_evict(f),
            r matches Err(e) ==> {
                &&& e == BufferPoolError::NoEvictableFrames
                &&& final(self).evictable@ == old(self).evictable@
                &&& final(self).referenced@ == old(self).referenced@
                &&& final(self).hand == old(self).hand
            },
            r matches Ok(f) ==> {
                &&& old(self).is_victim(f as int)
                &&& final(self).evictable@ == old(self).evictable@.update(f as int, false)
                &&& final(self).hand == frame_at(f as int, 1, old(self).size() as int)
                &&& forall|g: int|
                    #![trigger final(self).referenced@[g]]
                    0 <= g < old(self).size() ==> final(self).referenced@[g] == (
                    old(self).referenced@[g] && !(old(self).can_evict(g) && (
                    old(self).referenced@[f as int] || old(self).dist(g) < old(self).dist(
                        f as int,
                    ))))
            },
    {
        let n: usize = self.evictable.len();
        let ghost s0 = *self;
        let ghost h = self.hand as int;
        // First round: the nearest frame without a mark.
        let mut d: usize = 0;
        while d < n
            invariant
                d <= n,
                n == self.size(),
                self.wf(),
                s0.wf(),
                s0 == *old(self),
                h == s0.hand,
                self.evictable@ == s0.evictable@,
                self.hand as int == (if d == n {
                    h
                } else {
                    frame_at(h, d as int, n as int)
                }),
                forall|g: int|
                    #![trigger self.referenced@[g]]
                    #![trigger s0.can_evict(g)]
                    0 <= g < n ==> self.referenced@[g] == (s0.referenced@[g] && !(s0.can_evict(g)
                        && s0.dist(g) < d)),
                forall|g: int| #[trigger]
                    s0.can_evict(g) && s0.dist(g) < d ==> s0.referenced@[g],
            decreases n - d,
        {
            let f: usize = self.hand;
            assert(s0.dist(f as int) == d);
            assert(s0.can_evict(f as int) == self.evictable@[f as int]);
            assert(self.referenced@[f as int] == s0.referenced@[f as int]);
            let next: usize = if f + 1 == n {
                0
            } else {
                f + 1
            };
            if self.evictable[f] {
                if !self.referenced[f] {
                    self.evictable.set(f, false);
                    self.hand = next;
                    assert(s0.is_victim(f as int));
                    return Ok(f);
                }
                self.referenced.set(f, false);
            }
            self.hand = next;
            d = d + 1;
            assert forall|g: int| #[trigger] s0.can_evict(g) && s0.dist(g) < d implies s0.referenced@[g] by {
                if s0.dist(g) == d - 1 {
                    assert(g == f);
                }
            }
            assert forall|g: int|
                #![trigger self.referenced@[g]]
                #![trigger s0.can_evict(g)]
                0 <= g < n implies self.referenced@[g] == (s0.referenced@[g] && !(s0.can_evict(g)
                && s0.dist(g) < d)) by {
                if g == f {
                } else {
                    assert(s0.dist(g) != d - 1);
                }
            }
        }
        // Second round: every mark is cleared.
        let mut d: usize = 0;
        while d < n
            invariant
                d <= n,
                n == self.size(),
                self.wf(),
                s0.wf(),
                s0 == *old(self),
                h == s0.hand,
                self.evictable@ == s0.evictable@,
                self.hand as int == (if d == n {
                    h
                } else {
                    frame_at(h, d as int, n as int)
                }),
                forall|g: int|
                    #![trigger self.referenced@[g]]
                    0 <= g < n ==> self.referenced@[g] == (s0.referenced@[g] && !s0.can_evict(g)),
                forall|g: int| #[trigger] s0.can_evict(g) ==> s0.referenced@[g],
                forall|g: int| #[trigger] s0.can_evict(g) ==> s0.dist(g) >= d,
            decreases n - d,
        {
            let f: usize = self.hand;
            assert(s0.dist(f as int) == d);
            assert(s0.can_evict(f as int) == self.evictable@[f as int]);
            let next: usize = if f + 1 == n {
                0
            } else {
                f + 1
            };
            if self.evictable[f] {
                self.evictable.set(f, false);
                self.hand = next;
                assert(s0.is_victim(f as int));
                return Ok(f);
            }
            self.hand = next;
            d = d + 1;
            assert forall|g: int| #[trigger] s0.can_evict(g) implies s0.dist(g) >= d by {
                if s0.dist(g) == d - 1 {
                    assert(g == f);
                }
            }
        }
        assert(forall|g: int| !(#[trigger] s0.can_evict(g)));
        assert(self.referenced@ =~= s0.referenced@);
        Err(BufferPoolError::NoEvictableFrames)
    }
}

/// How far the hand has to move to reach a frame: as many frames as lie between, going up
/// and round.
proof fn lemma_distance(hand: int, f: int, n: int)
    requires
        0 <= hand < n,
        0 <= f < n,
    ensures
        distance(hand, f, n) == (f - hand) % n,
{
    if f >= hand {
        vstd::arithmetic::div_mod::lemma_small_mod((f - hand) as nat, n as nat);
    } else {
        vstd::arithmetic::div_mod::lemma_small_mod((f - hand + n) as nat, n as nat);
        vstd::arithmetic::div_mod::lemma_mod_add_multiples_vanish(f - hand, n);
        assert((n + (f - hand)) % n == (f - hand) % n);
    }
}

/// Which frame goes next: one that can be evicted, and one without a mark if there is any
/// such frame. None of the same kind comes before it for a hand that goes up and round. So
/// there is only one.
pub proof fn law_the_hand_goes_up_and_round(c: ClockReplacer, f: int, g: int)
    requires
        c.wf(),
        c.is_victim(f),
        0 <= g < c.evictable@.len(),
        c.evictable@[g],
    ensures
        c.evictable@[f],
        !c.referenced@[g] ==> !c.referenced@[f],
        c.referenced@[f] == c.referenced@[g] ==> (f - c.hand) % (c.evictable@.len() as int) <= (g
            - c.hand) % (c.evictable@.len() as int),
        c.is_victim(g) ==> g == f,
{
    let n = c.evictable@.len() as int;
    assert(c.can_evict(f) && c.can_evict(g));
    lemma_distance(c.hand as int, f, n);
    lemma_distance(c.hand as int, g, n);
}

/// Behind a frame comes the next one, and the first one behind the last. The hand takes the
/// marks of the frames that it passes on its way, and of all of them where it has to go
/// round; frames that are in use keep theirs.
pub proof fn law_frames_form_a_ring(c: ClockReplacer, f: int, after: ClockReplacer, g: int)
    requires
        c.wf(),
        0 <= f < c.evictable@.len(),
        c.spared(f, after),
        0 <= g < c.evictable@.len(),
    ensures
        after.hand == (if f + 1 == c.evictable@.len() {
            0
        } else {
            f + 1
        }),
        after.evictable@ == c.evictable@,
        after.referenced@[f],
        g != f && after.referenced@[g] ==> c.referenced@[g],
        g != f && c.referenced@[g] && !c.evictable@[g] ==> after.referenced@[g],
        g != f && c.referenced@[g] && c.evictable@[g] ==> (after.referenced@[g] <==>
            !c.referenced@[f] && (f - c.hand) % (c.evictable@.len() as int) < (g - c.hand) % (
        c.evictable@.len() as int)),
{
    lemma_distance(c.hand as int, f, c.evictable@.len() as int);
    lemma_distance(c.hand as int, g, c.evictable@.len() as int);
}

} // verus!
