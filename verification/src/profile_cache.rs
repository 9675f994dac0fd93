//! A bounded cache of compiled deals that drops the oldest first.
use vstd::prelude::*;

use crate::batch_metrics::MultiwayCompiledProfileCacheMetrics;
use crate::cards::Combo;
use crate::holdem::MultiwayCompiledHoldemGame;

verus! {

#[derive(Debug, Clone)]
pub struct CachedProfile {
    pub hands: Vec<Combo>,
    pub compiled: MultiwayCompiledHoldemGame,
}

pub open spec fn cached_hands(profiles: Seq<CachedProfile>) -> Seq<Seq<Combo>> {
    profiles.map(|i: int, profile: CachedProfile| profile.hands@)
}

/// Compiled games by their hands, oldest first.
#[derive(Debug, Clone)]
pub struct MultiwayCompiledProfileCache {
    pub capacity: usize,
    pub profiles: Vec<CachedProfile>,
    pub metrics: MultiwayCompiledProfileCacheMetrics,
}

fn same_hands(left: &Vec<Combo>, right: &Vec<Combo>) -> (yes: bool)
    ensures
        yes == (left@ == right@),
{
    if left.len() != right.len() {
        return false;
    }
    let mut index: usize = 0;
    while index < left.len()
        invariant
            index <= left@.len(),
            left@.len() == right@.len(),
            forall|i: int| 0 <= i < index ==> left@[i] == right@[i],
        decreases left.len() - index,
    {
        if left[index] != right[index] {
            assert(left@[index as int] != right@[index as int]);
            return false;
        }
        index = index + 1;
    }
    assert(left@ =~= right@);
    true
}

/// Hands were looked up: a hit or a miss.
pub open spec fn looked_up(
    before: MultiwayCompiledProfileCache,
    after: MultiwayCompiledProfileCache,
    hands: Seq<Combo>,
    found: Option<usize>,
) -> bool {
    &&& after.capacity == before.capacity
    &&& after.profiles == before.profiles
    &&& match found {
        Some(index) => {
            &&& index < before.profiles@.len()
            &&& before.profiles@[index as int].hands@ == hands
            &&& after.metrics == (MultiwayCompiledProfileCacheMetrics {
                hits: (before.metrics.hits + 1) as u64,
                ..before.metrics
            })
        },
        None => {
            &&& !cached_hands(before.profiles@).contains(hands)
            &&& after.metrics == (MultiwayCompiledProfileCacheMetrics {
                misses: (before.metrics.misses + 1) as u64,
                ..before.metrics
            })
        },
    }
}

/// A game was stored.
pub open spec fn stored(
    before: MultiwayCompiledProfileCache,
    after: MultiwayCompiledProfileCache,
    hands: Vec<Combo>,
    compiled: MultiwayCompiledHoldemGame,
) -> bool {
    &&& after.capacity == before.capacity
    &&& ({
        let full = before.profiles@.len() >= before.capacity;
        let kept = if full {
            before.profiles@.skip(1)
        } else {
            before.profiles@
        };
        &&& after.profiles@ == kept.push(CachedProfile { hands, compiled })
        &&& after.metrics == (MultiwayCompiledProfileCacheMetrics {
            evictions: (before.metrics.evictions + if full {
                1int
            } else {
                0
            }) as u64,
            ..before.metrics
        })
    })
}

impl MultiwayCompiledProfileCache {
    /// Within its capacity, and no hands twice.
    pub open spec fn wf(self) -> bool {
        &&& self.capacity > 0
        &&& self.profiles@.len() <= self.capacity
        &&& cached_hands(self.profiles@).no_duplicates()
    }

    /// An empty cache, unless its capacity is zero.
    pub fn new(capacity: usize) -> (cache: Option<Self>)
        ensures
            cache is Some <==> capacity > 0,
            cache matches Some(made) ==> {
                &&& made.wf()
                &&& made.capacity == capacity
                &&& made.profiles@.len() == 0
                &&& made.metrics == (MultiwayCompiledProfileCacheMetrics {
                    hits: 0,
                    misses: 0,
                    evictions: 0,
                    entries: 0,
                })
            },
    {
        if capacity == 0 {
            return None;
        }
        Some(
            MultiwayCompiledProfileCache {
                capacity,
                profiles: Vec::new(),
                metrics: MultiwayCompiledProfileCacheMetrics::default(),
            },
        )
    }

    /// Looks hands up, and counts a hit or a miss.
    pub fn look_up(&mut self, hands: &Vec<Combo>) -> (found: Option<usize>)
        requires
            old(self).wf(),
            old(self).metrics.hits < u64::MAX,
            old(self).metrics.misses < u64::MAX,
        ensures
            final(self).wf(),
            looked_up(*old(self), *final(self), hands@, found),
    {
        let mut index: usize = 0;
        while index < self.profiles.len()
            invariant
                index <= self.profiles@.len(),
                *self == *old(self),
                self.wf(),
                self.metrics.hits < u64::MAX,
                self.metrics.misses < u64::MAX,
                forall|i: int|
                    0 <= i < index ==> (#[trigger] self.profiles@[i]).hands@ != hands@,
            decreases self.profiles.len() - index,
        {
            if same_hands(&self.profiles[index].hands, hands) {
                self.metrics.hits = self.metrics.hits + 1;
                return Some(index);
            }
            index = index + 1;
        }
        proof {
            let known = cached_hands(self.profiles@);
            assert forall|i: int| 0 <= i < known.len() implies known[i] != hands@ by {
                assert(known[i] == self.profiles@[i].hands@);
            }
        }
        self.metrics.misses = self.metrics.misses + 1;
        None
    }

    /// Stores a game that was looked up in vain; a full cache drops its oldest.
    pub fn store(&mut self, hands: Vec<Combo>, compiled: MultiwayCompiledHoldemGame)
        requires
            old(self).wf(),
            !cached_hands(old(self).profiles@).contains(hands@),
            old(self).metrics.evictions < u64::MAX,
        ensures
            final(self).wf(),
            stored(*old(self), *final(self), hands, compiled),
    {
        let ghost before = self.profiles@;
        let ghost full = before.len() >= self.capacity;
        let ghost kept = if full {
            before.skip(1)
        } else {
            before
        };
        if self.profiles.len() >= self.capacity {
            let _oldest = self.profiles.remove(0);
            self.metrics.evictions = self.metrics.evictions + 1;
            assert(self.profiles@ =~= before.skip(1));
        }
        let ghost new_hands = hands@;
        self.profiles.push(CachedProfile { hands, compiled });
        proof {
            let known = cached_hands(before);
            let now = cached_hands(self.profiles@);
            let shift = if full { 1int } else { 0 };
            assert forall|i: int, j: int| 0 <= i < j < now.len() implies now[i] != now[j] by {
                assert(now[i] == known[i + shift]);
                if j < now.len() - 1 {
                    assert(now[j] == known[j + shift]);
                } else {
                    assert(now[j] == new_hands);
                    assert(known.contains(known[i + shift]));
                }
            }
        }
    }

    pub fn metrics(&self) -> (metrics: MultiwayCompiledProfileCacheMetrics)
        ensures
            metrics == (MultiwayCompiledProfileCacheMetrics {
                entries: self.profiles@.len() as usize,
                ..self.metrics
            }),
    {
        let mut metrics = self.metrics;
        metrics.entries = self.profiles.len();
        metrics
    }
}

} // verus!
