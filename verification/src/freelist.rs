//! Deferred freeing of render resources: an item marked to be freed is
//! released only once no renderpass that still runs uses it.
use std::collections::HashMap;
use vstd::std_specs::iter::IteratorSpec;
use vstd::prelude::*;

verus! {

broadcast use vstd::std_specs::hash::group_hash_axioms;

/// Identifies a renderpass (the swapchain image it draws to).
pub type RenderpassID = usize;

/// Tracks which renderpasses use which items, and which items wait to be
/// freed.
pub struct Freelist<T> {
    to_free: Vec<T>,
    by_renderpass: HashMap<RenderpassID, Vec<T>>,
}

/// Some renderpass in `uses` uses `item`.
pub open spec fn in_use<T>(uses: Map<RenderpassID, Seq<T>>, item: T) -> bool {
    exists|rp: RenderpassID| #[trigger] uses.contains_key(rp) && uses[rp].contains(item)
}

/// The items of a map of vectors, as sequences.
pub open spec fn seq_map<T>(m: Map<RenderpassID, Vec<T>>) -> Map<RenderpassID, Seq<T>> {
    m.map_values(|v: Vec<T>| v@)
}

fn vec_contains<T: PartialEq>(v: &Vec<T>, item: &T) -> (r: bool)
    requires
        vstd::laws_eq::obeys_concrete_eq::<T>(),
    ensures
        r == v@.contains(*item),
{
    let mut i: usize = 0;
    while i < v.len()
        invariant
            i <= v@.len(),
            vstd::laws_eq::obeys_concrete_eq::<T>(),
            forall|j: int| 0 <= j < i ==> v@[j] != *item,
        decreases v@.len() - i,
    {
        proof {
            reveal(vstd::laws_eq::obeys_concrete_eq);
        }
        if v[i] == *item {
            return true;
        }
        i = i + 1;
    }
    false
}

impl<T: Copy + PartialEq> Freelist<T> {
    /// The items waiting to be freed.
    pub closed spec fn pending(&self) -> Seq<T> {
        self.to_free@
    }

    /// For each renderpass, the items it uses.
    pub closed spec fn uses(&self) -> Map<RenderpassID, Seq<T>> {
        seq_map(self.by_renderpass@)
    }

    pub fn new() -> (f: Self)
        ensures
            f.pending() == Seq::<T>::empty(),
            f.uses() == Map::<RenderpassID, Seq<T>>::empty(),
    {
        let f = Freelist { to_free: Vec::new(), by_renderpass: HashMap::new() };
        assert(f.uses() =~= Map::<RenderpassID, Seq<T>>::empty());
        f
    }

    /// Whether some renderpass still uses `item`.
    pub fn is_used(&self, item: &T) -> (r: bool)
        requires
            vstd::laws_eq::obeys_concrete_eq::<T>(),
        ensures
            r == in_use(self.uses(), *item),
    {
        let mut used = false;
        let ghost vals = vstd::std_specs::hash::spec_values_iter(&self.by_renderpass).remaining();
        for v in it: self.by_renderpass.values()
            invariant
                vstd::laws_eq::obeys_concrete_eq::<T>(),
                it.seq() == vals,
                used == exists|j: int| 0 <= j < it.index() && (#[trigger] it.seq()[j])@.contains(*item),
        {
            if vec_contains(v, item) {
                used = true;
            }
        }
        proof {
            let m = self.by_renderpass@;
            let u = self.uses();
            assert(vals.unref().to_set() == m.values());
            if used {
                let j = choose|j: int| 0 <= j < vals.len() && (#[trigger] vals[j])@.contains(*item);
                assert(vals.unref()[j] == *vals[j]);
                assert(vals.unref().to_set().contains(*vals[j]));
                assert(m.values().contains(*vals[j]));
                let rp = choose|rp: RenderpassID| #[trigger] m.contains_key(rp) && m[rp] == *vals[j];
                assert(u.contains_key(rp) && u[rp].contains(*item));
            } else {
                assert forall|rp: RenderpassID| #[trigger] u.contains_key(rp) implies !u[rp].contains(
                    *item,
                ) by {
                    assert(m.values().contains(m[rp]));
                    assert(vals.unref().to_set().contains(m[rp]));
                    let j = choose|j: int| 0 <= j < vals.unref().len() && vals.unref()[j] == m[rp];
                    assert(*vals[j] == m[rp]);
                }
            }
        }
        used
    }
}

impl<T: Copy + PartialEq> Freelist<T> {
    /// Marks the item as used by `renderpass`.
    pub fn push(&mut self, item: T, renderpass: RenderpassID)
        ensures
            final(self).pending() == old(self).pending(),
            final(self).uses() == old(self).uses().insert(
                renderpass,
                if old(self).uses().contains_key(renderpass) {
                    old(self).uses()[renderpass].push(item)
                } else {
                    seq![item]
                },
            ),
    {
        let ghost old_m = self.by_renderpass@;
        if self.by_renderpass.contains_key(&renderpass) {
            let removed = self.by_renderpass.remove(&renderpass);
            match removed {
                Some(mut v) => {
                    v.push(item);
                    self.by_renderpass.insert(renderpass, v);
                },
                None => {},
            }
        } else {
            let mut v: Vec<T> = Vec::new();
            v.push(item);
            self.by_renderpass.insert(renderpass, v);
        }
        proof {
            assert(self.uses() =~= seq_map(old_m).insert(
                renderpass,
                if seq_map(old_m).contains_key(renderpass) {
                    seq_map(old_m)[renderpass].push(item)
                } else {
                    seq![item]
                },
            ));
        }
    }

    /// Marks an item as to be freed; an item already waiting stays once.
    pub fn try_free(&mut self, item: T)
        requires
            vstd::laws_eq::obeys_concrete_eq::<T>(),
        ensures
            final(self).uses() == old(self).uses(),
            final(self).pending() == (if old(self).pending().contains(item) {
                old(self).pending()
            } else {
                old(self).pending().push(item)
            }),
    {
        if !vec_contains(&self.to_free, &item) {
            self.to_free.push(item);
        }
    }

    /// Marks `renderpass` as done and returns the items waiting to be freed
    /// that no remaining renderpass uses; those stop waiting, the others
    /// keep waiting, both in the order they were marked.
    pub fn finish_renderpass(&mut self, renderpass: RenderpassID) -> (freed: Vec<T>)
        requires
            vstd::laws_eq::obeys_concrete_eq::<T>(),
        ensures
            final(self).uses() == old(self).uses().remove(renderpass),
            freed@ == old(self).pending().filter(|x: T| !in_use(final(self).uses(), x)),
            final(self).pending() == old(self).pending().filter(|x: T| in_use(final(self).uses(), x)),
    {
        let ghost old_m = self.by_renderpass@;
        self.by_renderpass.remove(&renderpass);
        proof {
            assert(self.uses() =~= seq_map(old_m).remove(renderpass));
        }
        let ghost uses2 = self.uses();
        let ghost pending = self.to_free@;
        let ghost used_pred = |x: T| in_use(uses2, x);
        let ghost free_pred = |x: T| !in_use(uses2, x);
        let mut kept: Vec<T> = Vec::new();
        let mut freed: Vec<T> = Vec::new();
        let mut i: usize = 0;
        while i < self.to_free.len()
            invariant
                vstd::laws_eq::obeys_concrete_eq::<T>(),
                uses2 == self.uses(),
                pending == self.to_free@,
                used_pred == (|x: T| in_use(uses2, x)),
                free_pred == (|x: T| !in_use(uses2, x)),
                i <= pending.len(),
                kept@ == pending.take(i as int).filter(used_pred),
                freed@ == pending.take(i as int).filter(free_pred),
            decreases pending.len() - i,
        {
            let item = self.to_free[i];
            let used = self.is_used(&item);
            proof {
                reveal_with_fuel(Seq::filter, 1);
                assert(pending.take(i as int + 1).drop_last() =~= pending.take(i as int));
                assert(pending.take(i as int + 1).last() == item);
                assert(used_pred(item) == used);
                assert(free_pred(item) == !used);
                assert(pending.take(i as int + 1).filter(used_pred) == (if used {
                    pending.take(i as int).filter(used_pred).push(item)
                } else {
                    pending.take(i as int).filter(used_pred)
                }));
                assert(pending.take(i as int + 1).filter(free_pred) == (if !used {
                    pending.take(i as int).filter(free_pred).push(item)
                } else {
                    pending.take(i as int).filter(free_pred)
                }));
            }
            if used {
                kept.push(item);
            } else {
                freed.push(item);
            }
            i = i + 1;
        }
        proof {
            assert(pending.take(i as int) =~= pending);
        }
        self.to_free = kept;
        freed
    }
}

} // verus!
