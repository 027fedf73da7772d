use vstd::prelude::*;
use core::cmp::Ordering;
use crate::{Expiration, ExpiredKey, EMPTY_REF};
use crate::key::tree::KeyExpTree;
use crate::order::{is_less, three_way};
use crate::rb::node::Entity;
use crate::rb::pool::MAX_SLOTS;
use crate::rb::shape::NIL_INDEX;

verus! {

impl<K: ExpiredKey<E>, E: Expiration, V: Copy> KeyExpTree<K, E, V> {
    /// The subtree of the live node `n` is what is left to search for `key`.
    pub open spec fn at_node(&self, n: u32, lo: int, hi: int) -> bool {
        if n == EMPTY_REF {
            lo == hi
        } else {
            self.tree.live(n) && self.tree.mt(n).lo == lo && self.tree.mt(n).hi == hi
        }
    }

    /// What is known of the live node `n`.
    pub proof fn lemma_node(&self, n: u32)
        requires
            self.inv(),
            self.tree.live(n),
        ensures
            n != NIL_INDEX,
            0 <= self.tree.mt(n).lo <= self.tree.mt(n).pos < self.tree.mt(n).hi <= self.tree.count(),
            self.tree.nd(n).entity is Some,
            self.seq()[self.tree.mt(n).pos] == (self.tree.nd(n).key(), self.tree.nd(n).val()),
            self.tree.key_at(self.tree.mt(n).pos) == self.tree.nd(n).key(),
            self.at_node(self.tree.nd(n).left, self.tree.mt(n).lo, self.tree.mt(n).pos),
            self.at_node(self.tree.nd(n).right, self.tree.mt(n).pos + 1, self.tree.mt(n).hi),
            self.seq().len() == self.tree.count(),
    {
        assert(self.tree.slot_ok(n));
        assert(self.tree.slot_ok(NIL_INDEX));
    }

    /// The fence holds on after the search went to the left of `n`, whatever
    /// was deleted there.
    pub proof fn lemma_went_left(&self, before: &Self, key: K, n: u32, ties_left: bool, ties_right: bool)
        requires
            before.inv(),
            self.inv(),
            before.tree.live(n),
            before.tree.fenced(key, before.tree.mt(n).lo, before.tree.mt(n).hi, ties_left, ties_right),
            crate::order::key_lt(key, before.tree.nd(n).key()) || (ties_right && crate::order::key_le(
                key,
                before.tree.nd(n).key(),
            )),
            self.tree.live(n),
            self.tree.nd(n).entity == before.tree.nd(n).entity,
            self.tree.mt(n).lo == before.tree.mt(n).lo,
            crate::key::tree::same_head(self.seq(), before.seq(), before.tree.mt(n).lo),
        ensures
            self.tree.fenced(key, self.tree.mt(n).lo, self.tree.mt(n).pos, ties_left, ties_right),
            self.at_node(self.tree.nd(n).left, self.tree.mt(n).lo, self.tree.mt(n).pos),
    {
        self.lemma_node(n);
        before.lemma_node(n);
        let p = self.tree.mt(n).pos;
        let nk = self.tree.nd(n).key();
        assert forall|t: int| 0 <= t < self.tree.mt(n).lo implies if ties_left {
            crate::order::key_le(#[trigger] self.tree.key_at(t), key)
        } else {
            crate::order::key_lt(self.tree.key_at(t), key)
        } by {
            assert(self.seq()[t] == before.seq()[t]);
            assert(self.tree.key_at(t) == before.tree.key_at(t));
        }
        assert forall|t: int| p <= t < self.tree.count() implies if ties_right {
            crate::order::key_le(key, #[trigger] self.tree.key_at(t))
        } else {
            crate::order::key_lt(key, self.tree.key_at(t))
        } by {
            if t > p {
                assert(crate::order::key_le(self.tree.key_at(p), self.tree.key_at(t)));
            }
            crate::order::lemma_order(key, nk, self.tree.key_at(t));
        }
    }

    /// The fence holds on after the search went to the right of `n`,
    /// whatever was deleted there.
    pub proof fn lemma_went_right(&self, before: &Self, key: K, n: u32, ties_left: bool, ties_right: bool)
        requires
            before.inv(),
            self.inv(),
            before.tree.live(n),
            before.tree.fenced(key, before.tree.mt(n).lo, before.tree.mt(n).hi, ties_left, ties_right),
            crate::order::key_lt(before.tree.nd(n).key(), key) || (ties_left && crate::order::key_le(
                before.tree.nd(n).key(),
                key,
            )),
            self.tree.live(n),
            self.tree.nd(n).entity == before.tree.nd(n).entity,
            self.tree.mt(n).pos == before.tree.mt(n).pos,
            crate::key::tree::same_head(self.seq(), before.seq(), before.tree.mt(n).pos + 1),
            crate::key::tree::same_tail(self.seq(), before.seq(), self.tree.mt(n).hi, before.tree.mt(n).hi),
        ensures
            self.tree.fenced(key, self.tree.mt(n).pos + 1, self.tree.mt(n).hi, ties_left, ties_right),
            self.at_node(self.tree.nd(n).right, self.tree.mt(n).pos + 1, self.tree.mt(n).hi),
    {
        self.lemma_node(n);
        before.lemma_node(n);
        let p = self.tree.mt(n).pos;
        let nk = self.tree.nd(n).key();
        let hi = self.tree.mt(n).hi;
        let hi0 = before.tree.mt(n).hi;
        assert forall|t: int| 0 <= t < p + 1 implies if ties_left {
            crate::order::key_le(#[trigger] self.tree.key_at(t), key)
        } else {
            crate::order::key_lt(self.tree.key_at(t), key)
        } by {
            if t < p {
                assert(crate::order::key_le(self.tree.key_at(t), self.tree.key_at(p)));
            }
            crate::order::lemma_order(self.tree.key_at(t), nk, key);
        }
        assert forall|t: int| hi <= t < self.tree.count() implies if ties_right {
            crate::order::key_le(key, #[trigger] self.tree.key_at(t))
        } else {
            crate::order::key_lt(key, self.tree.key_at(t))
        } by {
            let d = t - hi;
            assert(self.seq()[hi + d] == before.seq()[hi0 + d]);
            assert(self.tree.key_at(t) == before.tree.key_at(hi0 + d));
        }
    }

    /// As `lemma_went_left`, for a probe.
    pub proof fn lemma_went_left_by<F: Fn(K) -> Ordering>(&self, before: &Self, f: F, n: u32, ties_right: bool, seen: Ordering)
        requires
            before.inv(),
            self.inv(),
            crate::order::is_probe(f),
            before.tree.live(n),
            before.tree.fenced_by(f, before.tree.mt(n).lo, before.tree.mt(n).hi, ties_right),
            f.ensures((before.tree.nd(n).key(),), seen),
            seen == Ordering::Greater || (ties_right && seen == Ordering::Equal),
            self.tree.live(n),
            self.tree.nd(n).entity == before.tree.nd(n).entity,
            self.tree.mt(n).lo == before.tree.mt(n).lo,
            crate::key::tree::same_head(self.seq(), before.seq(), before.tree.mt(n).lo),
        ensures
            self.tree.fenced_by(f, self.tree.mt(n).lo, self.tree.mt(n).pos, ties_right),
            self.at_node(self.tree.nd(n).left, self.tree.mt(n).lo, self.tree.mt(n).pos),
    {
        self.lemma_node(n);
        before.lemma_node(n);
        let p = self.tree.mt(n).pos;
        let nk = self.tree.nd(n).key();
        assert forall|t: int, o: Ordering|
            0 <= t < self.tree.mt(n).lo && #[trigger] f.ensures((self.tree.key_at(t),), o) implies o
            == Ordering::Less by {
            assert(self.seq()[t] == before.seq()[t]);
            assert(self.tree.key_at(t) == before.tree.key_at(t));
        }
        assert forall|t: int, o: Ordering|
            p <= t < self.tree.count() && #[trigger] f.ensures((self.tree.key_at(t),), o) implies if ties_right {
            o != Ordering::Less
        } else {
            o == Ordering::Greater
        } by {
            if t > p {
                assert(crate::order::key_le(self.tree.key_at(p), self.tree.key_at(t)));
            } else {
                crate::order::lemma_order(nk, nk, nk);
            }
            assert(f.ensures((self.tree.key_at(p),), seen));
        }
    }

    /// As `lemma_went_right`, for a probe.
    pub proof fn lemma_went_right_by<F: Fn(K) -> Ordering>(&self, before: &Self, f: F, n: u32, ties_right: bool)
        requires
            before.inv(),
            self.inv(),
            crate::order::is_probe(f),
            before.tree.live(n),
            before.tree.fenced_by(f, before.tree.mt(n).lo, before.tree.mt(n).hi, ties_right),
            f.ensures((before.tree.nd(n).key(),), Ordering::Less),
            self.tree.live(n),
            self.tree.nd(n).entity == before.tree.nd(n).entity,
            self.tree.mt(n).pos == before.tree.mt(n).pos,
            crate::key::tree::same_head(self.seq(), before.seq(), before.tree.mt(n).pos + 1),
            crate::key::tree::same_tail(self.seq(), before.seq(), self.tree.mt(n).hi, before.tree.mt(n).hi),
        ensures
            self.tree.fenced_by(f, self.tree.mt(n).pos + 1, self.tree.mt(n).hi, ties_right),
            self.at_node(self.tree.nd(n).right, self.tree.mt(n).pos + 1, self.tree.mt(n).hi),
    {
        self.lemma_node(n);
        before.lemma_node(n);
        let p = self.tree.mt(n).pos;
        let nk = self.tree.nd(n).key();
        let hi = self.tree.mt(n).hi;
        let hi0 = before.tree.mt(n).hi;
        assert forall|t: int, o: Ordering|
            0 <= t < p + 1 && #[trigger] f.ensures((self.tree.key_at(t),), o) implies o == Ordering::Less by {
            if t < p {
                assert(crate::order::key_le(self.tree.key_at(t), self.tree.key_at(p)));
            } else {
                crate::order::lemma_order(nk, nk, nk);
            }
            assert(f.ensures((self.tree.key_at(p),), Ordering::Less));
        }
        assert forall|t: int, o: Ordering|
            hi <= t < self.tree.count() && #[trigger] f.ensures((self.tree.key_at(t),), o) implies if ties_right {
            o != Ordering::Less
        } else {
            o == Ordering::Greater
        } by {
            let d = t - hi;
            assert(self.seq()[hi + d] == before.seq()[hi0 + d]);
            assert(self.tree.key_at(t) == before.tree.key_at(hi0 + d));
        }
    }

    /// The value of a live entry whose key equals `key`.
    #[inline]
    /// The entry of the node `index`.
    pub open spec fn kept_at(&self, index: u32) -> (K, V) {
        (self.tree.nd(index).key(), self.tree.nd(index).val())
    }

    /// The root that is left once the expired roots are gone is an entry
    /// that stood in the map before; where no root is left, nothing is.
    pub proof fn lemma_kept(&self, before: &Self, index: u32, time: E)
        requires
            self.inv(),
            crate::key::exp::evicts_to(before.seq(), self.seq(), time),
            index == self.tree.root,
            index != EMPTY_REF ==> !crate::key::exp::expired(self.tree.nd(index).key(), time),
        ensures
            index == EMPTY_REF ==> self.seq().len() == 0,
            index != EMPTY_REF ==> before.seq().contains(self.kept_at(index)) && !crate::key::exp::expired(
                self.kept_at(index).0,
                time,
            ),
    {
        if index != EMPTY_REF {
            assert(self.tree.slot_ok(index));
            assert(self.tree.slot_ok(NIL_INDEX));
            let q = self.tree.mt(index).pos;
            assert(self.seq()[q] == self.kept_at(index));
            crate::key::exp::lemma_evict_keeps(before.seq(), self.seq(), time);
            assert(before.seq().contains(self.seq()[q]));
        }
    }

    pub fn search_value(&mut self, time: E, key: K) -> (found: Option<V>)
        requires
            old(self).inv(),
        ensures
            final(self).inv(),
            crate::key::exp::evicts_to(old(self).seq(), final(self).seq(), time),
            crate::key::exp::some_live(final(self).seq(), time),
            found is None <==> !crate::order::holds_key(final(self).seq(), key),
            found is Some ==> exists|q: int|
                {
                    &&& #[trigger] crate::order::hit(final(self).seq(), key, q)
                    &&& final(self).seq()[q].1 == found->0
                    &&& !crate::key::exp::expired(final(self).seq()[q].0, time)
                },
    {
        let mut index = self.expire_root(time);
        let ghost root0 = index;
        let ghost kept = self.kept_at(index);
        proof {
            self.lemma_kept(old(self), index, time);
        }
        let ghost mut lo = 0int;
        let ghost mut hi = self.tree.count();
        proof {
            if index != EMPTY_REF {
                self.lemma_node(index);
                assert(self.tree.slot_ok(index));
            }
            assert(self.tree.fenced(key, lo, hi, false, false));
        }

        while index != EMPTY_REF
            invariant
                index != EMPTY_REF ==> root0 != EMPTY_REF,
                root0 == EMPTY_REF ==> self.seq().len() == 0,
                root0 != EMPTY_REF ==> old(self).seq().contains(kept) && !crate::key::exp::expired(kept.0, time),
                self.inv(),
                crate::key::exp::evicts_to(old(self).seq(), self.seq(), time),
                self.tree.fenced(key, lo, hi, false, false),
                self.at_node(index, lo, hi),
                index != EMPTY_REF ==> !crate::key::exp::expired(self.tree.nd(index).key(), time),
            decreases hi - lo,
        {
            proof {
                self.lemma_node(index);
            }
            let n_index = index;
            let ghost before = *self;
            let node_key = self.tree.key_of(index);
            let node_val = *self.tree.val_of(index);
            match three_way(&key, &node_key) {
                Ordering::Equal => {
                    proof {
                        let q = self.tree.mt(index).pos;
                        crate::order::lemma_order(key, node_key, key);
                        assert(crate::order::hit(self.seq(), key, q));
                        assert(crate::order::key_eq(self.seq()[q].0, key));
                    }
                    proof {
                        crate::key::exp::lemma_some_live(old(self).seq(), self.seq(), time, root0 == EMPTY_REF, kept);
                    }
                    return Some(node_val);
                },
                Ordering::Less => {
                    index = self.expire_left(index, time);
                    proof {
                        self.lemma_went_left(&before, key, n_index, false, false);
                        crate::key::exp::lemma_evict_more(old(self).seq(), before.seq(), self.seq(), time);
                        self.lemma_node(n_index);
                        hi = self.tree.mt(n_index).pos;
                    }
                },
                Ordering::Greater => {
                    index = self.expire_right(index, time);
                    proof {
                        self.lemma_went_right(&before, key, n_index, false, false);
                        crate::key::exp::lemma_evict_more(old(self).seq(), before.seq(), self.seq(), time);
                        self.lemma_node(n_index);
                        lo = self.tree.mt(n_index).pos + 1;
                        hi = self.tree.mt(n_index).hi;
                    }
                },
            }
        }
        proof {
            assert forall|t: int| 0 <= t < self.seq().len() implies !crate::order::key_eq(
                #[trigger] self.seq()[t].0,
                key,
            ) by {
                assert(self.seq()[t].0 == self.tree.key_at(t));
                crate::order::lemma_order(self.tree.key_at(t), key, key);
            }
        }

        proof {
            crate::key::exp::lemma_some_live(old(self).seq(), self.seq(), time, root0 == EMPTY_REF, kept);
        }
        None
    }

    /// The value of the last live entry whose key is below `key`, or
    /// `default`.
    #[inline]
    pub fn search_first_less(&mut self, time: E, default: V, key: K) -> (val: V)
        requires
            old(self).inv(),
        ensures
            final(self).inv(),
            crate::key::exp::evicts_to(old(self).seq(), final(self).seq(), time),
            crate::key::exp::some_live(final(self).seq(), time),
            (crate::order::none_below(final(self).seq(), key) && val == default) || exists|p: int|
                {
                    &&& #[trigger] crate::order::below_at(final(self).seq(), key, p)
                    &&& final(self).seq()[p].1 == val
                    &&& !crate::key::exp::expired(final(self).seq()[p].0, time)
                },
    {
        let mut index = self.expire_root(time);
        let ghost root0 = index;
        let ghost kept = self.kept_at(index);
        proof {
            self.lemma_kept(old(self), index, time);
        }
        let mut result = default;
        let ghost mut lo = 0int;
        let ghost mut hi = self.tree.count();
        proof {
            if index != EMPTY_REF {
                self.lemma_node(index);
                assert(self.tree.slot_ok(index));
            }
            assert(self.tree.fenced(key, lo, hi, false, true));
        }
        while index != EMPTY_REF
            invariant
                index != EMPTY_REF ==> root0 != EMPTY_REF,
                root0 == EMPTY_REF ==> self.seq().len() == 0,
                root0 != EMPTY_REF ==> old(self).seq().contains(kept) && !crate::key::exp::expired(kept.0, time),
                self.inv(),
                crate::key::exp::evicts_to(old(self).seq(), self.seq(), time),
                self.tree.fenced(key, lo, hi, false, true),
                self.at_node(index, lo, hi),
                index != EMPTY_REF ==> !crate::key::exp::expired(self.tree.nd(index).key(), time),
                lo == 0 ==> result == default,
                lo > 0 ==> result == self.seq()[lo - 1].1 && !crate::key::exp::expired(
                    self.seq()[lo - 1].0,
                    time,
                ),
                lo > 0 ==> crate::order::key_lt(self.seq()[lo - 1].0, key),
            decreases hi - lo,
        {
            proof {
                self.lemma_node(index);
            }
            let n_index = index;
            let ghost before = *self;
            let node_key = self.tree.key_of(index);
            let node_val = *self.tree.val_of(index);
            match three_way(&node_key, &key) {
                Ordering::Less => {
                    result = node_val;
                    index = self.expire_right(index, time);
                    proof {
                        self.lemma_went_right(&before, key, n_index, false, true);
                        crate::key::exp::lemma_evict_more(old(self).seq(), before.seq(), self.seq(), time);
                        self.lemma_node(n_index);
                        lo = self.tree.mt(n_index).pos + 1;
                        hi = self.tree.mt(n_index).hi;
                        assert(self.seq()[lo - 1] == before.seq()[lo - 1]);
                    }
                },
                Ordering::Equal => {
                    index = self.expire_left(index, time);
                    proof {
                        crate::order::lemma_order(key, node_key, key);
                        self.lemma_went_left(&before, key, n_index, false, true);
                        crate::key::exp::lemma_evict_more(old(self).seq(), before.seq(), self.seq(), time);
                        self.lemma_node(n_index);
                        if lo > 0 {
                            assert(self.seq()[lo - 1] == before.seq()[lo - 1]);
                        }
                        hi = self.tree.mt(n_index).pos;
                    }
                },
                Ordering::Greater => {
                    index = self.expire_left(index, time);
                    proof {
                        crate::order::lemma_order(key, node_key, key);
                        self.lemma_went_left(&before, key, n_index, false, true);
                        crate::key::exp::lemma_evict_more(old(self).seq(), before.seq(), self.seq(), time);
                        self.lemma_node(n_index);
                        if lo > 0 {
                            assert(self.seq()[lo - 1] == before.seq()[lo - 1]);
                        }
                        hi = self.tree.mt(n_index).pos;
                    }
                },
            }
        }
        proof {
            if lo > 0 {
                crate::order::lemma_order(self.seq()[lo - 1].0, key, key);
                assert(crate::order::below_at(self.seq(), key, lo - 1));
            }
        }

        proof {
            crate::key::exp::lemma_some_live(old(self).seq(), self.seq(), time, root0 == EMPTY_REF, kept);
        }
        result
    }

    /// The value of a live entry whose key equals `key`, or else of the last
    /// live entry whose key is below `key`, or `default`.
    #[inline]
    pub fn search_first_less_or_equal(&mut self, time: E, default: V, key: K) -> (val: V)
        requires
            old(self).inv(),
        ensures
            final(self).inv(),
            crate::key::exp::evicts_to(old(self).seq(), final(self).seq(), time),
            crate::key::exp::some_live(final(self).seq(), time),
            (crate::order::all_above(final(self).seq(), key) && val == default) || exists|p: int|
                {
                    &&& #[trigger] crate::order::floor_at(final(self).seq(), key, p)
                    &&& final(self).seq()[p].1 == val
                    &&& !crate::key::exp::expired(final(self).seq()[p].0, time)
                },
    {
        let mut index = self.expire_root(time);
        let ghost root0 = index;
        let ghost kept = self.kept_at(index);
        proof {
            self.lemma_kept(old(self), index, time);
        }
        let mut result = default;
        let ghost mut lo = 0int;
        let ghost mut hi = self.tree.count();
        proof {
            if index != EMPTY_REF {
                self.lemma_node(index);
                assert(self.tree.slot_ok(index));
            }
            assert(self.tree.fenced(key, lo, hi, false, false));
        }
        while index != EMPTY_REF
            invariant
                index != EMPTY_REF ==> root0 != EMPTY_REF,
                root0 == EMPTY_REF ==> self.seq().len() == 0,
                root0 != EMPTY_REF ==> old(self).seq().contains(kept) && !crate::key::exp::expired(kept.0, time),
                self.inv(),
                crate::key::exp::evicts_to(old(self).seq(), self.seq(), time),
                self.tree.fenced(key, lo, hi, false, false),
                self.at_node(index, lo, hi),
                index != EMPTY_REF ==> !crate::key::exp::expired(self.tree.nd(index).key(), time),
                lo == 0 ==> result == default,
                lo > 0 ==> result == self.seq()[lo - 1].1 && !crate::key::exp::expired(
                    self.seq()[lo - 1].0,
                    time,
                ),
                lo > 0 ==> crate::order::key_lt(self.seq()[lo - 1].0, key),
            decreases hi - lo,
        {
            proof {
                self.lemma_node(index);
            }
            let n_index = index;
            let ghost before = *self;
            let node_key = self.tree.key_of(index);
            let node_val = *self.tree.val_of(index);
            match three_way(&node_key, &key) {
                Ordering::Equal => {
                    proof {
                        let p = self.tree.mt(index).pos;
                        assert(crate::order::floor_at(self.seq(), key, p));
                    }
                    proof {
                        crate::key::exp::lemma_some_live(old(self).seq(), self.seq(), time, root0 == EMPTY_REF, kept);
                    }
                    return node_val;
                },
                Ordering::Less => {
                    result = node_val;
                    index = self.expire_right(index, time);
                    proof {
                        self.lemma_went_right(&before, key, n_index, false, false);
                        crate::key::exp::lemma_evict_more(old(self).seq(), before.seq(), self.seq(), time);
                        self.lemma_node(n_index);
                        lo = self.tree.mt(n_index).pos + 1;
                        hi = self.tree.mt(n_index).hi;
                        assert(self.seq()[lo - 1] == before.seq()[lo - 1]);
                    }
                },
                Ordering::Greater => {
                    index = self.expire_left(index, time);
                    proof {
                        crate::order::lemma_order(key, node_key, key);
                        self.lemma_went_left(&before, key, n_index, false, false);
                        crate::key::exp::lemma_evict_more(old(self).seq(), before.seq(), self.seq(), time);
                        self.lemma_node(n_index);
                        if lo > 0 {
                            assert(self.seq()[lo - 1] == before.seq()[lo - 1]);
                        }
                        hi = self.tree.mt(n_index).pos;
                    }
                },
            }
        }
        proof {
            if lo > 0 {
                crate::order::lemma_order(self.seq()[lo - 1].0, key, key);
                assert(crate::order::floor_at(self.seq(), key, lo - 1));
            }
        }

        proof {
            crate::key::exp::lemma_some_live(old(self).seq(), self.seq(), time, root0 == EMPTY_REF, kept);
        }
        result
    }

    /// As `search_first_less`, with the probe `f` in the place of the
    /// comparison with a key.
    #[inline]
    pub fn search_first_less_by<F>(&mut self, time: E, default: V, f: F) -> (val: V) where F: Fn(K) -> Ordering
        requires
            old(self).inv(),
            crate::order::is_probe(f),
        ensures
            final(self).inv(),
            crate::key::exp::evicts_to(old(self).seq(), final(self).seq(), time),
            crate::key::exp::some_live(final(self).seq(), time),
            (crate::key::exp::none_below_by(final(self).seq(), f) && val == default) || exists|p: int|
                {
                    &&& #[trigger] crate::key::exp::below_by(final(self).seq(), f, p)
                    &&& final(self).seq()[p].1 == val
                    &&& !crate::key::exp::expired(final(self).seq()[p].0, time)
                },
    {
        let mut index = self.expire_root(time);
        let ghost root0 = index;
        let ghost kept = self.kept_at(index);
        proof {
            self.lemma_kept(old(self), index, time);
        }
        let mut result = default;
        let ghost mut lo = 0int;
        let ghost mut hi = self.tree.count();
        proof {
            if index != EMPTY_REF {
                self.lemma_node(index);
                assert(self.tree.slot_ok(index));
            }
            assert(self.tree.fenced_by(f, lo, hi, true));
        }
        while index != EMPTY_REF
            invariant
                index != EMPTY_REF ==> root0 != EMPTY_REF,
                root0 == EMPTY_REF ==> self.seq().len() == 0,
                root0 != EMPTY_REF ==> old(self).seq().contains(kept) && !crate::key::exp::expired(kept.0, time),
                self.inv(),
                crate::key::exp::evicts_to(old(self).seq(), self.seq(), time),
                self.tree.fenced_by(f, lo, hi, true),
                self.at_node(index, lo, hi),
                index != EMPTY_REF ==> !crate::key::exp::expired(self.tree.nd(index).key(), time),
                lo == 0 ==> result == default,
                lo > 0 ==> result == self.seq()[lo - 1].1 && !crate::key::exp::expired(
                    self.seq()[lo - 1].0,
                    time,
                ),
                crate::order::is_probe(f),
                lo > 0 ==> f.ensures((self.seq()[lo - 1].0,), Ordering::Less),
            decreases hi - lo,
        {
            proof {
                self.lemma_node(index);
            }
            let n_index = index;
            let ghost before = *self;
            let node_key = self.tree.key_of(index);
            let node_val = *self.tree.val_of(index);
            match f(node_key) {
                Ordering::Less => {
                    result = node_val;
                    index = self.expire_right(index, time);
                    proof {
                        self.lemma_went_right_by(&before, f, n_index, true);
                        crate::key::exp::lemma_evict_more(old(self).seq(), before.seq(), self.seq(), time);
                        self.lemma_node(n_index);
                        lo = self.tree.mt(n_index).pos + 1;
                        hi = self.tree.mt(n_index).hi;
                        assert(self.seq()[lo - 1] == before.seq()[lo - 1]);
                    }
                },
                Ordering::Equal => {
                    index = self.expire_left(index, time);
                    proof {
                        self.lemma_went_left_by(&before, f, n_index, true, Ordering::Equal);
                        crate::key::exp::lemma_evict_more(old(self).seq(), before.seq(), self.seq(), time);
                        self.lemma_node(n_index);
                        if lo > 0 {
                            assert(self.seq()[lo - 1] == before.seq()[lo - 1]);
                        }
                        hi = self.tree.mt(n_index).pos;
                    }
                },
                Ordering::Greater => {
                    index = self.expire_left(index, time);
                    proof {
                        self.lemma_went_left_by(&before, f, n_index, true, Ordering::Greater);
                        crate::key::exp::lemma_evict_more(old(self).seq(), before.seq(), self.seq(), time);
                        self.lemma_node(n_index);
                        if lo > 0 {
                            assert(self.seq()[lo - 1] == before.seq()[lo - 1]);
                        }
                        hi = self.tree.mt(n_index).pos;
                    }
                },
            }
        }
        proof {
            if lo > 0 {
                assert(crate::key::exp::below_by(self.seq(), f, lo - 1));
            }
        }

        proof {
            crate::key::exp::lemma_some_live(old(self).seq(), self.seq(), time, root0 == EMPTY_REF, kept);
        }
        result
    }

    /// As `search_first_less_or_equal`, with the probe `f` in the place of
    /// the comparison with a key.
    #[inline]
    pub fn search_first_less_or_equal_by<F>(&mut self, time: E, default: V, f: F) -> (val: V) where F: Fn(K) -> Ordering
        requires
            old(self).inv(),
            crate::order::is_probe(f),
        ensures
            final(self).inv(),
            crate::key::exp::evicts_to(old(self).seq(), final(self).seq(), time),
            crate::key::exp::some_live(final(self).seq(), time),
            (crate::order::all_above_by(final(self).seq(), f) && val == default) || exists|p: int|
                {
                    &&& #[trigger] crate::order::floor_by(final(self).seq(), f, p)
                    &&& final(self).seq()[p].1 == val
                    &&& !crate::key::exp::expired(final(self).seq()[p].0, time)
                },
    {
        let mut index = self.expire_root(time);
        let ghost root0 = index;
        let ghost kept = self.kept_at(index);
        proof {
            self.lemma_kept(old(self), index, time);
        }
        let mut result = default;
        let ghost mut lo = 0int;
        let ghost mut hi = self.tree.count();
        proof {
            if index != EMPTY_REF {
                self.lemma_node(index);
                assert(self.tree.slot_ok(index));
            }
            assert(self.tree.fenced_by(f, lo, hi, false));
        }
        while index != EMPTY_REF
            invariant
                index != EMPTY_REF ==> root0 != EMPTY_REF,
                root0 == EMPTY_REF ==> self.seq().len() == 0,
                root0 != EMPTY_REF ==> old(self).seq().contains(kept) && !crate::key::exp::expired(kept.0, time),
                self.inv(),
                crate::key::exp::evicts_to(old(self).seq(), self.seq(), time),
                self.tree.fenced_by(f, lo, hi, false),
                self.at_node(index, lo, hi),
                index != EMPTY_REF ==> !crate::key::exp::expired(self.tree.nd(index).key(), time),
                lo == 0 ==> result == default,
                lo > 0 ==> result == self.seq()[lo - 1].1 && !crate::key::exp::expired(
                    self.seq()[lo - 1].0,
                    time,
                ),
                crate::order::is_probe(f),
                lo > 0 ==> f.ensures((self.seq()[lo - 1].0,), Ordering::Less),
            decreases hi - lo,
        {
            proof {
                self.lemma_node(index);
            }
            let n_index = index;
            let ghost before = *self;
            let node_key = self.tree.key_of(index);
            let node_val = *self.tree.val_of(index);
            match f(node_key) {
                Ordering::Equal => {
                    proof {
                        let p = self.tree.mt(index).pos;
                        assert(f.ensures((self.seq()[p].0,), Ordering::Equal));
                        assert(crate::order::floor_by(self.seq(), f, p));
                    }
                    proof {
                        crate::key::exp::lemma_some_live(old(self).seq(), self.seq(), time, root0 == EMPTY_REF, kept);
                    }
                    return node_val;
                },
                Ordering::Less => {
                    result = node_val;
                    index = self.expire_right(index, time);
                    proof {
                        self.lemma_went_right_by(&before, f, n_index, false);
                        crate::key::exp::lemma_evict_more(old(self).seq(), before.seq(), self.seq(), time);
                        self.lemma_node(n_index);
                        lo = self.tree.mt(n_index).pos + 1;
                        hi = self.tree.mt(n_index).hi;
                        assert(self.seq()[lo - 1] == before.seq()[lo - 1]);
                    }
                },
                Ordering::Greater => {
                    index = self.expire_left(index, time);
                    proof {
                        self.lemma_went_left_by(&before, f, n_index, false, Ordering::Greater);
                        crate::key::exp::lemma_evict_more(old(self).seq(), before.seq(), self.seq(), time);
                        self.lemma_node(n_index);
                        if lo > 0 {
                            assert(self.seq()[lo - 1] == before.seq()[lo - 1]);
                        }
                        hi = self.tree.mt(n_index).pos;
                    }
                },
            }
        }
        proof {
            if lo > 0 {
                assert(crate::order::floor_by(self.seq(), f, lo - 1));
            }
        }

        proof {
            crate::key::exp::lemma_some_live(old(self).seq(), self.seq(), time, root0 == EMPTY_REF, kept);
        }
        result
    }

    /// Links `entity` into the tree behind every entry whose key is not
    /// above its own, deleting the expired nodes on the way down.
    #[inline]
    pub fn insert_entity(&mut self, entity: Entity<K, V>, time: E)
        requires
            old(self).inv(),
            old(self).tree.count() + 1 < MAX_SLOTS,
        ensures
            final(self).inv(),
            exists|mid: Seq<(K, V)>, q: int|
                {
                    &&& crate::key::exp::evicts_to(old(self).seq(), mid, time)
                    &&& crate::order::insert_point(mid, entity.key, q)
                    &&& final(self).seq() == #[trigger] mid.insert(q, (entity.key, entity.val))
                },
    {
        let mut index = self.expire_root(time);
        proof {
            crate::key::exp::lemma_evict_keeps(old(self).seq(), self.seq(), time);
            self.lemma_shorter(old(self), time);
        }
        if index == EMPTY_REF {
            let ghost mid = self.seq();
            self.tree.insert_root(entity);
            proof {
                assert(mid =~= Seq::<(K, V)>::empty());
                assert(crate::order::insert_point(mid, entity.key, 0));
                assert(self.seq() =~= mid.insert(0, (entity.key, entity.val)));
            }
            return ;
        }
        let key = entity.key;
        proof {
            self.lemma_node(index);
            assert(self.tree.slot_ok(index));
            assert(self.tree.fenced(key, self.tree.mt(index).lo, self.tree.mt(index).hi, true, false));
        }

        loop
            invariant
                self.inv(),
                crate::key::exp::evicts_to(old(self).seq(), self.seq(), time),
                self.tree.count() + 1 < MAX_SLOTS,
                key == entity.key,
                self.tree.live(index),
                self.tree.fenced(key, self.tree.mt(index).lo, self.tree.mt(index).hi, true, false),
            decreases self.tree.mt(index).hi - self.tree.mt(index).lo,
        {
            let p_index = index;
            let ghost before = *self;
            proof {
                self.lemma_node(index);
                crate::order::lemma_order(key, self.tree.nd(index).key(), key);
            }
            if is_less(&key, &self.tree.key_of(index)) {
                index = self.expire_left(index, time);
                proof {
                    self.lemma_went_left(&before, key, p_index, true, false);
                    crate::key::exp::lemma_evict_more(old(self).seq(), before.seq(), self.seq(), time);
                    self.lemma_shorter(&before, time);
                    self.lemma_node(p_index);
                }
                if index == EMPTY_REF {
                    let ghost mid = self.seq();
                    let ghost q = self.tree.mt(p_index).pos;
                    proof {
                        self.lemma_point(key, q);
                    }
                    self.tree.insert_as_left(entity, p_index);
                    return ;
                }
            } else {
                index = self.expire_right(index, time);
                proof {
                    self.lemma_went_right(&before, key, p_index, true, false);
                    crate::key::exp::lemma_evict_more(old(self).seq(), before.seq(), self.seq(), time);
                    self.lemma_shorter(&before, time);
                    self.lemma_node(p_index);
                }
                if index == EMPTY_REF {
                    let ghost mid = self.seq();
                    let ghost q = self.tree.mt(p_index).pos + 1;
                    proof {
                        self.lemma_point(key, q);
                    }
                    self.tree.insert_as_right(entity, p_index);
                    return ;
                }
            }
        }
    }

    /// A fence that closes at `q` makes `q` the place to insert `key`.
    pub proof fn lemma_point(&self, key: K, q: int)
        requires
            self.inv(),
            self.tree.fenced(key, q, q, true, false),
        ensures
            crate::order::insert_point(self.seq(), key, q),
            forall|j: int| 0 <= j < q ==> crate::order::key_le(#[trigger] self.tree.key_at(j), key),
            forall|j: int| q <= j < self.tree.count() ==> crate::order::key_le(key, #[trigger] self.tree.key_at(j)),
    {
        assert forall|t: int| 0 <= t < q implies crate::order::key_le(#[trigger] self.seq()[t].0, key) by {
            assert(crate::order::key_le(self.tree.key_at(t), key));
        }
        assert forall|t: int| q <= t < self.seq().len() implies crate::order::key_lt(
            key,
            #[trigger] self.seq()[t].0,
        ) by {
            assert(crate::order::key_lt(key, self.tree.key_at(t)));
        }
        assert forall|j: int| q <= j < self.tree.count() implies crate::order::key_le(
            key,
            #[trigger] self.tree.key_at(j),
        ) by {
            crate::order::lemma_order(key, self.tree.key_at(j), key);
        }
    }

    /// An eviction leaves no more entries than there were.
    pub proof fn lemma_shorter(&self, before: &Self, time: E)
        requires
            crate::key::exp::evicts_to(before.seq(), self.seq(), time),
        ensures
            self.tree.count() <= before.tree.count(),
    {
        crate::key::exp::lemma_evict_shorter(before.seq(), self.seq(), time);
    }
}

} // verus!
