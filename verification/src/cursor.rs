use vstd::prelude::*;

use crate::cell::Cell;
use crate::errors::Error;
use crate::errors::NeedsUpdate;
use crate::list::List;

verus! {

/// A position in the list: a normal cell (`pre_cell`, the head or a data
/// cell), the auxiliary cell that follows it (`pre_aux`), and, once resolved
/// by `update`, the normal cell that follows that (`target`). All three are
/// handles into the list's arena.
pub struct Cursor {
    pub target: Option<usize>,
    pub pre_aux: usize,
    pub pre_cell: usize,
}

impl Cursor {
    /// The cursor's anchor stands on the spine at position `k`: `pre_cell`
    /// is the normal cell at spine position `k` and `pre_aux` the auxiliary
    /// cell right after it. (`target` may still be stale.)
    pub open spec fn linked_at<T>(self, list: List<T>, k: int) -> bool {
        &&& 0 <= k <= list.sp().len() - 3
        &&& k % 2 == 0
        &&& list.sp()[k] == self.pre_cell
        &&& list.sp()[k + 1] == self.pre_aux
    }

    /// The cursor's anchor stands somewhere on the spine.
    pub open spec fn linked<T>(self, list: List<T>) -> bool {
        exists|k: int| self.linked_at(list, k)
    }

    /// The full cursor invariant at position `k`: anchored at `k`, and the
    /// target resolved to the normal cell at spine position `k + 2`.
    pub open spec fn valid_at<T>(self, list: List<T>, k: int) -> bool {
        &&& self.linked_at(list, k)
        &&& self.target == Some(list.sp()[k + 2])
    }

    /// The full cursor invariant, somewhere on the spine.
    pub open spec fn valid<T>(self, list: List<T>) -> bool {
        exists|k: int| self.valid_at(list, k)
    }

    /// A target handle, if present, points into the arena.
    pub open spec fn target_ok<T>(self, list: List<T>) -> bool {
        self.target matches Some(t) ==> t < list.cells@.len()
    }
}

/// A cursor is anchored at one spine position at most: spine entries are
/// distinct, so the position of `pre_cell` on the spine is unique.
pub proof fn lemma_linked_at_unique<T>(c: Cursor, list: List<T>, k1: int, k2: int)
    requires
        list.wf(),
        c.linked_at(list, k1),
        c.linked_at(list, k2),
    ensures
        k1 == k2,
{
    if k1 < k2 {
        assert(list.sp()[k1] == list.sp()[k2]);
    }
    if k2 < k1 {
        assert(list.sp()[k2] == list.sp()[k1]);
    }
}

impl Cursor {
    /// A cursor anchored at `pre_cell` / `pre_aux`, with no target resolved
    /// yet.
    pub fn new(pre_cell: usize, pre_aux: usize) -> (c: Cursor)
        ensures
            c == (Cursor { target: None, pre_aux, pre_cell }),
    {
        Cursor { target: None, pre_cell, pre_aux }
    }

    /// Re-establish the cursor invariant: if the resolved target still is
    /// the cell after `pre_aux`, nothing is done; otherwise the scan walks
    /// from `pre_aux` over any run of auxiliary cells (compacting it
    /// best-effort through `pre_cell`, as a helping step) and resolves the
    /// target to the first normal cell found. Idempotent: a second call on
    /// an already-valid cursor changes nothing.
    pub fn update<T>(&mut self, list: &mut List<T>) -> (r: Result<(), Error>)
        requires
            old(list).wf(),
            old(self).linked(*old(list)),
        ensures
            final(list).untouched(*old(list)),
            final(list).wf(),
            r is Ok,
            final(self).pre_cell == old(self).pre_cell,
            final(self).pre_aux == old(self).pre_aux,
            forall|k: int|
                old(self).linked_at(*old(list), k) ==> #[trigger] final(self).valid_at(
                    *final(list),
                    k,
                ),
            old(self).valid(*old(list)) ==> *final(self) == *old(self),
    {
        let ghost l0 = *old(list);
        let ghost c0 = *old(self);
        let ghost k = choose|k: int| c0.linked_at(l0, k);
        proof {
            assert(c0.linked_at(l0, k));
            assert(l0.at(k + 1).next_of() == Some(l0.sp()[k + 2]));
        }
        match self.target {
            None => {}
            Some(target) => {
                if list.cells[self.pre_aux].next_cmp(target) {
                    proof {
                        crate::list::lemma_same_state(l0, *list);
                        assert(self.valid_at(*list, k));
                        assert forall|k2: int|
                            c0.linked_at(l0, k2) implies #[trigger] self.valid_at(*list, k2) by {
                            lemma_linked_at_unique(c0, l0, k2, k);
                        }
                    }
                    return Ok(());
                }
            }
        }
        proof {
            // On this path the cursor was not valid: a valid target would
            // have matched `pre_aux`'s next slot above.
            if c0.valid(l0) {
                let kv = choose|kv: int| c0.valid_at(l0, kv);
                lemma_linked_at_unique(c0, l0, kv, k);
            }
            assert(!c0.valid(l0));
        }
        let mut p = self.pre_aux;
        let mut n = match list.cells[p].next_dup() {
            Some(n) => n,
            None => {
                return Err(Error::Fatal);
            }
        };
        self.target = None;
        while !list.cells[n].is_last() && !list.cells[n].is_data_cell()
            invariant
                l0.wf(),
                list.untouched(l0),
                c0.linked_at(l0, k),
                p == l0.sp()[k + 1],
                n == l0.sp()[k + 2],
                self.pre_cell == c0.pre_cell,
                self.pre_aux == c0.pre_aux,
                self.target is None,
            decreases l0.sp().len(),
        {
            // The spine alternation law makes an auxiliary run impossible
            // here: the cell after `pre_aux` is a data cell or the tail, so
            // this helping compaction never actually runs.
            proof {
                if k + 2 < l0.sp().len() - 1 {
                    assert(l0.at(k + 2).spec_is_data());
                } else {
                    assert(l0.at(k + 2).spec_is_last());
                }
                assert(list.cells@[n as int] == l0.at(k + 2));
                assert(false);
            }
            let _ = list.cells[self.pre_cell].swap_in_next(p, Some(n));
            p = n;
            n = match list.cells[p].next_dup() {
                Some(m) => m,
                None => {
                    return Err(Error::Fatal);
                }
            };
        }
        self.pre_aux = p;
        self.target = Some(n);
        proof {
            crate::list::lemma_same_state(l0, *list);
            assert(self.valid_at(*list, k));
            assert forall|k2: int|
                c0.linked_at(l0, k2) implies #[trigger] self.valid_at(*list, k2) by {
                lemma_linked_at_unique(c0, l0, k2, k);
            }
        }
        Ok(())
    }

    /// Advance to the next position: the old target becomes the new
    /// `pre_cell` and the target is re-resolved. Returns `false`, without
    /// moving, when the cursor already stands before the tail.
    pub fn next<T>(&mut self, list: &mut List<T>) -> (r: Result<bool, Error>)
        requires
            old(list).wf(),
            old(self).valid(*old(list)),
        ensures
            final(list).untouched(*old(list)),
            final(list).wf(),
            forall|k: int|
                old(self).valid_at(*old(list), k) && k + 2 == old(list).sp().len() - 1 ==> (r
                    == Ok::<bool, Error>(false) && *final(self) == *old(self)),
            forall|k: int|
                old(self).valid_at(*old(list), k) && k + 2 < old(list).sp().len() - 1 ==> (r
                    == Ok::<bool, Error>(true) && #[trigger] final(self).valid_at(
                    *final(list),
                    k + 2,
                )),
            r is Ok,
    {
        let ghost l0 = *old(list);
        let ghost c0 = *old(self);
        let ghost k = choose|k: int| c0.valid_at(l0, k);
        proof {
            assert(c0.valid_at(l0, k));
        }
        let target = match self.target {
            None => {
                return Err(Error::Fatal);
            }
            Some(target) => {
                proof {
                    assert(target == l0.sp()[k + 2]);
                }
                if list.cells[target].is_last() {
                    proof {
                        // Only the tail cell on the spine is the tail
                        // sentinel, so the cursor stands at the end.
                        if k + 2 < l0.sp().len() - 1 {
                            assert(l0.at(k + 2).spec_is_data());
                        }
                        assert forall|k2: int|
                            c0.valid_at(l0, k2) && k2 + 2 < l0.sp().len() - 1 implies false by {
                            lemma_linked_at_unique(c0, l0, k2, k);
                        }
                    }
                    return Ok(false);
                }
                target
            }
        };
        proof {
            if k + 2 == l0.sp().len() - 1 {
                assert(l0.at(k + 2).spec_is_last());
            }
            assert(k + 2 < l0.sp().len() - 1);
            assert(l0.at(k + 2).next_of() == Some(l0.sp()[k + 3]));
        }
        self.pre_cell = target;
        self.pre_aux = match list.cells[target].next_dup() {
            Some(a) => a,
            None => {
                return Err(Error::Fatal);
            }
        };
        proof {
            assert(self.linked_at(*list, k + 2));
        }
        match self.update(list) {
            Ok(()) => {}
            Err(e) => {
                return Err(e);
            }
        }
        proof {
            assert(self.valid_at(*list, k + 2));
            assert forall|k2: int|
                c0.valid_at(l0, k2) && k2 + 2 < l0.sp().len() - 1 implies #[trigger] self.valid_at(
                *list,
                k2 + 2,
            ) by {
                lemma_linked_at_unique(c0, l0, k2, k);
            }
            assert forall|k2: int|
                c0.valid_at(l0, k2) && k2 + 2 == l0.sp().len() - 1 implies false by {
                lemma_linked_at_unique(c0, l0, k2, k);
            }
        }
        Ok(true)
    }

    /// Single-attempt insert before the current target: builds the private
    /// chain `data -> aux -> target` in the arena and swings `pre_aux`'s
    /// next slot from the target to the new data cell by compare-and-swap.
    /// Fails with a stale-cursor error, giving the freshly built cells back
    /// to the arena untouched, when no target is resolved or the
    /// compare-and-swap finds the slot changed; on success the cursor is
    /// left stale on purpose, and the caller re-syncs with `update`.
    pub fn try_insert<T>(&self, list: &mut List<T>, data: T) -> (r: Result<(), Error>)
        requires
            old(list).wf(),
            self.linked(*old(list)),
        ensures
            final(list).wf(),
            final(list).first == old(list).first,
            final(list).last == old(list).last,
            r is Ok <==> self.valid(*old(list)),
            !self.valid(*old(list)) ==> final(list).untouched(*old(list)) && (r matches Err(
                Error::Stale(_),
            )),
            forall|k: int|
                #[trigger] self.valid_at(*old(list), k) ==> {
                    &&& final(list).values() == old(list).values().insert(k / 2, data)
                    &&& final(list).cells@.len() == old(list).cells@.len() + 2
                    &&& final(list).sp() == old(list).sp().subrange(0, k + 2) + seq![
                        (old(list).cells@.len() + 1) as usize,
                        old(list).cells@.len() as usize,
                    ] + old(list).sp().subrange(k + 2, old(list).sp().len() as int)
                    &&& forall|i: int|
                        0 <= i < old(list).cells@.len() && i != self.pre_aux
                            ==> final(list).cells@[i] == old(list).cells@[i]
                    &&& self.linked_at(*final(list), k)
                },
            forall|i: usize|
                i < old(list).cells@.len() && !old(list).on_spine(i) ==> !final(list).on_spine(i),
    {
        let ghost l0 = *old(list);
        let ghost k = choose|k: int| self.linked_at(l0, k);
        proof {
            assert(self.linked_at(l0, k));
            assert(l0.at(k + 1).next_of() == Some(l0.sp()[k + 2]));
        }
        let t = match self.target {
            None => {
                proof {
                    assert(!self.valid(l0));
                }
                return Err(Error::Stale(NeedsUpdate));
            }
            Some(t) => t,
        };
        let aux_idx = list.cells.len();
        list.cells.push(Cell::new_aux(t));
        let data_idx = list.cells.len();
        list.cells.push(Cell::new_data(data, aux_idx));
        proof {
            assert(list.cells@[self.pre_aux as int] == l0.cells@[self.pre_aux as int]);
        }
        match list.cells[self.pre_aux].swap_in_next(t, Some(data_idx)) {
            Ok(_evicted) => {
                proof {
                    assert(t == l0.sp()[k + 2]);
                    assert(self.valid_at(l0, k));
                }
                let ghost new_sp = l0.sp().subrange(0, k + 2) + seq![
                    data_idx,
                    aux_idx,
                ] + l0.sp().subrange(k + 2, l0.sp().len() as int);
                list.spine = Ghost(new_sp);
                proof {
                    crate::list::lemma_splice_in(l0, *list, k, data_idx, aux_idx, data);
                    assert forall|k2: int| #[trigger] self.valid_at(l0, k2) implies k2 == k by {
                        lemma_linked_at_unique(*self, l0, k2, k);
                    }
                    assert(self.valid(l0));
                    assert forall|i: usize|
                        i < l0.cells@.len() && !l0.on_spine(i) implies !list.on_spine(i) by {
                        if list.on_spine(i) {
                            let j = choose|j: int|
                                0 <= j < new_sp.len() && new_sp[j] == i;
                            crate::list::lemma_spliced_in_entry(l0, new_sp, k, data_idx, aux_idx, j);
                        }
                    }
                }
                Ok(())
            }
            Err(_e) => {
                list.cells.pop();
                list.cells.pop();
                proof {
                    assert(list.cells@ =~= l0.cells@);
                    assert(list.untouched(l0));
                    crate::list::lemma_same_state(l0, *list);
                    // The compare-and-swap refused, so the resolved target
                    // was stale.
                    if self.valid(l0) {
                        let kv = choose|kv: int| self.valid_at(l0, kv);
                        lemma_linked_at_unique(*self, l0, kv, k);
                    }
                    assert(!self.valid(l0));
                }
                Err(Error::Stale(NeedsUpdate))
            }
        }
    }
}

impl Cursor {
    /// Retrying insert: attempt the single-shot insert and, on a stale
    /// cursor, re-sync with `update` and try again. Needs a copyable
    /// payload, since a failed attempt consumes its argument.
    pub fn insert<T: Copy>(&mut self, list: &mut List<T>, data: T) -> (r: Result<(), Error>)
        requires
            old(list).wf(),
            old(self).linked(*old(list)),
        ensures
            final(list).wf(),
            final(list).first == old(list).first,
            final(list).last == old(list).last,
            r is Ok,
            final(self).pre_cell == old(self).pre_cell,
            final(self).pre_aux == old(self).pre_aux,
            forall|k: int|
                #[trigger] old(self).linked_at(*old(list), k) ==> {
                    &&& final(list).values() == old(list).values().insert(k / 2, data)
                    &&& final(list).cells@.len() == old(list).cells@.len() + 2
                },
            forall|i: usize|
                i < old(list).cells@.len() && !old(list).on_spine(i) ==> !final(list).on_spine(i),
    {
        let ghost l0 = *old(list);
        let ghost c0 = *old(self);
        let ghost mut fuel: int = 2;
        loop
            invariant_except_break
                1 <= fuel <= 2,
                list.wf(),
                self.linked(*list),
                self.pre_cell == c0.pre_cell,
                self.pre_aux == c0.pre_aux,
                list.untouched(l0),
                fuel == 1 ==> self.valid(*list),
                l0.wf(),
                c0.linked(l0),
            ensures
                list.wf(),
                list.first == l0.first,
                list.last == l0.last,
                self.pre_cell == c0.pre_cell,
                self.pre_aux == c0.pre_aux,
                forall|k: int|
                    #[trigger] c0.linked_at(l0, k) ==> {
                        &&& list.values() == l0.values().insert(k / 2, data)
                        &&& list.cells@.len() == l0.cells@.len() + 2
                    },
                forall|i: usize| i < l0.cells@.len() && !l0.on_spine(i) ==> !list.on_spine(i),
            decreases fuel,
        {
            let ghost l_pre = *list;
            let r = self.try_insert(list, data);
            match r {
                Ok(()) => {
                    proof {
                        let kv = choose|kv: int| self.valid_at(l_pre, kv);
                        assert(self.valid_at(l_pre, kv));
                        assert forall|k: int| #[trigger] c0.linked_at(l0, k) implies {
                            &&& list.values() == l0.values().insert(k / 2, data)
                            &&& list.cells@.len() == l0.cells@.len() + 2
                        } by {
                            lemma_linked_at_unique(c0, l0, k, kv);
                        }
                    }
                    break ;
                }
                Err(_e) => {
                    proof {
                        // A failed attempt means the cursor was stale, so
                        // this is the first pass: the re-sync below makes
                        // the second one succeed.
                        assert(!self.valid(l_pre));
                        assert(fuel == 2);
                        let kk0 = choose|kk0: int| self.linked_at(l_pre, kk0);
                        assert(self.linked_at(l_pre, kk0));
                        assert(self.linked_at(*list, kk0));
                        assert(self.linked(*list));
                    }
                    let ghost c_pre = *self;
                    match self.update(list) {
                        Ok(()) => {}
                        Err(e) => {
                            return Err(e);
                        }
                    }
                    proof {
                        let kk = choose|kk: int| c_pre.linked_at(l_pre, kk);
                        assert(c_pre.linked_at(l_pre, kk));
                        assert(self.valid_at(*list, kk));
                        assert(self.valid(*list));
                        fuel = fuel - 1;
                    }
                }
            }
        }
        Ok(())
    }
}

} // verus!
