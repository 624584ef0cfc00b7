use vstd::prelude::*;

use crate::cursor::Cursor;
use crate::cursor::lemma_linked_at_unique;
use crate::errors::Error;
use crate::errors::NeedsUpdate;
use crate::list::List;

verus! {

impl Cursor {
    /// Phase one of the delete: swing `pre_aux`'s next slot past the target
    /// by compare-and-swap, making the target unreachable from the spine.
    /// Returns the outlinked data cell and the auxiliary cell that followed
    /// it. Fails with a stale-cursor error when no target is resolved or
    /// the compare-and-swap refuses; deleting the tail is a programmatic
    /// error.
    fn outlink_target<T>(&mut self, list: &mut List<T>) -> (r: Result<(usize, usize), Error>)
        requires
            old(list).wf(),
            old(self).target is None || (old(self).linked(*old(list)) && old(self).target_ok(
                *old(list),
            )),
        ensures
            final(self).pre_cell == old(self).pre_cell,
            final(self).pre_aux == old(self).pre_aux,
            final(list).first == old(list).first,
            final(list).last == old(list).last,
            final(list).sp() == old(list).sp(),
            final(list).cells@.len() == old(list).cells@.len(),
            old(self).target is None ==> (r matches Err(Error::Stale(_)) && final(list).untouched(
                *old(list),
            ) && *final(self) == *old(self)),
            forall|k: int|
                #[trigger] old(self).linked_at(*old(list), k) ==> (old(self).target matches Some(t)
                    ==> (if t == old(list).sp()[k + 2] && k + 2 < old(list).sp().len() - 1 {
                    &&& r == Ok::<(usize, usize), Error>((t, old(list).sp()[k + 3]))
                    &&& final(self).target is None
                    &&& forall|i: int|
                        0 <= i < old(list).cells@.len() && i != old(list).sp()[k + 1]
                            ==> final(list).cells@[i] == old(list).cells@[i]
                    &&& final(list).cells@[old(self).pre_aux as int] == old(list).cells@[old(
                        self,
                    ).pre_aux as int].with_links(
                        crate::cell::Links {
                            next: Some(old(list).sp()[k + 3]),
                            back_link: crate::list::spec_back_link_field(
                                old(list).cells@[old(self).pre_aux as int],
                            ),
                        },
                    )
                } else {
                    &&& r is Err
                    &&& final(list).untouched(*old(list))
                    &&& *final(self) == *old(self)
                    &&& (t == old(list).sp()[k + 2] && k + 2 == old(list).sp().len() - 1
                        ==> r matches Err(Error::Fatal))
                    &&& (t != old(list).sp()[k + 2] && !old(list).cells@[t as int].spec_is_last()
                        && old(list).cells@[t as int].next_of() is Some ==> r matches Err(
                        Error::Stale(_),
                    ))
                    &&& (t != old(list).sp()[k + 2] && (old(list).cells@[t as int].spec_is_last()
                        || old(list).cells@[t as int].next_of() is None) ==> r matches Err(
                        Error::Fatal,
                    ))
                })),
    {
        let ghost l0 = *list;
        let ghost c0 = *self;
        let target = match self.target {
            None => {
                return Err(Error::Stale(NeedsUpdate));
            }
            Some(t) => t,
        };
        let ghost k = choose|k: int| c0.linked_at(l0, k);
        proof {
            assert(c0.linked_at(l0, k));
            assert(l0.at(k + 1).next_of() == Some(l0.sp()[k + 2]));
        }
        if list.cells[target].is_last() {
            return Err(Error::Fatal);
        }
        let d = target;
        let n = match list.cells[d].next_dup() {
            Some(n) => n,
            None => {
                return Err(Error::Fatal);
            }
        };
        match list.cells[self.pre_aux].swap_in_next(d, Some(n)) {
            Ok(_evicted) => {
                proof {
                    // The compare-and-swap succeeded, so the target really
                    // was the cell after `pre_aux` on the spine, and it is
                    // a data cell (the tail was refused above).
                    assert(d == l0.sp()[k + 2]);
                    if k + 2 == l0.sp().len() - 1 {
                        assert(l0.at(k + 2).spec_is_last());
                    }
                    assert(k + 2 < l0.sp().len() - 1);
                    assert(l0.at(k + 2).next_of() == Some(l0.sp()[k + 3]));
                    assert(n == l0.sp()[k + 3]);
                }
                self.target = None;
                proof {
                    assert forall|k2: int| c0.linked_at(l0, k2) implies k2 == k by {
                        lemma_linked_at_unique(c0, l0, k2, k);
                    }
                }
                Ok((d, n))
            }
            Err(_e) => {
                proof {
                    assert(list.cells@ =~= l0.cells@);
                    assert(d != l0.sp()[k + 2]);
                    assert forall|k2: int| c0.linked_at(l0, k2) implies k2 == k by {
                        lemma_linked_at_unique(c0, l0, k2, k);
                    }
                }
                Err(Error::Stale(NeedsUpdate))
            }
        }
    }

    /// Walk backlinks from `pre_cell` to a stable predecessor: a cell that
    /// has not itself been outlinked carries no backlink, and the head is
    /// the fixpoint, since it never acquires one. The ghost `chain` names
    /// the finite backlink chain the walk follows: it starts at `pre_cell`,
    /// each step reads the stored backlink, and its last entry carries
    /// none; the walk stops there and reads that predecessor's successor.
    /// (A reachable cell carries no backlink, so callers on the spine pass
    /// the singleton chain, but the walk is proved for every finite chain.)
    fn calculate_delete_start<T>(&self, list: &List<T>, Ghost(chain): Ghost<Seq<usize>>) -> (r:
        Result<(usize, usize), Error>)
        requires
            chain.len() >= 1,
            chain[0] == self.pre_cell,
            forall|i: int| 0 <= i < chain.len() ==> #[trigger] chain[i] < list.cells@.len(),
            forall|i: int|
                0 <= i < chain.len() - 1 ==> (#[trigger] list.cells@[chain[i] as int].back_of())
                    == Some(chain[i + 1]),
            list.cells@[chain[chain.len() - 1] as int].back_of() is None,
        ensures
            list.cells@[chain[chain.len() - 1] as int].next_of() matches Some(s) ==> r == Ok::<
                (usize, usize),
                Error,
            >((chain[chain.len() - 1], s)),
            list.cells@[chain[chain.len() - 1] as int].next_of() is None ==> r matches Err(
                Error::Fatal,
            ),
    {
        let ghost mut pos: int = 0;
        let mut p = self.pre_cell;
        loop
            invariant
                0 <= pos < chain.len(),
                p == chain[pos],
                forall|i: int| 0 <= i < chain.len() ==> #[trigger] chain[i] < list.cells@.len(),
                forall|i: int|
                    0 <= i < chain.len() - 1 ==> (#[trigger] list.cells@[chain[i]
                        as int].back_of()) == Some(chain[i + 1]),
                list.cells@[chain[chain.len() - 1] as int].back_of() is None,
            ensures
                p == chain[chain.len() - 1],
                p < list.cells@.len(),
            decreases chain.len() - pos,
        {
            match list.cells[p].backlink_dup() {
                Some(q) => {
                    proof {
                        // The chain's last entry carries no backlink, so a
                        // stored one means the walk is still inside the
                        // chain.
                        assert(pos < chain.len() - 1);
                        pos = pos + 1;
                    }
                    p = q;
                }
                None => {
                    proof {
                        // No backlink ends the walk exactly at the chain's
                        // last entry: every inner entry carries one.
                        assert(pos == chain.len() - 1);
                    }
                    break ;
                }
            }
        }
        let s = match list.cells[p].next_dup() {
            Some(s) => s,
            None => {
                return Err(Error::Fatal);
            }
        };
        Ok((p, s))
    }

    /// Whether `n` is the final auxiliary cell of the run trailing the
    /// deleted region: true iff the cell after `n` is a normal cell. Used
    /// only to classify a failed unlink compare-and-swap.
    fn n_is_last_aux<T>(list: &List<T>, n: &usize) -> (r: Result<bool, Error>)
        requires
            *n < list.cells@.len(),
            list.cells@[*n as int].next_of() matches Some(m) && m < list.cells@.len(),
        ensures
            list.cells@[*n as int].next_of() matches Some(m) && r == Ok::<bool, Error>(
                list.cells@[m as int].spec_is_normal(),
            ),
    {
        let n_next = match list.cells[*n].next_dup() {
            Some(m) => m,
            None => {
                return Err(Error::Fatal);
            }
        };
        Ok(list.cells[n_next].is_normal_cell())
    }

    /// Extend the removal window from `n` across any finite run of
    /// auxiliary cells, stopping at the last one before a normal cell. The
    /// ghost `run` names the cells the walk passes through: it starts at
    /// `n`, each step follows `next` onto another non-normal cell, and the
    /// cell after its last entry is normal; the walk returns that last
    /// entry. (Between operations the structural invariant leaves no
    /// auxiliary run longer than one cell, so callers pass the singleton
    /// run, but the walk is proved for every finite run.)
    fn advance_delete_end<T>(list: &List<T>, n: usize, Ghost(run): Ghost<Seq<usize>>) -> (r:
        Result<usize, Error>)
        requires
            run.len() >= 1,
            run[0] == n,
            forall|i: int| 0 <= i < run.len() ==> #[trigger] run[i] < list.cells@.len(),
            forall|i: int|
                0 <= i < run.len() - 1 ==> (#[trigger] list.cells@[run[i] as int].next_of())
                    == Some(run[i + 1]) && !list.cells@[run[i + 1] as int].spec_is_normal(),
            list.cells@[run[run.len() - 1] as int].next_of() matches Some(m) && m
                < list.cells@.len() && list.cells@[m as int].spec_is_normal(),
        ensures
            r == Ok::<usize, Error>(run[run.len() - 1]),
    {
        let ghost mut pos: int = 0;
        let mut n = n;
        let mut n_next = match list.cells[n].next_dup() {
            Some(m) => m,
            None => {
                return Err(Error::Fatal);
            }
        };
        while !list.cells[n_next].is_normal_cell()
            invariant
                0 <= pos < run.len(),
                n == run[pos],
                n_next < list.cells@.len(),
                list.cells@[n as int].next_of() == Some(n_next),
                pos < run.len() - 1 ==> n_next == run[pos + 1],
                forall|i: int| 0 <= i < run.len() ==> #[trigger] run[i] < list.cells@.len(),
                forall|i: int|
                    0 <= i < run.len() - 1 ==> (#[trigger] list.cells@[run[i] as int].next_of())
                        == Some(run[i + 1]) && !list.cells@[run[i + 1] as int].spec_is_normal(),
                list.cells@[run[run.len() - 1] as int].next_of() matches Some(m) && m
                    < list.cells@.len() && list.cells@[m as int].spec_is_normal(),
            decreases run.len() - pos,
        {
            proof {
                // The cell after the run's last entry is normal, so a
                // non-normal successor means the walk is still inside the
                // run.
                assert(pos < run.len() - 1);
                pos = pos + 1;
            }
            n = n_next;
            n_next = match list.cells[n].next_dup() {
                Some(m) => m,
                None => {
                    return Err(Error::Fatal);
                }
            };
        }
        proof {
            // A normal successor ends the walk exactly at the run's last
            // entry: every inner entry is followed by a non-normal cell.
            assert(pos == run.len() - 1);
        }
        Ok(n)
    }

    /// Single-attempt delete of the current target. Phase one outlinks the
    /// target; then a backlink to the stable predecessor is published on
    /// the removed cell, and phase two physically unlinks the span up to
    /// the last trailing auxiliary cell, retrying the compare-and-swap
    /// until it succeeds or a concurrent deletion is seen to have taken
    /// over. Returns the handle of the removed data cell, which keeps its
    /// payload.
    pub fn try_delete<T>(&mut self, list: &mut List<T>) -> (r: Result<usize, Error>)
        requires
            old(list).wf(),
            old(self).target is None || (old(self).linked(*old(list)) && old(self).target_ok(
                *old(list),
            )),
        ensures
            final(self).pre_cell == old(self).pre_cell,
            final(self).pre_aux == old(self).pre_aux,
            final(list).first == old(list).first,
            final(list).last == old(list).last,
            final(list).cells@.len() == old(list).cells@.len(),
            old(self).target is None ==> (r matches Err(Error::Stale(_)) && final(list).untouched(
                *old(list),
            ) && *final(self) == *old(self)),
            forall|k: int|
                #[trigger] old(self).linked_at(*old(list), k) ==> (old(self).target matches Some(t)
                    ==> (if t == old(list).sp()[k + 2] && k + 2 < old(list).sp().len() - 1 {
                    &&& r == Ok::<usize, Error>(t)
                    &&& final(list).wf()
                    &&& final(list).values() == old(list).values().remove(k / 2)
                    &&& final(list).sp() == old(list).sp().subrange(0, k + 1) + old(
                        list,
                    ).sp().subrange(k + 3, old(list).sp().len() as int)
                    &&& final(list).cells@[t as int].spec_is_data()
                    &&& final(list).cells@[t as int].data_of() == old(list).values()[k / 2]
                    &&& final(list).cells@[t as int].back_of() == Some(old(self).pre_cell)
                    &&& !final(list).on_spine(t)
                    &&& final(self).target is None
                } else {
                    &&& r is Err
                    &&& final(list).untouched(*old(list))
                    &&& *final(self) == *old(self)
                    &&& (t == old(list).sp()[k + 2] && k + 2 == old(list).sp().len() - 1
                        ==> r matches Err(Error::Fatal))
                    &&& (t != old(list).sp()[k + 2] && !old(list).cells@[t as int].spec_is_last()
                        && old(list).cells@[t as int].next_of() is Some ==> r matches Err(
                        Error::Stale(_),
                    ))
                    &&& (t != old(list).sp()[k + 2] && (old(list).cells@[t as int].spec_is_last()
                        || old(list).cells@[t as int].next_of() is None) ==> r matches Err(
                        Error::Fatal,
                    ))
                })),
            forall|i: usize|
                i < old(list).cells@.len() && !old(list).on_spine(i) ==> !final(list).on_spine(i),
    {
        let ghost l0 = *list;
        let ghost c0 = *self;
        let (d, n) = match self.outlink_target(list) {
            Ok(dn) => dn,
            Err(e) => {
                return Err(e);
            }
        };
        let ghost after_outlink = *list;
        let ghost k = choose|k: int| c0.linked_at(l0, k);
        proof {
            assert(c0.linked_at(l0, k));
            assert(d == l0.sp()[k + 2] && k + 2 < l0.sp().len() - 1);
            assert(n == l0.sp()[k + 3]);
            assert(k + 2 <= l0.sp().len() - 3);
            assert(l0.sp()[k] != l0.sp()[k + 1] && l0.sp()[k + 2] != l0.sp()[k + 1]);
            assert(list.cells@[l0.sp()[k] as int] == l0.at(k));
            assert(l0.at(k).back_of() is None);
            assert(l0.at(k).next_of() == Some(l0.sp()[k + 1]));
            assert(l0.sp()[k] < l0.cells@.len());
        }
        // The anchor stands on the spine, where no cell carries a
        // backlink: the walk's chain is the anchor alone.
        let ghost chain0: Seq<usize> = seq![self.pre_cell];
        proof {
            assert(chain0[0] == l0.sp()[k]);
            assert(list.cells@[chain0[0] as int].back_of() is None);
            assert(list.cells@[chain0[0] as int].next_of() == Some(l0.sp()[k + 1]));
        }
        let (p, s) = match self.calculate_delete_start(list, Ghost(chain0)) {
            Ok(ps) => ps,
            Err(e) => {
                return Err(e);
            }
        };
        proof {
            assert(p == l0.sp()[k] && s == l0.sp()[k + 1]);
        }
        list.cells[d].store_backlink(Some(p));
        proof {
            assert(list.cells@[n as int] == l0.at(k + 3));
            assert(l0.at(k + 3).next_of() == Some(l0.sp()[k + 4]));
            assert(l0.sp()[k + 4] < l0.cells@.len());
            if k + 4 < l0.sp().len() - 1 {
                assert(l0.at(k + 4).spec_is_data());
            } else {
                assert(l0.at(k + 4).spec_is_last());
            }
            assert(list.cells@[l0.sp()[k + 4] as int] == l0.at(k + 4));
        }
        // Quiesced, the auxiliary cell after the outlinked target is
        // already the last of its run: the walk's run is that cell alone.
        let ghost run0: Seq<usize> = seq![n];
        proof {
            assert(run0[0] == n);
        }
        let n = match Cursor::advance_delete_end(list, n, Ghost(run0)) {
            Ok(n) => n,
            Err(e) => {
                return Err(e);
            }
        };
        let ghost mid = *list;
        proof {
            assert(after_outlink.cells@[l0.sp()[k] as int] == l0.cells@[l0.sp()[k] as int]);
            assert(mid.cells@[l0.sp()[k] as int] == after_outlink.cells@[l0.sp()[k] as int]);
        }
        let mut s = s;
        loop
            invariant_except_break
                *list == mid,
                l0.wf(),
                p == l0.sp()[k],
                s == l0.sp()[k + 1],
                n == l0.sp()[k + 3],
                p < mid.cells@.len(),
                mid.cells@[p as int] == l0.at(k),
                mid.cells@[p as int].next_of() == Some(s),
            ensures
                list.first == mid.first,
                list.last == mid.last,
                list.sp() == mid.sp(),
                list.cells@.len() == mid.cells@.len(),
                forall|i: int|
                    0 <= i < mid.cells@.len() && i != l0.sp()[k] ==> list.cells@[i]
                        == mid.cells@[i],
                list.cells@[l0.sp()[k] as int] == mid.cells@[l0.sp()[k] as int].with_links(
                    crate::cell::Links {
                        next: Some(l0.sp()[k + 3]),
                        back_link: crate::list::spec_back_link_field(
                            mid.cells@[l0.sp()[k] as int],
                        ),
                    },
                ),
            decreases 1int,
        {
            let res = list.cells[p].swap_in_next(s, Some(n));
            let res_ok = match res {
                Ok(_) => true,
                Err(_) => false,
            };
            if !res_ok {
                s = match list.cells[p].next_dup() {
                    Some(x) => x,
                    None => {
                        // Unreachable: the predecessor's next slot is never
                        // empty here.
                        proof {
                            assert(false);
                        }
                        return Err(Error::Fatal);
                    }
                };
            }
            match DeleteLoopCondition::new(res_ok, p, n, list) {
                Ok(DeleteLoopCondition::Failure) => {}
                Ok(DeleteLoopCondition::Success) | Ok(DeleteLoopCondition::ConcurrentDelForward)
                    | Ok(DeleteLoopCondition::ConcurrentDelPrev) => {
                    break ;
                }
                Err(e) => {
                    // Unreachable: classification of a successful swap
                    // never errs.
                    proof {
                        assert(false);
                    }
                    return Err(e);
                }
            }
        }
        let ghost new_sp = l0.sp().subrange(0, k + 1) + l0.sp().subrange(
            k + 3,
            l0.sp().len() as int,
        );
        list.spine = Ghost(new_sp);
        proof {
            assert forall|i: int|
                0 <= i < l0.cells@.len() && i != l0.sp()[k] && i != l0.sp()[k + 1] && i != l0.sp()[k
                    + 2] implies list.cells@[i] == l0.cells@[i] by {
                assert(after_outlink.cells@[i] == l0.cells@[i]);
                assert(mid.cells@[i] == after_outlink.cells@[i]);
                assert(list.cells@[i] == mid.cells@[i]);
            }
            assert(mid.cells@[l0.sp()[k] as int] == l0.at(k));
            crate::list::lemma_splice_out(l0, *list, k);
            assert(list.cells@[d as int] == mid.cells@[d as int]);
            assert(list.cells@[d as int].spec_is_data());
            assert(list.cells@[d as int].data_of() == l0.at(k + 2).data_of());
            assert(list.cells@[d as int].back_of() == Some(c0.pre_cell));
            assert(l0.values()[k / 2] == l0.at(2 * (k / 2) + 2).data_of());
            assert(2 * (k / 2) + 2 == k + 2);
            assert forall|k2: int| c0.linked_at(l0, k2) implies k2 == k by {
                lemma_linked_at_unique(c0, l0, k2, k);
            }
        }
        Ok(d)
    }

    /// A resolved target that the delete protocol can neither remove nor
    /// classify as stale at anchor position `k`: it is not the cell after
    /// `pre_aux`, and the cell it names is the tail sentinel or has an
    /// empty `next` slot, so the single-shot delete reports a programmatic
    /// error rather than a stale cursor.
    pub open spec fn target_broken<T>(self, list: List<T>, k: int) -> bool {
        self.target matches Some(t) && t != list.sp()[k + 2] && (
        list.cells@[t as int].spec_is_last() || list.cells@[t as int].next_of() is None)
    }

    /// Retrying delete: attempt the single-shot delete and, on a
    /// stale-cursor error (an unresolved or stale target), re-sync with
    /// `update` and try again. Any other error propagates. Returns the
    /// handle of the removed data cell.
    pub fn delete<T>(self, list: &mut List<T>) -> (r: Result<usize, Error>)
        requires
            old(list).wf(),
            self.linked(*old(list)),
            self.target_ok(*old(list)),
        ensures
            final(list).first == old(list).first,
            final(list).last == old(list).last,
            forall|k: int|
                #[trigger] self.linked_at(*old(list), k) ==> (if self.target_broken(
                    *old(list),
                    k,
                ) {
                    r matches Err(Error::Fatal) && final(list).untouched(*old(list))
                } else if k + 2 < old(list).sp().len() - 1 {
                    &&& r == Ok::<usize, Error>(old(list).sp()[k + 2])
                    &&& final(list).wf()
                    &&& final(list).values() == old(list).values().remove(k / 2)
                    &&& final(list).cells@[old(list).sp()[k + 2] as int].spec_is_data()
                    &&& final(list).cells@[old(list).sp()[k + 2] as int].data_of() == old(
                        list,
                    ).values()[k / 2]
                    &&& !final(list).on_spine(old(list).sp()[k + 2])
                } else {
                    &&& r matches Err(Error::Fatal)
                    &&& final(list).untouched(*old(list))
                }),
            forall|i: usize|
                i < old(list).cells@.len() && !old(list).on_spine(i) ==> !final(list).on_spine(i),
    {
        let ghost l0 = *list;
        let ghost k = choose|k: int| self.linked_at(l0, k);
        proof {
            assert(self.linked_at(l0, k));
            assert forall|k2: int| self.linked_at(l0, k2) implies k2 == k by {
                lemma_linked_at_unique(self, l0, k2, k);
            }
        }
        let mut cur = self;
        let ghost mut fuel: int = 2;
        loop
            invariant
                1 <= fuel <= 2,
                l0 == *old(list),
                l0.wf(),
                list.untouched(l0),
                list.wf(),
                cur.pre_cell == self.pre_cell,
                cur.pre_aux == self.pre_aux,
                self.linked_at(l0, k),
                forall|k2: int| self.linked_at(l0, k2) ==> k2 == k,
                cur.target_ok(*list),
                fuel == 2 ==> cur == self,
                fuel == 1 ==> cur.valid(*list) && !self.target_broken(l0, k),
            decreases fuel,
        {
            let ghost l_pre = *list;
            let ghost cur_pre = cur;
            proof {
                assert(cur_pre.linked_at(l_pre, k));
            }
            match cur.try_delete(list) {
                Ok(res) => {
                    proof {
                        // A success came from a target that was exactly the
                        // cell after the anchor.
                        assert(cur_pre.target is Some);
                        crate::list::lemma_same_state(l0, l_pre);
                    }
                    return Ok(res);
                }
                Err(e) => {
                    match &e {
                        Error::Stale(_) => {
                            proof {
                                // An already re-synced cursor cannot report
                                // staleness, so this is the first pass.
                                if fuel == 1 {
                                    assert(cur_pre.target == Some(l_pre.sp()[k + 2]));
                                    assert(false);
                                }
                                assert(fuel == 2);
                                // The first pass saw an unresolved or stale
                                // live target, never a broken one.
                                assert(!self.target_broken(l0, k));
                                assert(list.untouched(l_pre));
                                assert(cur == cur_pre);
                                assert(cur.linked_at(*list, k));
                                assert(cur.linked(*list));
                                crate::list::lemma_same_state(l_pre, *list);
                            }
                            match cur.update(list) {
                                Ok(()) => {}
                                Err(e2) => {
                                    return Err(e2);
                                }
                            }
                            proof {
                                assert(cur.valid_at(*list, k));
                                assert(cur.valid(*list));
                                fuel = fuel - 1;
                            }
                        }
                        _ => {
                            proof {
                                // A fatal error: the cursor stood before
                                // the tail, or its stale target named the
                                // tail or a drained cell.
                                assert(cur_pre.target is Some);
                                if fuel == 1 {
                                    assert(cur_pre.target == Some(l_pre.sp()[k + 2]));
                                    assert(k + 2 == l0.sp().len() - 1);
                                }
                                assert(list.untouched(l_pre));
                                assert(list.untouched(l0));
                            }
                            return Err(e);
                        }
                    }
                }
            }
        }
    }
}

/// Classification of one round of the unlink retry loop: the
/// compare-and-swap succeeded; or the predecessor has itself been
/// concurrently deleted (it gained a backlink); or another delete extended
/// the auxiliary run past `n`; or the failure is transient and the round is
/// retried with a refreshed successor.
enum DeleteLoopCondition {
    Success,
    Failure,
    ConcurrentDelForward,
    ConcurrentDelPrev,
}

impl DeleteLoopCondition {
    /// Classify the outcome `res` of an unlink compare-and-swap through
    /// predecessor `p` and window end `n`.
    fn new<T>(res: bool, p: usize, n: usize, list: &List<T>) -> (r: Result<
        DeleteLoopCondition,
        Error,
    >)
        requires
            p < list.cells@.len(),
            !res && list.cells@[p as int].back_of() is None ==> n < list.cells@.len() && (
            list.cells@[n as int].next_of() matches Some(m) && m < list.cells@.len()),
        ensures
            res ==> r == Ok::<DeleteLoopCondition, Error>(DeleteLoopCondition::Success),
            !res && list.cells@[p as int].back_of() is Some ==> r == Ok::<
                DeleteLoopCondition,
                Error,
            >(DeleteLoopCondition::ConcurrentDelPrev),
            !res && list.cells@[p as int].back_of() is None ==> {
                &&& list.cells@[n as int].next_of() matches Some(m)
                &&& (if list.cells@[m as int].spec_is_normal() {
                    r == Ok::<DeleteLoopCondition, Error>(DeleteLoopCondition::Failure)
                } else {
                    r == Ok::<DeleteLoopCondition, Error>(
                        DeleteLoopCondition::ConcurrentDelForward,
                    )
                })
            },
    {
        if res {
            return Ok(DeleteLoopCondition::Success);
        }
        let backlink = list.cells[p].backlink_dup();
        match backlink {
            Some(_) => {
                return Ok(DeleteLoopCondition::ConcurrentDelPrev);
            }
            None => {}
        }
        let last_aux = match Cursor::n_is_last_aux(list, &n) {
            Ok(b) => b,
            Err(e) => {
                return Err(e);
            }
        };
        if !last_aux {
            return Ok(DeleteLoopCondition::ConcurrentDelForward);
        }
        Ok(DeleteLoopCondition::Failure)
    }
}

} // verus!
