use vstd::prelude::*;

use crate::cell::Cell;
use crate::cell::Links;
use crate::cursor::Cursor;
use crate::errors::Error;

verus! {

/// The list: an arena of cells together with the handles of the two
/// sentinels. Cells are addressed by their index in the arena; a removed
/// cell stays allocated (so stale handles never dangle) but is no longer
/// reachable from the head.
///
/// The ghost field `spine` mirrors the chain of cells reachable from the
/// head by `next`: `spine[0]` is the head, `spine[len-1]` the tail, and
/// consecutive entries are linked. The structural invariant [`List::wf`]
/// states the alternation law over it: head, then `(aux, data)*`, then one
/// final aux and the tail.
pub struct List<T> {
    pub cells: Vec<Cell<T>>,
    pub first: usize,
    pub last: usize,
    pub spine: Ghost<Seq<usize>>,
}

impl<T> List<T> {
    /// The ghost spine: the indices of the cells reachable from the head,
    /// in order.
    pub open spec fn sp(self) -> Seq<usize> {
        self.spine@
    }

    /// The cell standing at spine position `k`.
    pub open spec fn at(self, k: int) -> Cell<T> {
        self.cells@[self.sp()[k] as int]
    }

    /// Whether the cell with handle `i` is reachable from the head.
    pub open spec fn on_spine(self, i: usize) -> bool {
        self.sp().contains(i)
    }

    /// Structural well-formedness, the invariant every operation preserves:
    /// the spine starts at the head sentinel and ends at the tail sentinel,
    /// consecutive spine cells are linked by `next` (so no reachable
    /// non-tail cell has an empty `next` slot), spine entries are distinct
    /// arena indices, cells strictly alternate — auxiliary cells at odd
    /// positions, data cells at even interior positions — and no reachable
    /// cell carries a backlink.
    pub open spec fn wf(self) -> bool {
        let s = self.sp();
        &&& 3 <= s.len()
        &&& s.len() % 2 == 1
        &&& forall|k: int| 0 <= k < s.len() ==> #[trigger] s[k] < self.cells@.len()
        &&& forall|k1: int, k2: int|
            0 <= k1 < k2 < s.len() ==> #[trigger] s[k1] != #[trigger] s[k2]
        &&& s[0] == self.first
        &&& s[s.len() - 1] == self.last
        &&& self.at(0).spec_is_first()
        &&& self.at(s.len() - 1).spec_is_last()
        &&& forall|k: int|
            0 < k < s.len() - 1 && k % 2 == 1 ==> (#[trigger] self.at(k)).spec_is_aux()
        &&& forall|k: int|
            0 < k < s.len() - 1 && k % 2 == 0 ==> (#[trigger] self.at(k)).spec_is_data()
        &&& forall|k: int|
            0 <= k < s.len() - 1 ==> (#[trigger] self.at(k)).next_of() == Some(s[k + 1])
        &&& forall|k: int| 0 <= k < s.len() ==> (#[trigger] self.at(k)).back_of() is None
    }

    /// The payloads of the reachable data cells, in traversal order.
    pub open spec fn values(self) -> Seq<T> {
        Seq::new(((self.sp().len() - 3) / 2) as nat, |i: int| self.at(2 * i + 2).data_of())
    }

    /// Whether `other` and `self` are the same list state: same arena
    /// contents, same sentinels, same spine.
    pub open spec fn untouched(self, other: List<T>) -> bool {
        &&& self.cells@ == other.cells@
        &&& self.first == other.first
        &&& self.last == other.last
        &&& self.sp() == other.sp()
    }

    /// Build the empty skeleton `head -> aux -> tail`.
    pub fn new() -> (l: List<T>)
        ensures
            l.wf(),
            l.values() == Seq::<T>::empty(),
            l.sp() == seq![2usize, 1usize, 0usize],
            l.cells@.len() == 3,
    {
        let mut cells: Vec<Cell<T>> = Vec::new();
        cells.push(Cell::new_last());
        cells.push(Cell::new_aux(0));
        cells.push(Cell::new_first(1));
        let ghost sp0: Seq<usize> = seq![2usize, 1usize, 0usize];
        let l = List::<T> { cells, first: 2, last: 0, spine: Ghost(sp0) };
        proof {
            assert forall|k: int| 0 <= k < l.sp().len() - 1 implies (#[trigger] l.at(k)).next_of()
                == Some(l.sp()[k + 1]) by {
                assert(l.sp() =~= seq![2usize, 1usize, 0usize]);
            }
            assert(l.at(0).spec_is_first());
            assert(l.at(2).spec_is_last());
            assert(l.values() =~= Seq::<T>::empty());
        }
        l
    }

    /// A cursor standing before the first data cell (or before the tail of
    /// an empty list): its pre-cell is the head, its pre-aux the head's
    /// successor, and `update` has resolved its target.
    pub fn first(&mut self) -> (r: Result<Cursor, Error>)
        requires
            old(self).wf(),
        ensures
            final(self).untouched(*old(self)),
            final(self).wf(),
            r matches Ok(c) && c.valid_at(*final(self), 0),
            r matches Ok(c) && c == (Cursor {
                target: Some(old(self).sp()[2]),
                pre_aux: old(self).sp()[1],
                pre_cell: old(self).sp()[0],
            }),
    {
        let pre_cell = self.first;
        let pre_aux = match self.cells[pre_cell].next_dup() {
            Some(a) => a,
            None => {
                proof {
                    assert(self.at(0).next_of() == Some(self.sp()[1]));
                }
                return Err(Error::Fatal);
            }
        };
        proof {
            assert(self.at(0).next_of() == Some(self.sp()[1]));
        }
        let mut c = Cursor::new(pre_cell, pre_aux);
        proof {
            assert(c.linked_at(*self, 0));
        }
        match c.update(self) {
            Ok(()) => Ok(c),
            Err(e) => Err(e),
        }
    }
}

/// Two lists in the same state (same arena, sentinels and spine) share
/// well-formedness and their value sequence.
pub proof fn lemma_same_state<T>(l0: List<T>, l1: List<T>)
    requires
        l0.wf(),
        l1.untouched(l0),
    ensures
        l1.wf(),
        l1.values() == l0.values(),
{
    assert forall|j: int| 0 <= j < l1.sp().len() implies #[trigger] l1.at(j) == l0.at(j) by {}
    assert(l1.wf());
    assert(l1.values() =~= l0.values());
}

/// Every entry of the spliced-in spine is one of the two fresh handles or an
/// entry of the old spine.
pub proof fn lemma_spliced_in_entry<T>(
    l0: List<T>,
    new_sp: Seq<usize>,
    k: int,
    d: usize,
    a: usize,
    j: int,
)
    requires
        l0.wf(),
        0 <= k <= l0.sp().len() - 3,
        new_sp == l0.sp().subrange(0, k + 2) + seq![d, a] + l0.sp().subrange(
            k + 2,
            l0.sp().len() as int,
        ),
        0 <= j < new_sp.len(),
    ensures
        new_sp[j] == d || new_sp[j] == a || l0.sp().contains(new_sp[j]),
{
    if j < k + 2 {
        assert(new_sp[j] == l0.sp()[j]);
        assert(l0.sp().contains(new_sp[j]));
    } else if j == k + 2 {
        assert(new_sp[j] == d);
    } else if j == k + 3 {
        assert(new_sp[j] == a);
    } else {
        assert(new_sp[j] == l0.sp()[j - 2]);
        assert(l0.sp().contains(new_sp[j]));
    }
}

/// Splicing a fresh `data -> aux` pair in after the auxiliary cell at spine
/// position `k + 1` preserves the structural invariant, and inserts the new
/// payload at position `k / 2` of the value sequence.
pub proof fn lemma_splice_in<T>(l0: List<T>, l1: List<T>, k: int, d: usize, a: usize, v: T)
    requires
        l0.wf(),
        0 <= k <= l0.sp().len() - 3,
        k % 2 == 0,
        a == l0.cells@.len(),
        d == l0.cells@.len() + 1,
        l1.cells@.len() == l0.cells@.len() + 2,
        forall|i: int|
            0 <= i < l0.cells@.len() && i != l0.sp()[k + 1] ==> l1.cells@[i] == #[trigger] l0.cells@[i],
        l1.cells@[l0.sp()[k + 1] as int].spec_is_aux(),
        l1.cells@[l0.sp()[k + 1] as int].next_of() == Some(d),
        l1.cells@[d as int] == (Cell::Data {
            links: Links { next: Some(a), back_link: None },
            data: v,
        }),
        l1.cells@[a as int] == (Cell::<T>::Aux {
            links: Links { next: Some(l0.sp()[k + 2]), back_link: None },
        }),
        l1.sp() == l0.sp().subrange(0, k + 2) + seq![d, a] + l0.sp().subrange(
            k + 2,
            l0.sp().len() as int,
        ),
        l1.first == l0.first,
        l1.last == l0.last,
    ensures
        l1.wf(),
        l1.values() == l0.values().insert(k / 2, v),
{
    let s0 = l0.sp();
    let s1 = l1.sp();
    let n0 = s0.len() as int;
    assert(s1.len() == n0 + 2);
    assert forall|j: int| 0 <= j < k + 2 implies #[trigger] s1[j] == s0[j] by {}
    assert(s1[k + 2] == d);
    assert(s1[k + 3] == a);
    assert forall|j: int| k + 4 <= j < n0 + 2 implies #[trigger] s1[j] == s0[j - 2] by {}
    lemma_splice_in_wf(l0, l1, k, d, a, v);
    lemma_splice_in_values(l0, l1, k, d, a, v);
}

/// The well-formedness half of `lemma_splice_in`, over a pointwise
/// description of the new spine: the spine entries stay distinct arena
/// indices, and the cells standing at them keep the alternation and link
/// laws.
#[verifier::rlimit(100)]
#[verifier::spinoff_prover]
proof fn lemma_splice_in_wf<T>(l0: List<T>, l1: List<T>, k: int, d: usize, a: usize, v: T)
    requires
        l0.wf(),
        0 <= k <= l0.sp().len() - 3,
        k % 2 == 0,
        a == l0.cells@.len(),
        d == l0.cells@.len() + 1,
        l1.cells@.len() == l0.cells@.len() + 2,
        forall|i: int|
            0 <= i < l0.cells@.len() && i != l0.sp()[k + 1] ==> l1.cells@[i] == #[trigger] l0.cells@[i],
        l1.cells@[l0.sp()[k + 1] as int].spec_is_aux(),
        l1.cells@[l0.sp()[k + 1] as int].next_of() == Some(d),
        l1.cells@[d as int] == (Cell::Data {
            links: Links { next: Some(a), back_link: None },
            data: v,
        }),
        l1.cells@[a as int] == (Cell::<T>::Aux {
            links: Links { next: Some(l0.sp()[k + 2]), back_link: None },
        }),
        l1.sp().len() == l0.sp().len() + 2,
        forall|j: int| 0 <= j < k + 2 ==> #[trigger] l1.sp()[j] == l0.sp()[j],
        l1.sp()[k + 2] == d,
        l1.sp()[k + 3] == a,
        forall|j: int| k + 4 <= j < l1.sp().len() ==> #[trigger] l1.sp()[j] == l0.sp()[j - 2],
        l1.first == l0.first,
        l1.last == l0.last,
    ensures
        l1.wf(),
{
    let s0 = l0.sp();
    let s1 = l1.sp();
    let n0 = s0.len() as int;
    lemma_splice_in_entries(l0, l1, k, d, a);
    assert forall|j: int| 0 <= j < k + 1 implies l1.at(j) == l0.at(j) by {
        assert(s0[j] != s0[k + 1]);
    }
    assert forall|j: int| k + 4 <= j < n0 + 2 implies l1.at(j) == l0.at(j - 2) by {
        assert(s0[j - 2] != s0[k + 1]);
    }
    assert(l1.at(k + 1) == l1.cells@[s0[k + 1] as int]);
    assert(l1.at(0) == l0.at(0));
    assert(l1.at(s1.len() - 1) == l0.at(n0 - 1));
    assert forall|j: int|
        0 < j < s1.len() - 1 && j % 2 == 1 implies (#[trigger] l1.at(j)).spec_is_aux() by {
        if j < k + 1 {
            assert(l1.at(j) == l0.at(j));
        } else if j == k + 1 {
            assert(l1.at(j) == l1.cells@[s0[k + 1] as int]);
        } else if j == k + 3 {
            assert(l1.at(j) == l1.cells@[a as int]);
        } else {
            assert(l1.at(j) == l0.at(j - 2));
        }
    }
    assert forall|j: int|
        0 < j < s1.len() - 1 && j % 2 == 0 implies (#[trigger] l1.at(j)).spec_is_data() by {
        if j < k + 1 {
            assert(l1.at(j) == l0.at(j));
        } else if j == k + 2 {
            assert(l1.at(j) == l1.cells@[d as int]);
        } else {
            assert(l1.at(j) == l0.at(j - 2));
        }
    }
    assert forall|j: int|
        0 <= j < s1.len() - 1 implies (#[trigger] l1.at(j)).next_of() == Some(s1[j + 1]) by {
        if j < k + 1 {
            assert(l1.at(j) == l0.at(j));
            assert(l0.at(j).next_of() == Some(s0[j + 1]));
        } else if j == k + 1 {
            assert(l1.at(j).next_of() == Some(d));
        } else if j == k + 2 {
            assert(l1.at(j) == l1.cells@[d as int]);
        } else if j == k + 3 {
            assert(l1.at(j) == l1.cells@[a as int]);
            assert(s1[k + 4] == s0[k + 2]);
        } else {
            assert(l1.at(j) == l0.at(j - 2));
            assert(l0.at(j - 2).next_of() == Some(s0[j - 1]));
            assert(s1[j + 1] == s0[j - 1]);
        }
    }
    assert forall|j: int| 0 <= j < s1.len() implies (#[trigger] l1.at(j)).back_of() is None by {
        if j < k + 1 {
            assert(l1.at(j) == l0.at(j));
        } else if j == k + 1 {
            assert(l1.at(j).spec_is_aux());
        } else if j == k + 2 {
            assert(l1.at(j) == l1.cells@[d as int]);
        } else if j == k + 3 {
            assert(l1.at(j) == l1.cells@[a as int]);
        } else {
            assert(l1.at(j) == l0.at(j - 2));
        }
    }
}

/// Entry-level facts of the spliced-in spine: every entry is a valid arena
/// index, the entries are distinct, and the endpoints are unchanged.
#[verifier::rlimit(100)]
#[verifier::spinoff_prover]
proof fn lemma_splice_in_entries<T>(l0: List<T>, l1: List<T>, k: int, d: usize, a: usize)
    requires
        l0.wf(),
        0 <= k <= l0.sp().len() - 3,
        a == l0.cells@.len(),
        d == l0.cells@.len() + 1,
        l1.cells@.len() == l0.cells@.len() + 2,
        l1.sp().len() == l0.sp().len() + 2,
        forall|j: int| 0 <= j < k + 2 ==> #[trigger] l1.sp()[j] == l0.sp()[j],
        l1.sp()[k + 2] == d,
        l1.sp()[k + 3] == a,
        forall|j: int| k + 4 <= j < l1.sp().len() ==> #[trigger] l1.sp()[j] == l0.sp()[j - 2],
    ensures
        forall|j: int| 0 <= j < l1.sp().len() ==> #[trigger] l1.sp()[j] < l1.cells@.len(),
        forall|j1: int, j2: int|
            0 <= j1 < j2 < l1.sp().len() ==> #[trigger] l1.sp()[j1] != #[trigger] l1.sp()[j2],
        l1.sp()[0] == l0.sp()[0],
        l1.sp()[l1.sp().len() - 1] == l0.sp()[l0.sp().len() - 1],
{
    let s0 = l0.sp();
    let s1 = l1.sp();
    assert forall|j: int| 0 <= j < s1.len() implies #[trigger] s1[j] < l1.cells@.len() by {
        if j < k + 2 {
            assert(s0[j] < l0.cells@.len());
        } else if j >= k + 4 {
            assert(s0[j - 2] < l0.cells@.len());
        }
    }
    assert forall|j1: int, j2: int| #![trigger s1[j1], s1[j2]] 0 <= j1 < j2 < s1.len() implies s1[j1]
        != s1[j2] by {
        // Old spine entries are below the old arena length; the two fresh
        // handles are at or above it, and differ from each other.
        if j1 < k + 2 && j2 < k + 2 {
            assert(s0[j1] != s0[j2]);
        } else if j1 < k + 2 && j2 >= k + 4 {
            assert(s0[j1] != s0[j2 - 2]);
        } else if j1 >= k + 4 && j2 >= k + 4 {
            assert(s0[j1 - 2] != s0[j2 - 2]);
        } else {
            if j1 < k + 2 {
                assert(s0[j1] < l0.cells@.len());
            }
            if j1 >= k + 4 {
                assert(s0[j1 - 2] < l0.cells@.len());
            }
            if j2 < k + 2 {
                assert(s0[j2] < l0.cells@.len());
            }
            if j2 >= k + 4 {
                assert(s0[j2 - 2] < l0.cells@.len());
            }
        }
    }
    assert(s1[0] == s0[0]);
    assert(s1[s1.len() - 1] == s0[s0.len() - 1]);
}

/// The value-sequence half of `lemma_splice_in`, over the same pointwise
/// description of the new spine.
#[verifier::rlimit(100)]
#[verifier::spinoff_prover]
proof fn lemma_splice_in_values<T>(l0: List<T>, l1: List<T>, k: int, d: usize, a: usize, v: T)
    requires
        l0.wf(),
        0 <= k <= l0.sp().len() - 3,
        k % 2 == 0,
        d == l0.cells@.len() + 1,
        l1.cells@.len() == l0.cells@.len() + 2,
        forall|i: int|
            0 <= i < l0.cells@.len() && i != l0.sp()[k + 1] ==> l1.cells@[i] == #[trigger] l0.cells@[i],
        l1.cells@[d as int] == (Cell::Data {
            links: Links { next: Some(a), back_link: None },
            data: v,
        }),
        l1.sp().len() == l0.sp().len() + 2,
        forall|j: int| 0 <= j < k + 2 ==> #[trigger] l1.sp()[j] == l0.sp()[j],
        l1.sp()[k + 2] == d,
        forall|j: int| k + 4 <= j < l1.sp().len() ==> #[trigger] l1.sp()[j] == l0.sp()[j - 2],
    ensures
        l1.values() == l0.values().insert(k / 2, v),
{
    let s0 = l0.sp();
    let p = k / 2;
    l0.values().insert_ensures(p, v);
    assert(l1.values().len() == l0.values().insert(p, v).len());
    assert forall|i: int| 0 <= i < l1.values().len() implies l1.values()[i] == l0.values().insert(
        p,
        v,
    )[i] by {
        if i < p {
            assert(s0[2 * i + 2] != s0[k + 1]);
            assert(l1.at(2 * i + 2) == l0.at(2 * i + 2));
            assert(l0.values()[i] == l0.at(2 * i + 2).data_of());
        } else if i == p {
            assert(2 * i + 2 == k + 2);
            assert(l1.at(k + 2) == l1.cells@[d as int]);
        } else {
            assert(2 * i + 2 >= k + 4);
            assert(s0[2 * i] != s0[k + 1]);
            assert(l1.at(2 * i + 2) == l0.at(2 * i));
            assert(l0.values()[i - 1] == l0.at(2 * (i - 1) + 2).data_of());
            assert(2 * (i - 1) + 2 == 2 * i);
            assert(l0.values().insert(p, v)[i] == l0.values()[i - 1]);
        }
    }
    assert(l1.values() =~= l0.values().insert(p, v));
}

/// Removing the data cell at spine position `k + 2` together with the
/// auxiliary cell before it (positions `k + 1` and `k + 2` leave the spine,
/// the predecessor at `k` is relinked past them) preserves the structural
/// invariant and removes position `k / 2` from the value sequence; the two
/// unlinked cells are no longer reachable.
pub proof fn lemma_splice_out<T>(l0: List<T>, l1: List<T>, k: int)
    requires
        l0.wf(),
        0 <= k <= l0.sp().len() - 5,
        k % 2 == 0,
        l1.cells@.len() == l0.cells@.len(),
        forall|i: int|
            0 <= i < l0.cells@.len() && i != l0.sp()[k] && i != l0.sp()[k + 1] && i != l0.sp()[k
                + 2] ==> l1.cells@[i] == #[trigger] l0.cells@[i],
        l1.cells@[l0.sp()[k] as int] == l0.cells@[l0.sp()[k] as int].with_links(
            Links {
                next: Some(l0.sp()[k + 3]),
                back_link: spec_back_link_field(l0.cells@[l0.sp()[k] as int]),
            },
        ),
        l1.sp() == l0.sp().subrange(0, k + 1) + l0.sp().subrange(k + 3, l0.sp().len() as int),
        l1.first == l0.first,
        l1.last == l0.last,
    ensures
        l1.wf(),
        l1.values() == l0.values().remove(k / 2),
        !l1.on_spine(l0.sp()[k + 1]),
        !l1.on_spine(l0.sp()[k + 2]),
        forall|i: usize| !l0.on_spine(i) ==> !l1.on_spine(i),
{
    let s0 = l0.sp();
    let s1 = l1.sp();
    let n0 = s0.len() as int;
    assert(s1.len() == n0 - 2);
    assert forall|j: int| 0 <= j < k + 1 implies #[trigger] s1[j] == s0[j] by {}
    assert forall|j: int| k + 1 <= j < n0 - 2 implies #[trigger] s1[j] == s0[j + 2] by {}
    lemma_splice_out_wf(l0, l1, k);
    lemma_splice_out_values(l0, l1, k);
    assert forall|i: usize| !l0.on_spine(i) implies !l1.on_spine(i) by {
        if l1.on_spine(i) {
            let j = choose|j: int| 0 <= j < s1.len() && s1[j] == i;
            if j < k + 1 {
                assert(s0[j] == i);
            } else {
                assert(s0[j + 2] == i);
            }
        }
    }
    assert forall|x: int| k + 1 <= x <= k + 2 implies !l1.on_spine(s0[x]) by {
        if l1.on_spine(s0[x]) {
            let j = choose|j: int| 0 <= j < s1.len() && s1[j] == s0[x];
            if j < k + 1 {
                assert(s0[j] == s0[x]);
            } else {
                assert(s0[j + 2] == s0[x]);
            }
        }
    }
}

/// The well-formedness half of `lemma_splice_out`.
#[verifier::rlimit(100)]
#[verifier::spinoff_prover]
proof fn lemma_splice_out_wf<T>(l0: List<T>, l1: List<T>, k: int)
    requires
        l0.wf(),
        0 <= k <= l0.sp().len() - 5,
        k % 2 == 0,
        l1.cells@.len() == l0.cells@.len(),
        forall|i: int|
            0 <= i < l0.cells@.len() && i != l0.sp()[k] && i != l0.sp()[k + 1] && i != l0.sp()[k
                + 2] ==> l1.cells@[i] == #[trigger] l0.cells@[i],
        l1.cells@[l0.sp()[k] as int] == l0.cells@[l0.sp()[k] as int].with_links(
            Links {
                next: Some(l0.sp()[k + 3]),
                back_link: spec_back_link_field(l0.cells@[l0.sp()[k] as int]),
            },
        ),
        l1.sp().len() == l0.sp().len() - 2,
        forall|j: int| 0 <= j < k + 1 ==> #[trigger] l1.sp()[j] == l0.sp()[j],
        forall|j: int| k + 1 <= j < l1.sp().len() ==> #[trigger] l1.sp()[j] == l0.sp()[j + 2],
        l1.first == l0.first,
        l1.last == l0.last,
    ensures
        l1.wf(),
{
    let s0 = l0.sp();
    let s1 = l1.sp();
    let n0 = s0.len() as int;
    assert forall|j: int| 0 <= j < k implies l1.at(j) == l0.at(j) by {
        assert(s0[j] != s0[k]);
        assert(s0[j] != s0[k + 1]);
        assert(s0[j] != s0[k + 2]);
    }
    assert forall|j: int| k + 1 <= j < n0 - 2 implies l1.at(j) == l0.at(j + 2) by {
        assert(s0[j + 2] != s0[k]);
        assert(s0[j + 2] != s0[k + 1]);
        assert(s0[j + 2] != s0[k + 2]);
    }
    assert(l1.at(k) == l1.cells@[s0[k] as int]);
    let pc0 = l0.cells@[s0[k] as int];
    let pc1 = l1.cells@[s0[k] as int];
    assert(pc1 == pc0.with_links(
        Links { next: Some(s0[k + 3]), back_link: spec_back_link_field(pc0) },
    ));
    assert(pc1.next_of() == Some(s0[k + 3]));
    assert(pc1.back_of() == pc0.back_of());
    assert(pc1.spec_is_data() == pc0.spec_is_data());
    assert(pc1.spec_is_first() == pc0.spec_is_first());
    assert forall|j: int| 0 <= j < s1.len() implies #[trigger] s1[j] < l1.cells@.len() by {
        if j < k + 1 {
            assert(s0[j] < l0.cells@.len());
        } else {
            assert(s0[j + 2] < l0.cells@.len());
        }
    }
    assert forall|j1: int, j2: int| #![trigger s1[j1], s1[j2]] 0 <= j1 < j2 < s1.len() implies s1[j1]
        != s1[j2] by {
        if j1 < k + 1 && j2 < k + 1 {
            assert(s0[j1] != s0[j2]);
        } else if j1 < k + 1 {
            assert(s0[j1] != s0[j2 + 2]);
        } else {
            assert(s0[j1 + 2] != s0[j2 + 2]);
        }
    }
    assert(s1[0] == s0[0]);
    assert(s1[s1.len() - 1] == s0[n0 - 1]);
    if k == 0 {
        assert(l1.at(0) == l1.cells@[s0[0] as int]);
        assert(l1.at(0).spec_is_first());
    } else {
        assert(l1.at(0) == l0.at(0));
    }
    assert(l1.at(s1.len() - 1) == l0.at(n0 - 1));
    assert forall|j: int|
        0 < j < s1.len() - 1 && j % 2 == 1 implies (#[trigger] l1.at(j)).spec_is_aux() by {
        if j < k {
            assert(l1.at(j) == l0.at(j));
        } else {
            assert(l1.at(j) == l0.at(j + 2));
        }
    }
    assert forall|j: int|
        0 < j < s1.len() - 1 && j % 2 == 0 implies (#[trigger] l1.at(j)).spec_is_data() by {
        if j < k {
            assert(l1.at(j) == l0.at(j));
        } else if j == k {
            assert(l0.at(k).spec_is_data());
        } else {
            assert(l1.at(j) == l0.at(j + 2));
        }
    }
    assert forall|j: int|
        0 <= j < s1.len() - 1 implies (#[trigger] l1.at(j)).next_of() == Some(s1[j + 1]) by {
        if j < k {
            assert(l1.at(j) == l0.at(j));
            assert(l0.at(j).next_of() == Some(s0[j + 1]));
        } else if j == k {
            assert(s1[k + 1] == s0[k + 3]);
        } else {
            assert(l1.at(j) == l0.at(j + 2));
            assert(l0.at(j + 2).next_of() == Some(s0[j + 3]));
            assert(s1[j + 1] == s0[j + 3]);
        }
    }
    assert forall|j: int| 0 <= j < s1.len() implies (#[trigger] l1.at(j)).back_of() is None by {
        if j < k {
            assert(l1.at(j) == l0.at(j));
        } else if j == k {
            assert(l0.at(k).back_of() is None);
        } else {
            assert(l1.at(j) == l0.at(j + 2));
        }
    }
}

/// The value-sequence half of `lemma_splice_out`.
#[verifier::rlimit(100)]
#[verifier::spinoff_prover]
proof fn lemma_splice_out_values<T>(l0: List<T>, l1: List<T>, k: int)
    requires
        l0.wf(),
        0 <= k <= l0.sp().len() - 5,
        k % 2 == 0,
        l1.cells@.len() == l0.cells@.len(),
        forall|i: int|
            0 <= i < l0.cells@.len() && i != l0.sp()[k] && i != l0.sp()[k + 1] && i != l0.sp()[k
                + 2] ==> l1.cells@[i] == #[trigger] l0.cells@[i],
        l1.cells@[l0.sp()[k] as int] == l0.cells@[l0.sp()[k] as int].with_links(
            Links {
                next: Some(l0.sp()[k + 3]),
                back_link: spec_back_link_field(l0.cells@[l0.sp()[k] as int]),
            },
        ),
        l1.sp().len() == l0.sp().len() - 2,
        forall|j: int| 0 <= j < k + 1 ==> #[trigger] l1.sp()[j] == l0.sp()[j],
        forall|j: int| k + 1 <= j < l1.sp().len() ==> #[trigger] l1.sp()[j] == l0.sp()[j + 2],
    ensures
        l1.values() == l0.values().remove(k / 2),
{
    let s0 = l0.sp();
    let p = k / 2;
    l0.values().remove_ensures(p);
    assert(l1.values().len() == l0.values().remove(p).len());
    assert forall|i: int| 0 <= i < l1.values().len() implies l1.values()[i] == l0.values().remove(
        p,
    )[i] by {
        if i < p {
            if 2 * i + 2 < k {
                assert(s0[2 * i + 2] != s0[k]);
                assert(s0[2 * i + 2] != s0[k + 1]);
                assert(s0[2 * i + 2] != s0[k + 2]);
                assert(l1.at(2 * i + 2) == l0.at(2 * i + 2));
            } else {
                // The predecessor cell itself: relinked, but its payload is
                // untouched.
                assert(2 * i + 2 == k);
                let pc0 = l0.cells@[s0[k] as int];
                assert(l1.at(k) == pc0.with_links(
                    Links { next: Some(s0[k + 3]), back_link: spec_back_link_field(pc0) },
                ));
                assert(l0.at(k).spec_is_data());
                assert(l1.at(k).data_of() == l0.at(k).data_of());
            }
            assert(l0.values()[i] == l0.at(2 * i + 2).data_of());
        } else {
            assert(2 * i + 2 >= k + 1);
            assert(s0[2 * i + 4] != s0[k]);
            assert(s0[2 * i + 4] != s0[k + 1]);
            assert(s0[2 * i + 4] != s0[k + 2]);
            assert(l1.at(2 * i + 2) == l0.at(2 * i + 4));
            assert(l0.values()[i + 1] == l0.at(2 * (i + 1) + 2).data_of());
            assert(2 * (i + 1) + 2 == 2 * i + 4);
            assert(l0.values().remove(p)[i] == l0.values()[i + 1]);
        }
    }
    assert(l1.values() =~= l0.values().remove(p));
}

/// The raw backlink field of a cell's link record, `None` for the tail.
pub open spec fn spec_back_link_field<T>(c: Cell<T>) -> Option<usize> {
    match c.links_of() {
        Some(links) => links.back_link,
        None => None,
    }
}

/// Structural alternation: on a well-formed list the traversal from the
/// head reads head, then alternating auxiliary and data cells, then one
/// final auxiliary cell and the tail; in particular no two auxiliary cells
/// are ever adjacent on the spine.
pub proof fn lemma_structural_alternation<T>(l: List<T>)
    requires
        l.wf(),
    ensures
        l.at(0).spec_is_first(),
        l.at(l.sp().len() - 1).spec_is_last(),
        forall|k: int|
            0 < k < l.sp().len() - 1 ==> ((#[trigger] l.at(k)).spec_is_aux() <==> k % 2 == 1),
        forall|k: int|
            0 <= k < l.sp().len() - 1 ==> !((#[trigger] l.at(k)).spec_is_aux() && l.at(
                k + 1,
            ).spec_is_aux()),
{
    assert forall|k: int|
        0 < k < l.sp().len() - 1 implies ((#[trigger] l.at(k)).spec_is_aux() <==> k % 2 == 1) by {
        if k % 2 == 0 {
            assert(l.at(k).spec_is_data());
        }
    }
    assert forall|k: int|
        0 <= k < l.sp().len() - 1 implies !((#[trigger] l.at(k)).spec_is_aux() && l.at(
            k + 1,
        ).spec_is_aux()) by {
        if k == 0 {
            assert(l.at(0).spec_is_first());
        } else if k % 2 == 1 {
            if k + 1 == l.sp().len() - 1 {
                assert(l.at(k + 1).spec_is_last());
            } else {
                assert(l.at(k + 1).spec_is_data());
            }
        } else {
            assert(l.at(k).spec_is_data());
        }
    }
}

/// No live null on the spine: every cell reachable from the head, except
/// the tail, holds a successor in its `next` slot.
pub proof fn lemma_no_live_null_on_spine<T>(l: List<T>)
    requires
        l.wf(),
    ensures
        forall|k: int| 0 <= k < l.sp().len() - 1 ==> (#[trigger] l.at(k)).next_of() is Some,
{
    assert forall|k: int|
        0 <= k < l.sp().len() - 1 implies (#[trigger] l.at(k)).next_of() is Some by {
        assert(l.at(k).next_of() == Some(l.sp()[k + 1]));
    }
}

/// Backlink safety, as far as this model can state it: a backlink read
/// never observes a dangling handle. Cells live in the list's arena and are
/// never reclaimed while the list exists, and `backlink_dup` returns
/// exactly the stored handle, so there is no reclaimed cell for it to name;
/// on a well-formed list, moreover, no reachable cell carries a backlink at
/// all (only outlinked cells do).
pub proof fn lemma_backlink_safety<T>(l: List<T>)
    requires
        l.wf(),
    ensures
        forall|k: int| 0 <= k < l.sp().len() ==> (#[trigger] l.at(k)).back_of() is None,
{
}

/// Cursor iteration visits each reachable data cell exactly once: distinct
/// value positions stand at distinct cells.
pub proof fn lemma_each_cell_visited_once<T>(l: List<T>, i: int, j: int)
    requires
        l.wf(),
        0 <= i < j < l.values().len(),
    ensures
        l.sp()[2 * i + 2] != l.sp()[2 * j + 2],
{
}

/// Round-trip of insert and delete on the value sequence: inserting `v` at
/// position `p` grows the sequence by one, the cell deleted back off that
/// position carries `v`, and the delete restores the original sequence.
/// With the exact `ensures` of the insert and delete operations this nets a
/// workload of inserts and matched deletes out to the surviving values
/// alone.
pub proof fn lemma_insert_then_delete<T>(s: Seq<T>, p: int, v: T)
    requires
        0 <= p <= s.len(),
    ensures
        s.insert(p, v).len() == s.len() + 1,
        s.insert(p, v)[p] == v,
        s.insert(p, v).remove(p) == s,
{
    s.insert_ensures(p, v);
    s.insert(p, v).remove_ensures(p);
    assert(s.insert(p, v).remove(p) =~= s);
}

} // verus!
