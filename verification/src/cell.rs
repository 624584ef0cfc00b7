use vstd::prelude::*;

use crate::errors::Error;

verus! {

/// The two link slots of a cell. In the pointer-based formulation of the
/// algorithm these are atomic pointer slots; here a handle to a cell is its
/// index in the list's arena, so a slot is an optional index. An empty
/// `next` slot occurs only during construction or teardown.
pub struct Links {
    /// Strong link to the successor on the spine.
    pub next: Option<usize>,
    /// Weak backlink, set on a data cell once it has been outlinked, naming
    /// a stable predecessor for concurrent-delete recovery.
    pub back_link: Option<usize>,
}

/// The two sentinel variants: the head of the list (which carries links and
/// behaves like an auxiliary cell for `next` purposes) and the tail (which
/// carries no links and is never mutated).
pub enum Dummy {
    First(Links),
    Last,
}

/// A cell of the list: a data cell with a payload, an auxiliary marker, or
/// one of the two sentinels.
pub enum Cell<T> {
    Data { links: Links, data: T },
    Aux { links: Links },
    Dummy(Dummy),
}

impl<T> Cell<T> {
    /// The link record, for every variant that has one.
    pub open spec fn links_of(self) -> Option<Links> {
        match self {
            Cell::Data { links, .. } => Some(links),
            Cell::Aux { links } => Some(links),
            Cell::Dummy(Dummy::First(links)) => Some(links),
            Cell::Dummy(Dummy::Last) => None,
        }
    }

    /// The successor handle in the `next` slot; `None` for the tail or for
    /// an empty slot.
    pub open spec fn next_of(self) -> Option<usize> {
        match self.links_of() {
            Some(links) => links.next,
            None => None,
        }
    }

    /// The backlink handle; `None` for every variant but a data cell with a
    /// stored backlink.
    pub open spec fn back_of(self) -> Option<usize> {
        match self {
            Cell::Data { links, .. } => links.back_link,
            _ => None,
        }
    }

    pub open spec fn spec_is_last(self) -> bool {
        self matches Cell::Dummy(Dummy::Last)
    }

    pub open spec fn spec_is_first(self) -> bool {
        self matches Cell::Dummy(Dummy::First(_))
    }

    pub open spec fn spec_is_data(self) -> bool {
        self is Data
    }

    pub open spec fn spec_is_aux(self) -> bool {
        self is Aux
    }

    /// Data, head or tail: anything but an auxiliary cell.
    pub open spec fn spec_is_normal(self) -> bool {
        !(self is Aux)
    }

    /// The payload of a data cell.
    pub open spec fn data_of(self) -> T
        recommends
            self is Data,
    {
        self->Data_data
    }

    /// Whether this cell equals `other` in variant and payload, with the
    /// given link record (meaningful for the linked variants only).
    pub open spec fn with_links(self, links: Links) -> Cell<T> {
        match self {
            Cell::Data { data, .. } => Cell::Data { links, data },
            Cell::Aux { .. } => Cell::Aux { links },
            Cell::Dummy(Dummy::First(_)) => Cell::Dummy(Dummy::First(links)),
            Cell::Dummy(Dummy::Last) => Cell::Dummy(Dummy::Last),
        }
    }

    /// A fresh auxiliary cell whose `next` slot holds `next`.
    pub fn new_aux(next: usize) -> (c: Cell<T>)
        ensures
            c == (Cell::<T>::Aux { links: Links { next: Some(next), back_link: None } }),
    {
        Cell::Aux { links: Links { next: Some(next), back_link: None } }
    }

    /// A fresh data cell carrying `data`, whose `next` slot holds `next`.
    pub fn new_data(data: T, next: usize) -> (c: Cell<T>)
        ensures
            c == (Cell::Data { links: Links { next: Some(next), back_link: None }, data }),
    {
        Cell::Data { links: Links { next: Some(next), back_link: None }, data }
    }

    /// The tail sentinel.
    pub fn new_last() -> (c: Cell<T>)
        ensures
            c == Cell::<T>::Dummy(Dummy::Last),
    {
        Cell::Dummy(Dummy::Last)
    }

    /// The head sentinel, whose `next` slot holds `next`.
    pub fn new_first(next: usize) -> (c: Cell<T>)
        ensures
            c == Cell::<T>::Dummy(
                Dummy::First(Links { next: Some(next), back_link: None }),
            ),
    {
        Cell::Dummy(Dummy::First(Links { next: Some(next), back_link: None }))
    }

    /// True exactly for the tail sentinel.
    pub fn is_last(&self) -> (r: bool)
        ensures
            r == self.spec_is_last(),
    {
        match self {
            Cell::Data { .. } => false,
            Cell::Aux { .. } => false,
            Cell::Dummy(Dummy::First(..)) => false,
            Cell::Dummy(Dummy::Last) => true,
        }
    }

    /// True exactly for a data cell.
    pub fn is_data_cell(&self) -> (r: bool)
        ensures
            r == self.spec_is_data(),
    {
        match self {
            Cell::Data { .. } => true,
            Cell::Aux { .. } => false,
            Cell::Dummy(Dummy::First(..)) => false,
            Cell::Dummy(Dummy::Last) => false,
        }
    }

    /// True for data, head and tail cells; false for an auxiliary cell.
    pub fn is_normal_cell(&self) -> (r: bool)
        ensures
            r == self.spec_is_normal(),
    {
        match self {
            Cell::Data { .. } => true,
            Cell::Aux { .. } => false,
            Cell::Dummy(Dummy::First(..)) => true,
            Cell::Dummy(Dummy::Last) => true,
        }
    }

    /// The payload, present exactly on a data cell.
    pub fn val(&self) -> (r: Option<&T>)
        ensures
            r is Some <==> self is Data,
            *self matches Cell::Data { data, .. } ==> (r matches Some(v) && v == data),
    {
        match self {
            Cell::Data { data, .. } => Some(data),
            Cell::Dummy(Dummy::Last) | Cell::Aux { .. } | Cell::Dummy(Dummy::First(..)) => None,
        }
    }

    /// Read the `next` slot: the handle of the successor, or `None` for the
    /// tail or an empty slot. Reading duplicates the stored handle for the
    /// caller; the slot keeps its own.
    pub fn next_dup(&self) -> (r: Option<usize>)
        ensures
            r == self.next_of(),
    {
        match self {
            Cell::Data { links, .. } | Cell::Aux { links } | Cell::Dummy(Dummy::First(links)) => {
                links.next
            }
            Cell::Dummy(Dummy::Last) => None,
        }
    }

    /// Write the weak backlink slot. Only a data cell carries one, so this
    /// is a no-op on every other variant.
    pub fn store_backlink(&mut self, backlink: Option<usize>)
        ensures
            *old(self) matches Cell::Data { links, .. } ==> *final(self) == old(self).with_links(
                Links { next: links.next, back_link: backlink },
            ),
            !(*old(self) is Data) ==> *final(self) == *old(self),
    {
        match self {
            Cell::Data { links, .. } => {
                links.back_link = backlink;
            }
            Cell::Dummy(Dummy::Last) | Cell::Dummy(Dummy::First(..)) | Cell::Aux { .. } => {}
        }
    }

    /// Read the weak backlink slot. Cells live in the list's arena and are
    /// never reclaimed while the list exists, so an upgrade of a stored
    /// backlink always succeeds: the result is exactly the stored handle.
    pub fn backlink_dup(&self) -> (r: Option<usize>)
        ensures
            r == self.back_of(),
    {
        match self {
            Cell::Data { links, .. } => links.back_link,
            Cell::Dummy(Dummy::Last) | Cell::Dummy(Dummy::First(..)) | Cell::Aux { .. } => None,
        }
    }

    /// Unconditionally replace the `next` slot, releasing whatever handle it
    /// held. A no-op on the tail, which has no `next`.
    pub fn store_next(&mut self, next: Option<usize>)
        ensures
            old(self).links_of() matches Some(links) ==> *final(self) == old(self).with_links(
                Links { next, back_link: links.back_link },
            ),
            old(self).spec_is_last() ==> *final(self) == *old(self),
    {
        match self {
            Cell::Data { links, .. } => {
                links.next = next;
            }
            Cell::Aux { links } => {
                links.next = next;
            }
            Cell::Dummy(Dummy::First(links)) => {
                links.next = next;
            }
            Cell::Dummy(Dummy::Last) => {}
        }
    }

    /// Compare-and-swap on the `next` slot: if the slot currently holds the
    /// handle `p`, install `n` and hand the evicted handle to the caller;
    /// otherwise refuse with a mismatch error and change nothing. The
    /// comparison is by handle identity, never by cell contents. On the
    /// tail, which has no `next` slot, the call is a programmatic error.
    pub fn swap_in_next(&mut self, p: usize, n: Option<usize>) -> (r: Result<usize, Error>)
        ensures
            old(self).spec_is_last() ==> r is Err && *final(self) == *old(self),
            !old(self).spec_is_last() && old(self).next_of() == Some(p) ==> {
                &&& r matches Ok(evicted) && evicted == p
                &&& old(self).links_of() matches Some(links) && *final(self) == old(
                    self,
                ).with_links(Links { next: n, back_link: links.back_link })
            },
            !old(self).spec_is_last() && old(self).next_of() != Some(p) ==> (r matches Err(
                Error::CasMismatch,
            ) && *final(self) == *old(self)),
    {
        match self {
            Cell::Data { links, .. } => Self::cas_slot(links, p, n),
            Cell::Aux { links } => Self::cas_slot(links, p, n),
            Cell::Dummy(Dummy::First(links)) => Self::cas_slot(links, p, n),
            Cell::Dummy(Dummy::Last) => Err(Error::Fatal),
        }
    }

    /// The compare-and-swap on one link record, shared by the three linked
    /// variants.
    fn cas_slot(links: &mut Links, p: usize, n: Option<usize>) -> (r: Result<usize, Error>)
        ensures
            old(links).next == Some(p) ==> (r matches Ok(evicted) && evicted == p && *final(links)
                == (Links { next: n, back_link: old(links).back_link })),
            old(links).next != Some(p) ==> (r matches Err(Error::CasMismatch) && *final(links)
                == *old(links)),
    {
        let matches_expected = match links.next {
            Some(cur) => cur == p,
            None => false,
        };
        if matches_expected {
            links.next = n;
            Ok(p)
        } else {
            Err(Error::CasMismatch)
        }
    }

    /// Identity comparison of the `next` slot against `target`: true iff the
    /// slot currently holds exactly that handle. False on the tail.
    pub fn next_cmp(&self, target: usize) -> (r: bool)
        ensures
            r == (self.next_of() == Some(target) && !self.spec_is_last()),
    {
        match self {
            Cell::Data { links, .. } | Cell::Aux { links } | Cell::Dummy(Dummy::First(links)) => {
                match links.next {
                    Some(cur) => cur == target,
                    None => false,
                }
            }
            Cell::Dummy(Dummy::Last) => false,
        }
    }

    /// Drain both link slots, releasing the handles they hold: afterwards a
    /// non-tail cell's `next` and backlink slots are empty, so a repeat
    /// call is a no-op. A caller holding the last handles to removed cells
    /// can use this to break long chains iteratively instead of recursively
    /// during teardown. A no-op on the tail, which has no slots.
    pub fn drop_links(&mut self)
        ensures
            old(self).spec_is_last() ==> *final(self) == *old(self),
            !old(self).spec_is_last() ==> *final(self) == old(self).with_links(
                Links { next: None, back_link: None },
            ),
    {
        match self {
            Cell::Data { links, .. } => Self::drain_slots(links),
            Cell::Aux { links } => Self::drain_slots(links),
            Cell::Dummy(Dummy::First(links)) => Self::drain_slots(links),
            Cell::Dummy(Dummy::Last) => {}
        }
    }

    /// Draining of one link record, shared by the three linked variants.
    fn drain_slots(links: &mut Links)
        ensures
            *final(links) == (Links { next: None, back_link: None }),
    {
        links.next = None;
        links.back_link = None;
    }
}

} // verus!
