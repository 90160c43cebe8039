//! Walking and extending a record tree, children in stored order.
use vstd::prelude::*;

use crate::record::{wf, ListBody, Record};

verus! {

/// The children of a record in stored order; a playlist's data objects come
/// before its entries.
pub open spec fn children_of(r: Record) -> Seq<Record> {
    match r {
        Record::Master(m) => m.children@,
        Record::ListContainer(c) => match c.list {
            ListBody::Typed(_, l) => l.children@,
            ListBody::Opaque(_) => Seq::empty(),
        },
        Record::Item(i) => i.children@,
        Record::Playlist(p) => p.children@ + p.entries@,
        _ => Seq::empty(),
    }
}

/// The list that `push_child` appends to: a playlist's data objects, or the
/// one list of any other record that has children.
pub open spec fn first_list(r: Record) -> Option<Seq<Record>> {
    match r {
        Record::Master(m) => Some(m.children@),
        Record::ListContainer(c) => match c.list {
            ListBody::Typed(_, l) => Some(l.children@),
            ListBody::Opaque(_) => None,
        },
        Record::Item(i) => Some(i.children@),
        Record::Playlist(p) => Some(p.children@),
        _ => None,
    }
}

impl Record {
    /// How many children the record has.
    pub fn child_count(&self) -> (n: u64)
        requires
            wf(*self),
        ensures
            n == children_of(*self).len(),
    {
        match self {
            Record::Master(m) => m.children.len() as u64,
            Record::ListContainer(c) => match &c.list {
                ListBody::Typed(_, l) => l.children.len() as u64,
                ListBody::Opaque(_) => 0,
            },
            Record::Item(i) => i.children.len() as u64,
            Record::Playlist(p) => p.children.len() as u64 + p.entries.len() as u64,
            _ => 0,
        }
    }

    /// The child at position `i` in stored order.
    pub fn child(&self, i: u64) -> (c: &Record)
        requires
            wf(*self),
            i < children_of(*self).len(),
        ensures
            *c == children_of(*self)[i as int],
    {
        match self {
            Record::Master(m) => &m.children[i as usize],
            Record::ListContainer(c) => match &c.list {
                ListBody::Typed(_, l) => &l.children[i as usize],
                ListBody::Opaque(_) => {
                    proof {
                        assert(false);
                    }
                    self
                },
            },
            Record::Item(it) => &it.children[i as usize],
            Record::Playlist(p) => {
                if i < p.children.len() as u64 {
                    &p.children[i as usize]
                } else {
                    &p.entries[(i - p.children.len() as u64) as usize]
                }
            },
            _ => {
                proof {
                    assert(false);
                }
                self
            },
        }
    }

    /// Appends `child` to the record's first list (a playlist's data
    /// objects); records without children are left alone and give `false`.
    /// Lengths are stale afterwards until `fix_lengths` runs.
    pub fn push_child(&mut self, child: Record) -> (pushed: bool)
        ensures
            pushed == (first_list(*old(self)) is Some),
            pushed ==> first_list(*final(self)) == Some(
                first_list(*old(self))->Some_0.push(child),
            ),
            pushed ==> same_but_first_list(*old(self), *final(self)),
            !pushed ==> *final(self) == *old(self),
    {
        match self {
            Record::Master(m) => {
                m.children.push(child);
                true
            },
            Record::ListContainer(c) => match &mut c.list {
                ListBody::Typed(_, l) => {
                    l.children.push(child);
                    true
                },
                ListBody::Opaque(_) => false,
            },
            Record::Item(i) => {
                i.children.push(child);
                true
            },
            Record::Playlist(p) => {
                p.children.push(child);
                true
            },
            _ => false,
        }
    }
}

/// The two records agree in everything but their first list.
pub open spec fn same_but_first_list(a: Record, b: Record) -> bool {
    match (a, b) {
        (Record::Master(x), Record::Master(y)) => x.db == y.db && x.header@ == y.header@ && x.len
            == y.len,
        (Record::ListContainer(x), Record::ListContainer(y)) => x.header@ == y.header@ && x.len
            == y.len && match (x.list, y.list) {
            (ListBody::Typed(t, l), ListBody::Typed(t2, l2)) => t == t2 && l.header@ == l2.header@,
            _ => false,
        },
        (Record::Item(x), Record::Item(y)) => x.kind == y.kind && x.header@ == y.header@ && x.len
            == y.len,
        (Record::Playlist(x), Record::Playlist(y)) => x.header@ == y.header@ && x.len == y.len
            && x.entries@ == y.entries@,
        _ => false,
    }
}

} // verus!
