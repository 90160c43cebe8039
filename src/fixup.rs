//! Recomputing the `len` word of every record after an edit.
use vstd::prelude::*;

use crate::bytes::patch32;
use crate::emit::emit;
use crate::walk::{first_list, same_but_first_list};
use crate::record::{
    all_well_sized, all_wf, congruent, congruent_seq, encode, encode_data, encode_seq,
    encode_unimplemented, lemma_all_well_sized, lemma_all_wf, same_data, well_sized, wf, Data,
    ListBody, Record, Unimplemented,
};

verus! {

/// `congruent_seq` holds exactly when the lists agree pairwise.
pub proof fn lemma_congruent_seq(s: Seq<Record>, t: Seq<Record>)
    ensures
        congruent_seq(s, t) <==> (s.len() == t.len() && forall|i: int|
            0 <= i < s.len() ==> #[trigger] congruent(s[i], t[i])),
    decreases s.len(),
{
    if s.len() > 0 && s.len() == t.len() {
        lemma_congruent_seq(s.drop_last(), t.drop_last());
        if congruent_seq(s, t) {
            assert forall|i: int| 0 <= i < s.len() implies #[trigger] congruent(s[i], t[i]) by {
                if i < s.len() - 1 {
                    assert(congruent(s.drop_last()[i], t.drop_last()[i]));
                }
            }
        }
        if forall|i: int| 0 <= i < s.len() ==> #[trigger] congruent(s[i], t[i]) {
            assert forall|i: int| 0 <= i < s.drop_last().len() implies #[trigger] congruent(
                s.drop_last()[i],
                t.drop_last()[i],
            ) by {
                assert(congruent(s[i], t[i]));
            }
            assert(congruent(s[s.len() - 1], t[t.len() - 1]));
        }
    }
}

/// Every tree is congruent to itself.
pub proof fn lemma_congruent_refl(a: Record)
    ensures
        congruent(a, a),
    decreases a,
{
    match a {
        Record::Master(m) => lemma_congruent_seq_refl(m.children@),
        Record::ListContainer(c) => match c.list {
            ListBody::Typed(_, l) => lemma_congruent_seq_refl(l.children@),
            ListBody::Opaque(_) => {},
        },
        Record::Item(i) => lemma_congruent_seq_refl(i.children@),
        Record::Playlist(p) => {
            lemma_congruent_seq_refl(p.children@);
            lemma_congruent_seq_refl(p.entries@);
        },
        Record::DataObject(_) => {},
        Record::Unimplemented(_) => {},
    }
}

pub proof fn lemma_congruent_seq_refl(s: Seq<Record>)
    ensures
        congruent_seq(s, s),
    decreases s,
{
    if s.len() > 0 {
        lemma_congruent_seq_refl(s.drop_last());
        lemma_congruent_refl(s.last());
    }
}

/// Congruent trees are written as the same number of bytes, and one can be
/// written when the other can.
pub proof fn lemma_congruent_size(a: Record, b: Record)
    requires
        congruent(a, b),
    ensures
        encode(a).len() == encode(b).len(),
        wf(a) <==> wf(b),
    decreases a,
{
    match a {
        Record::Master(x) => {
            let y = b->Master_0;
            lemma_congruent_seq_size(x.children@, y.children@);
        },
        Record::ListContainer(x) => {
            let y = b->ListContainer_0;
            match x.list {
                ListBody::Typed(_, l) => {
                    let l2 = y.list->Typed_1;
                    lemma_congruent_seq_size(l.children@, l2.children@);
                },
                ListBody::Opaque(_) => {},
            }
        },
        Record::Item(x) => {
            let y = b->Item_0;
            lemma_congruent_seq_size(x.children@, y.children@);
        },
        Record::Playlist(x) => {
            let y = b->Playlist_0;
            lemma_congruent_seq_size(x.children@, y.children@);
            lemma_congruent_seq_size(x.entries@, y.entries@);
        },
        Record::DataObject(x) => {
            let y = b->DataObject_0;
            assert(encode_data(x.data).len() == encode_data(y.data).len());
        },
        Record::Unimplemented(_) => {},
    }
}

pub proof fn lemma_congruent_seq_size(s: Seq<Record>, t: Seq<Record>)
    requires
        congruent_seq(s, t),
    ensures
        encode_seq(s).len() == encode_seq(t).len(),
        all_wf(s) <==> all_wf(t),
    decreases s,
{
    if s.len() > 0 {
        lemma_congruent_seq_size(s.drop_last(), t.drop_last());
        lemma_congruent_size(s.last(), t.last());
    }
}

/// A prefix of a list is written as no more bytes than the whole list.
pub proof fn lemma_encode_seq_prefix(s: Seq<Record>, i: int)
    requires
        0 <= i <= s.len(),
    ensures
        encode_seq(s.subrange(0, i)).len() <= encode_seq(s).len(),
    decreases s.len(),
{
    if i < s.len() {
        lemma_encode_seq_prefix(s.drop_last(), i);
        assert(s.drop_last().subrange(0, i) =~= s.subrange(0, i));
    } else {
        assert(s.subrange(0, i) =~= s);
    }
}

/// Sets the `len` word of every record in `s`; returns the bytes `s` is
/// written as.
pub fn fix_seq(s: &mut Vec<Record>) -> (total: u32)
    requires
        all_wf(old(s)@),
        encode_seq(old(s)@).len() <= u32::MAX,
    ensures
        congruent_seq(old(s)@, final(s)@),
        all_wf(final(s)@),
        all_well_sized(final(s)@),
        total == encode_seq(final(s)@).len(),
        encode_seq(final(s)@).len() == encode_seq(old(s)@).len(),
    decreases *old(s),
{
    let ghost orig = s@;
    proof {
        lemma_all_wf(orig);
    }
    let n = s.len();
    let mut total: u32 = 0;
    let mut i: usize = 0;
    assert(s@.subrange(0, 0) =~= Seq::<Record>::empty());
    while i < n
        invariant
            n == orig.len(),
            orig == old(s)@,
            s@.len() == n,
            i <= n,
            encode_seq(orig).len() <= u32::MAX,
            forall|k: int| 0 <= k < n ==> #[trigger] wf(orig[k]),
            forall|k: int| 0 <= k < i ==> #[trigger] congruent(orig[k], s@[k]),
            forall|k: int| 0 <= k < i ==> #[trigger] wf(s@[k]),
            forall|k: int| 0 <= k < i ==> #[trigger] well_sized(s@[k]),
            forall|k: int| i <= k < n ==> #[trigger] s@[k] == orig[k],
            total == encode_seq(s@.subrange(0, i as int)).len(),
        decreases n - i,
    {
        proof {
            assert(s@[i as int] == orig[i as int]);
            lemma_congruent_seq_refl(orig);
            lemma_congruent_seq(orig, orig);
            lemma_encode_seq_prefix(orig, i + 1);
            assert(orig.subrange(0, i + 1).drop_last() =~= orig.subrange(0, i as int));
            assert(orig.subrange(0, i + 1).last() == orig[i as int]);
        }
        let ghost before = s@;
        let mut child = Record::Unimplemented(
            Unimplemented { magic: 0, header_len: 0, len: 0, bytes: Vec::new() },
        );
        std::mem::swap(&mut child, &mut s[i]);
        proof {
            broadcast use vstd::std_specs::vec::group_vec_axioms;
            assert(child == old(s)@[i as int]);
            assert(decreases_to!(*old(s) => child));
        }
        let size = fix_lengths(&mut child);
        std::mem::swap(&mut child, &mut s[i]);
        proof {
            assert(before.subrange(0, i as int) =~= s@.subrange(0, i as int));
            assert(s@.subrange(0, i + 1).drop_last() =~= s@.subrange(0, i as int));
            assert(forall|k: int| 0 <= k < n ==> #[trigger] congruent(orig[k], s@[k])) by {
                assert forall|k: int| 0 <= k < n implies #[trigger] congruent(orig[k], s@[k]) by {
                    if k > i {
                        lemma_congruent_refl(orig[k]);
                    }
                }
            }
            lemma_congruent_seq(orig, s@);
            lemma_congruent_seq_size(orig, s@);
            lemma_encode_seq_prefix(s@, i + 1);
        }
        total = total + size;
        i = i + 1;
    }
    proof {
        assert(s@.subrange(0, n as int) =~= s@);
        lemma_congruent_seq(orig, s@);
        lemma_congruent_seq_size(orig, s@);
        lemma_all_wf(s@);
        lemma_all_well_sized(s@);
    }
    total
}

/// Sets every `len` word of the tree to the number of bytes its record is
/// written as, leaving everything else as it was; returns the size of the
/// whole tree.
pub fn fix_lengths(r: &mut Record) -> (size: u32)
    requires
        wf(*old(r)),
        encode(*old(r)).len() <= u32::MAX,
    ensures
        congruent(*old(r), *final(r)),
        wf(*final(r)),
        well_sized(*final(r)),
        size == encode(*final(r)).len(),
        encode(*final(r)).len() == encode(*old(r)).len(),
    decreases *old(r),
{
    let ghost orig = *r;
    let size: u32 = match r {
        Record::Master(m) => {
            let t = fix_seq(&mut m.children);
            m.len = (12 + m.header.len() as u64 + t as u64) as u32;
            m.len
        },
        Record::ListContainer(c) => {
            match &mut c.list {
                ListBody::Typed(_, l) => {
                    let t = fix_seq(&mut l.children);
                    c.len = (24 + c.header.len() as u64 + l.header.len() as u64 + t as u64) as u32;
                },
                ListBody::Opaque(u) => {
                    u.len = (12 + u.bytes.len() as u64) as u32;
                    c.len = (24 + c.header.len() as u64 + u.bytes.len() as u64) as u32;
                },
            }
            c.len
        },
        Record::Item(it) => {
            let t = fix_seq(&mut it.children);
            it.len = (12 + it.header.len() as u64 + t as u64) as u32;
            it.len
        },
        Record::Playlist(p) => {
            let t1 = fix_seq(&mut p.children);
            let t2 = fix_seq(&mut p.entries);
            p.len = (12 + p.header.len() as u64 + t1 as u64 + t2 as u64) as u32;
            p.len
        },
        Record::DataObject(d) => {
            let payload: u64 = match &d.data {
                Data::String(s) => 16 + s.string_data.len() as u64,
                Data::PodcastUrl(u) => 8 + u.string_data.len() as u64,
                Data::Blob(b) => b.len() as u64,
            };
            d.len = (12 + d.header.len() as u64 + payload) as u32;
            d.len
        },
        Record::Unimplemented(u) => {
            u.len = (12 + u.bytes.len() as u64) as u32;
            u.len
        },
    };
    proof {
        lemma_congruent_size(orig, *r);
    }
    size
}

/// The number of bytes `r` is written as, computed from its structure, or
/// `None` when that is more than a length word holds.
pub fn get_record_size(r: &Record) -> (size: Option<u32>)
    requires
        wf(*r),
    ensures
        match size {
            Some(n) => n == encode(*r).len(),
            None => encode(*r).len() > u32::MAX,
        },
    decreases r,
{
    let total: u64 = match r {
        Record::Master(m) => match seq_size(&m.children) {
            Some(t) => 12 + m.header.len() as u64 + t as u64,
            None => {
                return None;
            },
        },
        Record::ListContainer(c) => match &c.list {
            ListBody::Typed(_, l) => match seq_size(&l.children) {
                Some(t) => 24 + c.header.len() as u64 + l.header.len() as u64 + t as u64,
                None => {
                    return None;
                },
            },
            ListBody::Opaque(u) => {
                if u.bytes.len() > u32::MAX as usize {
                    return None;
                }
                24 + c.header.len() as u64 + u.bytes.len() as u64
            },
        },
        Record::Item(it) => match seq_size(&it.children) {
            Some(t) => 12 + it.header.len() as u64 + t as u64,
            None => {
                return None;
            },
        },
        Record::Playlist(p) => {
            let t1 = match seq_size(&p.children) {
                Some(t) => t,
                None => {
                    return None;
                },
            };
            let t2 = match seq_size(&p.entries) {
                Some(t) => t,
                None => {
                    return None;
                },
            };
            12 + p.header.len() as u64 + t1 as u64 + t2 as u64
        },
        Record::DataObject(d) => {
            let payload: usize = match &d.data {
                Data::String(s) => s.string_data.len(),
                Data::PodcastUrl(u) => u.string_data.len(),
                Data::Blob(b) => b.len(),
            };
            if payload > u32::MAX as usize {
                return None;
            }
            let prefix: u64 = match &d.data {
                Data::String(_) => 16,
                Data::PodcastUrl(_) => 8,
                Data::Blob(_) => 0,
            };
            12 + d.header.len() as u64 + prefix + payload as u64
        },
        Record::Unimplemented(u) => {
            if u.bytes.len() > u32::MAX as usize {
                return None;
            }
            12 + u.bytes.len() as u64
        },
    };
    if total > u32::MAX as u64 {
        None
    } else {
        Some(total as u32)
    }
}

/// The number of bytes the records of `s` are written as, or `None` when
/// that is more than a length word holds.
pub fn seq_size(s: &Vec<Record>) -> (size: Option<u32>)
    requires
        all_wf(s@),
    ensures
        match size {
            Some(n) => n == encode_seq(s@).len(),
            None => encode_seq(s@).len() > u32::MAX,
        },
    decreases s,
{
    proof {
        lemma_all_wf(s@);
    }
    let mut total: u32 = 0;
    let mut i: usize = 0;
    while i < s.len()
        invariant
            i <= s@.len(),
            forall|k: int| 0 <= k < s@.len() ==> #[trigger] wf(s@[k]),
            total == encode_seq(s@.subrange(0, i as int)).len(),
        decreases s@.len() - i,
    {
        proof {
            assert(s@.subrange(0, i + 1).drop_last() =~= s@.subrange(0, i as int));
            lemma_encode_seq_prefix(s@, i + 1);
            lemma_encode_seq_prefix(s@.subrange(0, i + 1), i as int);
            assert(s@.subrange(0, i + 1).subrange(0, i as int) =~= s@.subrange(0, i as int));
        }
        let n = match get_record_size(&s[i]) {
            Some(n) => n,
            None => {
                return None;
            },
        };
        let sum = total as u64 + n as u64;
        if sum > u32::MAX as u64 {
            return None;
        }
        total = sum as u32;
        i = i + 1;
    }
    assert(s@.subrange(0, s@.len() as int) =~= s@);
    Some(total)
}

/// Writes `record` out after fixing every `len` word in it: the bytes of the
/// one congruent tree whose lengths are all exact.
pub fn write_to_buffer(record: Record) -> (out: Vec<u8>)
    requires
        wf(record),
        encode(record).len() <= u32::MAX,
    ensures
        exists|f: Record| congruent(record, f) && well_sized(f) && out@ == encode(f),
        out@.len() == encode(record).len(),
{
    let mut r = record;
    fix_lengths(&mut r);
    let out = emit(&r);
    assert(congruent(record, r) && well_sized(r) && out@ == encode(r));
    out
}

/// Fixing lengths a second time changes nothing: two congruent trees whose
/// `len` words are all exact are written as the same bytes.
pub proof fn lemma_fix_lengths_idempotent(a: Record, b: Record)
    requires
        congruent(a, b),
        well_sized(a),
        well_sized(b),
    ensures
        encode(a) == encode(b),
    decreases a,
{
    lemma_congruent_size(a, b);
    match a {
        Record::Master(x) => {
            let y = b->Master_0;
            lemma_fix_seq_idempotent(x.children@, y.children@);
        },
        Record::ListContainer(x) => {
            let y = b->ListContainer_0;
            match x.list {
                ListBody::Typed(_, l) => {
                    let l2 = y.list->Typed_1;
                    lemma_fix_seq_idempotent(l.children@, l2.children@);
                },
                ListBody::Opaque(_) => {},
            }
        },
        Record::Item(x) => {
            let y = b->Item_0;
            lemma_fix_seq_idempotent(x.children@, y.children@);
        },
        Record::Playlist(x) => {
            let y = b->Playlist_0;
            lemma_fix_seq_idempotent(x.children@, y.children@);
            lemma_fix_seq_idempotent(x.entries@, y.entries@);
        },
        Record::DataObject(x) => {
            let y = b->DataObject_0;
            assert(encode_data(x.data) == encode_data(y.data));
        },
        Record::Unimplemented(_) => {},
    }
}

/// The list form of `lemma_fix_lengths_idempotent`.
pub proof fn lemma_fix_seq_idempotent(s: Seq<Record>, t: Seq<Record>)
    requires
        congruent_seq(s, t),
        all_well_sized(s),
        all_well_sized(t),
    ensures
        encode_seq(s) == encode_seq(t),
    decreases s,
{
    if s.len() > 0 {
        lemma_fix_seq_idempotent(s.drop_last(), t.drop_last());
        lemma_fix_lengths_idempotent(s.last(), t.last());
    }
}

/// Appending a record to a list adds exactly that record's bytes.
pub proof fn lemma_push_grows(s: Seq<Record>, c: Record)
    ensures
        encode_seq(s.push(c)) == encode_seq(s) + encode(c),
        encode_seq(s.push(c)).len() == encode_seq(s).len() + encode(c).len(),
{
    assert(s.push(c).drop_last() =~= s);
}

/// Replacing one record of a list changes the list's size by exactly the
/// difference of the two records' sizes.
pub proof fn lemma_replace_grows(s: Seq<Record>, i: int, c: Record)
    requires
        0 <= i < s.len(),
    ensures
        encode_seq(s.update(i, c)).len() == encode_seq(s).len() - encode(s[i]).len() + encode(
            c,
        ).len(),
    decreases s.len(),
{
    let u = s.update(i, c);
    if i == s.len() - 1 {
        assert(u.drop_last() =~= s.drop_last());
    } else {
        lemma_replace_grows(s.drop_last(), i, c);
        assert(u.drop_last() =~= s.drop_last().update(i, c));
    }
}

/// Appending `c` to a record's first list, as `push_child` does, makes the
/// record exactly `c`'s bytes longer.
pub proof fn lemma_push_child_grows(a: Record, b: Record, c: Record)
    requires
        wf(a),
        same_but_first_list(a, b),
        first_list(a) is Some,
        first_list(b) == Some(first_list(a)->Some_0.push(c)),
    ensures
        encode(b).len() == encode(a).len() + encode(c).len(),
{
    lemma_push_grows(first_list(a)->Some_0, c);
    lemma_list_change_size(a, b);
}

/// Replacing the child at `i` of a record's first list by `c` changes the
/// record's size by the difference of the two children's sizes; with
/// `lemma_push_child_grows` and `fix_lengths`, a child added deep in a tree
/// makes every record above it exactly that child's bytes longer.
pub proof fn lemma_replace_child_grows(a: Record, b: Record, i: int, c: Record)
    requires
        wf(a),
        same_but_first_list(a, b),
        first_list(a) is Some,
        0 <= i < first_list(a)->Some_0.len(),
        first_list(b) == Some(first_list(a)->Some_0.update(i, c)),
    ensures
        encode(b).len() == encode(a).len() - encode(first_list(a)->Some_0[i]).len() + encode(
            c,
        ).len(),
{
    lemma_replace_grows(first_list(a)->Some_0, i, c);
    lemma_list_change_size(a, b);
}

/// Two records that differ only in their first list differ in size by what
/// those lists are written as.
proof fn lemma_list_change_size(a: Record, b: Record)
    requires
        wf(a),
        same_but_first_list(a, b),
        first_list(a) is Some,
        first_list(b) is Some,
    ensures
        encode(b).len() - encode(a).len() == encode_seq(first_list(b)->Some_0).len()
            - encode_seq(first_list(a)->Some_0).len(),
{
    match a {
        Record::Playlist(x) => {
            let y = b->Playlist_0;
            assert(patch32(patch32(x.header@, 0, x.children@.len() as u32), 4, x.entries@.len() as u32).len() == x.header@.len());
            assert(patch32(patch32(y.header@, 0, y.children@.len() as u32), 4, y.entries@.len() as u32).len() == y.header@.len());
        },
        _ => {},
    }
}

/// The two records agree in everything but their first list and their `len`
/// words; a playlist's entries agree up to `len` words.
pub open spec fn same_shell(a: Record, b: Record) -> bool {
    match (a, b) {
        (Record::Master(x), Record::Master(y)) => x.db == y.db && x.header@ == y.header@,
        (Record::ListContainer(x), Record::ListContainer(y)) => x.header@ == y.header@ && match (
            x.list,
            y.list,
        ) {
            (ListBody::Typed(t, l), ListBody::Typed(t2, l2)) => t == t2 && l.header@ == l2.header@,
            _ => false,
        },
        (Record::Item(x), Record::Item(y)) => x.kind == y.kind && x.header@ == y.header@,
        (Record::Playlist(x), Record::Playlist(y)) => x.header@ == y.header@ && congruent_seq(
            x.entries@,
            y.entries@,
        ),
        _ => false,
    }
}

/// `b` is `a` with `c` appended to the first list of the record that `path`
/// leads to, each step an index into a first list; `len` words may differ,
/// and records off the path are congruent.
pub open spec fn grown_along(a: Record, b: Record, path: Seq<int>, c: Record) -> bool
    decreases path.len(),
{
    match (first_list(a), first_list(b)) {
        (Some(la), Some(lb)) => same_shell(a, b) && if path.len() == 0 {
            lb.len() == la.len() + 1 && congruent_seq(la, lb.drop_last()) && congruent(
                c,
                lb.last(),
            )
        } else {
            let i = path[0];
            &&& 0 <= i < la.len()
            &&& lb.len() == la.len()
            &&& forall|j: int| 0 <= j < la.len() && j != i ==> #[trigger] congruent(la[j], lb[j])
            &&& grown_along(la[i], lb[i], path.drop_first(), c)
        },
        _ => false,
    }
}

/// Adding a record anywhere in a tree makes the tree exactly that record's
/// bytes longer. The relation recurses, so the same holds of every record on
/// the path down to the insertion; once `fix_lengths` has made every `len`
/// exact, each of their `len` words grows by exactly the new record's size.
pub proof fn lemma_grown_along(a: Record, b: Record, path: Seq<int>, c: Record)
    requires
        wf(a),
        grown_along(a, b, path, c),
    ensures
        encode(b).len() == encode(a).len() + encode(c).len(),
    decreases path.len(),
{
    let la = first_list(a)->Some_0;
    let lb = first_list(b)->Some_0;
    if path.len() == 0 {
        lemma_congruent_seq_size(la, lb.drop_last());
        lemma_congruent_size(c, lb.last());
    } else {
        let i = path[0];
        lemma_first_list_wf(a);
        lemma_all_wf(la);
        lemma_grown_along(la[i], lb[i], path.drop_first(), c);
        lemma_replace_grows(la, i, lb[i]);
        let u = la.update(i, lb[i]);
        assert forall|j: int| 0 <= j < u.len() implies #[trigger] congruent(u[j], lb[j]) by {
            if j == i {
                lemma_congruent_refl(lb[i]);
            }
        }
        lemma_congruent_seq(u, lb);
        lemma_congruent_seq_size(u, lb);
    }
    lemma_shell_size(a, b);
}

proof fn lemma_first_list_wf(a: Record)
    requires
        wf(a),
        first_list(a) is Some,
    ensures
        all_wf(first_list(a)->Some_0),
{
}

/// Records with the same shell differ in size by what their first lists are
/// written as.
proof fn lemma_shell_size(a: Record, b: Record)
    requires
        wf(a),
        same_shell(a, b),
        first_list(a) is Some,
        first_list(b) is Some,
    ensures
        encode(b).len() - encode(a).len() == encode_seq(first_list(b)->Some_0).len()
            - encode_seq(first_list(a)->Some_0).len(),
{
    match a {
        Record::Playlist(x) => {
            let y = b->Playlist_0;
            lemma_congruent_seq_size(x.entries@, y.entries@);
            assert(patch32(patch32(x.header@, 0, x.children@.len() as u32), 4, x.entries@.len() as u32).len() == x.header@.len());
            assert(patch32(patch32(y.header@, 0, y.children@.len() as u32), 4, y.entries@.len() as u32).len() == y.header@.len());
        },
        _ => {},
    }
}

/// Congruence is transitive.
pub proof fn lemma_congruent_trans(a: Record, b: Record, c: Record)
    requires
        congruent(a, b),
        congruent(b, c),
    ensures
        congruent(a, c),
    decreases a,
{
    match a {
        Record::Master(x) => lemma_congruent_seq_trans(
            x.children@,
            b->Master_0.children@,
            c->Master_0.children@,
        ),
        Record::ListContainer(x) => match x.list {
            ListBody::Typed(_, l) => lemma_congruent_seq_trans(
                l.children@,
                b->ListContainer_0.list->Typed_1.children@,
                c->ListContainer_0.list->Typed_1.children@,
            ),
            ListBody::Opaque(_) => {},
        },
        Record::Item(x) => lemma_congruent_seq_trans(
            x.children@,
            b->Item_0.children@,
            c->Item_0.children@,
        ),
        Record::Playlist(x) => {
            lemma_congruent_seq_trans(x.children@, b->Playlist_0.children@, c->Playlist_0.children@);
            lemma_congruent_seq_trans(x.entries@, b->Playlist_0.entries@, c->Playlist_0.entries@);
        },
        Record::DataObject(_) => {},
        Record::Unimplemented(_) => {},
    }
}

pub proof fn lemma_congruent_seq_trans(s: Seq<Record>, t: Seq<Record>, u: Seq<Record>)
    requires
        congruent_seq(s, t),
        congruent_seq(t, u),
    ensures
        congruent_seq(s, u),
    decreases s,
{
    if s.len() > 0 {
        lemma_congruent_seq_trans(s.drop_last(), t.drop_last(), u.drop_last());
        lemma_congruent_trans(s.last(), t.last(), u.last());
    }
}

/// Growth along a path survives replacing the grown tree by a congruent one,
/// such as the tree `fix_lengths` makes of it.
pub proof fn lemma_grown_along_congruent(a: Record, b: Record, b2: Record, path: Seq<int>, c: Record)
    requires
        grown_along(a, b, path, c),
        congruent(b, b2),
    ensures
        grown_along(a, b2, path, c),
    decreases path.len(),
{
    let la = first_list(a)->Some_0;
    let lb = first_list(b)->Some_0;
    let lb2 = first_list(b2)->Some_0;
    assert(congruent_seq(lb, lb2)) by {
        match b {
            Record::Playlist(_) => {},
            _ => {},
        }
    }
    lemma_congruent_seq(lb, lb2);
    if path.len() == 0 {
        lemma_congruent_seq(la, lb.drop_last());
        assert forall|j: int| 0 <= j < la.len() implies #[trigger] congruent(la[j], lb2.drop_last()[j]) by {
            assert(congruent(la[j], lb.drop_last()[j]));
            lemma_congruent_trans(la[j], lb[j], lb2[j]);
        }
        lemma_congruent_seq(la, lb2.drop_last());
        lemma_congruent_trans(c, lb.last(), lb2.last());
    } else {
        let i = path[0];
        assert forall|j: int| 0 <= j < la.len() && j != i implies #[trigger] congruent(la[j], lb2[j]) by {
            lemma_congruent_trans(la[j], lb[j], lb2[j]);
        }
        lemma_grown_along_congruent(la[i], lb[i], lb2[i], path.drop_first(), c);
    }
    match b {
        Record::Playlist(y) => {
            lemma_congruent_seq_trans(a->Playlist_0.entries@, y.entries@, b2->Playlist_0.entries@);
        },
        _ => {},
    }
}

} // verus!
