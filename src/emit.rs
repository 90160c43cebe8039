//! Writing a record tree out as bytes.
use vstd::prelude::*;

use crate::bytes::{
    lemma_u32_at_le32, lemma_u32_at_left, lemma_u32_at_patch32, lemma_u32_at_right, le32,
    patch32, push_patched, push_range, push_u32, u32_at,
};
use crate::record::{
    all_wf, encode, encode_data, lemma_all_wf, encode_seq, encode_unimplemented, frame, wf, Data, Database, ListBody,
    Record, Unimplemented, MHBD, MHFD, MHOD, MHSD, MHYP,
};

verus! {

fn push_frame(out: &mut Vec<u8>, magic: u32, header: &Vec<u8>, third: u32)
    requires
        header@.len() + 12 <= u32::MAX,
    ensures
        final(out)@ == old(out)@ + frame(magic, header@, third),
{
    push_u32(out, magic);
    push_u32(out, (12 + header.len()) as u32);
    push_u32(out, third);
    assert(final(out)@ =~= old(out)@ + frame(magic, header@, third));
}

fn emit_data(d: &Data, out: &mut Vec<u8>)
    requires
        d matches Data::String(s) ==> s.string_data@.len() <= u32::MAX,
    ensures
        final(out)@ == old(out)@ + encode_data(*d),
{
    match d {
        Data::String(s) => {
            push_u32(out, s.position);
            push_u32(out, s.string_data.len() as u32);
            push_u32(out, s.unk_0x08);
            push_u32(out, s.unk_0x0c);
            push_range(out, s.string_data.as_slice(), 0, s.string_data.len());
        },
        Data::PodcastUrl(u) => {
            push_u32(out, u.unk_0x00);
            push_u32(out, u.unk_0x04);
            push_range(out, u.string_data.as_slice(), 0, u.string_data.len());
        },
        Data::Blob(b) => {
            push_range(out, b.as_slice(), 0, b.len());
        },
    }
    assert(final(out)@ =~= old(out)@ + encode_data(*d));
}

fn emit_unimplemented(u: &Unimplemented, out: &mut Vec<u8>)
    ensures
        final(out)@ == old(out)@ + encode_unimplemented(*u),
{
    push_u32(out, u.magic);
    push_u32(out, u.header_len);
    push_u32(out, u.len);
    push_range(out, u.bytes.as_slice(), 0, u.bytes.len());
    assert(final(out)@ =~= old(out)@ + encode_unimplemented(*u));
}

/// Appends the records of `s` in order.
pub fn emit_seq(s: &Vec<Record>, out: &mut Vec<u8>)
    requires
        all_wf(s@),
    ensures
        final(out)@ == old(out)@ + encode_seq(s@),
    decreases s,
{
    proof {
        lemma_all_wf(s@);
    }
    let mut i: usize = 0;
    while i < s.len()
        invariant
            i <= s@.len(),
            forall|k: int| 0 <= k < s@.len() ==> #[trigger] wf(s@[k]),
            out@ == old(out)@ + encode_seq(s@.subrange(0, i as int)),
        decreases s@.len() - i,
    {
        assert(wf(s@[i as int]));
        emit_into(&s[i], out);
        assert(s@.subrange(0, i + 1).drop_last() =~= s@.subrange(0, i as int));
        assert(out@ =~= old(out)@ + encode_seq(s@.subrange(0, i + 1)));
        i = i + 1;
    }
    assert(s@.subrange(0, s@.len() as int) =~= s@);
}

/// Appends the bytes of `r`.
pub fn emit_into(r: &Record, out: &mut Vec<u8>)
    requires
        wf(*r),
    ensures
        final(out)@ == old(out)@ + encode(*r),
    decreases r,
{
    match r {
        Record::Master(m) => {
            let magic = match m.db {
                Database::ITunes => MHBD,
                Database::Artwork => MHFD,
            };
            push_frame(out, magic, &m.header, m.len);
            push_patched(out, m.header.as_slice(), 8, m.children.len() as u32);
            emit_seq(&m.children, out);
        },
        Record::ListContainer(c) => {
            push_frame(out, MHSD, &c.header, c.len);
            match &c.list {
                ListBody::Typed(t, l) => {
                    push_patched(out, c.header.as_slice(), 0, t.as_id());
                    push_frame(out, t.list_magic(), &l.header, l.children.len() as u32);
                    push_range(out, l.header.as_slice(), 0, l.header.len());
                    emit_seq(&l.children, out);
                },
                ListBody::Opaque(u) => {
                    push_range(out, c.header.as_slice(), 0, c.header.len());
                    emit_unimplemented(u, out);
                },
            }
        },
        Record::Item(i) => {
            push_frame(out, i.kind.tag(), &i.header, i.len);
            push_patched(out, i.header.as_slice(), 0, i.children.len() as u32);
            emit_seq(&i.children, out);
        },
        Record::Playlist(p) => {
            push_frame(out, MHYP, &p.header, p.len);
            let ghost h1 = crate::bytes::patch32(p.header@, 0, p.children@.len() as u32);
            let mut h: Vec<u8> = Vec::new();
            push_patched(&mut h, p.header.as_slice(), 0, p.children.len() as u32);
            assert(h@ =~= h1);
            push_patched(out, h.as_slice(), 4, p.entries.len() as u32);
            emit_seq(&p.children, out);
            emit_seq(&p.entries, out);
        },
        Record::DataObject(d) => {
            push_frame(out, MHOD, &d.header, d.len);
            push_patched(out, d.header.as_slice(), 0, d.object.as_id());
            emit_data(&d.data, out);
        },
        Record::Unimplemented(u) => {
            emit_unimplemented(u, out);
        },
    }
    assert(final(out)@ =~= old(out)@ + encode(*r));
}

/// The bytes of `r`, with every `len` word as stored in the tree.
pub fn emit(r: &Record) -> (out: Vec<u8>)
    requires
        wf(*r),
    ensures
        out@ == encode(*r),
{
    let mut out: Vec<u8> = Vec::new();
    emit_into(r, &mut out);
    assert(out@ =~= encode(*r));
    out
}

/// Every count word that a record is written with equals the length of the
/// list it counts; the counts come from the tree, not from stored fields.
pub proof fn lemma_counts_match_lists(r: Record)
    requires
        wf(r),
    ensures
        r matches Record::Master(m) ==> u32_at(encode(r), 20) == m.children@.len(),
        r matches Record::Item(i) ==> u32_at(encode(r), 12) == i.children@.len(),
        r matches Record::Playlist(p) ==> u32_at(encode(r), 12) == p.children@.len() && u32_at(
            encode(r),
            16,
        ) == p.entries@.len(),
        r matches Record::ListContainer(c) ==> (c.list matches ListBody::Typed(_, l) ==> u32_at(
            encode(r),
            20 + c.header@.len() as int,
        ) == l.children@.len()),
{
    match r {
        Record::Master(m) => {
            let f = frame(m.db.magic(), m.header@, m.len);
            let h = patch32(m.header@, 8, m.children@.len() as u32);
            lemma_u32_at_patch32(m.header@, 8, m.children@.len() as u32);
            lemma_u32_at_right(f, h, 8);
            lemma_u32_at_left(f + h, encode_seq(m.children@), 20);
        },
        Record::Item(i) => {
            let f = frame(i.kind.magic(), i.header@, i.len);
            let h = patch32(i.header@, 0, i.children@.len() as u32);
            lemma_u32_at_patch32(i.header@, 0, i.children@.len() as u32);
            lemma_u32_at_right(f, h, 0);
            lemma_u32_at_left(f + h, encode_seq(i.children@), 12);
        },
        Record::Playlist(p) => {
            let f = frame(MHYP, p.header@, p.len);
            let h1 = patch32(p.header@, 0, p.children@.len() as u32);
            let h = patch32(h1, 4, p.entries@.len() as u32);
            lemma_u32_at_patch32(p.header@, 0, p.children@.len() as u32);
            lemma_u32_at_patch32(h1, 4, p.entries@.len() as u32);
            assert(u32_at(h, 0) == u32_at(h1, 0));
            lemma_u32_at_right(f, h, 0);
            lemma_u32_at_right(f, h, 4);
            lemma_u32_at_left(f + h, encode_seq(p.children@), 12);
            lemma_u32_at_left(f + h, encode_seq(p.children@), 16);
            lemma_u32_at_left(f + h + encode_seq(p.children@), encode_seq(p.entries@), 12);
            lemma_u32_at_left(f + h + encode_seq(p.children@), encode_seq(p.entries@), 16);
        },
        Record::ListContainer(c) => {
            match c.list {
                ListBody::Typed(t, l) => {
                    let f = frame(MHSD, c.header@, c.len);
                    let h = patch32(c.header@, 0, t.id());
                    let n = l.children@.len() as u32;
                    let lf = frame(t.magic(), l.header@, n);
                    let front = le32(t.magic()) + le32((12 + l.header@.len()) as u32);
                    lemma_u32_at_le32(n);
                    lemma_u32_at_right(front, le32(n), 0);
                    lemma_u32_at_right(f + h, lf, 8);
                    lemma_u32_at_left(f + h + lf, l.header@, 20 + c.header@.len() as int);
                    lemma_u32_at_left(
                        f + h + lf + l.header@,
                        encode_seq(l.children@),
                        20 + c.header@.len() as int,
                    );
                },
                ListBody::Opaque(_) => {},
            }
        },
        _ => {},
    }
}

} // verus!
