//! The archive container: an ordered list of entries (path, content,
//! permission bits) framed into one byte buffer, and back.
//!
//! Layout: the entry count, then for each entry its record length and its
//! record; a record is the permission bits, the path length and the path's
//! UTF-8 bytes, the content length and the content. Every number is a 32-bit
//! little-endian field.
use vstd::prelude::*;

use crate::bytes::push_range;
use vstd::utf8::{decode_utf8, encode_utf8, encode_utf8_decode_utf8, encode_utf8_valid_utf8, valid_utf8};

verus! {

/// The UTF-8 bytes of a string.
fn path_bytes(s: &String) -> (r: Vec<u8>)
    ensures
        r@ == encode_utf8(s@),
{
    let b = s.as_str().as_bytes();
    let mut r: Vec<u8> = Vec::new();
    push_range(&mut r, b, 0, b.len());
    assert(r@ =~= encode_utf8(s@));
    r
}

/// Relies on `String::from_utf8`: it accepts exactly valid UTF-8, and the
/// string it returns has those bytes as its encoding.
#[verifier::external_body]
fn string_from_utf8(b: Vec<u8>) -> (r: Option<String>)
    ensures
        r matches Some(s) ==> encode_utf8(s@) == b@,
        r is None ==> !valid_utf8(b@),
{
    String::from_utf8(b).ok()
}

/// One file of an archive.
pub struct DirEntry {
    /// Slash-separated path, relative to the archive's root.
    pub path: String,
    /// The file's contents.
    pub data: Vec<u8>,
    /// Permission bits, carried through unchanged.
    pub permissions: u32,
}

/// An entry as the container sees it: path, content, permissions.
pub type EntryView = (Seq<char>, Seq<u8>, u32);

impl View for DirEntry {
    type V = EntryView;

    open spec fn view(&self) -> EntryView {
        (self.path@, self.data@, self.permissions)
    }
}

/// An ordered list of entries; order and duplicates are kept.
pub struct ArchiveData {
    pub entries: Vec<DirEntry>,
}

impl View for ArchiveData {
    type V = Seq<EntryView>;

    open spec fn view(&self) -> Seq<EntryView> {
        self.entries@.map_values(|e: DirEntry| e@)
    }
}

/// Why an archive could not be framed or read back.
#[derive(Debug, Clone, Copy, PartialEq, Eq, Structural)]
pub enum ArchiveError {
    /// A declared count or length runs past the end of the buffer.
    Truncated,
    /// A path is not valid UTF-8.
    InvalidPath,
    /// A count or length does not fit its 32-bit field.
    TooLarge,
}

/// `x` as four little-endian bytes.
#[verifier::opaque]
pub open spec fn le32(x: int) -> Seq<u8> {
    seq![
        (x % 256) as u8,
        (x / 256 % 256) as u8,
        (x / 256 / 256 % 256) as u8,
        (x / 256 / 256 / 256 % 256) as u8,
    ]
}

/// The little-endian number in `b[i..i + 4]`.
pub open spec fn le32_at(b: Seq<u8>, i: int) -> int {
    b[i] + 256 * (b[i + 1] + 256 * (b[i + 2] + 256 * b[i + 3]))
}

/// The record of an entry.
pub open spec fn entry_bytes(e: EntryView) -> Seq<u8> {
    let pb = encode_utf8(e.0);
    le32(e.2 as int) + le32(pb.len() as int) + pb + le32(e.1.len() as int) + e.1
}

/// Whether an entry's path and content lengths fit their 32-bit fields.
pub open spec fn entry_fits(e: EntryView) -> bool {
    encode_utf8(e.0).len() <= u32::MAX && e.1.len() <= u32::MAX
}

/// Whether an entry's whole record length fits the 32-bit field that frames
/// it in an archive.
pub open spec fn frame_fits(e: EntryView) -> bool {
    encode_utf8(e.0).len() + e.1.len() + 12 <= u32::MAX
}

/// An entry's record behind its length.
pub open spec fn frame(e: EntryView) -> Seq<u8> {
    le32(entry_bytes(e).len() as int) + entry_bytes(e)
}

/// The framed records of `es`, in order.
pub open spec fn records(es: Seq<EntryView>) -> Seq<u8>
    decreases es.len(),
{
    if es.len() == 0 {
        seq![]
    } else {
        records(es.drop_last()) + frame(es.last())
    }
}

/// Whether every count and length of `es` fits its field.
pub open spec fn archive_fits(es: Seq<EntryView>) -> bool {
    &&& es.len() <= u32::MAX
    &&& forall|i: int| 0 <= i < es.len() ==> frame_fits(#[trigger] es[i])
}

/// The packed form of `es`.
pub open spec fn archive_bytes(es: Seq<EntryView>) -> Seq<u8> {
    le32(es.len() as int) + records(es)
}

/// Reads one record.
pub open spec fn decode_entry(b: Seq<u8>) -> Result<EntryView, ArchiveError> {
    if b.len() < 8 {
        Err(ArchiveError::Truncated)
    } else {
        let pl = le32_at(b, 4);
        if 8 + pl + 4 > b.len() {
            Err(ArchiveError::Truncated)
        } else {
            let dl = le32_at(b, 8 + pl);
            if 12 + pl + dl > b.len() {
                Err(ArchiveError::Truncated)
            } else {
                let pb = b.subrange(8, 8 + pl);
                if valid_utf8(pb) {
                    Ok((decode_utf8(pb), b.subrange(12 + pl, 12 + pl + dl), le32_at(b, 0) as u32))
                } else {
                    Err(ArchiveError::InvalidPath)
                }
            }
        }
    }
}

/// Reads `n` more framed records from `rest`, after the entries `acc`.
pub open spec fn decode_records(rest: Seq<u8>, n: nat, acc: Seq<EntryView>) -> Result<
    Seq<EntryView>,
    ArchiveError,
>
    decreases n,
{
    if n == 0 {
        Ok(acc)
    } else if rest.len() < 4 {
        Err(ArchiveError::Truncated)
    } else {
        let sz = le32_at(rest, 0);
        if 4 + sz > rest.len() {
            Err(ArchiveError::Truncated)
        } else {
            match decode_entry(rest.subrange(4, 4 + sz)) {
                Ok(e) => decode_records(
                    rest.subrange(4 + sz, rest.len() as int),
                    (n - 1) as nat,
                    acc.push(e),
                ),
                Err(x) => Err(x),
            }
        }
    }
}

/// Reads a packed archive; bytes after the last record are ignored.
pub open spec fn decode_archive(b: Seq<u8>) -> Result<Seq<EntryView>, ArchiveError> {
    if b.len() < 4 {
        Err(ArchiveError::Truncated)
    } else {
        decode_records(b.subrange(4, b.len() as int), le32_at(b, 0) as nat, seq![])
    }
}

pub proof fn lemma_le32(x: int)
    requires
        0 <= x <= u32::MAX,
    ensures
        le32_at(le32(x), 0) == x,
        le32(x).len() == 4,
{
    reveal(le32);
    let q1 = x / 256;
    let q2 = q1 / 256;
    let q3 = q2 / 256;
    assert(x == 256 * q1 + x % 256);
    assert(q1 == 256 * q2 + q1 % 256);
    assert(q2 == 256 * q3 + q2 % 256);
    assert(q3 < 256);
}

pub proof fn lemma_le32_len(x: int)
    ensures
        le32(x).len() == 4,
{
    reveal(le32);
}

pub proof fn lemma_entry_bytes_len(e: EntryView)
    ensures
        entry_bytes(e).len() == encode_utf8(e.0).len() + e.1.len() + 12,
{
    lemma_le32_len(e.2 as int);
    lemma_le32_len(encode_utf8(e.0).len() as int);
    lemma_le32_len(e.1.len() as int);
}

fn push_le32(out: &mut Vec<u8>, x: u32)
    ensures
        final(out)@ == old(out)@ + le32(x as int),
{
    out.push((x % 256) as u8);
    out.push((x / 256 % 256) as u8);
    out.push((x / 256 / 256 % 256) as u8);
    out.push((x / 256 / 256 / 256 % 256) as u8);
    reveal(le32);
    assert(final(out)@ =~= old(out)@ + le32(x as int));
}

fn read_le32(b: &[u8], at: usize) -> (r: u32)
    requires
        at + 4 <= b@.len(),
    ensures
        r == le32_at(b@, at as int),
{
    (b[at] as u32) + 256 * ((b[at + 1] as u32) + 256 * ((b[at + 2] as u32) + 256 * (b[at
        + 3] as u32)))
}

/// The record of `entry`; `TooLarge` when its path or content length does
/// not fit 32 bits.
pub fn dir_entry_to_bytes(entry: &DirEntry) -> (r: Result<Vec<u8>, ArchiveError>)
    ensures
        entry_fits(entry@) ==> (r matches Ok(b) && b@ == entry_bytes(entry@)),
        !entry_fits(entry@) ==> r == Err::<Vec<u8>, ArchiveError>(ArchiveError::TooLarge),
{
    let pb = path_bytes(&entry.path);
    if pb.len() > u32::MAX as usize || entry.data.len() > u32::MAX as usize {
        return Err(ArchiveError::TooLarge);
    }
    let mut out: Vec<u8> = Vec::new();
    push_le32(&mut out, entry.permissions);
    push_le32(&mut out, pb.len() as u32);
    push_range(&mut out, pb.as_slice(), 0, pb.len());
    push_le32(&mut out, entry.data.len() as u32);
    push_range(&mut out, entry.data.as_slice(), 0, entry.data.len());
    assert(pb@.subrange(0, pb@.len() as int) =~= pb@);
    assert(entry.data@.subrange(0, entry.data@.len() as int) =~= entry.data@);
    assert(out@ =~= entry_bytes(entry@));
    Ok(out)
}

/// Reads one record; `Truncated` when a declared length runs past its end,
/// `InvalidPath` when the path is not UTF-8.
pub fn bytes_to_dir_entry(data: &[u8]) -> (r: Result<DirEntry, ArchiveError>)
    ensures
        r matches Ok(e) ==> decode_entry(data@) == Ok::<EntryView, ArchiveError>(e@),
        r matches Err(x) ==> decode_entry(data@) == Err::<EntryView, ArchiveError>(x),
{
    let ghost b = data@;
    if data.len() < 8 {
        return Err(ArchiveError::Truncated);
    }
    let permissions = read_le32(data, 0);
    let pl = read_le32(data, 4) as usize;
    if pl > data.len() - 8 || data.len() - 8 - pl < 4 {
        return Err(ArchiveError::Truncated);
    }
    let dl = read_le32(data, 8 + pl) as usize;
    if dl > data.len() - 12 - pl {
        return Err(ArchiveError::Truncated);
    }
    let mut pbv: Vec<u8> = Vec::new();
    push_range(&mut pbv, data, 8, 8 + pl);
    assert(pbv@ =~= b.subrange(8, 8 + pl));
    let path = match string_from_utf8(pbv) {
        Some(s) => {
            proof {
                encode_utf8_decode_utf8(s@);
                encode_utf8_valid_utf8(s@);
            }
            s
        },
        None => {
            return Err(ArchiveError::InvalidPath);
        },
    };
    let mut file_data: Vec<u8> = Vec::new();
    push_range(&mut file_data, data, 12 + pl, 12 + pl + dl);
    assert(file_data@ =~= b.subrange(12 + pl as int, 12 + pl + dl as int));
    let e = DirEntry { path, data: file_data, permissions };
    Ok(e)
}

/// The packed form of `archive`; `TooLarge` when a count or length does not
/// fit its 32-bit field.
pub fn archive_data_to_bytes(archive: &ArchiveData) -> (r: Result<Vec<u8>, ArchiveError>)
    ensures
        archive_fits(archive@) ==> (r matches Ok(b) && b@ == archive_bytes(archive@)),
        !archive_fits(archive@) ==> r == Err::<Vec<u8>, ArchiveError>(ArchiveError::TooLarge),
{
    let ghost es = archive@;
    if archive.entries.len() > u32::MAX as usize {
        return Err(ArchiveError::TooLarge);
    }
    let mut out: Vec<u8> = Vec::new();
    push_le32(&mut out, archive.entries.len() as u32);
    let mut k: usize = 0;
    while k < archive.entries.len()
        invariant
            es == archive@,
            es.len() == archive.entries@.len() <= u32::MAX,
            0 <= k <= es.len(),
            forall|i: int| 0 <= i < k ==> frame_fits(#[trigger] es[i]),
            out@ == le32(es.len() as int) + records(es.subrange(0, k as int)),
        decreases archive.entries.len() - k,
    {
        assert(es[k as int] == archive.entries@[k as int]@);
        proof {
            lemma_entry_bytes_len(es[k as int]);
        }
        let eb = match dir_entry_to_bytes(&archive.entries[k]) {
            Ok(eb) => eb,
            Err(x) => {
                return Err(x);
            },
        };
        if eb.len() > u32::MAX as usize {
            return Err(ArchiveError::TooLarge);
        }
        push_le32(&mut out, eb.len() as u32);
        push_range(&mut out, eb.as_slice(), 0, eb.len());
        proof {
            let sub = es.subrange(0, k + 1);
            assert(sub.drop_last() =~= es.subrange(0, k as int));
            assert(eb@.subrange(0, eb@.len() as int) =~= eb@);
            assert(out@ =~= le32(es.len() as int) + records(sub));
        }
        k += 1;
    }
    assert(es.subrange(0, k as int) =~= es);
    Ok(out)
}

/// Reads a packed archive: the entries in their packed order, or the first
/// framing or path error.
#[verifier::rlimit(50)]
pub fn bytes_to_archive_data(data: &[u8]) -> (r: Result<ArchiveData, ArchiveError>)
    ensures
        r matches Ok(a) ==> decode_archive(data@) == Ok::<Seq<EntryView>, ArchiveError>(a@),
        r matches Err(x) ==> decode_archive(data@) == Err::<Seq<EntryView>, ArchiveError>(x),
{
    let ghost b = data@;
    if data.len() < 4 {
        return Err(ArchiveError::Truncated);
    }
    let count = read_le32(data, 0);
    let mut off: usize = 4;
    let mut k: u32 = 0;
    let mut entries: Vec<DirEntry> = Vec::new();
    assert(entries@.map_values(|e: DirEntry| e@) =~= seq![]);
    while k < count
        invariant
            b == data@,
            4 <= off <= b.len(),
            k <= count,
            count == le32_at(b, 0),
            decode_archive(b) == decode_records(
                b.subrange(off as int, b.len() as int),
                (count - k) as nat,
                entries@.map_values(|e: DirEntry| e@),
            ),
        decreases count - k,
    {
        let ghost rest = b.subrange(off as int, b.len() as int);
        let ghost acc = entries@.map_values(|e: DirEntry| e@);
        if data.len() - off < 4 {
            return Err(ArchiveError::Truncated);
        }
        let sz = read_le32(data, off) as usize;
        assert(le32_at(rest, 0) == sz);
        if sz > data.len() - off - 4 {
            return Err(ArchiveError::Truncated);
        }
        let mut rec: Vec<u8> = Vec::new();
        push_range(&mut rec, data, off + 4, off + 4 + sz);
        assert(rec@ =~= rest.subrange(4, 4 + sz));
        let e = match bytes_to_dir_entry(rec.as_slice()) {
            Ok(e) => e,
            Err(x) => {
                return Err(x);
            },
        };
        entries.push(e);
        assert(entries@.map_values(|e: DirEntry| e@) =~= acc.push(e@));
        assert(rest.subrange(4 + sz, rest.len() as int) =~= b.subrange(
            off + 4 + sz,
            b.len() as int,
        ));
        off = off + 4 + sz;
        k += 1;
    }
    let a = ArchiveData { entries };
    Ok(a)
}

proof fn lemma_entry_round_trip(e: EntryView)
    requires
        entry_fits(e),
    ensures
        decode_entry(entry_bytes(e)) == Ok::<EntryView, ArchiveError>(e),
{
    let b = entry_bytes(e);
    let pb = encode_utf8(e.0);
    let pl = pb.len() as int;
    encode_utf8_decode_utf8(e.0);
    encode_utf8_valid_utf8(e.0);
    let dl = e.1.len() as int;
    lemma_le32(e.2 as int);
    lemma_le32(pl);
    lemma_le32(dl);
    assert(b.subrange(0, 4) =~= le32(e.2 as int));
    assert(b.subrange(4, 8) =~= le32(pl));
    assert(b.subrange(8 + pl, 12 + pl) =~= le32(dl));
    assert(le32_at(b, 0) == le32_at(b.subrange(0, 4), 0));
    assert(le32_at(b, 4) == le32_at(b.subrange(4, 8), 0));
    assert(le32_at(b, 8 + pl) == le32_at(b.subrange(8 + pl, 12 + pl), 0));
    assert(b.subrange(8, 8 + pl) =~= pb);
    assert(b.subrange(12 + pl, 12 + pl + dl) =~= e.1);
}

/// Writing one entry's record and reading it back gives the same entry,
/// whenever its path and content lengths fit their 32-bit fields.
pub proof fn lemma_dir_entry_round_trip(entry: DirEntry)
    requires
        entry_fits(entry@),
    ensures
        decode_entry(entry_bytes(entry@)) == Ok::<EntryView, ArchiveError>(entry@),
{
    lemma_entry_round_trip(entry@);
}

proof fn lemma_records_front(es: Seq<EntryView>)
    requires
        es.len() > 0,
    ensures
        records(es) == frame(es[0]) + records(es.drop_first()),
    decreases es.len(),
{
    if es.len() == 1 {
        assert(es.drop_last() =~= seq![]);
        assert(es.drop_first() =~= seq![]);
        assert(records(es.drop_first()) =~= seq![]);
        assert(frame(es[0]) + records(es.drop_first()) =~= frame(es[0]));
        assert(records(es) =~= records(es.drop_last()) + frame(es[0]));
    } else {
        lemma_records_front(es.drop_last());
        assert(es.drop_last().drop_first() =~= es.drop_first().drop_last());
        assert(es.drop_first().last() == es.last());
        assert(records(es) =~= frame(es[0]) + records(es.drop_first()));
    }
}

proof fn lemma_records_step(es: Seq<EntryView>)
    requires
        es.len() > 0,
        frame_fits(es[0]),
    ensures
        ({
            let r = records(es);
            let sz = entry_bytes(es[0]).len() as int;
            &&& r.len() >= 4 + sz
            &&& le32_at(r, 0) == sz
            &&& r.subrange(4, 4 + sz) == entry_bytes(es[0])
            &&& r.subrange(4 + sz, r.len() as int) == records(es.drop_first())
        }),
{
    lemma_records_front(es);
    lemma_entry_bytes_len(es[0]);
    let eb = entry_bytes(es[0]);
    let sz = eb.len() as int;
    lemma_le32(sz);
    lemma_split_frame(le32(sz), eb, records(es.drop_first()));
}

proof fn lemma_split_frame(head: Seq<u8>, body: Seq<u8>, rest: Seq<u8>)
    requires
        head.len() == 4,
    ensures
        ({
            let r = head + body + rest;
            &&& r.len() == 4 + body.len() + rest.len()
            &&& le32_at(r, 0) == le32_at(head, 0)
            &&& r.subrange(4, 4 + body.len() as int) == body
            &&& r.subrange(4 + body.len() as int, r.len() as int) == rest
        }),
{
    let r = head + body + rest;
    assert(r.subrange(4, 4 + body.len() as int) =~= body);
    assert(r.subrange(4 + body.len() as int, r.len() as int) =~= rest);
}

#[verifier::rlimit(50)]
proof fn lemma_decode_records(es: Seq<EntryView>, acc: Seq<EntryView>)
    requires
        forall|i: int| 0 <= i < es.len() ==> frame_fits(#[trigger] es[i]),
    ensures
        decode_records(records(es), es.len(), acc) == Ok::<Seq<EntryView>, ArchiveError>(acc + es),
    decreases es.len(),
{
    if es.len() == 0 {
        assert(acc + es =~= acc);
    } else {
        let e = es[0];
        let tail = es.drop_first();
        assert forall|i: int| 0 <= i < tail.len() implies frame_fits(#[trigger] tail[i]) by {
            assert(tail[i] == es[i + 1]);
        }
        assert(frame_fits(es[0]));
        lemma_decode_records(tail, acc.push(e));
        lemma_entry_round_trip(e);
        lemma_records_step(es);
        assert(acc.push(e) + tail =~= acc + es);
    }
}

/// Packing an archive and reading it back gives the same entries in the
/// same order, for any list whose counts and lengths fit their fields.
pub proof fn lemma_archive_round_trip(archive: ArchiveData)
    requires
        archive_fits(archive@),
    ensures
        decode_archive(archive_bytes(archive@)) == Ok::<Seq<EntryView>, ArchiveError>(archive@),
{
    let es = archive@;
    let b = archive_bytes(es);
    lemma_le32(es.len() as int);
    assert(b.subrange(0, 4) =~= le32(es.len() as int));
    assert(le32_at(b, 0) == le32_at(b.subrange(0, 4), 0));
    assert(b.subrange(4, b.len() as int) =~= records(es));
    lemma_decode_records(es, seq![]);
    assert(seq![] + es =~= es);
}

} // verus!
