//! The binary staging-index format: a twelve-byte header, one fixed-width
//! metadata block plus path and padding per entry, and a trailing SHA-1
//! checksum over everything before it.

use vstd::prelude::*;

use crate::encoding::be32;
use crate::encoding::be32_val;
use crate::errors::{Error, ErrorKind};
use crate::hashing::{sha1_digest, sha1_of};
use crate::encoding::{be16_val, digit_char, hex_chars, oct_chars};
use vstd::utf8::{decode_utf8, valid_utf8};

verus! {

/// One staged path: creation and modification times, device and inode,
/// mode, owner, size, the blob's twenty-byte hash, the flags word, and the
/// path bytes, each kept in the big-endian byte form the file stores.
#[derive(Debug)]
pub struct IndexEntry {
    pub ctime_s: Vec<u8>,
    pub ctime_n: Vec<u8>,
    pub mtime_s: Vec<u8>,
    pub mtime_n: Vec<u8>,
    pub dev: Vec<u8>,
    pub ino: Vec<u8>,
    pub mode: Vec<u8>,
    pub uid: Vec<u8>,
    pub gid: Vec<u8>,
    pub size: Vec<u8>,
    pub sha1: Vec<u8>,
    pub flags: Vec<u8>,
    pub path: Vec<u8>,
}

/// The mathematical content of one entry.
#[verifier::ext_equal]
pub ghost struct EntryView {
    pub ctime_s: Seq<u8>,
    pub ctime_n: Seq<u8>,
    pub mtime_s: Seq<u8>,
    pub mtime_n: Seq<u8>,
    pub dev: Seq<u8>,
    pub ino: Seq<u8>,
    pub mode: Seq<u8>,
    pub uid: Seq<u8>,
    pub gid: Seq<u8>,
    pub size: Seq<u8>,
    pub sha1: Seq<u8>,
    pub flags: Seq<u8>,
    pub path: Seq<u8>,
}

impl View for IndexEntry {
    type V = EntryView;

    open spec fn view(&self) -> EntryView {
        EntryView {
            ctime_s: self.ctime_s@,
            ctime_n: self.ctime_n@,
            mtime_s: self.mtime_s@,
            mtime_n: self.mtime_n@,
            dev: self.dev@,
            ino: self.ino@,
            mode: self.mode@,
            uid: self.uid@,
            gid: self.gid@,
            size: self.size@,
            sha1: self.sha1@,
            flags: self.flags@,
            path: self.path@,
        }
    }
}

/// The views of a list of entries.
pub open spec fn entries_view(s: Seq<IndexEntry>) -> Seq<EntryView> {
    s.map_values(|e: IndexEntry| e@)
}

/// Every fixed-width field has its width.
pub open spec fn entry_wf(e: EntryView) -> bool {
    &&& e.ctime_s.len() == 4
    &&& e.ctime_n.len() == 4
    &&& e.mtime_s.len() == 4
    &&& e.mtime_n.len() == 4
    &&& e.dev.len() == 4
    &&& e.ino.len() == 4
    &&& e.mode.len() == 4
    &&& e.uid.len() == 4
    &&& e.gid.len() == 4
    &&& e.size.len() == 4
    &&& e.sha1.len() == 20
    &&& e.flags.len() == 2
}

/// The path holds no NUL byte, the file format's path terminator.
pub open spec fn entry_path_clean(e: EntryView) -> bool {
    forall|i: int| 0 <= i < e.path.len() ==> e.path[i] != 0
}

/// The length of one serialized entry: the 62 fixed bytes plus the path,
/// rounded up to the next multiple of eight with at least one padding byte.
pub open spec fn padded_len(path_len: nat) -> nat {
    ((62 + path_len + 8) / 8) * 8
}

/// `n` zero bytes.
pub open spec fn zero_bytes(n: nat) -> Seq<u8> {
    Seq::new(n, |i: int| 0u8)
}

/// The serialized form of one entry: ten four-byte fields, the twenty-byte
/// hash, the two-byte flags word, the path, and NUL padding to the next
/// eight-byte boundary.
pub open spec fn entry_bytes(e: EntryView) -> Seq<u8> {
    e.ctime_s + e.ctime_n + e.mtime_s + e.mtime_n + e.dev + e.ino + e.mode + e.uid + e.gid + e.size
        + e.sha1 + e.flags + e.path + zero_bytes(
        (padded_len(e.path.len()) - 62 - e.path.len()) as nat,
    )
}

/// The serialized entries, in order.
pub open spec fn entries_bytes(es: Seq<EntryView>) -> Seq<u8>
    decreases es.len(),
{
    if es.len() == 0 {
        Seq::empty()
    } else {
        entry_bytes(es.first()) + entries_bytes(es.drop_first())
    }
}

/// The magic bytes `DIRC`.
pub open spec fn dirc_magic() -> Seq<u8> {
    seq![68u8, 73u8, 82u8, 67u8]
}

/// The format version, 2, as four big-endian bytes.
pub open spec fn version_bytes() -> Seq<u8> {
    seq![0u8, 0u8, 0u8, 2u8]
}

/// The twelve-byte header: magic, version, and the entry count truncated to
/// 32 bits, big-endian.
pub open spec fn header_bytes(n: nat) -> Seq<u8> {
    dirc_magic() + version_bytes() + be32((n % 0x100000000) as u32)
}

/// Header and entries, without the trailing checksum.
pub open spec fn index_body_bytes(es: Seq<EntryView>) -> Seq<u8> {
    header_bytes(es.len()) + entries_bytes(es)
}

/// The whole index file: body followed by the SHA-1 of the body.
pub open spec fn index_file_bytes(es: Seq<EntryView>) -> Seq<u8> {
    index_body_bytes(es) + sha1_of(index_body_bytes(es))
}

/// Appending one entry appends its bytes.
pub proof fn lemma_entries_bytes_push(es: Seq<EntryView>, e: EntryView)
    ensures
        entries_bytes(es.push(e)) == entries_bytes(es) + entry_bytes(e),
    decreases es.len(),
{
    if es.len() == 0 {
        assert(es.push(e).drop_first() =~= Seq::<EntryView>::empty());
        assert(es.push(e).first() == e);
        assert(entries_bytes(es.push(e)) == entry_bytes(e) + entries_bytes(
            Seq::<EntryView>::empty(),
        ));
        assert(entries_bytes(Seq::<EntryView>::empty()) == Seq::<u8>::empty());
        assert(entry_bytes(e) + Seq::<u8>::empty() =~= Seq::<u8>::empty() + entry_bytes(e));
        assert(entries_bytes(es) =~= Seq::<u8>::empty());
        assert(entries_bytes(es.push(e)) =~= entries_bytes(es) + entry_bytes(e));
    } else {
        assert(es.push(e).first() == es.first());
        assert(es.push(e).drop_first() =~= es.drop_first().push(e));
        lemma_entries_bytes_push(es.drop_first(), e);
        assert(entries_bytes(es.push(e)) =~= entries_bytes(es) + entry_bytes(e));
    }
}

/// A well-formed entry serializes to exactly its padded length.
pub proof fn lemma_entry_bytes_len(e: EntryView)
    requires
        entry_wf(e),
    ensures
        entry_bytes(e).len() == padded_len(e.path.len()),
        padded_len(e.path.len()) >= 62 + e.path.len() + 1,
        padded_len(e.path.len()) <= 62 + e.path.len() + 8,
{
    let p = e.path.len();
    assert(padded_len(p) == ((62 + p + 8) / 8) * 8);
    assert((62 + p + 8) / 8 * 8 > 62 + p && (62 + p + 8) / 8 * 8 <= 62 + p + 8) by (nonlinear_arith);
}

/// The position of the first NUL byte at or after `from`.
pub open spec fn first_nul(data: Seq<u8>, from: nat) -> Option<nat>
    decreases data.len() - from,
{
    if from >= data.len() {
        None
    } else if data[from as int] == 0 {
        Some(from)
    } else {
        first_nul(data, from + 1)
    }
}

pub proof fn lemma_first_nul_found(data: Seq<u8>, from: nat, j: nat)
    requires
        from <= j < data.len(),
        data[j as int] == 0,
        forall|k: int| from <= k < j ==> data[k] != 0,
    ensures
        first_nul(data, from) == Some(j),
    decreases j - from,
{
    if from < j {
        lemma_first_nul_found(data, from + 1, j);
    }
}

pub proof fn lemma_first_nul_bounds(data: Seq<u8>, from: nat)
    ensures
        first_nul(data, from) matches Some(p) ==> from <= p < data.len() && data[p as int] == 0,
    decreases data.len() - from,
{
    if from < data.len() && data[from as int] != 0 {
        lemma_first_nul_bounds(data, from + 1);
    }
}

pub proof fn lemma_first_nul_none(data: Seq<u8>, from: nat)
    requires
        forall|k: int| from <= k < data.len() ==> data[k] != 0,
    ensures
        first_nul(data, from) is None,
    decreases data.len() - from,
{
    if from < data.len() {
        lemma_first_nul_none(data, from + 1);
    }
}

/// The entry whose fixed fields start at `i` and whose path ends at `pe`.
pub open spec fn entry_at(data: Seq<u8>, i: int, pe: int) -> EntryView {
    EntryView {
        ctime_s: data.subrange(i, i + 4),
        ctime_n: data.subrange(i + 4, i + 8),
        mtime_s: data.subrange(i + 8, i + 12),
        mtime_n: data.subrange(i + 12, i + 16),
        dev: data.subrange(i + 16, i + 20),
        ino: data.subrange(i + 20, i + 24),
        mode: data.subrange(i + 24, i + 28),
        uid: data.subrange(i + 28, i + 32),
        gid: data.subrange(i + 32, i + 36),
        size: data.subrange(i + 36, i + 40),
        sha1: data.subrange(i + 40, i + 60),
        flags: data.subrange(i + 60, i + 62),
        path: data.subrange(i + 62, pe),
    }
}

/// The entries read from `data` starting at `i`, at most `remaining` of
/// them: each entry's path runs from byte 62 of the entry to the next NUL,
/// and the next entry starts at the next eight-byte boundary after it. The
/// scan stops early when fewer than 63 bytes remain or no NUL follows.
pub open spec fn scan_entries(data: Seq<u8>, i: nat, remaining: nat) -> Seq<EntryView>
    decreases remaining,
{
    if remaining == 0 || i + 62 >= data.len() {
        Seq::empty()
    } else {
        match first_nul(data, i + 62) {
            None => Seq::empty(),
            Some(pe) => seq![entry_at(data, i as int, pe as int)] + scan_entries(
                data,
                i + padded_len((pe - (i + 62)) as nat),
                (remaining - 1) as nat,
            ),
        }
    }
}

/// Which invariant of the index file is violated.
#[derive(Clone, Copy, Debug, PartialEq, Eq, Structural)]
pub enum CorruptKind {
    Signature,
    Version,
    Checksum,
}

/// The meaning of index file bytes: the magic, the version, and the trailing
/// checksum are checked in that order, then the declared number of entries is
/// read from the region between header and checksum.
pub open spec fn parse_index(bytes: Seq<u8>) -> Result<Seq<EntryView>, CorruptKind> {
    if bytes.len() < 12 || bytes.subrange(0, 4) != dirc_magic() {
        Err(CorruptKind::Signature)
    } else if bytes.subrange(4, 8) != version_bytes() {
        Err(CorruptKind::Version)
    } else if bytes.len() < 32 || bytes.subrange(bytes.len() - 20, bytes.len() as int) != sha1_of(
        bytes.take(bytes.len() - 20),
    ) {
        Err(CorruptKind::Checksum)
    } else {
        Ok(
            scan_entries(
                bytes.subrange(12, bytes.len() - 20),
                0,
                be32_val(bytes.subrange(8, 12)),
            ),
        )
    }
}

/// The message printed for each corruption kind.
pub open spec fn corrupt_message(k: CorruptKind) -> Seq<char> {
    match k {
        CorruptKind::Signature => "error: bad signature\nfatal: index file corrupt"@,
        CorruptKind::Version => "error: bad version\nfatal: index file corrupt"@,
        CorruptKind::Checksum => "error: bad index file sha1 signature\nfatal: index file corrupt"@,
    }
}

fn corrupt_error(k: CorruptKind) -> (r: Error)
    ensures
        r.kind == ErrorKind::Corrupt,
        r.message@ == corrupt_message(k),
{
    let message: String = match k {
        CorruptKind::Signature => "error: bad signature\nfatal: index file corrupt".to_owned(),
        CorruptKind::Version => "error: bad version\nfatal: index file corrupt".to_owned(),
        CorruptKind::Checksum => "error: bad index file sha1 signature\nfatal: index file corrupt".to_owned(),
    };
    Error::new(ErrorKind::Corrupt, message)
}

impl IndexEntry {
    /// Serializes the entries exactly as the index file stores them: header,
    /// each entry's fixed fields, path and padding, then the SHA-1 checksum
    /// of everything written so far.
    #[verifier::rlimit(60)]
    pub fn parse_into_file(entries: Vec<IndexEntry>) -> (r: Vec<u8>)
        ensures
            r@ == index_file_bytes(entries_view(entries@)),
    {
        let ghost evs = entries_view(entries@);
        let mut body: Vec<u8> = Vec::new();
        body.push(68);
        body.push(73);
        body.push(82);
        body.push(67);
        body.push(0);
        body.push(0);
        body.push(0);
        body.push(2);
        let count: u32 = (entries.len() as u64 % 0x100000000) as u32;
        let mut count_bytes = crate::encoding::be32_encode(count);
        body.append(&mut count_bytes);
        proof {
            assert(body@ =~= header_bytes(entries@.len() as nat));
            assert(evs.take(0) =~= Seq::<EntryView>::empty());
            assert(body@ + Seq::<u8>::empty() =~= body@);
        }
        let n = entries.len();
        for i in 0..n
            invariant
                n == entries@.len(),
                evs == entries_view(entries@),
                body@ == header_bytes(entries@.len() as nat) + entries_bytes(
                    evs.take(i as int),
                ),
        {
            let ghost before = body@;
            let e = &entries[i];
            proof {
                assert(evs[i as int] == entries@[i as int]@);
            }
            body.extend_from_slice(e.ctime_s.as_slice());
            body.extend_from_slice(e.ctime_n.as_slice());
            body.extend_from_slice(e.mtime_s.as_slice());
            body.extend_from_slice(e.mtime_n.as_slice());
            body.extend_from_slice(e.dev.as_slice());
            body.extend_from_slice(e.ino.as_slice());
            body.extend_from_slice(e.mode.as_slice());
            body.extend_from_slice(e.uid.as_slice());
            body.extend_from_slice(e.gid.as_slice());
            body.extend_from_slice(e.size.as_slice());
            body.extend_from_slice(e.sha1.as_slice());
            body.extend_from_slice(e.flags.as_slice());
            body.extend_from_slice(e.path.as_slice());
            let plen = e.path.len();
            let padded: u128 = ((62 + plen as u128 + 8) / 8) * 8;
            proof {
                assert((62 + plen as u128 + 8) / 8 * 8 > 62 + plen as u128 && (62 + plen as u128
                    + 8) / 8 * 8 <= 62 + plen as u128 + 8) by (nonlinear_arith);
                assert(padded as nat == padded_len(plen as nat));
            }
            let pad = (padded - 62 - plen as u128) as usize;
            let ghost mid = body@;
            let mut j: usize = 0;
            while j < pad
                invariant
                    j <= pad,
                    body@ == mid + zero_bytes(j as nat),
                decreases pad - j,
            {
                body.push(0);
                proof {
                    assert(zero_bytes((j + 1) as nat) =~= zero_bytes(j as nat).push(0u8));
                }
                j = j + 1;
            }
            proof {
                assert(body@ =~= before + entry_bytes(evs[i as int]));
                lemma_entries_bytes_push(evs.take(i as int), evs[i as int]);
                assert(evs.take(i + 1) =~= evs.take(i as int).push(evs[i as int]));
            }
        }
        proof {
            assert(evs.take(n as int) =~= evs);
        }
        let mut checksum = sha1_digest(body.as_slice());
        proof {
            assert(entries@.len() == evs.len());
            assert(body@ == index_body_bytes(evs));
        }
        body.append(&mut checksum);
        proof {
            assert(body@ =~= index_file_bytes(evs));
        }
        body
    }

    /// Parses index file bytes into entries, checking magic, version, and
    /// trailing checksum, in that order, and reporting the first violation.
    #[verifier::rlimit(60)]
    pub fn parse_from_file(index_content: &[u8]) -> (r: Result<Vec<IndexEntry>, Error>)
        ensures
            match r {
                Ok(es) => {
                    &&& parse_index(index_content@) == Ok::<Seq<EntryView>, CorruptKind>(
                        entries_view(es@),
                    )
                    &&& forall|k: int|
                        0 <= k < es@.len() ==> entry_wf(#[trigger] entries_view(es@)[k])
                            && entry_path_clean(entries_view(es@)[k])
                },
                Err(e) => {
                    &&& parse_index(index_content@) matches Err(k) && e.kind == ErrorKind::Corrupt
                        && e.message@ == corrupt_message(k)
                },
            },
    {
        let ghost bytes = index_content@;
        let n = index_content.len();
        if n < 12 {
            return Err(corrupt_error(CorruptKind::Signature));
        }
        if !(index_content[0] == 68 && index_content[1] == 73 && index_content[2] == 82
            && index_content[3] == 67) {
            proof {
                assert(bytes.subrange(0, 4)[0] == bytes[0]);
                assert(bytes.subrange(0, 4)[1] == bytes[1]);
                assert(bytes.subrange(0, 4)[2] == bytes[2]);
                assert(bytes.subrange(0, 4)[3] == bytes[3]);
            }
            return Err(corrupt_error(CorruptKind::Signature));
        }
        proof {
            assert(bytes.subrange(0, 4) =~= dirc_magic());
        }
        if !(index_content[4] == 0 && index_content[5] == 0 && index_content[6] == 0
            && index_content[7] == 2) {
            proof {
                assert(bytes.subrange(4, 8)[0] == bytes[4]);
                assert(bytes.subrange(4, 8)[1] == bytes[5]);
                assert(bytes.subrange(4, 8)[2] == bytes[6]);
                assert(bytes.subrange(4, 8)[3] == bytes[7]);
            }
            return Err(corrupt_error(CorruptKind::Version));
        }
        proof {
            assert(bytes.subrange(4, 8) =~= version_bytes());
        }
        if n < 32 {
            return Err(corrupt_error(CorruptKind::Checksum));
        }
        let hashed_region = vstd::slice::slice_subrange(index_content, 0, n - 20);
        let computed = sha1_digest(hashed_region);
        proof {
            assert(hashed_region@ == bytes.take(n - 20));
        }
        let mut checksum_ok = true;
        for k in 0..20
            invariant
                bytes == index_content@,
                n == bytes.len(),
                32 <= n,
                computed@ == sha1_of(bytes.take(n - 20)),
                computed@.len() == 20,
                checksum_ok ==> (forall|x: int| 0 <= x < k ==> computed@[x] == bytes[n - 20 + x]),
                !checksum_ok ==> (exists|x: int| 0 <= x < 20 && computed@[x] != bytes[n - 20 + x]),
        {
            if computed[k] != index_content[n - 20 + k] {
                proof {
                    assert(0 <= k < 20 && computed@[k as int] != bytes[n - 20 + k]);
                }
                checksum_ok = false;
            }
        }
        proof {
            let trailer = bytes.subrange(n - 20, n as int);
            if checksum_ok {
                assert(trailer =~= sha1_of(bytes.take(n - 20)));
            } else {
                let x = choose|x: int| 0 <= x < 20 && computed@[x] != bytes[n - 20 + x];
                assert(trailer[x] == bytes[n - 20 + x]);
                assert(trailer != sha1_of(bytes.take(n - 20)));
            }
        }
        if !checksum_ok {
            return Err(corrupt_error(CorruptKind::Checksum));
        }
        let quantity = crate::encoding::be32_decode(index_content, 8);
        let entry_data = vstd::slice::slice_subrange(index_content, 12, n - 20);
        let ghost data = entry_data@;
        proof {
            assert(data == bytes.subrange(12, n - 20));
            assert(quantity as nat == be32_val(bytes.subrange(8, 12)));
        }
        let dlen = entry_data.len();
        let mut entries: Vec<IndexEntry> = Vec::new();
        let mut i: usize = 0;
        let mut remaining: u32 = quantity;
        let ghost total_scan = scan_entries(data, 0, quantity as nat);
        proof {
            assert(entries_view(entries@) =~= Seq::<EntryView>::empty());
            assert(Seq::<EntryView>::empty() + total_scan =~= total_scan);
        }
        loop
            invariant
                dlen == data.len(),
                i <= dlen,
                data == entry_data@,
                total_scan == entries_view(entries@) + scan_entries(
                    data,
                    i as nat,
                    remaining as nat,
                ),
                forall|k: int|
                    0 <= k < entries@.len() ==> entry_wf(#[trigger] entries_view(entries@)[k])
                        && entry_path_clean(entries_view(entries@)[k]),
            ensures
                total_scan == entries_view(entries@),
                forall|k: int|
                    0 <= k < entries@.len() ==> entry_wf(#[trigger] entries_view(entries@)[k])
                        && entry_path_clean(entries_view(entries@)[k]),
            decreases remaining,
        {
            if remaining == 0 {
                proof {
                    assert(scan_entries(data, i as nat, 0) =~= Seq::<EntryView>::empty());
                    assert(entries_view(entries@) + Seq::<EntryView>::empty() =~= entries_view(
                        entries@,
                    ));
                }
                break;
            }
            if dlen - i <= 62 {
                proof {
                    assert(i + 62 >= data.len());
                    assert(scan_entries(data, i as nat, remaining as nat) =~= Seq::<
                        EntryView,
                    >::empty());
                    assert(entries_view(entries@) + Seq::<EntryView>::empty() =~= entries_view(
                        entries@,
                    ));
                }
                break;
            }
            let mut j = i + 62;
            while j < dlen
                invariant
                    i + 62 <= j <= dlen,
                    dlen == data.len(),
                    data == entry_data@,
                    forall|k: int| i + 62 <= k < j ==> data[k] != 0,
                ensures
                    i + 62 <= j <= dlen,
                    forall|k: int| i + 62 <= k < j ==> data[k] != 0,
                    j < dlen ==> data[j as int] == 0,
                decreases dlen - j,
            {
                if entry_data[j] == 0 {
                    break;
                }
                j = j + 1;
            }
            if j >= dlen {
                proof {
                    lemma_first_nul_none(data, (i + 62) as nat);
                    assert(scan_entries(data, i as nat, remaining as nat) =~= Seq::<
                        EntryView,
                    >::empty());
                    assert(entries_view(entries@) + Seq::<EntryView>::empty() =~= entries_view(
                        entries@,
                    ));
                }
                break;
            }
            let pe = j;
            proof {
                lemma_first_nul_found(data, (i + 62) as nat, pe as nat);
            }
            let entry = IndexEntry {
                ctime_s: vstd::slice::slice_to_vec(
                    vstd::slice::slice_subrange(entry_data, i, i + 4),
                ),
                ctime_n: vstd::slice::slice_to_vec(
                    vstd::slice::slice_subrange(entry_data, i + 4, i + 8),
                ),
                mtime_s: vstd::slice::slice_to_vec(
                    vstd::slice::slice_subrange(entry_data, i + 8, i + 12),
                ),
                mtime_n: vstd::slice::slice_to_vec(
                    vstd::slice::slice_subrange(entry_data, i + 12, i + 16),
                ),
                dev: vstd::slice::slice_to_vec(
                    vstd::slice::slice_subrange(entry_data, i + 16, i + 20),
                ),
                ino: vstd::slice::slice_to_vec(
                    vstd::slice::slice_subrange(entry_data, i + 20, i + 24),
                ),
                mode: vstd::slice::slice_to_vec(
                    vstd::slice::slice_subrange(entry_data, i + 24, i + 28),
                ),
                uid: vstd::slice::slice_to_vec(
                    vstd::slice::slice_subrange(entry_data, i + 28, i + 32),
                ),
                gid: vstd::slice::slice_to_vec(
                    vstd::slice::slice_subrange(entry_data, i + 32, i + 36),
                ),
                size: vstd::slice::slice_to_vec(
                    vstd::slice::slice_subrange(entry_data, i + 36, i + 40),
                ),
                sha1: vstd::slice::slice_to_vec(
                    vstd::slice::slice_subrange(entry_data, i + 40, i + 60),
                ),
                flags: vstd::slice::slice_to_vec(
                    vstd::slice::slice_subrange(entry_data, i + 60, i + 62),
                ),
                path: vstd::slice::slice_to_vec(
                    vstd::slice::slice_subrange(entry_data, i + 62, pe),
                ),
            };
            proof {
                assert(entry@ == entry_at(data, i as int, pe as int));
            }
            let ghost entries_before = entries@;
            entries.push(entry);
            let plen = pe - (i + 62);
            let padded: u128 = ((62 + plen as u128 + 8) / 8) * 8;
            proof {
                assert((62 + plen as u128 + 8) / 8 * 8 > 62 + plen as u128 && (62 + plen as u128
                    + 8) / 8 * 8 <= 62 + plen as u128 + 8) by (nonlinear_arith);
                assert(padded as nat == padded_len(plen as nat));
            }
            let next128: u128 = i as u128 + padded;
            proof {
                let e = entry_at(data, i as int, pe as int);
                assert(scan_entries(data, i as nat, remaining as nat) == seq![e] + scan_entries(
                    data,
                    i as nat + padded_len(plen as nat),
                    (remaining - 1) as nat,
                ));
                assert(entries_view(entries@) =~= entries_view(entries_before).push(e));
                assert(entries_view(entries_before).push(e) + scan_entries(
                    data,
                    i as nat + padded_len(plen as nat),
                    (remaining - 1) as nat,
                ) =~= entries_view(entries_before) + (seq![e] + scan_entries(
                    data,
                    i as nat + padded_len(plen as nat),
                    (remaining - 1) as nat,
                )));
            }
            if next128 >= dlen as u128 {
                proof {
                    assert(i as nat + padded_len(plen as nat) + 62 >= data.len());
                    assert(scan_entries(
                        data,
                        i as nat + padded_len(plen as nat),
                        (remaining - 1) as nat,
                    ) =~= Seq::<EntryView>::empty());
                    assert(scan_entries(data, dlen as nat, (remaining - 1) as nat) =~= Seq::<
                        EntryView,
                    >::empty());
                }
                i = dlen;
            } else {
                i = next128 as usize;
            }
            remaining = remaining - 1;
        }
        proof {
            assert(parse_index(bytes) == Ok::<Seq<EntryView>, CorruptKind>(total_scan));
        }
        Ok(entries)
    }

    /// Renders the entries for display, one per line: just the path, or,
    /// with `stage` set, the octal mode, the full hex hash, and the stage
    /// number before it.
    pub fn format_index_entries(entries: Vec<IndexEntry>, stage: bool) -> (r: String)
        requires
            forall|k: int|
                0 <= k < entries@.len() ==> entry_wf(#[trigger] entries_view(entries@)[k])
                    && valid_utf8(entries_view(entries@)[k].path),
        ensures
            r@ == format_lines(entries_view(entries@), stage),
    {
        let ghost evs = entries_view(entries@);
        let mut out = String::new();
        let n = entries.len();
        proof {
            assert(evs.take(0) =~= Seq::<EntryView>::empty());
        }
        for i in 0..n
            invariant
                n == entries@.len(),
                evs == entries_view(entries@),
                forall|k: int|
                    0 <= k < entries@.len() ==> entry_wf(#[trigger] evs[k]) && valid_utf8(
                        evs[k].path,
                    ),
                out@ == format_lines(evs.take(i as int), stage),
        {
            let ghost out_start = out@;
            if i > 0 {
                out.append("\n");
                proof {
                    reveal_strlit("\n");
                }
            }
            let ghost line_start = out@;
            let e = &entries[i];
            proof {
                assert(evs[i as int] == entries@[i as int]@);
            }
            if stage {
                let mode = crate::encoding::be32_decode(e.mode.as_slice(), 0);
                proof {
                    assert(e.mode@.subrange(0, 4) =~= e.mode@);
                }
                let mode_text = crate::encoding::render_oct_string(mode);
                out.append(mode_text.as_str());
                out.append(" ");
                let hash_text = crate::encoding::render_hex_string(e.sha1.as_slice());
                out.append(hash_text.as_str());
                out.append(" ");
                let flags_word = crate::encoding::be16_decode(e.flags.as_slice(), 0);
                proof {
                    assert(e.flags@.subrange(0, 2) =~= e.flags@);
                }
                let st = flags_word / 0x1000 % 4;
                out.append(crate::encoding::digit_str(st as u8));
                out.append("\t");
                proof {
                    reveal_strlit(" ");
                    reveal_strlit("\t");
                    assert(st as nat == stage_digit(evs[i as int].flags));
                }
            }
            match crate::text::utf8_to_string(e.path.as_slice()) {
                Some(path_text) => {
                    out.append(path_text.as_str());
                },
                None => {
                    proof {
                        assert(valid_utf8(evs[i as int].path));
                        assert(false);
                    }
                },
            }
            proof {
                assert(out@ =~= line_start + entry_line(evs[i as int], stage));
                if i == 0 {
                    assert(evs.take(1).len() == 1);
                    assert(evs.take(1)[0] == evs[0]);
                    assert(out@ =~= format_lines(evs.take(1), stage));
                } else {
                    assert(evs.take(i + 1).drop_last() =~= evs.take(i as int));
                    assert(evs.take(i + 1).last() == evs[i as int]);
                    assert(out@ =~= format_lines(evs.take(i + 1), stage));
                }
            }
        }
        proof {
            assert(evs.take(n as int) =~= evs);
        }
        out
    }

}

/// A subrange taken inside the left part of a concatenation.
proof fn lemma_concat_prefix_subrange(a: Seq<u8>, b: Seq<u8>, x: int, y: int)
    requires
        0 <= x <= y <= a.len(),
    ensures
        (a + b).subrange(x, y) == a.subrange(x, y),
{
    assert((a + b).subrange(x, y) =~= a.subrange(x, y));
}

/// A subrange taken inside the right part of a concatenation.
proof fn lemma_concat_suffix_subrange(a: Seq<u8>, b: Seq<u8>, x: int, y: int)
    requires
        0 <= x <= y <= b.len(),
    ensures
        (a + b).subrange(a.len() + x, a.len() + y) == b.subrange(x, y),
{
    assert((a + b).subrange(a.len() + x, a.len() + y) =~= b.subrange(x, y));
}

/// Where each piece of a well-formed entry lies in its serialized bytes.
#[verifier::rlimit(100)]
proof fn lemma_entry_bytes_structure(e: EntryView)
    requires
        entry_wf(e),
    ensures
        entry_bytes(e).len() == padded_len(e.path.len()),
        entry_bytes(e).subrange(0, 4) == e.ctime_s,
        entry_bytes(e).subrange(4, 8) == e.ctime_n,
        entry_bytes(e).subrange(8, 12) == e.mtime_s,
        entry_bytes(e).subrange(12, 16) == e.mtime_n,
        entry_bytes(e).subrange(16, 20) == e.dev,
        entry_bytes(e).subrange(20, 24) == e.ino,
        entry_bytes(e).subrange(24, 28) == e.mode,
        entry_bytes(e).subrange(28, 32) == e.uid,
        entry_bytes(e).subrange(32, 36) == e.gid,
        entry_bytes(e).subrange(36, 40) == e.size,
        entry_bytes(e).subrange(40, 60) == e.sha1,
        entry_bytes(e).subrange(60, 62) == e.flags,
        entry_bytes(e).subrange(62, 62 + e.path.len() as int) == e.path,
        forall|t: int| 62 + e.path.len() as int <= t < entry_bytes(e).len() ==> entry_bytes(e)[t] == 0,
{
    lemma_entry_bytes_len(e);
    let eb = entry_bytes(e);
    let head = e.ctime_s + e.ctime_n + e.mtime_s + e.mtime_n + e.dev + e.ino + e.mode + e.uid
        + e.gid + e.size + e.sha1 + e.flags;
    assert(head.len() == 62);
    assert(eb =~= head + e.path + zero_bytes(
        (padded_len(e.path.len()) - 62 - e.path.len()) as nat,
    ));
    assert(eb.subrange(0, 4) =~= e.ctime_s);
    assert(eb.subrange(4, 8) =~= e.ctime_n);
    assert(eb.subrange(8, 12) =~= e.mtime_s);
    assert(eb.subrange(12, 16) =~= e.mtime_n);
    assert(eb.subrange(16, 20) =~= e.dev);
    assert(eb.subrange(20, 24) =~= e.ino);
    assert(eb.subrange(24, 28) =~= e.mode);
    assert(eb.subrange(28, 32) =~= e.uid);
    assert(eb.subrange(32, 36) =~= e.gid);
    assert(eb.subrange(36, 40) =~= e.size);
    assert(eb.subrange(40, 60) =~= e.sha1);
    assert(eb.subrange(60, 62) =~= e.flags);
    assert(eb.subrange(62, 62 + e.path.len() as int) =~= e.path);
}

/// The first NUL search shifted across a prefix.
proof fn lemma_first_nul_shift(a: Seq<u8>, b: Seq<u8>, from: nat)
    ensures
        first_nul(a + b, a.len() + from) == match first_nul(b, from) {
            None => None::<nat>,
            Some(p) => Some((a.len() + p) as nat),
        },
    decreases b.len() - from,
{
    if from >= b.len() {
    } else {
        assert((a + b)[(a.len() + from) as int] == b[from as int]);
        if b[from as int] == 0 {
        } else {
            lemma_first_nul_shift(a, b, from + 1);
        }
    }
}

/// Scanning past a prefix reads the same entries as scanning the suffix.
proof fn lemma_scan_shift(a: Seq<u8>, b: Seq<u8>, i: nat, r: nat)
    ensures
        scan_entries(a + b, a.len() + i, r) == scan_entries(b, i, r),
    decreases r,
{
    let d = a + b;
    if r == 0 || i + 62 >= b.len() {
        assert(scan_entries(d, a.len() + i, r) =~= Seq::<EntryView>::empty());
        assert(scan_entries(b, i, r) =~= Seq::<EntryView>::empty());
    } else {
        lemma_first_nul_shift(a, b, i + 62);
        match first_nul(b, i + 62) {
            None => {
                assert(scan_entries(d, a.len() + i, r) =~= Seq::<EntryView>::empty());
                assert(scan_entries(b, i, r) =~= Seq::<EntryView>::empty());
            },
            Some(pe) => {
                assert(first_nul(d, a.len() + i + 62) == Some((a.len() + pe) as nat));
                lemma_first_nul_bounds(b, i + 62);
                let ii = i as int;
                lemma_concat_suffix_subrange(a, b, ii, ii + 4);
                lemma_concat_suffix_subrange(a, b, ii + 4, ii + 8);
                lemma_concat_suffix_subrange(a, b, ii + 8, ii + 12);
                lemma_concat_suffix_subrange(a, b, ii + 12, ii + 16);
                lemma_concat_suffix_subrange(a, b, ii + 16, ii + 20);
                lemma_concat_suffix_subrange(a, b, ii + 20, ii + 24);
                lemma_concat_suffix_subrange(a, b, ii + 24, ii + 28);
                lemma_concat_suffix_subrange(a, b, ii + 28, ii + 32);
                lemma_concat_suffix_subrange(a, b, ii + 32, ii + 36);
                lemma_concat_suffix_subrange(a, b, ii + 36, ii + 40);
                lemma_concat_suffix_subrange(a, b, ii + 40, ii + 60);
                lemma_concat_suffix_subrange(a, b, ii + 60, ii + 62);
                lemma_concat_suffix_subrange(a, b, ii + 62, pe as int);
                assert(entry_at(d, (a.len() + i) as int, (a.len() + pe) as int) == entry_at(
                    b,
                    ii,
                    pe as int,
                ));
                lemma_scan_shift(a, b, i + padded_len((pe - (i + 62)) as nat), (r - 1) as nat);
            },
        }
    }
}

/// Scanning the serialized form of well-formed, NUL-free entries yields the
/// entries themselves.
#[verifier::rlimit(100)]
proof fn lemma_scan_entries_bytes(es: Seq<EntryView>)
    requires
        forall|k: int|
            0 <= k < es.len() ==> entry_wf(#[trigger] es[k]) && entry_path_clean(es[k]),
    ensures
        scan_entries(entries_bytes(es), 0, es.len()) == es,
    decreases es.len(),
{
    if es.len() == 0 {
    } else {
        let e = es.first();
        let rest = es.drop_first();
        let eb = entry_bytes(e);
        let rb = entries_bytes(rest);
        let data = entries_bytes(es);
        assert(data == eb + rb);
        assert(es[0] == e);
        lemma_entry_bytes_structure(e);
        let plen = e.path.len();
        assert(forall|t: int| 0 <= t < eb.len() ==> data[t] == eb[t]);
        assert forall|k: int| 62 <= k < 62 + plen implies data[k] != 0 by {
            assert(eb[k] == eb.subrange(62, 62 + plen as int)[k - 62]);
            assert(entry_path_clean(e));
        }
        assert(data[62 + plen as int] == eb[62 + plen as int]);
        assert(eb[62 + plen as int] == 0);
        lemma_first_nul_found(data, 62, (62 + plen) as nat);
        assert(0 + 62 < data.len());
        let scanned = scan_entries(data, 0, es.len());
        assert(scanned == seq![entry_at(data, 0, 62 + plen as int)] + scan_entries(
            data,
            padded_len(plen),
            (es.len() - 1) as nat,
        ));
        assert(entry_at(data, 0, 62 + plen as int) == e) by {
            lemma_concat_prefix_subrange(eb, rb, 0, 4);
            lemma_concat_prefix_subrange(eb, rb, 4, 8);
            lemma_concat_prefix_subrange(eb, rb, 8, 12);
            lemma_concat_prefix_subrange(eb, rb, 12, 16);
            lemma_concat_prefix_subrange(eb, rb, 16, 20);
            lemma_concat_prefix_subrange(eb, rb, 20, 24);
            lemma_concat_prefix_subrange(eb, rb, 24, 28);
            lemma_concat_prefix_subrange(eb, rb, 28, 32);
            lemma_concat_prefix_subrange(eb, rb, 32, 36);
            lemma_concat_prefix_subrange(eb, rb, 36, 40);
            lemma_concat_prefix_subrange(eb, rb, 40, 60);
            lemma_concat_prefix_subrange(eb, rb, 60, 62);
            lemma_concat_prefix_subrange(eb, rb, 62, 62 + plen as int);
        }
        assert(forall|k: int|
            0 <= k < rest.len() ==> entry_wf(#[trigger] rest[k]) && entry_path_clean(rest[k]))
            by {
            assert(forall|k: int| 0 <= k < rest.len() ==> rest[k] == es[k + 1]);
        }
        lemma_scan_entries_bytes(rest);
        lemma_scan_shift(eb, rb, 0, (es.len() - 1) as nat);
        assert(scan_entries(data, eb.len(), (es.len() - 1) as nat) == rest);
        assert(scanned =~= es);
    }
}

/// Parsing the serialized form of a list of well-formed entries whose paths
/// hold no NUL byte gives back exactly that list, as long as the entry count
/// fits the header's 32 bits.
pub proof fn lemma_parse_of_serialize(es: Seq<EntryView>)
    requires
        sha1_of(index_body_bytes(es)).len() == 20,
        es.len() <= 0xFFFFFFFF,
        forall|k: int|
            0 <= k < es.len() ==> entry_wf(#[trigger] es[k]) && entry_path_clean(es[k]),
    ensures
        parse_index(index_file_bytes(es)) == Ok::<Seq<EntryView>, CorruptKind>(es),
{
    let body = index_body_bytes(es);
    let file = index_file_bytes(es);
    let header = header_bytes(es.len());
    assert(header.len() == 12);
    assert(file == body + sha1_of(body));
    assert(file.len() == body.len() + 20);
    assert(body.len() >= 12);
    assert(forall|t: int| 0 <= t < body.len() ==> file[t] == body[t]);
    assert(forall|t: int| 0 <= t < 12 ==> body[t] == header[t]);
    assert(file.subrange(0, 4) =~= dirc_magic());
    assert(file.subrange(4, 8) =~= version_bytes());
    assert(file.len() >= 32);
    assert(file.take(file.len() - 20) =~= body);
    assert(file.subrange(file.len() - 20, file.len() as int) =~= sha1_of(body));
    assert(file.subrange(8, 12) =~= be32((es.len() % 0x100000000) as u32));
    crate::encoding::lemma_be32_round_trip((es.len() % 0x100000000) as u32);
    assert(be32_val(file.subrange(8, 12)) == es.len());
    assert(file.subrange(12, file.len() - 20) =~= entries_bytes(es));
    lemma_scan_entries_bytes(es);
}


/// The stage number held in bits 12 and 13 of the flags word.
pub open spec fn stage_digit(flags: Seq<u8>) -> nat {
    be16_val(flags) / 0x1000 % 4
}

/// One display line: the path alone, or mode in octal, hash in hex, and
/// stage number before it.
pub open spec fn entry_line(e: EntryView, stage: bool) -> Seq<char> {
    if stage {
        oct_chars(be32_val(e.mode)) + seq![' '] + hex_chars(e.sha1) + seq![' '] + seq![
            digit_char(stage_digit(e.flags)),
        ] + seq!['\t'] + decode_utf8(e.path)
    } else {
        decode_utf8(e.path)
    }
}

/// The display lines of the entries, joined by newlines.
pub open spec fn format_lines(es: Seq<EntryView>, stage: bool) -> Seq<char>
    decreases es.len(),
{
    if es.len() == 0 {
        Seq::empty()
    } else if es.len() == 1 {
        entry_line(es[0], stage)
    } else {
        format_lines(es.drop_last(), stage) + seq!['\n'] + entry_line(es.last(), stage)
    }
}
/// Byte-wise lexicographic order on paths, shorter prefixes first.
pub open spec fn lex_le(a: Seq<u8>, b: Seq<u8>) -> bool
    decreases a.len(),
{
    if a.len() == 0 {
        true
    } else if b.len() == 0 {
        false
    } else if a.first() < b.first() {
        true
    } else if a.first() > b.first() {
        false
    } else {
        lex_le(a.drop_first(), b.drop_first())
    }
}

/// Comparing past a common prefix compares the tails.
proof fn lemma_lex_le_common_prefix(a: Seq<u8>, b: Seq<u8>, i: int)
    requires
        0 <= i <= a.len(),
        i <= b.len(),
        forall|j: int| 0 <= j < i ==> a[j] == b[j],
    ensures
        lex_le(a, b) == lex_le(a.skip(i), b.skip(i)),
    decreases i,
{
    if i > 0 {
        assert(a.len() > 0 && b.len() > 0);
        assert(a.first() == b.first());
        assert(a.drop_first() =~= a.skip(1));
        assert(b.drop_first() =~= b.skip(1));
        lemma_lex_le_common_prefix(a.skip(1), b.skip(1), i - 1);
        assert(a.skip(1).skip(i - 1) =~= a.skip(i));
        assert(b.skip(1).skip(i - 1) =~= b.skip(i));
    } else {
        assert(a.skip(0) =~= a);
        assert(b.skip(0) =~= b);
    }
}

/// Decides `lex_le` on two byte strings.
pub fn byte_lex_le(a: &Vec<u8>, b: &Vec<u8>) -> (r: bool)
    ensures
        r == lex_le(a@, b@),
{
    let alen = a.len();
    let blen = b.len();
    let mut i: usize = 0;
    while i < alen && i < blen
        invariant
            alen == a@.len(),
            blen == b@.len(),
            i <= alen,
            i <= blen,
            forall|j: int| 0 <= j < i ==> a@[j] == b@[j],
        ensures
            forall|j: int| 0 <= j < i ==> a@[j] == b@[j],
            i <= alen && i <= blen,
            i < alen && i < blen ==> a@[i as int] != b@[i as int],
            (i < alen && i < blen) || i == alen || i == blen,
        decreases alen - i,
    {
        if a[i] < b[i] {
            break;
        }
        if a[i] > b[i] {
            break;
        }
        i = i + 1;
    }
    proof {
        lemma_lex_le_common_prefix(a@, b@, i as int);
    }
    if i < alen && i < blen {
        proof {
            assert(a@.skip(i as int).first() == a@[i as int]);
            assert(b@.skip(i as int).first() == b@[i as int]);
        }
        a[i] < b[i]
    } else {
        proof {
            if i == alen {
                assert(a@.skip(i as int).len() == 0);
            } else {
                assert(b@.skip(i as int).len() == 0);
                assert(a@.skip(i as int).len() > 0);
            }
        }
        alen <= blen
    }
}

/// Inserts `e` after every entry whose path is less than or equal to its
/// own, so that entries with equal paths keep their arrival order.
pub open spec fn insert_sorted(e: EntryView, s: Seq<EntryView>) -> Seq<EntryView>
    decreases s.len(),
{
    if s.len() == 0 {
        seq![e]
    } else if lex_le(s.last().path, e.path) {
        s.push(e)
    } else {
        insert_sorted(e, s.drop_last()).push(s.last())
    }
}

/// The stable sort of the entries by path: each entry in turn is inserted
/// after its equals.
pub open spec fn sort_entries(s: Seq<EntryView>) -> Seq<EntryView>
    decreases s.len(),
{
    if s.len() == 0 {
        Seq::empty()
    } else {
        insert_sorted(s.last(), sort_entries(s.drop_last()))
    }
}


/// The entries are in path order: every earlier path precedes every later
/// one.
pub open spec fn entries_sorted(s: Seq<EntryView>) -> bool {
    forall|i: int, j: int|
        0 <= i < j < s.len() ==> lex_le(#[trigger] s[i].path, #[trigger] s[j].path)
}

/// Of two paths, one precedes the other.
proof fn lemma_lex_le_total(a: Seq<u8>, b: Seq<u8>)
    ensures
        lex_le(a, b) || lex_le(b, a),
    decreases a.len(),
{
    if a.len() > 0 && b.len() > 0 && a.first() == b.first() {
        lemma_lex_le_total(a.drop_first(), b.drop_first());
    }
}

/// The path order is transitive.
proof fn lemma_lex_le_trans(a: Seq<u8>, b: Seq<u8>, c: Seq<u8>)
    requires
        lex_le(a, b),
        lex_le(b, c),
    ensures
        lex_le(a, c),
    decreases a.len(),
{
    if a.len() > 0 && b.len() > 0 && c.len() > 0 {
        if a.first() == b.first() && b.first() == c.first() {
            lemma_lex_le_trans(a.drop_first(), b.drop_first(), c.drop_first());
        }
    }
}

/// Every element of an insertion is the inserted entry or one of the old
/// ones.
proof fn lemma_insert_sorted_elems(e: EntryView, s: Seq<EntryView>)
    ensures
        insert_sorted(e, s).len() == s.len() + 1,
        forall|i: int|
            0 <= i < insert_sorted(e, s).len() ==> #[trigger] insert_sorted(e, s)[i] == e
                || exists|j: int| 0 <= j < s.len() && insert_sorted(e, s)[i] == s[j],
    decreases s.len(),
{
    if s.len() == 0 {
    } else if lex_le(s.last().path, e.path) {
        assert forall|i: int| 0 <= i < insert_sorted(e, s).len() implies #[trigger] insert_sorted(
            e,
            s,
        )[i] == e || exists|j: int| 0 <= j < s.len() && insert_sorted(e, s)[i] == s[j] by {
            if i < s.len() {
                assert(insert_sorted(e, s)[i] == s[i]);
            }
        }
    } else {
        let dl = s.drop_last();
        lemma_insert_sorted_elems(e, dl);
        let t = insert_sorted(e, dl);
        assert forall|i: int| 0 <= i < insert_sorted(e, s).len() implies #[trigger] insert_sorted(
            e,
            s,
        )[i] == e || exists|j: int| 0 <= j < s.len() && insert_sorted(e, s)[i] == s[j] by {
            if i < t.len() {
                assert(insert_sorted(e, s)[i] == t[i]);
                if t[i] != e {
                    let j = choose|j: int| 0 <= j < dl.len() && t[i] == dl[j];
                    assert(insert_sorted(e, s)[i] == s[j]);
                }
            } else {
                assert(insert_sorted(e, s)[i] == s.last());
                assert(insert_sorted(e, s)[i] == s[s.len() - 1]);
            }
        }
    }
}

/// Inserting into a path-ordered list keeps it path-ordered.
proof fn lemma_insert_sorted_keeps_order(e: EntryView, s: Seq<EntryView>)
    requires
        entries_sorted(s),
    ensures
        entries_sorted(insert_sorted(e, s)),
    decreases s.len(),
{
    if s.len() == 0 {
    } else if lex_le(s.last().path, e.path) {
        let t = s.push(e);
        assert forall|i: int, j: int| 0 <= i < j < t.len() implies lex_le(
            #[trigger] t[i].path,
            #[trigger] t[j].path,
        ) by {
            if j < s.len() {
                assert(t[i] == s[i] && t[j] == s[j]);
            } else {
                assert(t[j] == e);
                assert(t[i] == s[i]);
                if i < s.len() - 1 {
                    assert(lex_le(s[i].path, s[s.len() - 1].path));
                    lemma_lex_le_trans(s[i].path, s.last().path, e.path);
                } else {
                    assert(s[i] == s.last());
                }
            }
        }
    } else {
        let dl = s.drop_last();
        assert(entries_sorted(dl)) by {
            assert(forall|x: int| 0 <= x < dl.len() ==> dl[x] == s[x]);
        }
        lemma_insert_sorted_keeps_order(e, dl);
        lemma_insert_sorted_elems(e, dl);
        lemma_lex_le_total(s.last().path, e.path);
        let t0 = insert_sorted(e, dl);
        let t = t0.push(s.last());
        assert(insert_sorted(e, s) == t);
        assert forall|i: int, j: int| 0 <= i < j < t.len() implies lex_le(
            #[trigger] t[i].path,
            #[trigger] t[j].path,
        ) by {
            if j < t0.len() {
                assert(t[i] == t0[i] && t[j] == t0[j]);
            } else {
                assert(t[j] == s.last());
                assert(t[i] == t0[i]);
                if t0[i] == e {
                    assert(lex_le(e.path, s.last().path));
                } else {
                    let x = choose|x: int| 0 <= x < dl.len() && t0[i] == dl[x];
                    assert(dl[x] == s[x]);
                    assert(lex_le(s[x].path, s[s.len() - 1].path));
                }
            }
        }
    }
}

/// The staged order law: sorting leaves the entries in path order, so a
/// serialized index always lists its paths byte-wise ascending.
pub proof fn lemma_sort_entries_sorted(s: Seq<EntryView>)
    ensures
        entries_sorted(sort_entries(s)),
    decreases s.len(),
{
    if s.len() > 0 {
        lemma_sort_entries_sorted(s.drop_last());
        lemma_insert_sorted_keeps_order(s.last(), sort_entries(s.drop_last()));
    }
}

/// Inserting at the position found by scanning back over larger paths is the
/// sorted insertion.
proof fn lemma_insert_sorted_at(e: EntryView, s: Seq<EntryView>, idx: int)
    requires
        0 <= idx <= s.len(),
        forall|j: int| idx <= j < s.len() ==> !lex_le(#[trigger] s[j].path, e.path),
        idx > 0 ==> lex_le(s[idx - 1].path, e.path),
    ensures
        insert_sorted(e, s) == s.insert(idx, e),
    decreases s.len(),
{
    if s.len() == 0 {
        assert(insert_sorted(e, s) =~= s.insert(0, e));
    } else if idx == s.len() {
        assert(lex_le(s.last().path, e.path));
        assert(s.push(e) =~= s.insert(idx, e));
    } else {
        assert(!lex_le(s[s.len() - 1].path, e.path));
        let dl = s.drop_last();
        assert(forall|j: int| idx <= j < dl.len() ==> dl[j] == s[j]);
        if idx > 0 {
            assert(dl[idx - 1] == s[idx - 1]);
        }
        lemma_insert_sorted_at(e, dl, idx);
        assert(insert_sorted(e, s) == insert_sorted(e, dl).push(s.last()));
        assert(dl.insert(idx, e).push(s.last()) =~= s.insert(idx, e));
    }
}

impl IndexEntry {
    /// Sorts the entries by path, keeping the arrival order of equal paths.
    pub fn sort_by_path(entries: Vec<IndexEntry>) -> (r: Vec<IndexEntry>)
        ensures
            entries_view(r@) == sort_entries(entries_view(entries@)),
    {
        let ghost orig = entries@;
        let mut rest = entries;
        let mut out: Vec<IndexEntry> = Vec::new();
        let total = rest.len();
        let mut k: usize = 0;
        proof {
            assert(entries_view(orig.take(0)) =~= Seq::<EntryView>::empty());
            assert(sort_entries(entries_view(orig.take(0))) =~= Seq::<EntryView>::empty());
            assert(entries_view(out@) =~= Seq::<EntryView>::empty());
        }
        while rest.len() > 0
            invariant
                orig.len() == total,
                k <= total,
                rest@ =~= orig.skip(k as int),
                entries_view(out@) == sort_entries(entries_view(orig.take(k as int))),
            decreases rest@.len(),
        {
            let e = rest.remove(0);
            proof {
                assert(e == orig[k as int]);
                assert(orig.skip(k as int).remove(0) =~= orig.skip(k + 1));
            }
            let mut idx = out.len();
            while idx > 0
                invariant
                    idx <= out@.len(),
                    forall|j: int|
                        idx <= j < out@.len() ==> !lex_le(
                            #[trigger] entries_view(out@)[j].path,
                            e@.path,
                        ),
                ensures
                    idx <= out@.len(),
                    forall|j: int|
                        idx <= j < out@.len() ==> !lex_le(
                            #[trigger] entries_view(out@)[j].path,
                            e@.path,
                        ),
                    idx > 0 ==> lex_le(entries_view(out@)[idx - 1].path, e@.path),
                decreases idx,
            {
                if byte_lex_le(&out[idx - 1].path, &e.path) {
                    break;
                }
                proof {
                    assert(entries_view(out@)[idx - 1].path == out@[idx - 1]@.path);
                }
                idx = idx - 1;
            }
            let ghost out_before = out@;
            proof {
                lemma_insert_sorted_at(e@, entries_view(out_before), idx as int);
            }
            out.insert(idx, e);
            proof {
                assert(entries_view(out@) =~= entries_view(out_before).insert(idx as int, e@));
                assert(entries_view(orig.take(k + 1)).drop_last() =~= entries_view(
                    orig.take(k as int),
                ));
                assert(entries_view(orig.take(k + 1)).last() == e@);
                assert(entries_view(orig.take(k + 1)) =~= entries_view(orig.take(k as int)).push(
                    e@,
                ));
                assert(sort_entries(entries_view(orig.take(k + 1))) == insert_sorted(
                    e@,
                    sort_entries(entries_view(orig.take(k as int))),
                ));
            }
            k = k + 1;
        }
        proof {
            assert(orig.take(total as int) =~= orig);
        }
        out
    }
}

} // verus!
