use vstd::prelude::*;
use vstd::string::StringSliceAdditionalSpecFns;
use vstd::utf8::{encode_utf8, is_ascii_chars, is_ascii_chars_encode_utf8};
use crate::fs::{
    DirectoryEntry, File, Filesystem, Folder, FilesystemError, Node, all_virtual, entries_model,
    entry_model,
    lemma_entries_model_append, lemma_entries_model_push,
};
use crate::wire::{pow256, text_of};
use crate::io::{lemma_length_prefixed_round_trip, lemma_text_of_ascii, ByteCursor, ShaiyaRead, ShaiyaWrite, parse_lp_string, parse_u32, parse_u64};
use crate::wire::{
    buf_bytes, buf_into_vec, buf_len, buf_put_bytes, buf_put_slice, buf_put_u32_le, buf_put_u64_le,
    buf_with_capacity, le_bytes, lemma_le_round_trip, lemma_pow256_values, lp_string,
};

verus! {

/// The tag at the start of every header.
pub const SAH_HEADER_MAGIC: &'static str = "SAH";

/// The header format version.
pub const HEADER_VERSION: u32 = 0;

/// The name of the root directory, stored once in the header.
pub const ROOT_DIRECTORY_NAME: &'static str = "data";

/// The initial capacity of a header buffer.
pub const DEFAULT_HEADER_CAPACITY: usize = 1_000_000;

/// The initial capacity of a data buffer.
pub const DEFAULT_DATA_CAPACITY: usize = 2_000_000_000;

/// The CRC-32/CKSUM checksum of a byte sequence.
pub uninterp spec fn cksum_of(b: Seq<u8>) -> u32;

/// Relies on crc's `Crc::<u32>::checksum` with `CRC_32_CKSUM`: the checksum
/// depends on the bytes alone.
#[verifier::external_body]
fn checksum(b: &[u8]) -> (r: u32)
    ensures
        r == cksum_of(b@),
{
    crc::Crc::<u32>::new(&crc::CRC_32_CKSUM).checksum(b)
}

/// The bytes that stand for a name in the header.
pub open spec fn name_bytes(name: String) -> Seq<u8> {
    encode_utf8(name@)
}

/// The bytes of the file at `e`, if it is one to pack.
pub open spec fn direct_data(e: DirectoryEntry) -> Seq<u8> {
    match e {
        DirectoryEntry::File(File::Direct { data, .. }) => data@,
        _ => Seq::empty(),
    }
}

/// The number of files among the first `n` entries of `s`.
pub open spec fn file_count(s: Seq<DirectoryEntry>, n: int) -> nat
    decreases n,
{
    if n <= 0 || n > s.len() {
        0
    } else {
        file_count(s, n - 1) + if s[n - 1] is File { 1nat } else { 0nat }
    }
}

/// The number of folders among the first `n` entries of `s`.
pub open spec fn folder_count(s: Seq<DirectoryEntry>, n: int) -> nat
    decreases n,
{
    if n <= 0 || n > s.len() {
        0
    } else {
        folder_count(s, n - 1) + if s[n - 1] is Folder { 1nat } else { 0nat }
    }
}

/// The header record of a packed file.
pub open spec fn file_record(name: Seq<u8>, offset: nat, data: Seq<u8>) -> Seq<u8> {
    lp_string(name) + le_bytes(offset, 8) + le_bytes(data.len(), 4) + le_bytes(
        cksum_of(data) as nat,
        4,
    )
}

/// The bytes of the files among the first `n` entries of `s`, in order.
pub open spec fn files_data(s: Seq<DirectoryEntry>, n: int) -> Seq<u8>
    decreases n,
{
    if n <= 0 || n > s.len() {
        Seq::empty()
    } else {
        files_data(s, n - 1) + direct_data(s[n - 1])
    }
}

/// The header records of the files among the first `n` entries of `s`,
/// whose bytes are placed from offset `off` of the data blob on.
pub open spec fn files_header(s: Seq<DirectoryEntry>, n: int, off: nat) -> Seq<u8>
    decreases n,
{
    if n <= 0 || n > s.len() {
        Seq::empty()
    } else {
        files_header(s, n - 1, off) + match s[n - 1] {
            DirectoryEntry::File(File::Direct { name, data }) => file_record(
                name_bytes(name),
                off + files_data(s, n - 1).len(),
                data@,
            ),
            _ => Seq::empty(),
        }
    }
}

/// The data blob of a directory: its own files first, then those of each
/// folder in turn.
pub open spec fn dir_data(s: Seq<DirectoryEntry>) -> Seq<u8>
    decreases s, 1int, 0int,
{
    files_data(s, s.len() as int) + folders_data(s, s.len() as int)
}

/// The data blobs of the folders among the first `n` entries of `s`.
pub open spec fn folders_data(s: Seq<DirectoryEntry>, n: int) -> Seq<u8>
    decreases s, 0int, n,
{
    if n <= 0 || n > s.len() {
        Seq::empty()
    } else {
        folders_data(s, n - 1) + match s[n - 1] {
            DirectoryEntry::Folder(f) => dir_data(f.contents@),
            _ => Seq::empty(),
        }
    }
}

/// The number of files in a directory and all the folders under it.
pub open spec fn file_total(s: Seq<DirectoryEntry>) -> nat
    decreases s, 1int, 0int,
{
    file_count(s, s.len() as int) + folders_total(s, s.len() as int)
}

/// The number of files under the folders among the first `n` entries of `s`.
pub open spec fn folders_total(s: Seq<DirectoryEntry>, n: int) -> nat
    decreases s, 0int, n,
{
    if n <= 0 || n > s.len() {
        0
    } else {
        folders_total(s, n - 1) + match s[n - 1] {
            DirectoryEntry::Folder(f) => file_total(f.contents@),
            _ => 0,
        }
    }
}

/// The header body of a directory whose data is placed from offset `off`:
/// the file count and file records, then the folder count and, for each
/// folder, its name and its own body.
pub open spec fn dir_header(s: Seq<DirectoryEntry>, off: nat) -> Seq<u8>
    decreases s, 1int, 0int,
{
    le_bytes(file_count(s, s.len() as int), 4) + files_header(s, s.len() as int, off) + le_bytes(
        folder_count(s, s.len() as int),
        4,
    ) + folders_header(s, s.len() as int, off + files_data(s, s.len() as int).len())
}

/// The header bodies of the folders among the first `n` entries of `s`,
/// whose data is placed from offset `off` on.
pub open spec fn folders_header(s: Seq<DirectoryEntry>, n: int, off: nat) -> Seq<u8>
    decreases s, 0int, n,
{
    if n <= 0 || n > s.len() {
        Seq::empty()
    } else {
        folders_header(s, n - 1, off) + match s[n - 1] {
            DirectoryEntry::Folder(f) => lp_string(name_bytes(f.name)) + dir_header(
                f.contents@,
                off + folders_data(s, n - 1).len(),
            ),
            _ => Seq::empty(),
        }
    }
}

/// A directory that can be packed: every file is a `Direct` one of at most
/// `u32::MAX` bytes, every name and count fits the header's `u32` fields.
pub open spec fn encodable(s: Seq<DirectoryEntry>) -> bool
    decreases s,
{
    &&& s.len() <= u32::MAX
    &&& forall|i: int|
        0 <= i < s.len() ==> match #[trigger] s[i] {
            DirectoryEntry::File(File::Direct { name, data }) => name_bytes(name).len() < u32::MAX
                && data@.len() <= u32::MAX,
            DirectoryEntry::File(File::Virtual { .. }) => false,
            DirectoryEntry::Folder(f) => name_bytes(f.name).len() < u32::MAX && encodable(
                f.contents@,
            ),
        }
}

/// The file record at the front of `s`, and what follows it.
pub open spec fn parse_file(s: Seq<u8>) -> Option<(Node, Seq<u8>)> {
    match parse_lp_string(s) {
        Some((name, r1)) => match parse_u64(r1) {
            Some((offset, r2)) => match parse_u32(r2) {
                Some((length, r3)) => match parse_u32(r3) {
                    Some((checksum, r4)) => Some(
                        (Node::File { name, offset, length, checksum }, r4),
                    ),
                    None => None,
                },
                None => None,
            },
            None => None,
        },
        None => None,
    }
}

/// `n` file records at the front of `s`, and what follows them.
pub open spec fn parse_files(s: Seq<u8>, n: nat) -> Option<(Seq<Node>, Seq<u8>)>
    decreases n,
{
    if n == 0 {
        Some((Seq::empty(), s))
    } else {
        match parse_files(s, (n - 1) as nat) {
            Some((v, r)) => match parse_file(r) {
                Some((f, r2)) => Some((v.push(f), r2)),
                None => None,
            },
            None => None,
        }
    }
}

/// The directory body at the front of `s`, and what follows it. (Each step
/// reads some bytes, so the length tests below always pass; they state that
/// the parse moves forward.)
pub open spec fn parse_body(s: Seq<u8>) -> Option<(Seq<Node>, Seq<u8>)>
    decreases s.len(), 1int, 0int,
{
    match parse_u32(s) {
        Some((file_qty, r1)) => match parse_files(r1, file_qty) {
            Some((files, r2)) => match parse_u32(r2) {
                Some((folder_qty, r3)) => if r3.len() <= s.len() {
                    match parse_folders(r3, folder_qty) {
                        Some((folders, r4)) => Some((files + folders, r4)),
                        None => None,
                    }
                } else {
                    None
                },
                None => None,
            },
            None => None,
        },
        None => None,
    }
}

/// `n` folders, each a name and a body, at the front of `s`, and what
/// follows them.
pub open spec fn parse_folders(s: Seq<u8>, n: nat) -> Option<(Seq<Node>, Seq<u8>)>
    decreases s.len(), 0int, n,
{
    if n == 0 {
        Some((Seq::empty(), s))
    } else {
        match parse_folders(s, (n - 1) as nat) {
            Some((v, r)) => match parse_lp_string(r) {
                Some((name, r1)) => if r1.len() < s.len() {
                    match parse_body(r1) {
                        Some((contents, r2)) => Some(
                            (v.push(Node::Folder { name, contents }), r2),
                        ),
                        None => None,
                    }
                } else {
                    None
                },
                None => None,
            },
            None => None,
        }
    }
}

/// The model of a sequence of entries.
pub open spec fn model_of(s: Seq<DirectoryEntry>) -> Seq<Node> {
    entries_model(s, s.len() as int)
}

/// `n` zero bytes.
pub open spec fn zeros(n: nat) -> Seq<u8> {
    Seq::new(n, |i: int| 0u8)
}

/// The header of the archive of a root directory with entries `s`: tag,
/// version, total file count, reserved bytes, root name, body and footer.
pub open spec fn archive_header(s: Seq<DirectoryEntry>) -> Seq<u8> {
    SAH_HEADER_MAGIC.spec_bytes() + le_bytes(HEADER_VERSION as nat, 4) + le_bytes(file_total(s), 4)
        + zeros(40) + lp_string(ROOT_DIRECTORY_NAME.spec_bytes()) + dir_header(s, 0) + zeros(8)
}

/// What follows the tag of a header: the version, the file count, the
/// reserved bytes (skipped, to the end where fewer remain), the root name and
/// the root body. The result is the model of the root's entries.
pub open spec fn parse_after_magic(s: Seq<u8>) -> Option<Seq<Node>> {
    match parse_u32(s) {
        Some((_version, r1)) => match parse_u32(r1) {
            Some((_total, r2)) => {
                let r3 = if r2.len() >= 40 { r2.skip(40) } else { Seq::empty() };
                match parse_lp_string(r3) {
                    Some((_root, r4)) => match parse_body(r4) {
                        Some((nodes, _rest)) => Some(nodes),
                        None => None,
                    },
                    None => None,
                }
            },
            None => None,
        },
        None => None,
    }
}

/// The entry at `e` can stand in a directory that can be packed.
pub open spec fn entry_encodable(e: DirectoryEntry) -> bool {
    match e {
        DirectoryEntry::File(File::Direct { name, data }) => name_bytes(name).len() < u32::MAX
            && data@.len() <= u32::MAX,
        DirectoryEntry::File(File::Virtual { .. }) => false,
        DirectoryEntry::Folder(f) => name_bytes(f.name).len() < u32::MAX && encodable(f.contents@),
    }
}

/// The number of files in and under a directory, where the directory can be
/// packed with that count in a `u32`; `None` where it cannot.
fn packable_total(contents: &Vec<DirectoryEntry>) -> (r: Option<u32>)
    ensures
        r == (if encodable(contents@) && file_total(contents@) <= u32::MAX {
            Some(file_total(contents@) as u32)
        } else {
            None::<u32>
        }),
    decreases contents@,
{
    let ghost s = contents@;
    let len = contents.len();
    if len > 4294967295 {
        return None;
    }
    let mut i: usize = 0;
    let mut files: u64 = 0;
    let mut total: u64 = 0;
    while i < len
        invariant
            s == contents@,
            len == s.len(),
            len <= u32::MAX,
            i <= len,
            files == file_count(s, i as int),
            total == folders_total(s, i as int),
            files + total <= u32::MAX,
            forall|j: int| 0 <= j < i ==> entry_encodable(#[trigger] s[j]),
        decreases len - i,
    {
        proof {
            lemma_counts_bounded(s, i + 1);
        }
        match &contents[i] {
            DirectoryEntry::File(File::Direct { name, data }) => {
                if name.as_str().as_bytes().len() >= 4294967295 || data.len() > 4294967295 {
                    return None;
                }
                files = files + 1;
            },
            DirectoryEntry::File(File::Virtual { .. }) => {
                return None;
            },
            DirectoryEntry::Folder(f) => {
                if f.name.as_str().as_bytes().len() >= 4294967295 {
                    return None;
                }
                match packable_total(&f.contents) {
                    Some(n) => {
                        total = total + n as u64;
                    },
                    None => {
                        proof {
                            if encodable(f.contents@) {
                                lemma_prefix_counts_grow(s, i + 1, len as int);
                            }
                        }
                        return None;
                    },
                }
            },
        }
        if files + total > 4294967295 {
            proof {
                lemma_prefix_counts_grow(s, i + 1, len as int);
            }
            return None;
        }
        i = i + 1;
    }
    assert(encodable(s));
    Some((files + total) as u32)
}

impl Filesystem {
    /// Whether `build` accepts this tree: every file is a `Direct` one of at
    /// most `u32::MAX` bytes, and every name and count fits the header.
    pub fn can_build(&self) -> (r: bool)
        ensures
            r == (encodable(self.contents@) && file_total(self.contents@) <= u32::MAX),
    {
        packable_total(&self.contents).is_some()
    }

    /// Packs the tree: returns the header and the data blob.
    pub fn build(&self) -> (r: (Vec<u8>, Vec<u8>))
        requires
            encodable(self.contents@),
            file_total(self.contents@) <= u32::MAX,
        ensures
            r.0@ == archive_header(self.contents@),
            r.1@ == dir_data(self.contents@),
    {
        build_filesystem(self)
    }

    /// Reads a header into the tree of packed file records it describes.
    pub fn from_archive(header: &[u8]) -> (r: Result<Filesystem, FilesystemError>)
        ensures
            header@.len() < 3 ==> r matches Err(FilesystemError::UnexpectedEof),
            header@.len() >= 3 && text_of(header@.take(3)) != SAH_HEADER_MAGIC@ ==> (r matches Err(
                FilesystemError::InvalidMagicValue(m),
            ) && m@ == text_of(header@.take(3))),
            header@.len() >= 3 && text_of(header@.take(3)) == SAH_HEADER_MAGIC@ ==> match parse_after_magic(
                header@.skip(3),
            ) {
                Some(nodes) => r matches Ok(fs) && model_of(fs.contents@) == nodes && all_virtual(
                    fs.contents@,
                ),
                None => r matches Err(FilesystemError::UnexpectedEof),
            },
    {
        read_filesystem(header)
    }
}

/// What follows the tag is read the same whatever its version, file count
/// and reserved bytes hold: they are read and dropped, never checked.
pub proof fn lemma_reserved_fields_ignored(x: Seq<u8>, y: Seq<u8>)
    requires
        x.len() == y.len(),
        x.len() >= 48 ==> x.skip(48) == y.skip(48),
    ensures
        parse_after_magic(x) == parse_after_magic(y),
{
    if x.len() >= 48 {
        assert(x.skip(4).skip(4).skip(40) =~= x.skip(48));
        assert(y.skip(4).skip(4).skip(40) =~= y.skip(48));
    } else if x.len() >= 8 {
        assert(parse_lp_string(Seq::<u8>::empty()) is None);
    }
}

/// Packs a directory tree: returns the header and the data blob.
pub fn build_filesystem(fs: &Filesystem) -> (r: (Vec<u8>, Vec<u8>))
    requires
        encodable(fs.contents@),
        file_total(fs.contents@) <= u32::MAX,
    ensures
        r.0@ == archive_header(fs.contents@),
        r.1@ == dir_data(fs.contents@),
{
    let mut header_buf = buf_with_capacity(DEFAULT_HEADER_CAPACITY);
    let mut data_buf = buf_with_capacity(DEFAULT_DATA_CAPACITY);
    let total_files = write_contents(&fs.contents, &mut header_buf, &mut data_buf);
    let mut out = buf_with_capacity(0);
    buf_put_slice(&mut out, SAH_HEADER_MAGIC.as_bytes());
    buf_put_u32_le(&mut out, HEADER_VERSION);
    buf_put_u32_le(&mut out, total_files);
    buf_put_bytes(&mut out, 0, 40);
    proof {
        reveal_strlit("data");
        assert(vstd::string::is_ascii(ROOT_DIRECTORY_NAME));
        vstd::string::is_ascii_spec_bytes(ROOT_DIRECTORY_NAME);
    }
    out.put_length_prefixed_string(ROOT_DIRECTORY_NAME);
    let body = buf_into_vec(header_buf);
    buf_put_slice(&mut out, body.as_slice());
    buf_put_bytes(&mut out, 0, 8);
    assert(buf_bytes(out) =~= archive_header(fs.contents@));
    (buf_into_vec(out), buf_into_vec(data_buf))
}

/// Reads a header into the tree of packed file records it describes.
pub fn read_filesystem(header: &[u8]) -> (r: Result<Filesystem, FilesystemError>)
    ensures
        header@.len() < 3 ==> r matches Err(FilesystemError::UnexpectedEof),
        header@.len() >= 3 && text_of(header@.take(3)) != SAH_HEADER_MAGIC@ ==> (r matches Err(
            FilesystemError::InvalidMagicValue(m),
        ) && m@ == text_of(header@.take(3))),
        header@.len() >= 3 && text_of(header@.take(3)) == SAH_HEADER_MAGIC@ ==> match parse_after_magic(
            header@.skip(3),
        ) {
            Some(nodes) => r matches Ok(fs) && model_of(fs.contents@) == nodes && all_virtual(
                fs.contents@,
            ),
            None => r matches Err(FilesystemError::UnexpectedEof),
        },
{
    let mut cursor = ByteCursor::new(header);
    let magic = match cursor.read_fixed_length_string(3) {
        Ok(m) => m,
        Err(e) => return Err(e),
    };
    let expected = String::from_str(SAH_HEADER_MAGIC);
    if !(magic == expected) {
        return Err(FilesystemError::InvalidMagicValue(magic));
    }
    let ghost s = cursor.remaining();
    assert(s == header@.skip(3));
    if let Err(e) = cursor.read_u32_le() {
        return Err(e);
    }
    if let Err(e) = cursor.read_u32_le() {
        return Err(e);
    }
    cursor.skip(40);
    if let Err(e) = cursor.read_length_prefixed_string() {
        return Err(e);
    }
    match read_contents(&mut cursor) {
        Ok(contents) => Ok(Filesystem { contents }),
        Err(e) => Err(e),
    }
}

/// A name that reads back as itself: ASCII, without a zero character, and
/// short enough for the header's `u32` length.
pub open spec fn plain_name(name: Seq<char>) -> bool {
    &&& is_ascii_chars(name)
    &&& forall|i: int| 0 <= i < name.len() ==> #[trigger] name[i] != '\0'
    &&& name.len() + 1 < u32::MAX
}

/// Every name in and under a directory is plain.
pub open spec fn plain_names(s: Seq<DirectoryEntry>) -> bool
    decreases s,
{
    forall|i: int|
        0 <= i < s.len() ==> match #[trigger] s[i] {
            DirectoryEntry::File(File::Direct { name, .. }) => plain_name(name@),
            DirectoryEntry::File(File::Virtual { name, .. }) => plain_name(name@),
            DirectoryEntry::Folder(f) => plain_name(f.name@) && plain_names(f.contents@),
        }
}

/// The packed records of the files among the first `n` entries of `s`, whose
/// bytes are placed from offset `off` on.
pub open spec fn packed_files(s: Seq<DirectoryEntry>, n: int, off: nat) -> Seq<Node>
    decreases n,
{
    if n <= 0 || n > s.len() {
        Seq::empty()
    } else {
        packed_files(s, n - 1, off) + match s[n - 1] {
            DirectoryEntry::File(File::Direct { name, data }) => seq![
                Node::File {
                    name: name@,
                    offset: off + files_data(s, n - 1).len(),
                    length: data@.len(),
                    checksum: cksum_of(data@) as nat,
                },
            ],
            _ => Seq::empty(),
        }
    }
}

/// The tree that the archive of a directory describes, where its data is
/// placed from offset `off`: in each directory its files come first, each a
/// record of name, offset, length and checksum, then its folders.
pub open spec fn packed_dir(s: Seq<DirectoryEntry>, off: nat) -> Seq<Node>
    decreases s, 1int, 0int,
{
    packed_files(s, s.len() as int, off) + packed_folders(
        s,
        s.len() as int,
        off + files_data(s, s.len() as int).len(),
    )
}

/// The packed folders among the first `n` entries of `s`, whose data is
/// placed from offset `off` on.
pub open spec fn packed_folders(s: Seq<DirectoryEntry>, n: int, off: nat) -> Seq<Node>
    decreases s, 0int, n,
{
    if n <= 0 || n > s.len() {
        Seq::empty()
    } else {
        packed_folders(s, n - 1, off) + match s[n - 1] {
            DirectoryEntry::Folder(f) => seq![
                Node::Folder {
                    name: f.name@,
                    contents: packed_dir(f.contents@, off + folders_data(s, n - 1).len()),
                },
            ],
            _ => Seq::empty(),
        }
    }
}

/// A plain name written as a length-prefixed string reads back as itself.
proof fn lemma_name_round_trip(name: String, rest: Seq<u8>)
    requires
        plain_name(name@),
    ensures
        parse_lp_string(lp_string(name_bytes(name)) + rest) == Some((name@, rest)),
        lp_string(name_bytes(name)).len() >= 5,
{
    is_ascii_chars_encode_utf8(name@);
    lemma_length_prefixed_round_trip(name@, rest);
}

/// A file record reads back as the packed record of the file.
proof fn lemma_file_record_round_trip(name: String, offset: nat, data: Seq<u8>, rest: Seq<u8>)
    requires
        plain_name(name@),
        offset < pow256(8),
        data.len() <= u32::MAX,
    ensures
        parse_file(file_record(name_bytes(name), offset, data) + rest) == Some(
            (
                Node::File {
                    name: name@,
                    offset,
                    length: data.len(),
                    checksum: cksum_of(data) as nat,
                },
                rest,
            ),
        ),
{
    lemma_pow256_values();
    let nb = lp_string(name_bytes(name));
    let o = le_bytes(offset, 8);
    let l = le_bytes(data.len(), 4);
    let c = le_bytes(cksum_of(data) as nat, 4);
    lemma_le_round_trip(offset, 8);
    lemma_le_round_trip(data.len(), 4);
    lemma_le_round_trip(cksum_of(data) as nat, 4);
    let all = file_record(name_bytes(name), offset, data) + rest;
    assert(all =~= nb + (o + l + c + rest));
    lemma_name_round_trip(name, o + l + c + rest);
    let r1 = o + l + c + rest;
    assert(r1.take(8) =~= o);
    assert(r1.skip(8) =~= l + c + rest);
    let r2 = l + c + rest;
    assert(r2.take(4) =~= l);
    assert(r2.skip(4) =~= c + rest);
    let r3 = c + rest;
    assert(r3.take(4) =~= c);
    assert(r3.skip(4) =~= rest);
}

/// The file records of a prefix of a directory read back as its packed files.
proof fn lemma_files_round_trip(s: Seq<DirectoryEntry>, n: int, off: nat, rest: Seq<u8>)
    requires
        0 <= n <= s.len(),
        encodable(s),
        plain_names(s),
        off + files_data(s, n).len() < pow256(8),
    ensures
        parse_files(files_header(s, n, off) + rest, file_count(s, n)) == Some(
            (packed_files(s, n, off), rest),
        ),
    decreases n,
{
    if n == 0 {
        assert(files_header(s, 0, off) + rest =~= rest);
    } else {
        match s[n - 1] {
            DirectoryEntry::File(File::Direct { name, data }) => {
                let offset = off + files_data(s, n - 1).len();
                let rec = file_record(name_bytes(name), offset, data@);
                lemma_files_round_trip(s, n - 1, off, rec + rest);
                assert(files_header(s, n, off) + rest =~= files_header(s, n - 1, off) + (rec
                    + rest));
                lemma_file_record_round_trip(name, offset, data@, rest);
            },
            DirectoryEntry::File(File::Virtual { .. }) => {},
            DirectoryEntry::Folder(_) => {
                lemma_files_round_trip(s, n - 1, off, rest);
                assert(files_header(s, n, off) =~= files_header(s, n - 1, off));
                assert(packed_files(s, n, off) =~= packed_files(s, n - 1, off));
            },
        }
    }
}

/// The folders of a prefix of a directory read back as its packed folders.
proof fn lemma_folders_round_trip(s: Seq<DirectoryEntry>, n: int, off: nat, rest: Seq<u8>)
    requires
        0 <= n <= s.len(),
        encodable(s),
        plain_names(s),
        off + folders_data(s, n).len() < pow256(8),
    ensures
        parse_folders(folders_header(s, n, off) + rest, folder_count(s, n)) == Some(
            (packed_folders(s, n, off), rest),
        ),
    decreases s, 0int, n,
{
    if n == 0 {
        assert(folders_header(s, 0, off) + rest =~= rest);
    } else {
        match s[n - 1] {
            DirectoryEntry::Folder(f) => {
                let c = f.contents@;
                let off2 = off + folders_data(s, n - 1).len();
                let body = dir_header(c, off2);
                let tail = lp_string(name_bytes(f.name)) + body;
                lemma_folders_round_trip(s, n - 1, off, tail + rest);
                let x = folders_header(s, n, off) + rest;
                assert(x =~= folders_header(s, n - 1, off) + (tail + rest));
                lemma_name_round_trip(f.name, body + rest);
                assert(tail + rest =~= lp_string(name_bytes(f.name)) + (body + rest));
                lemma_body_round_trip(c, off2, rest);
                assert(packed_folders(s, n, off) == packed_folders(s, n - 1, off).push(
                    Node::Folder { name: f.name@, contents: packed_dir(c, off2) },
                ));
            },
            _ => {
                lemma_folders_round_trip(s, n - 1, off, rest);
                assert(folders_header(s, n, off) =~= folders_header(s, n - 1, off));
                assert(packed_folders(s, n, off) =~= packed_folders(s, n - 1, off));
            },
        }
    }
}

/// The header body of a directory reads back as its packed tree.
pub(crate) proof fn lemma_body_round_trip(s: Seq<DirectoryEntry>, off: nat, rest: Seq<u8>)
    requires
        encodable(s),
        plain_names(s),
        off + dir_data(s).len() < pow256(8),
    ensures
        parse_body(dir_header(s, off) + rest) == Some((packed_dir(s, off), rest)),
    decreases s, 1int, 0int,
{
    let len = s.len() as int;
    lemma_counts_bounded(s, len);
    lemma_pow256_values();
    let fc = file_count(s, len);
    let dc = folder_count(s, len);
    let fh = files_header(s, len, off);
    let off2 = off + files_data(s, len).len();
    let dh = folders_header(s, len, off2);
    let x = dir_header(s, off) + rest;
    let r1 = fh + (le_bytes(dc, 4) + (dh + rest));
    let r2 = le_bytes(dc, 4) + (dh + rest);
    assert(x =~= le_bytes(fc, 4) + r1);
    lemma_le_round_trip(fc, 4);
    assert(x.take(4) =~= le_bytes(fc, 4));
    assert(x.skip(4) =~= r1);
    lemma_files_round_trip(s, len, off, r2);
    lemma_le_round_trip(dc, 4);
    assert(r2.take(4) =~= le_bytes(dc, 4));
    assert(r2.skip(4) =~= dh + rest);
    lemma_folders_round_trip(s, len, off2, rest);
}

/// Packing a tree of `Direct` files whose names are plain, then reading the
/// header back, gives the same tree of names and nesting: in each directory
/// its files, in their order, each with the offset of its bytes in the data
/// blob, its length and its checksum, then its folders, in their order.
pub proof fn lemma_archive_round_trip(fs: Filesystem)
    requires
        encodable(fs.contents@),
        file_total(fs.contents@) <= u32::MAX,
        plain_names(fs.contents@),
        dir_data(fs.contents@).len() <= usize::MAX,
    ensures
        archive_header(fs.contents@).len() >= 3,
        text_of(archive_header(fs.contents@).take(3)) == SAH_HEADER_MAGIC@,
        parse_after_magic(archive_header(fs.contents@).skip(3)) == Some(
            packed_dir(fs.contents@, 0),
        ),
{
    let s = fs.contents@;
    lemma_pow256_values();
    reveal_strlit("SAH");
    reveal_strlit("data");
    let magic = SAH_HEADER_MAGIC.spec_bytes();
    let root = ROOT_DIRECTORY_NAME.spec_bytes();
    is_ascii_chars_encode_utf8(SAH_HEADER_MAGIC@);
    is_ascii_chars_encode_utf8(ROOT_DIRECTORY_NAME@);
    lemma_text_of_ascii(SAH_HEADER_MAGIC@, magic);
    let body = dir_header(s, 0) + zeros(8);
    let r4 = lp_string(root) + body;
    let r2 = zeros(40) + r4;
    let r1 = le_bytes(file_total(s), 4) + r2;
    let r0 = le_bytes(HEADER_VERSION as nat, 4) + r1;
    let all = archive_header(s);
    assert(all =~= magic + r0);
    assert(all.take(3) =~= magic);
    assert(all.skip(3) =~= r0);
    lemma_le_round_trip(HEADER_VERSION as nat, 4);
    assert(r0.take(4) =~= le_bytes(HEADER_VERSION as nat, 4));
    assert(r0.skip(4) =~= r1);
    lemma_le_round_trip(file_total(s), 4);
    assert(r1.take(4) =~= le_bytes(file_total(s), 4));
    assert(r1.skip(4) =~= r2);
    assert(r2.skip(40) =~= r4);
    lemma_length_prefixed_round_trip(ROOT_DIRECTORY_NAME@, body);
    lemma_body_round_trip(s, 0, zeros(8));
}

/// Once a parse of `n` file records fails, so does one of more.
proof fn lemma_parse_files_fails(s: Seq<u8>, n: nat, m: nat)
    requires
        parse_files(s, n) is None,
        n <= m,
    ensures
        parse_files(s, m) is None,
    decreases m,
{
    if n < m {
        lemma_parse_files_fails(s, n, (m - 1) as nat);
    }
}

/// Once a parse of `n` folders fails, so does one of more.
proof fn lemma_parse_folders_fails(s: Seq<u8>, n: nat, m: nat)
    requires
        parse_folders(s, n) is None,
        n <= m,
    ensures
        parse_folders(s, m) is None,
    decreases m,
{
    if n < m {
        lemma_parse_folders_fails(s, n, (m - 1) as nat);
    }
}

/// Reads one file record of a directory body.
fn read_file_record(header: &mut ByteCursor) -> (r: Result<DirectoryEntry, FilesystemError>)
    ensures
        match parse_file(old(header).remaining()) {
            Some((node, rest)) => r matches Ok(e) && entry_model(e) == node
                && final(header).remaining() == rest,
            None => r matches Err(FilesystemError::UnexpectedEof),
        },
        r matches Ok(e) ==> e matches DirectoryEntry::File(File::Virtual { .. }),
{
    proof {
        lemma_pow256_values();
    }
    let name = match header.read_length_prefixed_string() {
        Ok(n) => n,
        Err(e) => return Err(e),
    };
    let offset = match header.read_u64_le() {
        Ok(n) => n,
        Err(e) => return Err(e),
    };
    let length = match header.read_u32_le() {
        Ok(n) => n,
        Err(e) => return Err(e),
    };
    let checksum = match header.read_u32_le() {
        Ok(n) => n,
        Err(e) => return Err(e),
    };
    Ok(DirectoryEntry::File(File::Virtual { name, offset, length, checksum }))
}

/// Reads a directory body: its file records, then its folders.
fn read_contents(header: &mut ByteCursor) -> (r: Result<Vec<DirectoryEntry>, FilesystemError>)
    ensures
        match parse_body(old(header).remaining()) {
            Some((nodes, rest)) => r matches Ok(v) && entries_model(v@, v@.len() as int) == nodes
                && final(header).remaining() == rest,
            None => r matches Err(FilesystemError::UnexpectedEof),
        },
        r is Ok ==> final(header).remaining().len() < old(header).remaining().len(),
        r matches Ok(v) ==> all_virtual(v@),
    decreases header.remaining().len(),
{
    proof {
        lemma_pow256_values();
    }
    let ghost s = header.remaining();
    let mut contents: Vec<DirectoryEntry> = Vec::new();
    let file_qty = match header.read_u32_le() {
        Ok(n) => n,
        Err(e) => return Err(e),
    };
    let ghost r1 = header.remaining();
    let mut i: u32 = 0;
    while i < file_qty
        invariant
            i <= file_qty,
            header.remaining().len() <= r1.len(),
            r1.len() < s.len(),
            s == old(header).remaining(),
            parse_u32(s) == Some((file_qty as nat, r1)),
            parse_files(r1, i as nat) == Some((entries_model(contents@, contents@.len() as int), header.remaining())),
            all_virtual(contents@),
        decreases file_qty - i,
    {
        let ghost before = header.remaining();
        let e = match read_file_record(header) {
            Ok(e) => e,
            Err(e) => {
                proof {
                    assert(parse_file(before) is None);
                    lemma_parse_files_fails(r1, (i + 1) as nat, file_qty as nat);
                }
                return Err(e);
            },
        };
        proof {
            lemma_entries_model_push(contents@, e, 0);
        }
        let ghost before_push = contents@;
        contents.push(e);
        assert forall|k: int| 0 <= k < contents@.len() implies match #[trigger] contents@[k] {
            DirectoryEntry::File(File::Virtual { .. }) => true,
            DirectoryEntry::File(File::Direct { .. }) => false,
            DirectoryEntry::Folder(f) => all_virtual(f.contents@),
        } by {
            if k < before_push.len() {
                assert(contents@[k] == before_push[k]);
            }
        }
        i = i + 1;
    }
    let ghost r2 = header.remaining();
    let folder_qty = match header.read_u32_le() {
        Ok(n) => n,
        Err(e) => return Err(e),
    };
    let ghost r3 = header.remaining();
    let ghost files = entries_model(contents@, contents@.len() as int);
    let ghost file_entries = contents@;
    let mut folders: Vec<DirectoryEntry> = Vec::new();
    i = 0;
    while i < folder_qty
        invariant
            i <= folder_qty,
            header.remaining().len() <= r3.len(),
            r3.len() < s.len(),
            s == old(header).remaining(),
            parse_u32(s) == Some((file_qty as nat, r1)),
            parse_files(r1, file_qty as nat) == Some((files, r2)),
            parse_u32(r2) == Some((folder_qty as nat, r3)),
            all_virtual(file_entries),
            all_virtual(folders@),
            parse_folders(r3, i as nat) == Some((entries_model(folders@, folders@.len() as int), header.remaining())),
        decreases folder_qty - i,
    {
        let name = match header.read_length_prefixed_string() {
            Ok(n) => n,
            Err(e) => {
                proof {
                    lemma_parse_folders_fails(r3, (i + 1) as nat, folder_qty as nat);
                }
                return Err(e);
            },
        };
        assert(header.remaining().len() < s.len());
        let folder_contents = match read_contents(header) {
            Ok(c) => c,
            Err(e) => {
                proof {
                    lemma_parse_folders_fails(r3, (i + 1) as nat, folder_qty as nat);
                }
                return Err(e);
            },
        };
        let e = DirectoryEntry::Folder(Folder { name, contents: folder_contents });
        proof {
            lemma_entries_model_push(folders@, e, 0);
        }
        let ghost before_push = folders@;
        folders.push(e);
        assert forall|k: int| 0 <= k < folders@.len() implies match #[trigger] folders@[k] {
            DirectoryEntry::File(File::Virtual { .. }) => true,
            DirectoryEntry::File(File::Direct { .. }) => false,
            DirectoryEntry::Folder(f) => all_virtual(f.contents@),
        } by {
            if k < before_push.len() {
                assert(folders@[k] == before_push[k]);
            }
        }
        i = i + 1;
    }
    let ghost folder_entries = folders@;
    contents.append(&mut folders);
    proof {
        lemma_entries_model_append(file_entries, folder_entries);
        assert(contents@ =~= file_entries + folder_entries);
        assert forall|k: int| 0 <= k < contents@.len() implies match #[trigger] contents@[k] {
            DirectoryEntry::File(File::Virtual { .. }) => true,
            DirectoryEntry::File(File::Direct { .. }) => false,
            DirectoryEntry::Folder(f) => all_virtual(f.contents@),
        } by {
            if k < file_entries.len() {
                assert(contents@[k] == file_entries[k]);
            } else {
                assert(contents@[k] == folder_entries[k - file_entries.len()]);
            }
        }
    }
    Ok(contents)
}

/// A prefix holds no more files or folders than entries.
proof fn lemma_counts_bounded(s: Seq<DirectoryEntry>, n: int)
    requires
        0 <= n <= s.len(),
    ensures
        file_count(s, n) + folder_count(s, n) == n,
    decreases n,
{
    if n > 0 {
        lemma_counts_bounded(s, n - 1);
    }
}

/// The files under the folders of a prefix grow with the prefix.
proof fn lemma_prefix_counts_grow(s: Seq<DirectoryEntry>, i: int, j: int)
    requires
        0 <= i <= j <= s.len(),
    ensures
        folders_total(s, i) <= folders_total(s, j),
        file_count(s, i) <= file_count(s, j),
    decreases j,
{
    if i < j {
        lemma_prefix_counts_grow(s, i, j - 1);
    }
}

/// Writes the body of a directory to `header` and the bytes of its files to
/// `data`, and returns the number of files in it and under it.
fn write_contents(
    contents: &Vec<DirectoryEntry>,
    header: &mut bytes::BytesMut,
    data: &mut bytes::BytesMut,
) -> (r: u32)
    requires
        encodable(contents@),
        file_total(contents@) <= u32::MAX,
    ensures
        buf_bytes(*final(header)) == buf_bytes(*old(header)) + dir_header(
            contents@,
            buf_bytes(*old(data)).len(),
        ),
        buf_bytes(*final(data)) == buf_bytes(*old(data)) + dir_data(contents@),
        r == file_total(contents@),
    decreases contents@,
{
    let ghost s = contents@;
    let ghost h0 = buf_bytes(*header);
    let ghost d0 = buf_bytes(*data);
    let ghost off = d0.len();
    let len = contents.len();
    proof {
        lemma_counts_bounded(s, len as int);
    }
    let mut file_qty: u32 = 0;
    let mut folder_qty: u32 = 0;
    let mut i: usize = 0;
    while i < len
        invariant
            s == contents@,
            len == s.len(),
            len <= u32::MAX,
            i <= len,
            file_qty == file_count(s, i as int),
            folder_qty == folder_count(s, i as int),
        decreases len - i,
    {
        proof {
            lemma_counts_bounded(s, i + 1);
        }
        match &contents[i] {
            DirectoryEntry::File(_) => file_qty = file_qty + 1,
            DirectoryEntry::Folder(_) => folder_qty = folder_qty + 1,
        }
        i = i + 1;
    }
    buf_put_u32_le(header, file_qty);
    i = 0;
    while i < len
        invariant
            s == contents@,
            len == s.len(),
            encodable(s),
            i <= len,
            off == d0.len(),
            file_qty == file_count(s, len as int),
            buf_bytes(*header) == h0 + le_bytes(file_qty as nat, 4) + files_header(s, i as int, off),
            buf_bytes(*data) == d0 + files_data(s, i as int),
        decreases len - i,
    {
        let ghost h1 = buf_bytes(*header);
        match &contents[i] {
            DirectoryEntry::File(File::Direct { name, data: bytes }) => {
                header.put_length_prefixed_string(name.as_str());
                let offset = buf_len(data) as u64;
                buf_put_u64_le(header, offset);
                buf_put_u32_le(header, bytes.len() as u32);
                buf_put_slice(data, bytes.as_slice());
                let crc = checksum(bytes.as_slice());
                buf_put_u32_le(header, crc);
                assert(buf_bytes(*header) =~= h1 + file_record(name_bytes(*name), off + files_data(s, i as int).len(), bytes@));
            },
            DirectoryEntry::File(File::Virtual { .. }) => {
                assert(s[i as int] is File);
            },
            DirectoryEntry::Folder(_) => {},
        }
        proof {
            assert(files_header(s, i + 1, off) == files_header(s, i as int, off) + match s[i as int] {
                DirectoryEntry::File(File::Direct { name, data }) => file_record(
                    name_bytes(name),
                    off + files_data(s, i as int).len(),
                    data@,
                ),
                _ => Seq::empty(),
            });
        }
        assert(buf_bytes(*header) =~= h0 + le_bytes(file_qty as nat, 4) + files_header(s, i + 1, off));
        assert(buf_bytes(*data) =~= d0 + files_data(s, i + 1));
        i = i + 1;
    }
    let ghost off2 = off + files_data(s, len as int).len();
    let ghost h2 = buf_bytes(*header);
    let ghost d2 = buf_bytes(*data);
    buf_put_u32_le(header, folder_qty);
    let mut total_files: u32 = file_qty;
    proof {
        lemma_prefix_counts_grow(s, 0, len as int);
    }
    i = 0;
    while i < len
        invariant
            s == contents@,
            len == s.len(),
            encodable(s),
            file_total(s) <= u32::MAX,
            i <= len,
            off2 == d2.len(),
            file_qty == file_count(s, len as int),
            total_files == file_qty + folders_total(s, i as int),
            buf_bytes(*header) == h2 + le_bytes(folder_qty as nat, 4) + folders_header(s, i as int, off2),
            buf_bytes(*data) == d2 + folders_data(s, i as int),
        decreases len - i,
    {
        proof {
            lemma_prefix_counts_grow(s, i + 1, len as int);
        }
        match &contents[i] {
            DirectoryEntry::Folder(f) => {
                header.put_length_prefixed_string(f.name.as_str());
                let n = write_contents(&f.contents, header, data);
                total_files = total_files + n;
            },
            DirectoryEntry::File(_) => {},
        }
        assert(buf_bytes(*header) =~= h2 + le_bytes(folder_qty as nat, 4) + folders_header(s, i + 1, off2));
        assert(buf_bytes(*data) =~= d2 + folders_data(s, i + 1));
        i = i + 1;
    }
    assert(buf_bytes(*header) =~= h0 + dir_header(s, off));
    assert(buf_bytes(*data) =~= d0 + dir_data(s));
    total_files
}

} // verus!
