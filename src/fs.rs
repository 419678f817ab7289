use vstd::prelude::*;

verus! {

/// A directory tree: the entries of the nameless root directory, in order.
#[derive(Debug, PartialEq, Eq)]
pub struct Filesystem {
    pub contents: Vec<DirectoryEntry>,
}

/// One entry of a directory.
#[derive(Debug, PartialEq, Eq)]
pub enum DirectoryEntry {
    Folder(Folder),
    File(File),
}

/// A named directory and its entries, in order.
#[derive(Debug, PartialEq, Eq)]
pub struct Folder {
    pub name: String,
    pub contents: Vec<DirectoryEntry>,
}

/// A file: either the bytes of a file read from disk, ready to be packed, or
/// a record that points into the data blob of an existing archive.
#[derive(Debug, Clone, PartialEq, Eq)]
pub enum File {
    Direct { name: String, data: Vec<u8> },
    Virtual { name: String, offset: u64, length: u32, checksum: u32 },
}

/// The failures of the archive operations.
#[derive(Debug, Clone, PartialEq, Eq)]
pub enum FilesystemError {
    /// The path to scan is not a directory.
    NotADirectory(String),
    /// The header path is not a regular file.
    NotAFile(String),
    /// The header does not start with the tag; holds the text read instead.
    InvalidMagicValue(String),
    /// The header ends inside the structure it describes.
    UnexpectedEof,
}

/// The mathematical model of a directory entry: a packed file record, a file
/// not packed yet with its bytes, or a folder.
pub ghost enum Node {
    File { name: Seq<char>, offset: nat, length: nat, checksum: nat },
    Unpacked { name: Seq<char>, data: Seq<u8> },
    Folder { name: Seq<char>, contents: Seq<Node> },
}

/// Every file in and under a directory is a packed (`Virtual`) record.
pub open spec fn all_virtual(s: Seq<DirectoryEntry>) -> bool
    decreases s,
{
    forall|i: int|
        0 <= i < s.len() ==> match #[trigger] s[i] {
            DirectoryEntry::File(File::Virtual { .. }) => true,
            DirectoryEntry::File(File::Direct { .. }) => false,
            DirectoryEntry::Folder(f) => all_virtual(f.contents@),
        }
}

/// The model of one entry.
pub open spec fn entry_model(e: DirectoryEntry) -> Node
    decreases e,
{
    match e {
        DirectoryEntry::File(File::Direct { name, data }) => Node::Unpacked {
            name: name@,
            data: data@,
        },
        DirectoryEntry::File(File::Virtual { name, offset, length, checksum }) => Node::File {
            name: name@,
            offset: offset as nat,
            length: length as nat,
            checksum: checksum as nat,
        },
        DirectoryEntry::Folder(f) => Node::Folder {
            name: f.name@,
            contents: entries_model(f.contents@, f.contents@.len() as int),
        },
    }
}

/// The model of the first `n` entries of `s`.
pub open spec fn entries_model(s: Seq<DirectoryEntry>, n: int) -> Seq<Node>
    decreases s, n,
{
    if n <= 0 || n > s.len() {
        Seq::empty()
    } else {
        entries_model(s, n - 1).push(entry_model(s[n - 1]))
    }
}

/// Appending an entry appends its model.
pub proof fn lemma_entries_model_push(s: Seq<DirectoryEntry>, e: DirectoryEntry, n: int)
    requires
        0 <= n <= s.len(),
    ensures
        entries_model(s.push(e), n) == entries_model(s, n),
        entries_model(s.push(e), s.len() + 1int) == entries_model(s, s.len() as int).push(
            entry_model(e),
        ),
    decreases n,
{
    if n > 0 {
        lemma_entries_model_push(s, e, n - 1);
    } else {
        lemma_entries_model_prefix(s, e, s.len() as int);
    }
}

proof fn lemma_entries_model_prefix(s: Seq<DirectoryEntry>, e: DirectoryEntry, n: int)
    requires
        0 <= n <= s.len(),
    ensures
        entries_model(s.push(e), n) == entries_model(s, n),
    decreases n,
{
    if n > 0 {
        lemma_entries_model_prefix(s, e, n - 1);
    }
}

/// The model of two sequences of entries, one after the other.
pub proof fn lemma_entries_model_append(a: Seq<DirectoryEntry>, b: Seq<DirectoryEntry>)
    ensures
        entries_model(a + b, (a.len() + b.len()) as int) == entries_model(a, a.len() as int) + entries_model(
            b,
            b.len() as int,
        ),
    decreases b.len(),
{
    if b.len() == 0 {
        assert(a + b =~= a);
        assert(entries_model(b, 0) =~= Seq::<Node>::empty());
        assert(entries_model(a, a.len() as int) + Seq::<Node>::empty() =~= entries_model(a, a.len() as int));
    } else {
        let b1 = b.drop_last();
        lemma_entries_model_append(a, b1);
        assert(a + b =~= (a + b1).push(b.last()));
        assert(b =~= b1.push(b.last()));
        lemma_entries_model_push(a + b1, b.last(), 0);
        lemma_entries_model_push(b1, b.last(), 0);
        assert(entries_model(a, a.len() as int) + entries_model(b1, b1.len() as int).push(entry_model(b.last()))
            =~= (entries_model(a, a.len() as int) + entries_model(b1, b1.len() as int)).push(entry_model(b.last())));
    }
}

} // verus!
