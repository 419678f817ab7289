use vstd::prelude::*;
use crate::codec::{
    cksum_of, dir_data, encodable, files_data, folders_data, packed_dir, packed_files,
    packed_folders,
};
use crate::fs::{DirectoryEntry, File, Filesystem, Node};

verus! {

/// The offset, length and checksum of each file record in `nodes[..n]` and
/// under it, each directory's own files before those of its folders.
pub open spec fn records(nodes: Seq<Node>, n: int) -> Seq<(nat, nat, nat)>
    decreases nodes, n,
{
    if n <= 0 || n > nodes.len() {
        Seq::empty()
    } else {
        records(nodes, n - 1) + match nodes[n - 1] {
            Node::File { offset, length, checksum, .. } => seq![(offset, length, checksum)],
            Node::Unpacked { .. } => Seq::empty(),
            Node::Folder { contents, .. } => records(contents, contents.len() as int),
        }
    }
}

/// All the file records of a tree, in order.
pub open spec fn all_records(nodes: Seq<Node>) -> Seq<(nat, nat, nat)> {
    records(nodes, nodes.len() as int)
}

/// The records `f` tile `data`, which starts at offset `off`: each record's
/// bytes follow those of the one before it, the last ends where `data` ends,
/// and each checksum is that of the record's bytes.
pub open spec fn laid_out(f: Seq<(nat, nat, nat)>, data: Seq<u8>, off: nat) -> bool
    decreases f.len(),
{
    if f.len() == 0 {
        data.len() == 0
    } else {
        &&& f[0].0 == off
        &&& f[0].1 <= data.len()
        &&& f[0].2 == cksum_of(data.take(f[0].1 as int)) as nat
        &&& laid_out(f.drop_first(), data.skip(f[0].1 as int), off + f[0].1)
    }
}

/// The sum of the lengths of the records.
pub open spec fn total_length(f: Seq<(nat, nat, nat)>) -> nat
    decreases f.len(),
{
    if f.len() == 0 {
        0
    } else {
        f[0].1 + total_length(f.drop_first())
    }
}

proof fn lemma_laid_out_append(a: Seq<(nat, nat, nat)>, b: Seq<(nat, nat, nat)>, d1: Seq<u8>, d2: Seq<u8>, off: nat)
    requires
        laid_out(a, d1, off),
        laid_out(b, d2, off + d1.len()),
    ensures
        laid_out(a + b, d1 + d2, off),
    decreases a.len(),
{
    if a.len() == 0 {
        assert(a + b =~= b);
        assert(d1 + d2 =~= d2);
    } else {
        let l = a[0].1;
        lemma_laid_out_append(a.drop_first(), b, d1.skip(l as int), d2, off + l);
        assert((a + b).drop_first() =~= a.drop_first() + b);
        assert((d1 + d2).skip(l as int) =~= d1.skip(l as int) + d2);
        assert((d1 + d2).take(l as int) =~= d1.take(l as int));
    }
}

proof fn lemma_records_prefix(a: Seq<Node>, x: Node, n: int)
    requires
        0 <= n <= a.len(),
    ensures
        records(a.push(x), n) == records(a, n),
    decreases n,
{
    if n > 0 {
        lemma_records_prefix(a, x, n - 1);
    }
}

proof fn lemma_records_append(a: Seq<Node>, b: Seq<Node>)
    ensures
        all_records(a + b) == all_records(a) + all_records(b),
    decreases b.len(),
{
    if b.len() == 0 {
        assert(a + b =~= a);
        assert(all_records(a) + all_records(b) =~= all_records(a));
    } else {
        let b1 = b.drop_last();
        lemma_records_append(a, b1);
        assert(a + b =~= (a + b1).push(b.last()));
        assert(b =~= b1.push(b.last()));
        lemma_records_prefix(a + b1, b.last(), (a + b1).len() as int);
        lemma_records_prefix(b1, b.last(), b1.len() as int);
        let tail = records(seq![b.last()], 1);
        assert(records(seq![b.last()], 0) =~= Seq::<(nat, nat, nat)>::empty());
        assert(all_records(a + b) =~= all_records(a + b1) + tail);
        assert(all_records(b) =~= all_records(b1) + tail);
        assert(all_records(a) + (all_records(b1) + tail) =~= (all_records(a) + all_records(b1))
            + tail);
    }
}

proof fn lemma_files_laid_out(s: Seq<DirectoryEntry>, n: int, off: nat)
    requires
        0 <= n <= s.len(),
        encodable(s),
    ensures
        laid_out(all_records(packed_files(s, n, off)), files_data(s, n), off),
    decreases n,
{
    if n == 0 {
        assert(all_records(packed_files(s, 0, off)) =~= Seq::<(nat, nat, nat)>::empty());
    } else {
        lemma_files_laid_out(s, n - 1, off);
        let prev = packed_files(s, n - 1, off);
        match s[n - 1] {
            DirectoryEntry::File(File::Direct { name, data }) => {
                let o = off + files_data(s, n - 1).len();
                let node = Node::File {
                    name: name@,
                    offset: o,
                    length: data@.len(),
                    checksum: cksum_of(data@) as nat,
                };
                lemma_records_append(prev, seq![node]);
                assert(records(seq![node], 0) =~= Seq::<(nat, nat, nat)>::empty());
                let one = seq![(o, data@.len(), cksum_of(data@) as nat)];
                assert(all_records(seq![node]) =~= one);
                assert(data@.take(data@.len() as int) =~= data@);
                assert(one.drop_first() =~= Seq::<(nat, nat, nat)>::empty());
                assert(laid_out(one.drop_first(), data@.skip(data@.len() as int), o + data@.len()));
                lemma_laid_out_append(all_records(prev), one, files_data(s, n - 1), data@, off);
            },
            DirectoryEntry::File(File::Virtual { .. }) => {},
            DirectoryEntry::Folder(_) => {
                assert(packed_files(s, n, off) =~= prev);
                assert(files_data(s, n) =~= files_data(s, n - 1));
            },
        }
    }
}

proof fn lemma_folders_laid_out(s: Seq<DirectoryEntry>, n: int, off: nat)
    requires
        0 <= n <= s.len(),
        encodable(s),
    ensures
        laid_out(all_records(packed_folders(s, n, off)), folders_data(s, n), off),
    decreases s, 0int, n,
{
    if n == 0 {
        assert(all_records(packed_folders(s, 0, off)) =~= Seq::<(nat, nat, nat)>::empty());
    } else {
        lemma_folders_laid_out(s, n - 1, off);
        let prev = packed_folders(s, n - 1, off);
        match s[n - 1] {
            DirectoryEntry::Folder(f) => {
                let o = off + folders_data(s, n - 1).len();
                let inner = packed_dir(f.contents@, o);
                lemma_dir_laid_out(f.contents@, o);
                let node = Node::Folder { name: f.name@, contents: inner };
                lemma_records_append(prev, seq![node]);
                assert(records(seq![node], 0) =~= Seq::<(nat, nat, nat)>::empty());
                assert(all_records(seq![node]) =~= all_records(inner));
                lemma_laid_out_append(
                    all_records(prev),
                    all_records(inner),
                    folders_data(s, n - 1),
                    dir_data(f.contents@),
                    off,
                );
            },
            _ => {
                assert(packed_folders(s, n, off) =~= prev);
                assert(folders_data(s, n) =~= folders_data(s, n - 1));
            },
        }
    }
}

proof fn lemma_dir_laid_out(s: Seq<DirectoryEntry>, off: nat)
    requires
        encodable(s),
    ensures
        laid_out(all_records(packed_dir(s, off)), dir_data(s), off),
    decreases s, 1int, 0int,
{
    let len = s.len() as int;
    let off2 = off + files_data(s, len).len();
    lemma_files_laid_out(s, len, off);
    lemma_folders_laid_out(s, len, off2);
    lemma_records_append(packed_files(s, len, off), packed_folders(s, len, off2));
    lemma_laid_out_append(
        all_records(packed_files(s, len, off)),
        all_records(packed_folders(s, len, off2)),
        files_data(s, len),
        folders_data(s, len),
        off,
    );
}

/// What tiling gives: the records' lengths add up to the data's length, each
/// record ends before the next one starts, and each checksum is that of the
/// record's bytes.
proof fn lemma_laid_out_facts(f: Seq<(nat, nat, nat)>, data: Seq<u8>, off: nat)
    requires
        laid_out(f, data, off),
    ensures
        data.len() == total_length(f),
        forall|i: int, j: int| 0 <= i < j < f.len() ==> #[trigger] f[i].0 + f[i].1 <= #[trigger] f[j].0,
        forall|i: int|
            0 <= i < f.len() ==> off <= #[trigger] f[i].0 && f[i].0 + f[i].1 <= off + data.len()
                && f[i].2 == cksum_of(data.subrange(f[i].0 - off, f[i].0 - off + f[i].1)) as nat,
    decreases f.len(),
{
    if f.len() > 0 {
        let l = f[0].1;
        let rest = f.drop_first();
        let d2 = data.skip(l as int);
        lemma_laid_out_facts(rest, d2, off + l);
        assert forall|i: int, j: int| 0 <= i < j < f.len() implies #[trigger] f[i].0 + f[i].1
            <= #[trigger] f[j].0 by {
            assert(f[j] == rest[j - 1]);
            if i > 0 {
                assert(f[i] == rest[i - 1]);
            }
        }
        assert forall|i: int|
            0 <= i < f.len() implies off <= #[trigger] f[i].0 && f[i].0 + f[i].1 <= off
                + data.len() && f[i].2 == cksum_of(data.subrange(f[i].0 - off, f[i].0 - off + f[i].1)) as nat by {
            if i == 0 {
                assert(data.subrange(0, l as int) =~= data.take(l as int));
            } else {
                assert(f[i] == rest[i - 1]);
                let a = f[i].0 - (off + l);
                assert(d2.subrange(a, a + f[i].1) =~= data.subrange(f[i].0 - off, f[i].0 - off + f[i].1));
            }
        }
    }
}

/// In a packed archive each file's bytes end before those of any file
/// appended after it, and the data blob is as long as all the files
/// together. (`packed_dir` is the tree that reading the header gives.)
pub proof fn lemma_offsets_increase(fs: Filesystem)
    requires
        encodable(fs.contents@),
    ensures
        forall|i: int, j: int|
            0 <= i < j < all_records(packed_dir(fs.contents@, 0)).len() ==> #[trigger] all_records(
                packed_dir(fs.contents@, 0),
            )[i].0 + all_records(packed_dir(fs.contents@, 0))[i].1 <= #[trigger] all_records(
                packed_dir(fs.contents@, 0),
            )[j].0,
        dir_data(fs.contents@).len() == total_length(all_records(packed_dir(fs.contents@, 0))),
{
    lemma_dir_laid_out(fs.contents@, 0);
    lemma_laid_out_facts(all_records(packed_dir(fs.contents@, 0)), dir_data(fs.contents@), 0);
}

/// In a packed archive the checksum of every file record is the checksum of
/// the bytes of the data blob that the record's offset and length select.
pub proof fn lemma_checksums_match(fs: Filesystem)
    requires
        encodable(fs.contents@),
    ensures
        forall|i: int|
            0 <= i < all_records(packed_dir(fs.contents@, 0)).len() ==> {
                let r = #[trigger] all_records(packed_dir(fs.contents@, 0))[i];
                &&& r.0 + r.1 <= dir_data(fs.contents@).len()
                &&& r.2 == cksum_of(dir_data(fs.contents@).subrange(r.0 as int, (r.0 + r.1) as int)) as nat
            },
{
    lemma_dir_laid_out(fs.contents@, 0);
    lemma_laid_out_facts(all_records(packed_dir(fs.contents@, 0)), dir_data(fs.contents@), 0);
}

} // verus!
