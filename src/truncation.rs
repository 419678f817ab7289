use vstd::prelude::*;
use vstd::string::StringSliceAdditionalSpecFns;
use vstd::utf8::is_ascii_chars_encode_utf8;
use crate::codec::{
    archive_header, dir_data, dir_header, encodable, file_total, lemma_archive_round_trip,
    lemma_body_round_trip, parse_after_magic, parse_body, parse_file, parse_files, parse_folders,
    plain_names, zeros, HEADER_VERSION, ROOT_DIRECTORY_NAME, SAH_HEADER_MAGIC,
};
use crate::fs::Filesystem;
use crate::io::lemma_length_prefixed_round_trip;
use crate::wire::{le_bytes, lemma_le_round_trip, lemma_pow256_values, lp_string, text_of};
use crate::io::{parse_lp_string, parse_u32, parse_u64};

verus! {

/// What a parse that gave `res` on `n` bytes gives on their first `k`: no
/// result where the cut falls before the end of what was read, else the same
/// value with the rest cut as well.
pub open spec fn cut_result<V>(res: Option<(V, Seq<u8>)>, n: int, k: int) -> Option<(V, Seq<u8>)> {
    match res {
        Some((v, r)) => if k < n - r.len() {
            None
        } else {
            Some((v, r.take(k - (n - r.len()))))
        },
        None => None,
    }
}

/// The rest of a parse is what follows the bytes it read.
pub open spec fn is_rest(x: Seq<u8>, r: Seq<u8>) -> bool {
    r.len() <= x.len() && r == x.skip(x.len() - r.len())
}

proof fn lemma_cut_u32(x: Seq<u8>, k: int)
    requires
        0 <= k <= x.len(),
        parse_u32(x) is Some,
    ensures
        is_rest(x, (parse_u32(x)->0).1),
        parse_u32(x.take(k)) == cut_result(parse_u32(x), x.len() as int, k),
{
    if k >= 4 {
        assert(x.take(k).take(4) =~= x.take(4));
        assert(x.take(k).skip(4) =~= x.skip(4).take(k - 4));
    }
    assert(x.skip(4) =~= x.skip(x.len() - (x.len() - 4)));
}

proof fn lemma_cut_u64(x: Seq<u8>, k: int)
    requires
        0 <= k <= x.len(),
        parse_u64(x) is Some,
    ensures
        is_rest(x, (parse_u64(x)->0).1),
        parse_u64(x.take(k)) == cut_result(parse_u64(x), x.len() as int, k),
{
    if k >= 8 {
        assert(x.take(k).take(8) =~= x.take(8));
        assert(x.take(k).skip(8) =~= x.skip(8).take(k - 8));
    }
    assert(x.skip(8) =~= x.skip(x.len() - (x.len() - 8)));
}

proof fn lemma_cut_lp(x: Seq<u8>, k: int)
    requires
        0 <= k <= x.len(),
        parse_lp_string(x) is Some,
    ensures
        is_rest(x, (parse_lp_string(x)->0).1),
        parse_lp_string(x.take(k)) == cut_result(parse_lp_string(x), x.len() as int, k),
{
    let (n, r1) = parse_u32(x)->0;
    lemma_cut_u32(x, k);
    let r = r1.skip(n as int);
    assert(r =~= x.skip(x.len() - r.len()));
    if k >= 4 {
        let r1k = r1.take(k - 4);
        if k - 4 >= n {
            assert(r1k.take(n as int) =~= r1.take(n as int));
            assert(r1k.skip(n as int) =~= r.take(k - 4 - n));
        }
    }
}

/// A file record cut short reads as nothing; cut after its end, it reads as
/// the record, with the rest cut.
proof fn lemma_cut_file(x: Seq<u8>, k: int)
    requires
        0 <= k <= x.len(),
        parse_file(x) is Some,
    ensures
        is_rest(x, (parse_file(x)->0).1),
        parse_file(x.take(k)) == cut_result(parse_file(x), x.len() as int, k),
{
    let (name, r1) = parse_lp_string(x)->0;
    let (offset, r2) = parse_u64(r1)->0;
    let (length, r3) = parse_u32(r2)->0;
    let (checksum, r4) = parse_u32(r3)->0;
    lemma_cut_lp(x, k);
    let c1 = x.len() - r1.len();
    if k >= c1 {
        lemma_cut_u64(r1, k - c1);
        let c2 = r1.len() - r2.len();
        if k - c1 >= c2 {
            lemma_cut_u32(r2, k - c1 - c2);
            let c3 = r2.len() - r3.len();
            if k - c1 - c2 >= c3 {
                lemma_cut_u32(r3, k - c1 - c2 - c3);
            }
        }
    }
    lemma_cut_u64(r1, 0);
    lemma_cut_u32(r2, 0);
    lemma_cut_u32(r3, 0);
    assert(r4 =~= x.skip(x.len() - r4.len()));
}

proof fn lemma_cut_files(x: Seq<u8>, n: nat, k: int)
    requires
        0 <= k <= x.len(),
        parse_files(x, n) is Some,
    ensures
        is_rest(x, (parse_files(x, n)->0).1),
        parse_files(x.take(k), n) == cut_result(parse_files(x, n), x.len() as int, k),
    decreases n,
{
    if n == 0 {
        assert(x =~= x.skip(0));
        assert(x.take(k) =~= x.take(k - 0));
    } else {
        let (v, r) = parse_files(x, (n - 1) as nat)->0;
        lemma_cut_files(x, (n - 1) as nat, k);
        lemma_cut_file(r, 0);
        let c1 = x.len() - r.len();
        if k >= c1 {
            lemma_cut_file(r, k - c1);
        }
        let r2 = (parse_file(r)->0).1;
        assert(r2 =~= x.skip(x.len() - r2.len()));
    }
}

proof fn lemma_cut_body(x: Seq<u8>, k: int)
    requires
        0 <= k <= x.len(),
        parse_body(x) is Some,
    ensures
        is_rest(x, (parse_body(x)->0).1),
        parse_body(x.take(k)) == cut_result(parse_body(x), x.len() as int, k),
    decreases x.len(), 1int, 0int,
{
    let (fq, r1) = parse_u32(x)->0;
    let (files, r2) = parse_files(r1, fq)->0;
    let (dq, r3) = parse_u32(r2)->0;
    let (folders, r4) = parse_folders(r3, dq)->0;
    lemma_cut_u32(x, k);
    lemma_cut_files(r1, fq, 0);
    lemma_cut_u32(r2, 0);
    lemma_cut_folders(r3, dq, 0);
    let c1 = x.len() - r1.len();
    if k >= c1 {
        lemma_cut_files(r1, fq, k - c1);
        let c2 = r1.len() - r2.len();
        if k - c1 >= c2 {
            lemma_cut_u32(r2, k - c1 - c2);
            let c3 = r2.len() - r3.len();
            if k - c1 - c2 >= c3 {
                lemma_cut_folders(r3, dq, k - c1 - c2 - c3);
            }
        }
    }
    assert(r4 =~= x.skip(x.len() - r4.len()));
}

proof fn lemma_cut_folders(x: Seq<u8>, n: nat, k: int)
    requires
        0 <= k <= x.len(),
        parse_folders(x, n) is Some,
    ensures
        is_rest(x, (parse_folders(x, n)->0).1),
        parse_folders(x.take(k), n) == cut_result(parse_folders(x, n), x.len() as int, k),
    decreases x.len(), 0int, n,
{
    if n == 0 {
        assert(x =~= x.skip(0));
        assert(x.take(k) =~= x.take(k - 0));
    } else {
        let (v, r) = parse_folders(x, (n - 1) as nat)->0;
        lemma_cut_folders(x, (n - 1) as nat, k);
        let (name, r1) = parse_lp_string(r)->0;
        lemma_cut_lp(r, 0);
        lemma_cut_body(r1, 0);
        let c1 = x.len() - r.len();
        if k >= c1 {
            lemma_cut_lp(r, k - c1);
            let c2 = r.len() - r1.len();
            if k - c1 >= c2 {
                lemma_cut_body(r1, k - c1 - c2);
            }
        }
        let r2 = (parse_body(r1)->0).1;
        assert(r2 =~= x.skip(x.len() - r2.len()));
    }
}

/// What follows a header's tag, cut before the end of its root body, does
/// not parse.
proof fn lemma_cut_after_magic(x: Seq<u8>, r4: Seq<u8>, body: Seq<u8>, kk: int)
    requires
        x.len() >= 48,
        x.skip(48) == r4,
        (parse_lp_string(r4)->0).1 == body,
        parse_lp_string(r4) is Some,
        parse_body(body) is Some,
        (parse_body(body)->0).1.len() == 8,
        0 <= kk < x.len() - 8,
    ensures
        parse_after_magic(x.take(kk)) is None,
{
    let r1 = x.skip(4);
    let r2 = r1.skip(4);
    assert(r2.skip(40) =~= r4);
    lemma_cut_u32(x, kk);
    if kk >= 4 {
        lemma_cut_u32(r1, kk - 4);
        if kk >= 8 {
            let r2c = r2.take(kk - 8);
            if kk >= 48 {
                assert(r2c.skip(40) =~= r4.take(kk - 48));
                lemma_cut_lp(r4, kk - 48);
                let c = r4.len() - body.len();
                if kk - 48 >= c {
                    lemma_cut_body(body, kk - 48 - c);
                }
            } else {
                assert(parse_lp_string(Seq::<u8>::empty()) is None);
            }
        }
    }
}

/// A packed header cut off anywhere after its tag and before its footer
/// still starts with the tag, and what follows the tag no longer parses: it
/// is rejected as ending too early, never read as a partial tree.
pub proof fn lemma_truncated_header_rejected(fs: Filesystem, k: int)
    requires
        encodable(fs.contents@),
        file_total(fs.contents@) <= u32::MAX,
        plain_names(fs.contents@),
        dir_data(fs.contents@).len() <= usize::MAX,
        3 <= k < archive_header(fs.contents@).len() - 8,
    ensures
        text_of(archive_header(fs.contents@).take(k).take(3)) == SAH_HEADER_MAGIC@,
        parse_after_magic(archive_header(fs.contents@).take(k).skip(3)) is None,
{
    let s = fs.contents@;
    let v = archive_header(s);
    lemma_archive_round_trip(fs);
    assert(v.take(k).take(3) =~= v.take(3));
    lemma_pow256_values();
    reveal_strlit("SAH");
    reveal_strlit("data");
    is_ascii_chars_encode_utf8(SAH_HEADER_MAGIC@);
    is_ascii_chars_encode_utf8(ROOT_DIRECTORY_NAME@);
    let root = ROOT_DIRECTORY_NAME.spec_bytes();
    let body = dir_header(s, 0) + zeros(8);
    let r4 = lp_string(root) + body;
    let x = le_bytes(HEADER_VERSION as nat, 4) + le_bytes(file_total(s), 4) + zeros(40) + r4;
    lemma_le_round_trip(HEADER_VERSION as nat, 4);
    lemma_le_round_trip(file_total(s), 4);
    assert(v =~= SAH_HEADER_MAGIC.spec_bytes() + x);
    assert(v.skip(3) =~= x);
    assert(v.take(k).skip(3) =~= x.take(k - 3));
    assert(x.skip(48) =~= r4);
    lemma_length_prefixed_round_trip(ROOT_DIRECTORY_NAME@, body);
    lemma_body_round_trip(s, 0, zeros(8));
    lemma_cut_after_magic(x, r4, body, k - 3);
}

} // verus!
