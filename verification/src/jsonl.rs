//! The compressed line format of conversation files: each record is one line
//! of text ending in `\n`, the whole UTF-8 text is compressed with zstd
//! (level 3), and appended batches are further zstd frames. Encoding records
//! as JSON and the file I/O are the caller's part.
use vstd::prelude::*;
use vstd::utf8::{decode_utf8, encode_utf8, valid_utf8};
use crate::text::{char_index, lemma_char_index, lines, push_str, split_lines, strip_cr, strs_view};

verus! {

broadcast use vstd::seq_lib::group_seq_properties;

/// The compression level of conversation files.
pub const LEVEL: i32 = 3;

/// What `zstd::encode_all` returns for the bytes at a level (`None` for an error).
pub uninterp spec fn zstd_compressed(data: Seq<u8>, level: i32) -> Option<Seq<u8>>;

/// What `zstd::decode_all` returns for the bytes (`None` for an error).
pub uninterp spec fn zstd_decompressed(data: Seq<u8>) -> Option<Seq<u8>>;

/// The zstd frames of the pieces, one after another, each as
/// `zstd::encode_all` makes it; `None` when a piece does not compress.
pub open spec fn zstd_frames(ds: Seq<Seq<u8>>, level: i32) -> Option<Seq<u8>>
    decreases ds.len(),
{
    if ds.len() == 0 {
        Some(Seq::empty())
    } else {
        match (zstd_frames(ds.drop_last(), level), zstd_compressed(ds.last(), level)) {
            (Some(a), Some(b)) => Some(a + b),
            _ => None,
        }
    }
}

/// Model of optional bytes.
pub open spec fn opt_bytes(o: Option<Vec<u8>>) -> Option<Seq<u8>> {
    match o {
        Some(v) => Some(v@),
        None => None,
    }
}

/// Compress bytes with `zstd::encode_all`.
#[verifier::external_body]
fn zstd_encode(data: &[u8], level: i32) -> (r: Option<Vec<u8>>)
    ensures
        opt_bytes(r) == zstd_compressed(data@, level),
{
    zstd::encode_all(data, level).ok()
}

/// Decompress bytes with `zstd::decode_all`. zstd is lossless, and its
/// decoder keeps reading frame after frame until the input ends: one or more
/// frames that `encode_all` made, one after another, decompress to their
/// data one after another.
#[verifier::external_body]
fn zstd_decode(data: &[u8]) -> (r: Option<Vec<u8>>)
    ensures
        opt_bytes(r) == zstd_decompressed(data@),
        forall|ds: Seq<Seq<u8>>, l: i32|
            ds.len() > 0 && #[trigger] zstd_frames(ds, l) == Some(data@) ==> opt_bytes(r) == Some(ds.flatten()),
{
    zstd::decode_all(data).ok()
}

/// The bytes as text (`String::from_utf8`): `None` unless they are valid UTF-8.
#[verifier::external_body]
fn utf8_text(bytes: Vec<u8>) -> (r: Option<String>)
    ensures
        match r {
            Some(s) => valid_utf8(bytes@) && s@ == decode_utf8(bytes@),
            None => !valid_utf8(bytes@),
        },
{
    String::from_utf8(bytes).ok()
}

/// The records written one after another, each followed by `\n`.
pub open spec fn framed(ls: Seq<Seq<char>>) -> Seq<char>
    decreases ls.len(),
{
    if ls.len() == 0 {
        Seq::empty()
    } else {
        framed(ls.drop_last()) + ls.last() + "\n"@
    }
}

/// The bytes of a conversation file holding the records (before compression).
pub open spec fn file_bytes(ls: Seq<Seq<char>>) -> Seq<u8> {
    encode_utf8(framed(ls))
}

/// The records as lines of text.
pub fn frame_lines(records: &Vec<String>) -> (r: String)
    ensures
        r@ == framed(strs_view(records@)),
{
    let ghost rv = strs_view(records@);
    let mut out = String::new();
    let mut i: usize = 0;
    assert(rv.take(0) =~= Seq::<Seq<char>>::empty());
    while i < records.len()
        invariant
            i <= records.len(),
            rv == strs_view(records@),
            out@ == framed(rv.take(i as int)),
        decreases records.len() - i,
    {
        push_str(&mut out, records[i].as_str());
        push_str(&mut out, "\n");
        proof {
            assert(rv.take(i + 1).drop_last() =~= rv.take(i as int));
            assert(rv.take(i + 1).last() == records@[i as int]@);
        }
        assert(out@ =~= framed(rv.take(i + 1)));
        i = i + 1;
    }
    assert(rv.take(i as int) =~= rv);
    out
}

/// Compress the records for a conversation file; `None` if compression fails.
pub fn encode_jsonl(records: &Vec<String>) -> (r: Option<Vec<u8>>)
    ensures
        opt_bytes(r) == zstd_compressed(file_bytes(strs_view(records@)), LEVEL),
{
    let text = frame_lines(records);
    let bytes = text.as_str().as_bytes();
    zstd_encode(bytes, LEVEL)
}

/// Whether records can stand one per line: none holds a `\n` or ends with `\r`.
pub open spec fn line_safe(ls: Seq<Seq<char>>) -> bool {
    forall|i: int|
        0 <= i < ls.len() ==> char_index(#[trigger] ls[i], '\n') is None && strip_cr(ls[i]) == ls[i]
}

/// The bytes before compression of each batch of records.
pub open spec fn batch_bytes(bs: Seq<Seq<Seq<char>>>) -> Seq<Seq<u8>> {
    bs.map_values(|b: Seq<Seq<char>>| file_bytes(b))
}

/// Whether every batch is line-safe.
pub open spec fn batches_safe(bs: Seq<Seq<Seq<char>>>) -> bool {
    forall|i: int| 0 <= i < bs.len() ==> line_safe(#[trigger] bs[i])
}

/// The records of a conversation file's bytes: decompressed, read as UTF-8,
/// split into lines. `None` when the bytes do not decompress or are not UTF-8.
/// A file written by [`encode_jsonl`] gives back the records written, and a
/// file of batches written one after another (each compressed alone, as
/// appends do) gives back all their records in order.
pub fn decode_jsonl(data: &[u8]) -> (r: Option<Vec<String>>)
    ensures
        match zstd_decompressed(data@) {
            Some(b) => if valid_utf8(b) {
                r matches Some(v) && strs_view(v@) == lines(decode_utf8(b))
            } else {
                r is None
            },
            None => r is None,
        },
        forall|ls: Seq<Seq<char>>|
            line_safe(ls) && #[trigger] zstd_compressed(file_bytes(ls), LEVEL) == Some(data@) ==> (
            r matches Some(v) && strs_view(v@) == ls),
        forall|bs: Seq<Seq<Seq<char>>>|
            bs.len() > 0 && batches_safe(bs) && #[trigger] zstd_frames(batch_bytes(bs), LEVEL) == Some(data@) ==> (
            r matches Some(v) && strs_view(v@) == bs.flatten()),
{
    let raw = zstd_decode(data);
    proof {
        assert forall|bs: Seq<Seq<Seq<char>>>|
            bs.len() > 0 && batches_safe(bs) && #[trigger] zstd_frames(batch_bytes(bs), LEVEL) == Some(data@) implies opt_bytes(
            raw,
        ) == Some(file_bytes(bs.flatten())) && valid_utf8(file_bytes(bs.flatten())) && lines(
            decode_utf8(file_bytes(bs.flatten())),
        ) == bs.flatten() by {
            lemma_batch_bytes(bs);
            lemma_flatten_safe(bs);
            let ls = bs.flatten();
            vstd::utf8::encode_utf8_valid_utf8(framed(ls));
            vstd::utf8::encode_utf8_decode_utf8(framed(ls));
            lemma_lines_of_framed(ls);
        }
        assert forall|ls: Seq<Seq<char>>|
            line_safe(ls) && #[trigger] zstd_compressed(file_bytes(ls), LEVEL) == Some(data@) implies opt_bytes(
            raw,
        ) == Some(file_bytes(ls)) && valid_utf8(file_bytes(ls)) && lines(decode_utf8(file_bytes(ls))) == ls by {
            let bs = seq![ls];
            assert(batch_bytes(bs) =~= seq![file_bytes(ls)]);
            assert(batch_bytes(bs).drop_last() =~= Seq::<Seq<u8>>::empty());
            assert(batch_bytes(bs).last() == file_bytes(ls));
            assert(zstd_frames(batch_bytes(bs).drop_last(), LEVEL) == Some(Seq::<u8>::empty()));
            assert(zstd_frames(batch_bytes(bs), LEVEL) == Some(Seq::<u8>::empty() + data@));
            assert(Seq::<u8>::empty() + data@ =~= data@);
            assert(batches_safe(bs));
            assert(bs.flatten() == ls) by {
                bs.lemma_flatten_singleton();
            }
            assert(zstd_frames(batch_bytes(bs), LEVEL) == Some(data@));
            vstd::utf8::encode_utf8_valid_utf8(framed(ls));
            vstd::utf8::encode_utf8_decode_utf8(framed(ls));
            lemma_lines_of_framed(ls);
        }
    }
    match raw {
        None => None,
        Some(bytes) => records_from_bytes(bytes),
    }
}

/// UTF-8 encoding is taken piece by piece.
proof fn lemma_encode_concat(a: Seq<char>, b: Seq<char>)
    ensures
        encode_utf8(a + b) == encode_utf8(a) + encode_utf8(b),
    decreases a.len(),
{
    if a.len() == 0 {
        assert(a + b =~= b);
        assert(encode_utf8(a) + encode_utf8(b) =~= encode_utf8(b));
    } else {
        assert((a + b).drop_first() =~= a.drop_first() + b);
        assert((a + b)[0] == a[0]);
        lemma_encode_concat(a.drop_first(), b);
        assert(encode_utf8(a + b) =~= encode_utf8(a) + encode_utf8(b));
    }
}

/// Framing is taken record by record.
proof fn lemma_framed_concat(a: Seq<Seq<char>>, b: Seq<Seq<char>>)
    ensures
        framed(a + b) == framed(a) + framed(b),
    decreases b.len(),
{
    if b.len() == 0 {
        assert(a + b =~= a);
        assert(framed(a) + framed(b) =~= framed(a));
    } else {
        assert((a + b).drop_last() =~= a + b.drop_last());
        assert((a + b).last() == b.last());
        lemma_framed_concat(a, b.drop_last());
        assert(framed(a + b) =~= framed(a) + framed(b));
    }
}

/// The bytes of batches one after another are the bytes of all their records.
proof fn lemma_batch_bytes(bs: Seq<Seq<Seq<char>>>)
    ensures
        batch_bytes(bs).flatten() == file_bytes(bs.flatten()),
    decreases bs.len(),
{
    if bs.len() == 0 {
        assert(batch_bytes(bs) =~= Seq::<Seq<u8>>::empty());
        assert(bs.flatten() =~= Seq::<Seq<char>>::empty());
        assert(batch_bytes(bs).flatten() =~= Seq::<u8>::empty());
        assert(framed(Seq::<Seq<char>>::empty()) =~= Seq::<char>::empty());
        assert(encode_utf8(Seq::<char>::empty()) =~= Seq::<u8>::empty());
    } else {
        let d = bs.drop_last();
        lemma_batch_bytes(d);
        assert(batch_bytes(bs) =~= batch_bytes(d).push(file_bytes(bs.last())));
        batch_bytes(d).lemma_flatten_push(file_bytes(bs.last()));
        assert(bs =~= d.push(bs.last()));
        d.lemma_flatten_push(bs.last());
        lemma_framed_concat(d.flatten(), bs.last());
        lemma_encode_concat(framed(d.flatten()), framed(bs.last()));
    }
}

/// The records of line-safe batches are line-safe.
proof fn lemma_flatten_safe(bs: Seq<Seq<Seq<char>>>)
    requires
        batches_safe(bs),
    ensures
        line_safe(bs.flatten()),
    decreases bs.len(),
{
    if bs.len() > 0 {
        let d = bs.drop_last();
        assert(batches_safe(d)) by {
            assert forall|i: int| 0 <= i < d.len() implies line_safe(#[trigger] d[i]) by {
                assert(d[i] == bs[i]);
            }
        }
        lemma_flatten_safe(d);
        assert(bs =~= d.push(bs.last()));
        d.lemma_flatten_push(bs.last());
        assert(line_safe(bs[bs.len() - 1]));
        let f = bs.flatten();
        let df = d.flatten();
        assert forall|i: int| 0 <= i < f.len() implies char_index(#[trigger] f[i], '\n') is None && strip_cr(f[i])
            == f[i] by {
            if i < df.len() {
                assert(f[i] == df[i]);
            } else {
                assert(f[i] == bs.last()[i - df.len()]);
            }
        }
    }
}

/// The records of decompressed file bytes: the UTF-8 text split into lines,
/// or `None` when the bytes are not UTF-8.
pub fn records_from_bytes(bytes: Vec<u8>) -> (r: Option<Vec<String>>)
    ensures
        if valid_utf8(bytes@) {
            r matches Some(v) && strs_view(v@) == lines(decode_utf8(bytes@))
        } else {
            r is None
        },
{
    match utf8_text(bytes) {
        None => None,
        Some(text) => Some(split_lines(text.as_str())),
    }
}

/// `framed` seen from the front: the first record, its `\n`, then the rest.
proof fn lemma_framed_front(ls: Seq<Seq<char>>)
    requires
        ls.len() > 0,
    ensures
        framed(ls) == ls[0] + "\n"@ + framed(ls.drop_first()),
    decreases ls.len(),
{
    if ls.len() == 1 {
        assert(ls.drop_last() =~= Seq::<Seq<char>>::empty());
        assert(ls.drop_first() =~= Seq::<Seq<char>>::empty());
        assert(framed(ls) =~= ls[0] + "\n"@ + framed(ls.drop_first()));
    } else {
        let d = ls.drop_last();
        lemma_framed_front(d);
        assert(d.drop_first() =~= ls.drop_first().drop_last());
        assert(ls.drop_first().last() == ls.last());
        assert(framed(ls) =~= ls[0] + "\n"@ + framed(ls.drop_first()));
    }
}

/// The first `c` in `s` is at `k` when `s[k]` is `c` and no earlier character is.
proof fn lemma_char_index_at(s: Seq<char>, c: char, k: int)
    requires
        0 <= k < s.len(),
        s[k] == c,
        forall|j: int| 0 <= j < k ==> s[j] != c,
    ensures
        char_index(s, c) == Some(k),
    decreases k,
{
    if k > 0 {
        lemma_char_index_at(s.drop_first(), c, k - 1);
    }
}

/// Line-safe records written as lines split back into the same records.
pub proof fn lemma_lines_of_framed(ls: Seq<Seq<char>>)
    requires
        line_safe(ls),
    ensures
        lines(framed(ls)) == ls,
    decreases ls.len(),
{
    reveal_strlit("\n");
    if ls.len() == 0 {
    } else {
        lemma_framed_front(ls);
        let a = ls[0];
        let rest = ls.drop_first();
        assert(line_safe(rest)) by {
            assert forall|i: int| 0 <= i < rest.len() implies char_index(#[trigger] rest[i], '\n') is None
                && strip_cr(rest[i]) == rest[i] by {
                assert(rest[i] == ls[i + 1]);
            }
        }
        lemma_lines_of_framed(rest);
        let s = framed(ls);
        assert(char_index(a, '\n') is None && strip_cr(a) == a);
        lemma_char_index(a, '\n');
        assert(s[a.len() as int] == '\n');
        assert forall|j: int| 0 <= j < a.len() implies s[j] != '\n' by {
            assert(s[j] == a[j]);
        }
        lemma_char_index_at(s, '\n', a.len() as int);
        assert(s.take(a.len() as int) =~= a);
        assert(s.skip((a.len() + 1) as int) =~= framed(rest));
        assert(lines(s) =~= seq![a] + rest);
    }
}

} // verus!
