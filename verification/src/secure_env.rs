//! Obfuscated storage of API keys: the stored map (as JSON) is XOR-ed with a
//! key derived from the machine's identifier and framed with a magic tag and
//! a version byte. This is obfuscation against casual reading, not encryption.
//!
//! Reading the machine identifier, encoding the map and the file I/O are the
//! caller's part; this module derives the key and frames the bytes.
use vstd::prelude::*;
use vstd::wrapping::u8_specs::{wrapping_add, wrapping_mul};
use vstd::string::StringSliceAdditionalSpecFns;

verus! {

broadcast use vstd::seq_lib::group_seq_properties;

/// The magic tag a framed file starts with (`RENV`).
pub open spec fn magic() -> Seq<u8> {
    seq![82u8, 69u8, 78u8, 86u8]
}

/// The format version byte.
pub const VERSION: u8 = 1;

/// Byte `i` of the key: the sum, wrapping at 256, of each identifier byte
/// times its position plus `i` (also wrapping).
pub open spec fn key_byte(bytes: Seq<u8>, i: u8, n: int) -> u8
    decreases n,
{
    if n <= 0 {
        0
    } else {
        wrapping_add(key_byte(bytes, i, n - 1), wrapping_mul(bytes[n - 1], wrapping_add(i, (n - 1) as u8)))
    }
}

/// The 32-byte key derived from a machine identifier's UTF-8 bytes.
pub open spec fn key_of(bytes: Seq<u8>) -> Seq<u8> {
    Seq::new(32, |i: int| key_byte(bytes, i as u8, bytes.len() as int))
}

/// Derive the obfuscation key from a machine identifier.
pub fn derive_key(machine_id: &str) -> (key: Vec<u8>)
    ensures
        key@ == key_of(machine_id.spec_bytes()),
{
    let bytes = machine_id.as_bytes();
    let mut key: Vec<u8> = Vec::new();
    let mut i: usize = 0;
    while i < 32
        invariant
            i <= 32,
            bytes@ == machine_id.spec_bytes(),
            key@ == key_of(bytes@).take(i as int),
        decreases 32 - i,
    {
        let mut b: u8 = 0;
        let mut j: usize = 0;
        while j < bytes.len()
            invariant
                j <= bytes.len(),
                i < 32,
                b == key_byte(bytes@, i as u8, j as int),
            decreases bytes.len() - j,
        {
            b = b.wrapping_add(bytes[j].wrapping_mul((i as u8).wrapping_add(j as u8)));
            j = j + 1;
        }
        key.push(b);
        assert(key@ =~= key_of(bytes@).take(i + 1));
        i = i + 1;
    }
    assert(key@ =~= key_of(bytes@));
    key
}

/// Each byte XOR-ed with the key byte at its position, the key repeating.
pub open spec fn xored(data: Seq<u8>, key: Seq<u8>) -> Seq<u8> {
    Seq::new(data.len(), |i: int| data[i] ^ key[i % (key.len() as int)])
}

/// XOR `data` with the repeating key.
pub fn xor_obfuscate(data: &[u8], key: &[u8]) -> (r: Vec<u8>)
    requires
        key@.len() > 0,
    ensures
        r@ == xored(data@, key@),
{
    let mut r: Vec<u8> = Vec::new();
    let mut i: usize = 0;
    while i < data.len()
        invariant
            i <= data.len(),
            key@.len() > 0,
            r@ == xored(data@, key@).take(i as int),
        decreases data.len() - i,
    {
        r.push(data[i] ^ key[i % key.len()]);
        assert(r@ =~= xored(data@, key@).take(i + 1));
        i = i + 1;
    }
    assert(r@ =~= xored(data@, key@));
    r
}

/// XOR-ing twice with the same key gives the data back.
pub proof fn lemma_xor_round_trip(data: Seq<u8>, key: Seq<u8>)
    requires
        key.len() > 0,
    ensures
        xored(xored(data, key), key) == data,
{
    assert forall|i: int| 0 <= i < data.len() implies #[trigger] xored(xored(data, key), key)[i] == data[i] by {
        let a = data[i];
        let k = key[i % (key.len() as int)];
        assert((a ^ k) ^ k == a) by (bit_vector);
    }
    assert(xored(xored(data, key), key) =~= data);
}

/// A framed file: the magic tag, the version, then the obfuscated JSON.
pub open spec fn framed(json: Seq<u8>, key: Seq<u8>) -> Seq<u8> {
    magic().push(1u8) + xored(json, key)
}

/// Frame an encoded map for storage.
pub fn serialize_env(json: &[u8], key: &[u8]) -> (r: Vec<u8>)
    requires
        key@.len() > 0,
    ensures
        r@ == framed(json@, key@),
{
    let ob = xor_obfuscate(json, key);
    let mut out: Vec<u8> = Vec::new();
    out.push(82u8);
    out.push(69u8);
    out.push(78u8);
    out.push(86u8);
    out.push(VERSION);
    let ghost head = out@;
    let mut i: usize = 0;
    while i < ob.len()
        invariant
            i <= ob.len(),
            head == magic().push(1u8),
            out@ == head + ob@.take(i as int),
        decreases ob.len() - i,
    {
        out.push(ob[i]);
        assert(out@ =~= head + ob@.take(i + 1));
        i = i + 1;
    }
    assert(ob@.take(i as int) =~= ob@);
    out
}

/// What a stored file holds.
#[derive(Debug)]
pub enum EnvPayload {
    /// The JSON recovered from a framed file.
    Framed(Vec<u8>),
    /// A file without the magic tag, read as plain JSON.
    Legacy(Vec<u8>),
    /// A file too short, or of another version.
    Invalid,
}

/// Model of a payload.
pub enum PayloadView {
    Framed(Seq<u8>),
    Legacy(Seq<u8>),
    Invalid,
}

/// What a stored file holds: under five bytes, nothing; without the magic
/// tag, plain JSON; with another version, nothing; else the de-obfuscated JSON.
pub open spec fn unframed(data: Seq<u8>, key: Seq<u8>) -> PayloadView {
    if data.len() < 5 {
        PayloadView::Invalid
    } else if data.take(4) != magic() {
        PayloadView::Legacy(data)
    } else if data[4] != 1u8 {
        PayloadView::Invalid
    } else {
        PayloadView::Framed(xored(data.skip(5), key))
    }
}

/// Read a stored file's bytes back into its JSON.
pub fn deserialize_env(data: &[u8], key: &[u8]) -> (r: EnvPayload)
    requires
        key@.len() > 0,
    ensures
        match unframed(data@, key@) {
            PayloadView::Framed(j) => r matches EnvPayload::Framed(v) && v@ == j,
            PayloadView::Legacy(j) => r matches EnvPayload::Legacy(v) && v@ == j,
            PayloadView::Invalid => r is Invalid,
        },
{
    if data.len() < 5 {
        return EnvPayload::Invalid;
    }
    let tagged = data[0] == 82u8 && data[1] == 69u8 && data[2] == 78u8 && data[3] == 86u8;
    proof {
        if tagged {
            assert(data@.take(4) =~= magic());
        } else {
            assert(data@.take(4) != magic()) by {
                if data@.take(4) == magic() {
                    assert(data@.take(4)[0] == data@[0]);
                    assert(data@.take(4)[1] == data@[1]);
                    assert(data@.take(4)[2] == data@[2]);
                    assert(data@.take(4)[3] == data@[3]);
                }
            }
        }
    }
    if !tagged {
        let mut v: Vec<u8> = Vec::new();
        let mut i: usize = 0;
        while i < data.len()
            invariant
                i <= data.len(),
                v@ == data@.take(i as int),
            decreases data.len() - i,
        {
            v.push(data[i]);
            assert(v@ =~= data@.take(i + 1));
            i = i + 1;
        }
        assert(data@.take(i as int) =~= data@);
        return EnvPayload::Legacy(v);
    }
    if data[4] != VERSION {
        return EnvPayload::Invalid;
    }
    let mut rest: Vec<u8> = Vec::new();
    let mut i: usize = 5;
    while i < data.len()
        invariant
            5 <= i <= data.len(),
            rest@ == data@.subrange(5, i as int),
        decreases data.len() - i,
    {
        rest.push(data[i]);
        assert(rest@ =~= data@.subrange(5, i + 1));
        i = i + 1;
    }
    assert(rest@ =~= data@.skip(5));
    EnvPayload::Framed(xor_obfuscate(rest.as_slice(), key))
}

/// Framing then reading back with the same key gives the JSON back.
pub proof fn lemma_frame_round_trip(json: Seq<u8>, key: Seq<u8>)
    requires
        key.len() > 0,
    ensures
        unframed(framed(json, key), key) == PayloadView::Framed(json),
{
    let f = framed(json, key);
    assert(f.take(4) =~= magic());
    assert(f[4] == 1u8);
    assert(f.skip(5) =~= xored(json, key));
    lemma_xor_round_trip(json, key);
}

} // verus!
