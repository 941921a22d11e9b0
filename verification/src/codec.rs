//! The binary entry format and its encoder and decoder.
//!
//! A buffer is the concatenation of encoded entries:
//! one byte holding the key's length, the key's bytes, then the value as
//! eight little-endian bytes. An empty buffer holds zero entries.

use vstd::prelude::*;
use vstd::bytes::spec_u64_from_le_bytes;
use vstd::bytes::spec_u64_to_le_bytes;
use vstd::bytes::lemma_auto_spec_u64_to_from_le_bytes;

verus! {

/// The key length that fits the one-byte length prefix.
pub const MAX_KEY_LEN: usize = 255;

/// One (key, value) record: the key's raw bytes and the value.
pub struct Entry {
    pub key: Vec<u8>,
    pub value: u64,
}

impl View for Entry {
    type V = (Seq<u8>, u64);

    open spec fn view(&self) -> (Seq<u8>, u64) {
        (self.key@, self.value)
    }
}

/// The mathematical entries of a vector of records.
pub open spec fn entries_view(es: Seq<Entry>) -> Seq<(Seq<u8>, u64)> {
    es.map_values(|e: Entry| e@)
}

/// Every key fits the one-byte length prefix.
pub open spec fn entries_keys_ok(es: Seq<(Seq<u8>, u64)>) -> bool {
    forall|i: int| 0 <= i < es.len() ==> (#[trigger] es[i]).0.len() <= 255
}

/// No two entries share a key.
pub open spec fn entries_keys_unique(es: Seq<(Seq<u8>, u64)>) -> bool {
    forall|i: int, j: int|
        #![trigger es[i], es[j]]
        0 <= i < j < es.len() ==> es[i].0 != es[j].0
}

/// The encoding of one entry: length prefix, key bytes, value bytes.
pub open spec fn spec_encode_entry(key: Seq<u8>, value: u64) -> Seq<u8> {
    seq![key.len() as u8] + key + spec_u64_to_le_bytes(value)
}

/// The encoding of a sequence of entries, first to last.
pub open spec fn spec_encode(es: Seq<(Seq<u8>, u64)>) -> Seq<u8>
    decreases es.len(),
{
    if es.len() == 0 {
        Seq::empty()
    } else {
        spec_encode_entry(es[0].0, es[0].1) + spec_encode(es.skip(1))
    }
}

/// What a buffer decodes to: `None` where a length prefix promises more
/// bytes than remain (a truncated entry), otherwise the entries in buffer
/// order.
pub open spec fn spec_decode(b: Seq<u8>) -> Option<Seq<(Seq<u8>, u64)>>
    decreases b.len(),
{
    if b.len() == 0 {
        Some(Seq::empty())
    } else {
        let klen = b[0] as int;
        if b.len() < 1 + klen + 8 {
            None
        } else {
            let key = b.subrange(1, 1 + klen);
            let value = spec_u64_from_le_bytes(b.subrange(1 + klen, 1 + klen + 8));
            match spec_decode(b.skip(1 + klen + 8)) {
                Some(rest) => Some(seq![(key, value)] + rest),
                None => None,
            }
        }
    }
}

/// Appending an entry extends the encoding by that entry's bytes.
proof fn lemma_spec_encode_push(es: Seq<(Seq<u8>, u64)>, e: (Seq<u8>, u64))
    ensures
        spec_encode(es.push(e)) == spec_encode(es) + spec_encode_entry(e.0, e.1),
    decreases es.len(),
{
    if es.len() == 0 {
        assert(es.push(e)[0] == e);
        assert(es.push(e).skip(1) =~= Seq::<(Seq<u8>, u64)>::empty());
        assert(spec_encode(Seq::<(Seq<u8>, u64)>::empty()) == Seq::<u8>::empty());
        assert(spec_encode(es.push(e)) == spec_encode_entry(e.0, e.1) + Seq::<u8>::empty());
        assert(spec_encode(es.push(e)) =~= spec_encode_entry(e.0, e.1));
        assert(spec_encode(es) + spec_encode_entry(e.0, e.1) =~= spec_encode_entry(e.0, e.1));
    } else {
        assert(es.push(e)[0] == es[0]);
        assert(es.push(e).skip(1) =~= es.skip(1).push(e));
        lemma_spec_encode_push(es.skip(1), e);
        assert(spec_encode(es.push(e)) == spec_encode_entry(es[0].0, es[0].1) + (spec_encode(
            es.skip(1),
        ) + spec_encode_entry(e.0, e.1)));
        assert(spec_encode_entry(es[0].0, es[0].1) + (spec_encode(es.skip(1))
            + spec_encode_entry(e.0, e.1)) =~= (spec_encode_entry(es[0].0, es[0].1) + spec_encode(
            es.skip(1),
        )) + spec_encode_entry(e.0, e.1));
    }
}

/// Encodes the records into one buffer, first to last.
pub fn encode(entries: &Vec<Entry>) -> (r: Vec<u8>)
    requires
        entries_keys_ok(entries_view(entries@)),
    ensures
        r@ == spec_encode(entries_view(entries@)),
{
    let mut buf: Vec<u8> = Vec::new();
    let n: usize = entries.len();
    let mut i: usize = 0;
    while i < n
        invariant
            n == entries@.len(),
            i <= n,
            entries_keys_ok(entries_view(entries@)),
            buf@ == spec_encode(entries_view(entries@).take(i as int)),
        decreases n - i,
    {
        let e = &entries[i];
        proof {
            assert(entries_view(entries@)[i as int] == entries@[i as int]@);
            assert(entries_view(entries@)[i as int].0.len() <= 255);
        }
        let ghost buf0 = buf@;
        buf.push(e.key.len() as u8);
        let mut kb = vstd::slice::slice_to_vec(e.key.as_slice());
        buf.append(&mut kb);
        let mut vb = vstd::bytes::u64_to_le_bytes(e.value);
        buf.append(&mut vb);
        proof {
            let ev = entries@[i as int]@;
            assert(buf@ =~= buf0 + spec_encode_entry(ev.0, ev.1));
            lemma_spec_encode_push(entries_view(entries@).take(i as int), ev);
            assert(entries_view(entries@).take(i as int).push(ev) =~= entries_view(
                entries@,
            ).take(i as int + 1));
        }
        i += 1;
    }
    proof {
        assert(entries_view(entries@).take(n as int) =~= entries_view(entries@));
    }
    buf
}

/// Decodes a buffer into its records, or `None` where the buffer ends in
/// the middle of an entry.
pub fn decode(bytes: &Vec<u8>) -> (r: Option<Vec<Entry>>)
    ensures
        match r {
            Some(es) => spec_decode(bytes@) == Some(entries_view(es@)),
            None => spec_decode(bytes@) is None,
        },
{
    let mut out: Vec<Entry> = Vec::new();
    let n: usize = bytes.len();
    let mut offset: usize = 0;
    proof {
        assert(bytes@.skip(0) =~= bytes@);
        assert(entries_view(out@) =~= Seq::<(Seq<u8>, u64)>::empty());
        if spec_decode(bytes@) is Some {
            assert(entries_view(out@) + spec_decode(bytes@).unwrap() =~= spec_decode(
                bytes@,
            ).unwrap());
        }
    }
    while offset < n
        invariant
            n == bytes@.len(),
            offset <= n,
            (spec_decode(bytes@) is Some) == (spec_decode(bytes@.skip(offset as int)) is Some),
            spec_decode(bytes@.skip(offset as int)) matches Some(rest) ==> spec_decode(bytes@)
                == Some(entries_view(out@) + rest),
        decreases n - offset,
    {
        let ghost suffix = bytes@.skip(offset as int);
        let klen: usize = bytes[offset] as usize;
        proof {
            assert(suffix.len() == n - offset);
            assert(suffix[0] == bytes@[offset as int]);
        }
        if n - offset - 1 < klen + 8 {
            proof {
                assert(suffix.len() < 1 + klen + 8);
                assert(spec_decode(suffix) is None);
            }
            return None;
        }
        let key_end: usize = offset + 1 + klen;
        let kb = vstd::slice::slice_to_vec(
            vstd::slice::slice_subrange(bytes.as_slice(), offset + 1, key_end),
        );
        let vs = vstd::slice::slice_subrange(bytes.as_slice(), key_end, key_end + 8);
        let value: u64 = vstd::bytes::u64_from_le_bytes(vs);
        let ghost out0 = out@;
        out.push(Entry { key: kb, value });
        proof {
            assert(suffix.subrange(1, 1 + klen as int) =~= bytes@.subrange(
                offset + 1,
                key_end as int,
            ));
            assert(suffix.subrange(1 + klen as int, 1 + klen + 8) =~= bytes@.subrange(
                key_end as int,
                key_end + 8,
            ));
            assert(suffix.skip(1 + klen + 8) =~= bytes@.skip(key_end + 8));
            assert(entries_view(out@) =~= entries_view(out0).push(
                (bytes@.subrange(offset + 1, key_end as int), value),
            ));
            if spec_decode(bytes@.skip(key_end + 8)) is Some {
                let rest2 = spec_decode(bytes@.skip(key_end + 8)).unwrap();
                assert(spec_decode(suffix) == Some(
                    seq![(bytes@.subrange(offset + 1, key_end as int), value)] + rest2,
                ));
                assert(entries_view(out0) + (seq![
                    (bytes@.subrange(offset + 1, key_end as int), value),
                ] + rest2) =~= entries_view(out@) + rest2);
            } else {
                assert(spec_decode(suffix) is None);
            }
        }
        offset = key_end + 8;
    }
    proof {
        assert(bytes@.skip(offset as int) =~= Seq::<u8>::empty());
        assert(spec_decode(Seq::<u8>::empty()) == Some(Seq::<(Seq<u8>, u64)>::empty()));
        assert(entries_view(out@) + Seq::<(Seq<u8>, u64)>::empty() =~= entries_view(out@));
    }
    Some(out)
}

/// Round trip: decoding an encoded sequence of entries gives back exactly
/// those entries, for every sequence whose keys fit the length prefix; in
/// particular the mapping the entries describe is unchanged.
pub proof fn lemma_decode_encode_round_trip(es: Seq<(Seq<u8>, u64)>)
    requires
        entries_keys_ok(es),
    ensures
        spec_decode(spec_encode(es)) == Some(es),
    decreases es.len(),
{
    lemma_auto_spec_u64_to_from_le_bytes();
    if es.len() == 0 {
    } else {
        let e = es[0];
        let b = spec_encode(es);
        let head = spec_encode_entry(e.0, e.1);
        assert(e.0.len() <= 255);
        assert(head.len() == 1 + e.0.len() + 8);
        assert(b == head + spec_encode(es.skip(1)));
        assert(b[0] == e.0.len() as u8);
        let klen = b[0] as int;
        assert(klen == e.0.len());
        assert(b.len() >= 1 + klen + 8);
        assert(b.subrange(1, 1 + klen) =~= e.0);
        assert(b.subrange(1 + klen, 1 + klen + 8) =~= spec_u64_to_le_bytes(e.1));
        assert(spec_u64_from_le_bytes(spec_u64_to_le_bytes(e.1)) == e.1);
        assert(b.skip(1 + klen + 8) =~= spec_encode(es.skip(1)));
        assert(forall|i: int|
            0 <= i < es.skip(1).len() ==> (#[trigger] es.skip(1)[i]) == es[i + 1]);
        assert(entries_keys_ok(es.skip(1)));
        lemma_decode_encode_round_trip(es.skip(1));
        assert(spec_decode(b) == Some(seq![(e.0, e.1)] + es.skip(1)));
        assert(seq![(e.0, e.1)] + es.skip(1) =~= es);
    }
}

/// Every key a well-formed buffer decodes to fits the length prefix.
pub proof fn lemma_decode_keys_ok(b: Seq<u8>)
    ensures
        spec_decode(b) matches Some(es) ==> entries_keys_ok(es),
    decreases b.len(),
{
    if b.len() == 0 {
    } else {
        let klen = b[0] as int;
        if b.len() < 1 + klen + 8 {
        } else {
            lemma_decode_keys_ok(b.skip(1 + klen + 8));
            if spec_decode(b) is Some {
                let rest = spec_decode(b.skip(1 + klen + 8)).unwrap();
                let es = spec_decode(b).unwrap();
                assert(es == seq![(b.subrange(1, 1 + klen), spec_u64_from_le_bytes(
                    b.subrange(1 + klen, 1 + klen + 8),
                ))] + rest);
                assert forall|i: int| 0 <= i < es.len() implies (#[trigger] es[i]).0.len()
                    <= 255 by {
                    if i == 0 {
                        assert(es[0].0 == b.subrange(1, 1 + klen));
                    } else {
                        assert(es[i] == rest[i - 1]);
                    }
                }
            }
        }
    }
}

/// Saving the same entries twice with no mutation in between yields
/// byte-identical buffers: the encoding is a function of the entries alone.
pub proof fn lemma_encode_deterministic(es: Seq<(Seq<u8>, u64)>, b1: Seq<u8>, b2: Seq<u8>)
    requires
        b1 == spec_encode(es),
        b2 == spec_encode(es),
    ensures
        b1 == b2,
{
}

} // verus!
