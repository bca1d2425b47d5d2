//! What reading back a written section gives.
use vstd::prelude::*;
use vstd::utf8::{encode_utf8_decode_utf8, encode_utf8_valid_utf8};
use crate::be::{lemma_u16_round_trip, lemma_u32_round_trip};
use crate::decode::{find_from, find_key, record_at, record_count, records_from, sections};
use crate::encode::{
    blob_fits, blobs_fit, key_bytes, record_bytes, records_bytes, required_len, section_bytes,
    splice, DataToWrite, lemma_records_len,
};
use crate::map::{distinct_keys, lemma_pairs_map_at, lemma_pairs_map_len, pairs_map, sections_map};
use crate::placeholder::placeholder_of;

verus! {

/// The records that `blobs` encode to, numbered from `index`.
pub open spec fn blob_entries(blobs: Seq<DataToWrite>, index: nat) -> Seq<(nat, Seq<char>, Seq<u8>)> {
    Seq::new(blobs.len(), |j: int| ((index + j) as nat, blobs[j].key@, blobs[j].data@))
}

/// The blobs as (key, payload) pairs.
pub open spec fn blob_pairs(blobs: Seq<DataToWrite>) -> Seq<(Seq<char>, Seq<u8>)> {
    blobs.map_values(|b: DataToWrite| (b.key@, b.data@))
}

/// The payload of the first blob whose key is `key`.
pub open spec fn first_payload(blobs: Seq<DataToWrite>, key: Seq<char>) -> Option<Seq<u8>>
    decreases blobs.len(),
{
    if blobs.len() == 0 {
        None
    } else if blobs[0].key@ == key {
        Some(blobs[0].data@)
    } else {
        first_payload(blobs.skip(1), key)
    }
}

/// The records of `blobs` are the first record, then those of the rest.
pub proof fn lemma_records_front(blobs: Seq<DataToWrite>)
    requires
        blobs.len() > 0,
    ensures
        records_bytes(blobs) == record_bytes(blobs[0]) + records_bytes(blobs.skip(1)),
    decreases blobs.len(),
{
    let t = blobs.skip(1);
    if blobs.len() == 1 {
        assert(records_bytes(blobs.drop_last()) == Seq::<u8>::empty());
        assert(records_bytes(t) == Seq::<u8>::empty());
        assert(records_bytes(blobs) =~= record_bytes(blobs[0]) + records_bytes(t));
    } else {
        let dl = blobs.drop_last();
        lemma_records_front(dl);
        assert(dl.skip(1) =~= t.drop_last());
        assert(t.last() == blobs.last());
        assert(dl[0] == blobs[0]);
        assert(records_bytes(blobs) =~= record_bytes(blobs[0]) + records_bytes(t));
    }
}

/// The first record of `blobs`, where it stands in `w`, reads back as the blob.
proof fn lemma_record_at_blob(w: Seq<u8>, pos: int, blobs: Seq<DataToWrite>)
    requires
        blobs.len() > 0,
        blob_fits(blobs[0]),
        0 <= pos,
        pos + records_bytes(blobs).len() <= w.len(),
        w.subrange(pos, pos + records_bytes(blobs).len()) == records_bytes(blobs),
    ensures
        record_at(w, pos) == Ok::<(Seq<u8>, int, int), crate::error::Error>(
            (
                key_bytes(blobs[0]),
                pos + 6 + key_bytes(blobs[0]).len(),
                blobs[0].data@.len() as int,
            ),
        ),
        pos + record_bytes(blobs[0]).len() + records_bytes(blobs.skip(1)).len() <= w.len(),
        w.subrange(pos + 6 + key_bytes(blobs[0]).len(), pos + record_bytes(blobs[0]).len())
            == blobs[0].data@,
        w.subrange(
            pos + record_bytes(blobs[0]).len(),
            pos + record_bytes(blobs[0]).len() + records_bytes(blobs.skip(1)).len(),
        ) == records_bytes(blobs.skip(1)),
{
    let b = blobs[0];
    let kb = key_bytes(b);
    let kl = kb.len() as int;
    let dl = b.data@.len() as int;
    let rb = record_bytes(b);
    let rest = records_bytes(blobs.skip(1));
    lemma_records_front(blobs);
    lemma_u16_round_trip(kb.len());
    lemma_u32_round_trip(b.data@.len());
    let all = records_bytes(blobs);
    assert(rb.len() == 6 + kl + dl);
    assert forall|j: int| 0 <= j < all.len() implies w[pos + j] == #[trigger] all[j] by {
        assert(w.subrange(pos, pos + all.len())[j] == w[pos + j]);
    }
    assert(w[pos] == all[0] && all[0] == rb[0]);
    assert(w[pos + 1] == all[1] && all[1] == rb[1]);
    assert(w.subrange(pos + 2, pos + 2 + kl) =~= kb) by {
        assert forall|j: int| 0 <= j < kl implies w.subrange(pos + 2, pos + 2 + kl)[j] == kb[j] by {
            assert(w[pos + 2 + j] == all[2 + j]);
            assert(all[2 + j] == rb[2 + j]);
        }
    }
    let ke = pos + 2 + kl;
    assert(w[ke] == all[2 + kl] && all[2 + kl] == rb[2 + kl]);
    assert(w[ke + 1] == all[3 + kl] && all[3 + kl] == rb[3 + kl]);
    assert(w[ke + 2] == all[4 + kl] && all[4 + kl] == rb[4 + kl]);
    assert(w[ke + 3] == all[5 + kl] && all[5 + kl] == rb[5 + kl]);
    encode_utf8_valid_utf8(b.key@);
    assert(w.subrange(ke + 4, ke + 4 + dl) =~= b.data@) by {
        assert forall|j: int| 0 <= j < dl implies w.subrange(ke + 4, ke + 4 + dl)[j] == b.data@[j] by {
            assert(w[ke + 4 + j] == all[6 + kl + j]);
            assert(all[6 + kl + j] == rb[6 + kl + j]);
        }
    }
    assert(w.subrange(pos + rb.len(), pos + rb.len() + rest.len()) =~= rest) by {
        assert forall|j: int| 0 <= j < rest.len() implies w.subrange(pos + rb.len(), pos + rb.len() + rest.len())[j] == rest[j] by {
            assert(w[pos + rb.len() + j] == all[rb.len() + j]);
        }
    }
}

/// Records written from `pos` on read back as the blobs, in order.
pub proof fn lemma_decode_records(w: Seq<u8>, pos: int, blobs: Seq<DataToWrite>, index: nat)
    requires
        forall|i: int| 0 <= i < blobs.len() ==> blob_fits(#[trigger] blobs[i]),
        0 <= pos,
        pos + records_bytes(blobs).len() <= w.len(),
        w.subrange(pos, pos + records_bytes(blobs).len()) == records_bytes(blobs),
    ensures
        records_from(w, pos, index, blobs.len()) == Ok::<
            Seq<(nat, Seq<char>, Seq<u8>)>,
            crate::error::Error,
        >(blob_entries(blobs, index)),
        forall|key: Seq<char>| find_from(w, pos, blobs.len(), key) == #[trigger] first_payload(blobs, key),
    decreases blobs.len(),
{
    if blobs.len() == 0 {
        assert(blob_entries(blobs, index) =~= Seq::empty());
    } else {
        let b = blobs[0];
        let t = blobs.skip(1);
        assert(blob_fits(blobs[0]));
        lemma_record_at_blob(w, pos, blobs);
        let next = pos + record_bytes(b).len();
        assert forall|i: int| 0 <= i < t.len() implies blob_fits(#[trigger] t[i]) by {
            assert(t[i] == blobs[i + 1]);
        }
        lemma_decode_records(w, next, t, index + 1);
        encode_utf8_decode_utf8(b.key@);
        assert(blob_entries(blobs, index) =~= seq![(index, b.key@, b.data@)] + blob_entries(t, index + 1));
        assert(records_from(w, pos, index, blobs.len()) == Ok::<
            Seq<(nat, Seq<char>, Seq<u8>)>,
            crate::error::Error,
        >(blob_entries(blobs, index)));
        assert forall|key: Seq<char>| find_from(w, pos, blobs.len(), key) == #[trigger] first_payload(blobs, key) by {
            assert(find_from(w, next, t.len(), key) == first_payload(t, key));
        }
    }
}

/// A section written over a placeholder, and the placeholder's bytes read back.
pub open spec fn written_region(d: Seq<u8>, blobs: Seq<DataToWrite>) -> Seq<u8> {
    let (s, l) = placeholder_of(d)->Some_0;
    splice(d, s, section_bytes(blobs)).subrange(s, s + l)
}

proof fn lemma_written_region(d: Seq<u8>, blobs: Seq<DataToWrite>)
    requires
        blobs_fit(blobs),
        placeholder_of(d) matches Some((s, l)) && required_len(blobs) + 4 <= l,
    ensures
        sections(written_region(d, blobs)) == Ok::<
            Seq<(nat, Seq<char>, Seq<u8>)>,
            crate::error::Error,
        >(blob_entries(blobs, 0)),
        forall|key: Seq<char>| #[trigger] find_key(written_region(d, blobs), key) == first_payload(blobs, key),
{
    let (s, l) = placeholder_of(d)->Some_0;
    let sec = section_bytes(blobs);
    let w = written_region(d, blobs);
    lemma_records_len(blobs);
    lemma_u32_round_trip(blobs.len());
    let choice = choose|s: int, l: int| crate::placeholder::is_first_placeholder(d, s, l);
    assert(choice == (s, l));
    assert(0 <= s && s + l <= d.len());
    assert(w.len() == l);
    assert forall|j: int| 0 <= j < sec.len() implies w[j] == #[trigger] sec[j] by {
        assert(splice(d, s, sec)[s + j] == sec[j]);
    }
    assert(w[0] == sec[0] && w[1] == sec[1] && w[2] == sec[2] && w[3] == sec[3]);
    assert(record_count(w) == blobs.len());
    let rb = records_bytes(blobs);
    let rl = rb.len() as int;
    assert(w.subrange(4, 4 + rl) =~= rb) by {
        assert forall|j: int| 0 <= j < rl implies w.subrange(4, 4 + rl)[j] == rb[j] by {
            assert(w[4 + j] == sec[4 + j]);
        }
    }
    lemma_decode_records(w, 4, blobs, 0);
}

/// Writing distinct-keyed blobs into a placeholder with room for them, then
/// reading every record of the placeholder's bytes, gives back exactly the
/// blobs as a key to payload mapping.
pub proof fn lemma_round_trip(d: Seq<u8>, blobs: Seq<DataToWrite>)
    requires
        blobs_fit(blobs),
        distinct_keys(blob_pairs(blobs)),
        placeholder_of(d) matches Some((s, l)) && required_len(blobs) + 4 <= l,
    ensures
        sections(written_region(d, blobs)) is Ok,
        sections_map(sections(written_region(d, blobs))->Ok_0) == pairs_map(blob_pairs(blobs)),
        sections_map(sections(written_region(d, blobs))->Ok_0).len() == blobs.len(),
        forall|i: int| 0 <= i < blobs.len() ==> sections_map(
            sections(written_region(d, blobs))->Ok_0,
        )[#[trigger] blobs[i].key@] == blobs[i].data@,
{
    lemma_written_region(d, blobs);
    let rs = blob_entries(blobs, 0);
    let pairs = blob_pairs(blobs);
    assert(rs.map_values(|e: (nat, Seq<char>, Seq<u8>)| (e.1, e.2)) =~= pairs);
    lemma_pairs_map_len(pairs);
    assert forall|i: int| 0 <= i < blobs.len() implies pairs_map(pairs)[#[trigger] blobs[i].key@] == blobs[i].data@ by {
        lemma_pairs_map_at(pairs, i);
    }
}

/// Writing blobs into a placeholder with room for them, then looking a key up in
/// the placeholder's bytes, gives the payload of the first blob with that key.
pub proof fn lemma_find_after_write(d: Seq<u8>, blobs: Seq<DataToWrite>, i: int)
    requires
        blobs_fit(blobs),
        placeholder_of(d) matches Some((s, l)) && required_len(blobs) + 4 <= l,
        0 <= i < blobs.len(),
        forall|j: int| 0 <= j < i ==> blobs[j].key@ != blobs[i].key@,
    ensures
        find_key(written_region(d, blobs), blobs[i].key@) == Some(blobs[i].data@),
{
    lemma_written_region(d, blobs);
    lemma_first_payload(blobs, i);
}

proof fn lemma_first_payload(blobs: Seq<DataToWrite>, i: int)
    requires
        0 <= i < blobs.len(),
        forall|j: int| 0 <= j < i ==> blobs[j].key@ != blobs[i].key@,
    ensures
        first_payload(blobs, blobs[i].key@) == Some(blobs[i].data@),
    decreases i,
{
    if i > 0 {
        let t = blobs.skip(1);
        assert(t[i - 1] == blobs[i]);
        assert forall|j: int| 0 <= j < i - 1 implies #[trigger] t[j].key@ != t[i - 1].key@ by {
            assert(t[j] == blobs[j + 1]);
        }
        lemma_first_payload(t, i - 1);
        assert(blobs[0].key@ != blobs[i].key@);
    }
}

} // verus!
