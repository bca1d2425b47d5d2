//! Encoding named blobs into the section layout, written in place over a
//! placeholder.
use vstd::prelude::*;
use vstd::utf8::encode_utf8;
use crate::be::{u16_bytes, u32_bytes, u16_to_bytes, u32_to_bytes};
use crate::error::Error;
use crate::placeholder::{get_weird_indices, placeholder_of};

verus! {

/// One named blob to store in a section.
pub struct DataToWrite {
    pub key: String,
    pub data: Vec<u8>,
}

/// The UTF-8 bytes of a blob's key.
pub open spec fn key_bytes(b: DataToWrite) -> Seq<u8> {
    encode_utf8(b.key@)
}

/// A blob whose key length fits in 16 bits and whose payload length fits in 32.
pub open spec fn blob_fits(b: DataToWrite) -> bool {
    key_bytes(b).len() < 65536 && b.data@.len() < 4294967296
}

/// Every blob fits its headers, and their count fits the 32-bit count header.
pub open spec fn blobs_fit(blobs: Seq<DataToWrite>) -> bool {
    blobs.len() < 4294967296 && forall|i: int| 0 <= i < blobs.len() ==> blob_fits(#[trigger] blobs[i])
}

/// Bytes taken by the records of `blobs`: per blob, two for the key length,
/// the key, four for the payload length, the payload.
pub open spec fn required_len(blobs: Seq<DataToWrite>) -> nat
    decreases blobs.len(),
{
    if blobs.len() == 0 {
        0
    } else {
        let b = blobs.last();
        required_len(blobs.drop_last()) + 6 + key_bytes(b).len() + b.data@.len()
    }
}

/// The encoding of one record.
pub open spec fn record_bytes(b: DataToWrite) -> Seq<u8> {
    u16_bytes(key_bytes(b).len()) + key_bytes(b) + u32_bytes(b.data@.len()) + b.data@
}

/// The records of `blobs`, in order.
pub open spec fn records_bytes(blobs: Seq<DataToWrite>) -> Seq<u8>
    decreases blobs.len(),
{
    if blobs.len() == 0 {
        Seq::empty()
    } else {
        records_bytes(blobs.drop_last()) + record_bytes(blobs.last())
    }
}

/// A whole section: the record count, then the records.
pub open spec fn section_bytes(blobs: Seq<DataToWrite>) -> Seq<u8> {
    u32_bytes(blobs.len()) + records_bytes(blobs)
}

/// `d` with the bytes from `start` on replaced by `x`.
pub open spec fn splice(d: Seq<u8>, start: int, x: Seq<u8>) -> Seq<u8> {
    d.take(start) + x + d.skip(start + x.len())
}

/// The records take exactly `required_len` bytes.
pub proof fn lemma_records_len(blobs: Seq<DataToWrite>)
    ensures
        records_bytes(blobs).len() == required_len(blobs),
    decreases blobs.len(),
{
    if blobs.len() > 0 {
        lemma_records_len(blobs.drop_last());
    }
}

/// A prefix of the blobs never needs more room than all of them.
pub proof fn lemma_required_len_prefix(blobs: Seq<DataToWrite>, i: int)
    requires
        0 <= i <= blobs.len(),
    ensures
        required_len(blobs.take(i)) <= required_len(blobs),
    decreases blobs.len() - i,
{
    if i < blobs.len() {
        lemma_required_len_prefix(blobs, i + 1);
        assert(blobs.take(i + 1).drop_last() =~= blobs.take(i));
    } else {
        assert(blobs.take(i) =~= blobs);
    }
}

proof fn lemma_splice_extend(d: Seq<u8>, start: int, x: Seq<u8>, y: Seq<u8>)
    requires
        0 <= start,
        start + x.len() + y.len() <= d.len(),
    ensures
        splice(splice(d, start, x), start + x.len(), y) == splice(d, start, x + y),
{
    assert(splice(splice(d, start, x), start + x.len(), y) =~= splice(d, start, x + y));
}

/// The number of bytes that the records of `write_data` take, headers included
/// (the section's own count header is not).
pub fn get_data_write_required_len(write_data: &Vec<DataToWrite>) -> (r: usize)
    requires
        required_len(write_data@) <= usize::MAX,
    ensures
        r == required_len(write_data@),
{
    let mut total: usize = 0;
    let mut i: usize = 0;
    while i < write_data.len()
        invariant
            i <= write_data@.len(),
            total == required_len(write_data@.take(i as int)),
            required_len(write_data@) <= usize::MAX,
        decreases write_data@.len() - i,
    {
        proof {
            lemma_required_len_prefix(write_data@, i + 1);
            assert(write_data@.take(i + 1).drop_last() =~= write_data@.take(i as int));
        }
        let item = &write_data[i];
        total = total + 6 + item.key.as_str().as_bytes().len() + item.data.len();
        i = i + 1;
    }
    assert(write_data@.take(i as int) =~= write_data@);
    total
}

/// Writes `bytes` into `buf` from `pos` on, one byte at a time, each write
/// checked against the end of `buf`. Returns the position after the last byte.
pub fn write_bytes(buf: &mut Vec<u8>, pos: usize, bytes: &[u8]) -> (r: Result<usize, Error>)
    ensures
        final(buf)@.len() == old(buf)@.len(),
        pos + bytes@.len() <= old(buf)@.len() ==> (r matches Ok(n) && n == pos + bytes@.len()),
        pos + bytes@.len() <= old(buf)@.len() ==> final(buf)@ == splice(
            old(buf)@,
            pos as int,
            bytes@,
        ),
        pos + bytes@.len() > old(buf)@.len() ==> r == Err::<usize, Error>(Error::WriteOutOfBounds),
{
    let ghost orig = buf@;
    let mut k: usize = 0;
    while k < bytes.len()
        invariant
            k <= bytes@.len(),
            orig == old(buf)@,
            buf@.len() == orig.len(),
            k == 0 ==> buf@ == orig,
            k > 0 ==> pos + k <= orig.len() && buf@ == splice(orig, pos as int, bytes@.take(k as int)),
        decreases bytes@.len() - k,
    {
        if pos >= buf.len() || buf.len() - pos <= k {
            return Err(Error::WriteOutOfBounds);
        }
        buf.set(pos + k, bytes[k]);
        k = k + 1;
        assert(buf@ =~= splice(orig, pos as int, bytes@.take(k as int)));
    }
    if pos > buf.len() {
        return Err(Error::WriteOutOfBounds);
    }
    assert(bytes@.take(k as int) =~= bytes@);
    assert(k == 0 ==> orig =~= splice(orig, pos as int, bytes@));
    Ok(pos + k)
}

/// Writes one record at `pos`: key length, key, payload length, payload.
/// Returns the position after it.
fn write_record(buf: &mut Vec<u8>, pos: usize, item: &DataToWrite) -> (r: Result<usize, Error>)
    requires
        blob_fits(*item),
        pos + record_bytes(*item).len() <= old(buf)@.len(),
    ensures
        r matches Ok(n) && n == pos + record_bytes(*item).len(),
        final(buf)@ == splice(old(buf)@, pos as int, record_bytes(*item)),
{
    let ghost orig = buf@;
    let key = item.key.as_str().as_bytes();
    let klen = u16_to_bytes(key.len() as u16);
    let mut p = match write_bytes(buf, pos, klen.as_slice()) {
        Ok(p) => p,
        Err(e) => {
            return Err(e);
        },
    };
    proof { lemma_splice_extend(orig, pos as int, klen@, key@); }
    p = match write_bytes(buf, p, key) {
        Ok(p) => p,
        Err(e) => {
            return Err(e);
        },
    };
    let dlen = u32_to_bytes(item.data.len() as u32);
    proof { lemma_splice_extend(orig, pos as int, klen@ + key@, dlen@); }
    p = match write_bytes(buf, p, dlen.as_slice()) {
        Ok(p) => p,
        Err(e) => {
            return Err(e);
        },
    };
    proof { lemma_splice_extend(orig, pos as int, klen@ + key@ + dlen@, item.data@); }
    p = match write_bytes(buf, p, item.data.as_slice()) {
        Ok(p) => p,
        Err(e) => {
            return Err(e);
        },
    };
    assert(klen@ + key@ + dlen@ + item.data@ =~= record_bytes(*item));
    Ok(p)
}

/// Finds the first placeholder in `included` and writes the section of
/// `write_data` over its start: the record count, then for each blob in order its
/// key length, key, payload length and payload. Bytes of the placeholder past
/// the section are left as they were.
pub fn write_to_included_section(included: &mut Vec<u8>, write_data: Vec<DataToWrite>) -> (r:
    Result<(), Error>)
    requires
        blobs_fit(write_data@),
        required_len(write_data@) + 4 <= usize::MAX,
    ensures
        placeholder_of(old(included)@) is None ==> r == Err::<(), Error>(Error::PlaceholderNotFound)
            && final(included)@ == old(included)@,
        placeholder_of(old(included)@) matches Some((s, l)) ==> if required_len(write_data@) + 4
            > l {
            r == Err::<(), Error>(
                Error::CapacityExceeded {
                    required: (required_len(write_data@) + 4) as usize,
                    available: l as usize,
                },
            ) && final(included)@ == old(included)@
        } else {
            r == Ok::<(), Error>(()) && final(included)@ == splice(
                old(included)@,
                s,
                section_bytes(write_data@),
            )
        },
{
    let (start, avail) = match get_weird_indices(included.as_slice()) {
        None => {
            return Err(Error::PlaceholderNotFound);
        },
        Some(found) => found,
    };
    let total = get_data_write_required_len(&write_data);
    if total + 4 > avail {
        return Err(Error::CapacityExceeded { required: total + 4, available: avail });
    }
    let ghost orig = included@;
    let ghost blobs = write_data@;
    proof {
        lemma_records_len(blobs);
    }
    let count = u32_to_bytes(write_data.len() as u32);
    let mut pos = match write_bytes(included, start, count.as_slice()) {
        Ok(p) => p,
        Err(e) => {
            return Err(e);
        },
    };
    proof {
        assert(count@.len() == 4);
        assert(blobs.take(0).len() == 0);
        assert(required_len(blobs.take(0)) == 0);
        assert(records_bytes(blobs.take(0)) =~= Seq::<u8>::empty());
        assert(count@ + records_bytes(blobs.take(0)) =~= count@);
    }
    let mut i: usize = 0;
    while i < write_data.len()
        invariant
            blobs == write_data@,
            blobs_fit(blobs),
            orig == old(included)@,
            included@.len() == orig.len(),
            i <= blobs.len(),
            count@ == u32_bytes(blobs.len()),
            start + avail <= orig.len(),
            start + 4 + required_len(blobs) <= start + avail,
            pos == start + 4 + required_len(blobs.take(i as int)),
            included@ == splice(orig, start as int, count@ + records_bytes(blobs.take(i as int))),
        decreases blobs.len() - i,
    {
        let item = &write_data[i];
        proof {
            assert(blob_fits(blobs[i as int]));
            lemma_required_len_prefix(blobs, i + 1);
            assert(blobs.take(i + 1).drop_last() =~= blobs.take(i as int));
            lemma_records_len(blobs.take(i as int));
            lemma_records_len(blobs.take(i + 1));
            assert(blobs.take(i + 1).last() == blobs[i as int]);
            assert(required_len(blobs.take(i + 1)) == required_len(blobs.take(i as int))
                + record_bytes(blobs[i as int]).len());
        }
        let ghost done = count@ + records_bytes(blobs.take(i as int));
        pos = match write_record(included, pos, item) {
            Ok(p) => p,
            Err(e) => {
                return Err(e);
            },
        };
        proof {
            lemma_splice_extend(orig, start as int, done, record_bytes(blobs[i as int]));
            assert(done + record_bytes(blobs[i as int]) =~= count@ + records_bytes(
                blobs.take(i + 1),
            ));
        }
        i = i + 1;
    }
    proof {
        assert(blobs.take(i as int) =~= blobs);
    }
    Ok(())
}

} // verus!
