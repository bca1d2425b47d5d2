//! Reading a section back: the record count, then each record in turn.
use vstd::prelude::*;
use vstd::utf8::{decode_utf8, encode_utf8, valid_utf8, encode_utf8_decode_utf8, decode_utf8_encode_utf8};
use crate::be::{be16, be32, read_u16_at, read_u32_at};
use crate::error::Error;

verus! {

/// The record starting at `pos`: its key bytes, where its payload starts and the
/// payload length that its header declares.
pub open spec fn record_at(d: Seq<u8>, pos: int) -> Result<(Seq<u8>, int, int), Error> {
    if pos < 0 || pos + 2 > d.len() {
        Err(Error::HeaderReadFailure)
    } else {
        let kstart = pos + 2;
        let kend = kstart + be16(d[pos], d[pos + 1]);
        if kend > d.len() {
            Err(Error::HeaderReadFailure)
        } else if !valid_utf8(d.subrange(kstart, kend)) {
            Err(Error::InvalidKeyEncoding)
        } else if kend + 4 > d.len() {
            Err(Error::HeaderReadFailure)
        } else {
            Ok(
                (
                    d.subrange(kstart, kend),
                    kend + 4,
                    be32(d[kend], d[kend + 1], d[kend + 2], d[kend + 3]) as int,
                ),
            )
        }
    }
}

/// The next `count` records from `pos` on, numbered from `index`, as (number,
/// key, payload). A record whose payload runs past the end of `d` is left out,
/// and reading goes on after its declared end.
pub open spec fn records_from(d: Seq<u8>, pos: int, index: nat, count: nat) -> Result<
    Seq<(nat, Seq<char>, Seq<u8>)>,
    Error,
>
    decreases count,
{
    if count == 0 {
        Ok(Seq::empty())
    } else {
        match record_at(d, pos) {
            Err(e) => Err(e),
            Ok((kb, start, len)) => match records_from(d, start + len, index + 1, (count - 1) as nat) {
                Err(e) => Err(e),
                Ok(rest) => if start + len <= d.len() {
                    Ok(seq![(index, decode_utf8(kb), d.subrange(start, start + len))] + rest)
                } else {
                    Ok(rest)
                },
            },
        }
    }
}

/// The record count at the start of a section.
pub open spec fn record_count(d: Seq<u8>) -> nat {
    be32(d[0], d[1], d[2], d[3])
}

/// All records of the section `d`.
pub open spec fn sections(d: Seq<u8>) -> Result<Seq<(nat, Seq<char>, Seq<u8>)>, Error> {
    if d.len() < 4 {
        Err(Error::HeaderReadFailure)
    } else {
        records_from(d, 4, 0, record_count(d))
    }
}

/// The payload of the first of the next `count` records from `pos` on whose key
/// is `key`; reading stops, with nothing found, at the first error.
pub open spec fn find_from(d: Seq<u8>, pos: int, count: nat, key: Seq<char>) -> Option<Seq<u8>>
    decreases count,
{
    if count == 0 {
        None
    } else {
        match record_at(d, pos) {
            Err(_) => None,
            Ok((kb, start, len)) => if start + len <= d.len() && decode_utf8(kb) == key {
                Some(d.subrange(start, start + len))
            } else {
                find_from(d, start + len, (count - 1) as nat, key)
            },
        }
    }
}

/// The payload of the first record of the section `d` whose key is `key`.
pub open spec fn find_key(d: Seq<u8>, key: Seq<char>) -> Option<Seq<u8>> {
    if d.len() < 4 {
        None
    } else {
        find_from(d, 4, record_count(d), key)
    }
}

/// Records already read, then the outcome of reading the rest.
pub open spec fn chain(
    done: Seq<(nat, Seq<char>, Seq<u8>)>,
    rest: Result<Seq<(nat, Seq<char>, Seq<u8>)>, Error>,
) -> Result<Seq<(nat, Seq<char>, Seq<u8>)>, Error> {
    match rest {
        Ok(r) => Ok(done + r),
        Err(e) => Err(e),
    }
}

/// The records of a decoded list, as (number, key, payload).
pub open spec fn entries_view(v: Seq<(usize, String, Vec<u8>)>) -> Seq<(nat, Seq<char>, Seq<u8>)> {
    v.map_values(|e: (usize, String, Vec<u8>)| (e.0 as nat, e.1@, e.2@))
}

/// Relies on `String::from_utf8`: it accepts exactly the valid UTF-8 byte
/// strings, and the string then holds the characters they encode.
#[verifier::external_body]
fn utf8_string(bytes: Vec<u8>) -> (r: Option<String>)
    ensures
        r is Some <==> valid_utf8(bytes@),
        r matches Some(s) ==> s@ == decode_utf8(bytes@),
{
    String::from_utf8(bytes).ok()
}

/// A copy of `d[start..end]`.
pub(crate) fn copy_range(d: &[u8], start: usize, end: usize) -> (r: Vec<u8>)
    requires
        start <= end <= d@.len(),
    ensures
        r@ == d@.subrange(start as int, end as int),
{
    let mut out: Vec<u8> = Vec::new();
    let mut k: usize = start;
    while k < end
        invariant
            start <= k <= end,
            end <= d@.len(),
            out@ == d@.subrange(start as int, k as int),
        decreases end - k,
    {
        out.push(d[k]);
        k = k + 1;
        assert(out@ =~= d@.subrange(start as int, k as int));
    }
    out
}

/// Whether `a` and `b` hold the same bytes.
pub(crate) fn same_bytes(a: &[u8], b: &[u8]) -> (r: bool)
    ensures
        r == (a@ == b@),
{
    if a.len() != b.len() {
        return false;
    }
    let mut k: usize = 0;
    while k < a.len()
        invariant
            a@.len() == b@.len(),
            k <= a@.len(),
            forall|j: int| 0 <= j < k ==> a@[j] == b@[j],
        decreases a@.len() - k,
    {
        if a[k] != b[k] {
            return false;
        }
        k = k + 1;
    }
    assert(a@ =~= b@);
    true
}

/// Reads the record at `pos`: its key, where its payload starts and the payload
/// length that its header declares.
pub fn read_record(data: &[u8], pos: usize) -> (r: Result<(String, usize, u32), Error>)
    ensures
        record_at(data@, pos as int) matches Err(e) ==> r == Err::<(String, usize, u32), Error>(e),
        record_at(data@, pos as int) matches Ok((kb, start, len)) ==> (r matches Ok((k, s, l))
            && k@ == decode_utf8(kb) && s == start && l == len),
{
    let len = data.len();
    if pos > len || len - pos < 2 {
        return Err(Error::HeaderReadFailure);
    }
    let klen = read_u16_at(data, pos) as usize;
    let kstart = pos + 2;
    if len - kstart < klen {
        return Err(Error::HeaderReadFailure);
    }
    let kend = kstart + klen;
    let key = match utf8_string(copy_range(data, kstart, kend)) {
        None => {
            return Err(Error::InvalidKeyEncoding);
        },
        Some(k) => k,
    };
    if len - kend < 4 {
        return Err(Error::HeaderReadFailure);
    }
    let plen = read_u32_at(data, kend);
    Ok((key, kend + 4, plen))
}

proof fn lemma_chain_step(
    d: Seq<u8>,
    pos: int,
    index: nat,
    count: nat,
    done: Seq<(nat, Seq<char>, Seq<u8>)>,
)
    requires
        count > 0,
        record_at(d, pos) is Ok,
    ensures
        ({
            let (kb, start, len) = record_at(d, pos)->Ok_0;
            let next = records_from(d, start + len, index + 1, (count - 1) as nat);
            chain(done, records_from(d, pos, index, count)) == if start + len <= d.len() {
                chain(done + seq![(index, decode_utf8(kb), d.subrange(start, start + len))], next)
            } else {
                chain(done, next)
            }
        }),
{
    let (kb, start, len) = record_at(d, pos)->Ok_0;
    let next = records_from(d, start + len, index + 1, (count - 1) as nat);
    if let Ok(rest) = next {
        let e = seq![(index, decode_utf8(kb), d.subrange(start, start + len))];
        assert(done + (e + rest) =~= done + e + rest);
    }
}

/// Reads every record of the section `data`, in order, as (number, key, payload).
/// A record whose payload runs past the end of `data` is skipped.
pub fn iter_data_section(data: &[u8]) -> (r: Result<Vec<(usize, String, Vec<u8>)>, Error>)
    ensures
        sections(data@) matches Err(e) ==> r == Err::<Vec<(usize, String, Vec<u8>)>, Error>(e),
        sections(data@) matches Ok(rs) ==> (r matches Ok(v) && entries_view(v@) == rs),
{
    let ghost d = data@;
    if data.len() < 4 {
        return Err(Error::HeaderReadFailure);
    }
    let count = read_u32_at(data, 0) as usize;
    let mut out: Vec<(usize, String, Vec<u8>)> = Vec::new();
    let mut pos: usize = 4;
    let mut past_end = false;
    let ghost mut gpos: int = 4;
    let mut i: usize = 0;
    proof {
        assert(entries_view(out@) =~= Seq::empty());
        assert(Seq::<(nat, Seq<char>, Seq<u8>)>::empty() + sections(d)->Ok_0 =~= sections(d)->Ok_0);
    }
    while i < count
        invariant
            d == data@,
            d.len() >= 4,
            count == record_count(d),
            i <= count,
            !past_end ==> gpos == pos,
            past_end ==> gpos > d.len(),
            sections(d) == chain(entries_view(out@), records_from(d, gpos, i as nat, (count - i) as nat)),
        decreases count - i,
    {
        if past_end {
            return Err(Error::HeaderReadFailure);
        }
        let ghost before = entries_view(out@);
        match read_record(data, pos) {
            Err(e) => {
                return Err(e);
            },
            Ok((key, start, plen)) => {
                proof {
                    lemma_chain_step(d, gpos, i as nat, (count - i) as nat, before);
                }
                let plen = plen as usize;
                if plen <= data.len() - start {
                    let payload = copy_range(data, start, start + plen);
                    out.push((i, key, payload));
                    proof {
                        assert(entries_view(out@) =~= before + seq![
                            (i as nat, key@, payload@),
                        ]);
                    }
                    pos = start + plen;
                    proof {
                        gpos = pos as int;
                    }
                } else {
                    past_end = true;
                    proof {
                        gpos = start + plen;
                    }
                }
            },
        }
        i = i + 1;
    }
    proof {
        assert(entries_view(out@) + Seq::<(nat, Seq<char>, Seq<u8>)>::empty() =~= entries_view(out@));
    }
    Ok(out)
}

/// The payload of the first record of the section `data` whose key is `key`.
/// Reading stops at the first malformed record, and then nothing is found.
pub fn get_data_section_by_key(key: &str, data: &[u8]) -> (r: Option<Vec<u8>>)
    ensures
        r matches Some(v) ==> find_key(data@, key@) == Some(v@),
        r is None ==> find_key(data@, key@) is None,
{
    let ghost d = data@;
    if data.len() < 4 {
        return None;
    }
    let target = key.as_bytes();
    let count = read_u32_at(data, 0) as usize;
    let mut pos: usize = 4;
    let mut past_end = false;
    let ghost mut gpos: int = 4;
    let mut i: usize = 0;
    while i < count
        invariant
            d == data@,
            d.len() >= 4,
            count == record_count(d),
            i <= count,
            target@ == encode_utf8(key@),
            !past_end ==> gpos == pos,
            past_end ==> gpos > d.len(),
            find_key(d, key@) == find_from(d, gpos, (count - i) as nat, key@),
        decreases count - i,
    {
        if past_end {
            return None;
        }
        match read_record(data, pos) {
            Err(_) => {
                return None;
            },
            Ok((k, start, plen)) => {
                let ghost kb = record_at(d, gpos)->Ok_0.0;
                let plen = plen as usize;
                if plen <= data.len() - start {
                    let matched = same_bytes(k.as_str().as_bytes(), target);
                    proof {
                        decode_utf8_encode_utf8(kb);
                        encode_utf8_decode_utf8(key@);
                        encode_utf8_decode_utf8(k@);
                    }
                    if matched {
                        return Some(copy_range(data, start, start + plen));
                    }
                    pos = start + plen;
                    proof {
                        gpos = pos as int;
                    }
                } else {
                    past_end = true;
                    proof {
                        gpos = start + plen;
                    }
                }
            },
        }
        i = i + 1;
    }
    None
}

} // verus!
