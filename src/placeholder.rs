//! The placeholder: a run of sentinel bytes, generated at build time and found
//! again later by a single left-to-right scan.
use vstd::prelude::*;
use crate::error::Error;

verus! {

/// The filler byte of a placeholder: `q`.
pub const SENTINEL: u8 = 113;

/// The shortest run of sentinel bytes recognised as a placeholder; also the
/// size of one generated chunk.
pub const MIN_RUN: usize = 1024;

/// The bytes of a placeholder of `num_kb` chunks.
pub open spec fn placeholder(num_kb: nat) -> Seq<u8> {
    Seq::new(num_kb * MIN_RUN as nat, |_i: int| SENTINEL)
}

/// Every byte of `d` in `[start, end)` is the sentinel.
pub open spec fn all_sentinel(d: Seq<u8>, start: int, end: int) -> bool {
    forall|k: int| start <= k < end ==> d[k] == SENTINEL
}

/// `MIN_RUN` sentinel bytes start at `j`.
pub open spec fn qualifying_window(d: Seq<u8>, j: int) -> bool {
    0 <= j && j + MIN_RUN <= d.len() && all_sentinel(d, j, j + MIN_RUN)
}

/// `d` holds a run of at least `MIN_RUN` sentinel bytes.
pub open spec fn has_placeholder(d: Seq<u8>) -> bool {
    exists|j: int| qualifying_window(d, j)
}

/// `[start, start + len)` is a maximal sentinel run of at least `MIN_RUN` bytes,
/// and no such run starts before it.
pub open spec fn is_first_placeholder(d: Seq<u8>, start: int, len: int) -> bool {
    &&& 0 <= start
    &&& MIN_RUN <= len
    &&& start + len <= d.len()
    &&& all_sentinel(d, start, start + len)
    &&& (start == 0 || d[start - 1] != SENTINEL)
    &&& (start + len == d.len() || d[start + len] != SENTINEL)
    &&& forall|j: int| #![trigger qualifying_window(d, j)] j < start ==> !qualifying_window(d, j)
}

/// The first placeholder of `d`, as (start, length), if there is one.
pub open spec fn placeholder_of(d: Seq<u8>) -> Option<(int, int)> {
    if exists|s: int, l: int| is_first_placeholder(d, s, l) {
        let (s, l) = choose|s: int, l: int| is_first_placeholder(d, s, l);
        Some((s, l))
    } else {
        None
    }
}

/// At most one run is the first placeholder.
pub proof fn lemma_first_placeholder_unique(d: Seq<u8>, s1: int, l1: int, s2: int, l2: int)
    requires
        is_first_placeholder(d, s1, l1),
        is_first_placeholder(d, s2, l2),
    ensures
        s1 == s2 && l1 == l2,
{
    if s1 < s2 {
        assert(qualifying_window(d, s1));
    } else if s2 < s1 {
        assert(qualifying_window(d, s2));
    } else if l1 < l2 {
        assert(d[s1 + l1] == SENTINEL);
    } else if l2 < l1 {
        assert(d[s2 + l2] == SENTINEL);
    }
}

/// The first placeholder of `d`, if any, is the one that `placeholder_of` names.
pub proof fn lemma_placeholder_of(d: Seq<u8>, s: int, l: int)
    requires
        is_first_placeholder(d, s, l),
    ensures
        placeholder_of(d) == Some((s, l)),
{
    let (s2, l2) = choose|s2: int, l2: int| is_first_placeholder(d, s2, l2);
    lemma_first_placeholder_unique(d, s, l, s2, l2);
}

/// Scans `data` left to right and returns (start, length) of the first run of at
/// least `MIN_RUN` sentinel bytes, extended to where the run ends.
pub fn get_weird_indices(data: &[u8]) -> (r: Option<(usize, usize)>)
    ensures
        r is None <==> !has_placeholder(data@),
        r matches Some((s, l)) ==> is_first_placeholder(data@, s as int, l as int),
        r matches Some((s, l)) ==> placeholder_of(data@) == Some((s as int, l as int)),
        r is None ==> placeholder_of(data@) is None,
{
    let ghost d = data@;
    let len = data.len();
    let mut start: usize = 0;
    let mut i: usize = 0;
    while i < len
        invariant
            d == data@,
            len == d.len(),
            start <= i <= len,
            all_sentinel(d, start as int, i as int),
            start == 0 || d[start - 1] != SENTINEL,
            forall|j: int| #![trigger qualifying_window(d, j)] j < start ==> !qualifying_window(d, j),
        decreases len - i,
    {
        if data[i] == SENTINEL {
            i = i + 1;
            assert(all_sentinel(d, start as int, i as int));
        } else {
            if i - start >= MIN_RUN {
                proof {
                    lemma_placeholder_of(d, start as int, (i - start) as int);
                    assert(qualifying_window(d, start as int));
                }
                return Some((start, i - start));
            }
            assert forall|j: int| #![trigger qualifying_window(d, j)] j < i + 1 implies !qualifying_window(d, j) by {
                if start <= j && qualifying_window(d, j) {
                    assert(d[i as int] == SENTINEL);
                }
            }
            i = i + 1;
            start = i;
        }
    }
    if len - start >= MIN_RUN {
        proof {
            lemma_placeholder_of(d, start as int, (len - start) as int);
            assert(qualifying_window(d, start as int));
        }
        Some((start, len - start))
    } else {
        proof {
            assert forall|j: int| !qualifying_window(d, j) by {
                if j >= start && qualifying_window(d, j) {
                }
            }
            if placeholder_of(d) is Some {
                let (s, l) = choose|s: int, l: int| is_first_placeholder(d, s, l);
                assert(qualifying_window(d, s));
            }
        }
        None
    }
}

/// Appends `num_kb` chunks of `MIN_RUN` sentinel bytes to `writer`; zero chunks
/// is refused.
pub fn generate_included_data(writer: &mut Vec<u8>, num_kb: usize) -> (r: Result<(), Error>)
    requires
        old(writer)@.len() + num_kb * MIN_RUN <= usize::MAX,
    ensures
        num_kb == 0 ==> r == Err::<(), Error>(Error::InvalidSize) && final(writer)@ == old(writer)@,
        num_kb > 0 ==> r == Ok::<(), Error>(()) && final(writer)@ == old(writer)@ + placeholder(
            num_kb as nat,
        ),
{
    if num_kb == 0 {
        return Err(Error::InvalidSize);
    }
    let ghost start = writer@;
    let mut chunk: usize = 0;
    while chunk < num_kb
        invariant
            chunk <= num_kb,
            start.len() + num_kb * MIN_RUN <= usize::MAX,
            writer@ == start + placeholder(chunk as nat),
        decreases num_kb - chunk,
    {
        let mut k: usize = 0;
        while k < MIN_RUN
            invariant
                k <= MIN_RUN,
                chunk < num_kb,
                start.len() + num_kb * MIN_RUN <= usize::MAX,
                writer@ == start + placeholder(chunk as nat) + Seq::new(k as nat, |_i: int| SENTINEL),
            decreases MIN_RUN - k,
        {
            proof {
                assert(chunk * MIN_RUN + k < num_kb * MIN_RUN) by (nonlinear_arith)
                    requires chunk < num_kb, k < MIN_RUN;
            }
            writer.push(SENTINEL);
            k = k + 1;
            assert(writer@ =~= start + placeholder(chunk as nat) + Seq::new(k as nat, |_i: int| SENTINEL));
        }
        assert(placeholder(chunk as nat) + Seq::new(MIN_RUN as nat, |_i: int| SENTINEL)
            =~= placeholder((chunk + 1) as nat)) by (nonlinear_arith);
        chunk = chunk + 1;
    }
    Ok(())
}

} // verus!

verus! {

/// No byte of `s` is the sentinel.
pub open spec fn no_sentinel(s: Seq<u8>) -> bool {
    forall|k: int| 0 <= k < s.len() ==> s[k] != SENTINEL
}

/// A generated placeholder placed after sentinel-free bytes, and followed by
/// nothing or by a byte other than the sentinel, is the one found.
pub proof fn lemma_found_after_prefix(prefix: Seq<u8>, num_kb: nat, rest: Seq<u8>)
    requires
        no_sentinel(prefix),
        num_kb >= 1,
        rest.len() == 0 || rest[0] != SENTINEL,
    ensures
        placeholder_of(prefix + placeholder(num_kb) + rest) == Some(
            (prefix.len() as int, (num_kb * MIN_RUN) as int),
        ),
{
    let ph = placeholder(num_kb);
    let d = prefix + ph + rest;
    let s = prefix.len() as int;
    let l = (num_kb * MIN_RUN) as int;
    assert(l >= MIN_RUN) by (nonlinear_arith) requires num_kb >= 1, l == num_kb * MIN_RUN;
    assert(all_sentinel(d, s, s + l)) by {
        assert forall|k: int| s <= k < s + l implies d[k] == SENTINEL by {
            assert(d[k] == ph[k - s]);
        }
    }
    if s > 0 {
        assert(d[s - 1] == prefix[s - 1]);
    }
    if s + l < d.len() {
        assert(d[s + l] == rest[0]);
    }
    assert forall|j: int| #![trigger qualifying_window(d, j)] j < s implies !qualifying_window(d, j) by {
        if 0 <= j {
            assert(d[j] == prefix[j]);
        }
    }
    lemma_placeholder_of(d, s, l);
}

/// Generating `num_kb` chunks and embedding them between bytes that are not the
/// sentinel, the locator finds exactly the generated run.
pub proof fn lemma_generated_placeholder_found(prefix: Seq<u8>, num_kb: nat, suffix: Seq<u8>)
    requires
        no_sentinel(prefix),
        no_sentinel(suffix),
        num_kb >= 1,
    ensures
        placeholder_of(prefix + placeholder(num_kb) + suffix) == Some(
            (prefix.len() as int, (num_kb * MIN_RUN) as int),
        ),
{
    if suffix.len() > 0 {
        assert(suffix[0] != SENTINEL);
    }
    lemma_found_after_prefix(prefix, num_kb, suffix);
}

/// A buffer with no run of `MIN_RUN` sentinel bytes has no placeholder.
pub proof fn lemma_no_long_run_not_found(d: Seq<u8>)
    requires
        forall|j: int| !#[trigger] qualifying_window(d, j),
    ensures
        placeholder_of(d) is None,
{
    if placeholder_of(d) is Some {
        let (s, l) = choose|s: int, l: int| is_first_placeholder(d, s, l);
        assert(qualifying_window(d, s));
    }
}

/// Of two placeholders separated by other bytes, the locator finds the first
/// one, whatever the lengths.
pub proof fn lemma_first_of_two_found(
    prefix: Seq<u8>,
    first_kb: nat,
    between: Seq<u8>,
    second_kb: nat,
    suffix: Seq<u8>,
)
    requires
        no_sentinel(prefix),
        no_sentinel(between),
        between.len() > 0,
        first_kb >= 1,
        second_kb >= 1,
    ensures
        placeholder_of(
            prefix + placeholder(first_kb) + (between + placeholder(second_kb) + suffix),
        ) == Some((prefix.len() as int, (first_kb * MIN_RUN) as int)),
{
    let rest = between + placeholder(second_kb) + suffix;
    assert(rest[0] == between[0]);
    lemma_found_after_prefix(prefix, first_kb, rest);
}

} // verus!
