//! A key to payload mapping, kept as a list of entries with distinct keys.
use vstd::prelude::*;
use vstd::utf8::encode_utf8_decode_utf8;
use crate::decode::{copy_range, entries_view, iter_data_section, same_bytes, sections};
use crate::error::Error;

verus! {

/// The mapping that inserting `s`'s (key, value) pairs in order builds; a later
/// pair overrides an earlier one with the same key.
pub open spec fn pairs_map(s: Seq<(Seq<char>, Seq<u8>)>) -> Map<Seq<char>, Seq<u8>>
    decreases s.len(),
{
    if s.len() == 0 {
        Map::empty()
    } else {
        pairs_map(s.drop_last()).insert(s.last().0, s.last().1)
    }
}

/// The mapping that the records of a section build, later records winning.
pub open spec fn sections_map(rs: Seq<(nat, Seq<char>, Seq<u8>)>) -> Map<Seq<char>, Seq<u8>> {
    pairs_map(rs.map_values(|e: (nat, Seq<char>, Seq<u8>)| (e.1, e.2)))
}

/// No key occurs twice in `s`.
pub open spec fn distinct_keys(s: Seq<(Seq<char>, Seq<u8>)>) -> bool {
    forall|i: int, j: int| 0 <= i < j < s.len() ==> #[trigger] s[i].0 != #[trigger] s[j].0
}

/// The mapping holds exactly the keys of `s`.
pub proof fn lemma_pairs_map_keys(s: Seq<(Seq<char>, Seq<u8>)>, k: Seq<char>)
    ensures
        pairs_map(s).contains_key(k) <==> exists|i: int| 0 <= i < s.len() && s[i].0 == k,
        pairs_map(s).dom().finite(),
    decreases s.len(),
{
    if s.len() > 0 {
        lemma_pairs_map_keys(s.drop_last(), k);
        if pairs_map(s.drop_last()).contains_key(k) {
            let i = choose|i: int| 0 <= i < s.drop_last().len() && s.drop_last()[i].0 == k;
            assert(s[i].0 == k);
        }
        if exists|i: int| 0 <= i < s.len() && s[i].0 == k {
            let i = choose|i: int| 0 <= i < s.len() && s[i].0 == k;
            if i < s.len() - 1 {
                assert(s.drop_last()[i].0 == k);
            }
        }
    }
}

/// With distinct keys, each key maps to the value beside it.
pub proof fn lemma_pairs_map_at(s: Seq<(Seq<char>, Seq<u8>)>, i: int)
    requires
        distinct_keys(s),
        0 <= i < s.len(),
    ensures
        pairs_map(s).contains_key(s[i].0),
        pairs_map(s)[s[i].0] == s[i].1,
    decreases s.len(),
{
    if i < s.len() - 1 {
        let t = s.drop_last();
        assert(t[i] == s[i]);
        assert(distinct_keys(t)) by {
            assert forall|a: int, b: int| 0 <= a < b < t.len() implies #[trigger] t[a].0 != #[trigger] t[b].0 by {
                assert(t[a] == s[a] && t[b] == s[b]);
            }
        }
        lemma_pairs_map_at(t, i);
        assert(s[i].0 != s[s.len() - 1].0);
    }
}

/// With distinct keys, the mapping has one key per pair.
pub proof fn lemma_pairs_map_len(s: Seq<(Seq<char>, Seq<u8>)>)
    requires
        distinct_keys(s),
    ensures
        pairs_map(s).len() == s.len(),
    decreases s.len(),
{
    if s.len() > 0 {
        let t = s.drop_last();
        assert(distinct_keys(t)) by {
            assert forall|a: int, b: int| 0 <= a < b < t.len() implies #[trigger] t[a].0 != #[trigger] t[b].0 by {
                assert(t[a] == s[a] && t[b] == s[b]);
            }
        }
        lemma_pairs_map_len(t);
        lemma_pairs_map_keys(t, s.last().0);
        if pairs_map(t).contains_key(s.last().0) {
            let i = choose|i: int| 0 <= i < t.len() && t[i].0 == s.last().0;
            assert(s[i].0 == s[s.len() - 1].0);
        }
    }
}

/// Replacing the value of a pair, with distinct keys, is an insert into the mapping.
pub proof fn lemma_pairs_map_update(s: Seq<(Seq<char>, Seq<u8>)>, i: int, v: Seq<u8>)
    requires
        distinct_keys(s),
        0 <= i < s.len(),
    ensures
        pairs_map(s.update(i, (s[i].0, v))) == pairs_map(s).insert(s[i].0, v),
    decreases s.len(),
{
    let u = s.update(i, (s[i].0, v));
    let t = s.drop_last();
    if i == s.len() - 1 {
        assert(u.drop_last() =~= t);
        assert(pairs_map(u) =~= pairs_map(s).insert(s[i].0, v));
    } else {
        assert(distinct_keys(t)) by {
            assert forall|a: int, b: int| 0 <= a < b < t.len() implies #[trigger] t[a].0 != #[trigger] t[b].0 by {
                assert(t[a] == s[a] && t[b] == s[b]);
            }
        }
        assert(t[i] == s[i]);
        lemma_pairs_map_update(t, i, v);
        assert(u.drop_last() =~= t.update(i, (t[i].0, v)));
        assert(u.last() == s.last());
        assert(s[i].0 != s[s.len() - 1].0);
        assert(pairs_map(u) =~= pairs_map(s).insert(s[i].0, v));
    }
}

/// Key to payload mapping with distinct keys.
pub struct DataSections {
    entries: Vec<(String, Vec<u8>)>,
}

impl DataSections {
    /// The entries as (key, payload) pairs.
    pub closed spec fn pairs(&self) -> Seq<(Seq<char>, Seq<u8>)> {
        self.entries@.map_values(|e: (String, Vec<u8>)| (e.0@, e.1@))
    }

    /// The mapping held.
    pub closed spec fn view(&self) -> Map<Seq<char>, Seq<u8>> {
        pairs_map(self.pairs())
    }

    /// No key is held twice.
    pub closed spec fn wf(&self) -> bool {
        distinct_keys(self.pairs())
    }

    /// An empty mapping.
    pub fn new() -> (r: DataSections)
        ensures
            r.wf(),
            r.view() == Map::<Seq<char>, Seq<u8>>::empty(),
    {
        let r = DataSections { entries: Vec::new() };
        assert(r.pairs() =~= Seq::empty());
        r
    }

    /// Maps `key` to `value`, replacing any earlier value of `key`.
    pub fn insert(&mut self, key: String, value: Vec<u8>)
        requires
            old(self).wf(),
        ensures
            final(self).wf(),
            final(self).view() == old(self).view().insert(key@, value@),
    {
        let ghost s = self.pairs();
        let kb = key.as_str().as_bytes();
        let mut i: usize = 0;
        while i < self.entries.len()
            invariant
                s == self.pairs(),
                s == old(self).pairs(),
                distinct_keys(s),
                i <= s.len(),
                kb@ == vstd::utf8::encode_utf8(key@),
                forall|j: int| 0 <= j < i ==> s[j].0 != key@,
            decreases s.len() - i,
        {
            let same = same_bytes(self.entries[i].0.as_str().as_bytes(), kb);
            proof {
                encode_utf8_decode_utf8(key@);
                encode_utf8_decode_utf8(self.entries@[i as int].0@);
            }
            if same {
                proof {
                    assert(s[i as int].0 == key@);
                    lemma_pairs_map_update(s, i as int, value@);
                }
                self.entries.set(i, (key, value));
                proof {
                    assert(self.pairs() =~= s.update(i as int, (s[i as int].0, value@)));
                    assert forall|a: int, b: int| 0 <= a < b < self.pairs().len() implies #[trigger] self.pairs()[a].0
                        != #[trigger] self.pairs()[b].0 by {
                        assert(self.pairs()[a].0 == s[a].0 && self.pairs()[b].0 == s[b].0);
                    }
                }
                return;
            }
            i = i + 1;
        }
        self.entries.push((key, value));
        proof {
            assert(self.pairs() =~= s.push((key@, value@)));
            assert(self.pairs().drop_last() =~= s);
        }
    }

    /// The payload mapped to `key`, if any.
    pub fn get(&self, key: &str) -> (r: Option<&Vec<u8>>)
        requires
            self.wf(),
        ensures
            r is None <==> !self.view().contains_key(key@),
            r matches Some(v) ==> self.view()[key@] == v@,
    {
        let ghost s = self.pairs();
        let kb = key.as_bytes();
        let mut i: usize = 0;
        while i < self.entries.len()
            invariant
                s == self.pairs(),
                distinct_keys(s),
                i <= s.len(),
                kb@ == vstd::utf8::encode_utf8(key@),
                forall|j: int| 0 <= j < i ==> s[j].0 != key@,
            decreases s.len() - i,
        {
            let same = same_bytes(self.entries[i].0.as_str().as_bytes(), kb);
            proof {
                encode_utf8_decode_utf8(key@);
                encode_utf8_decode_utf8(self.entries@[i as int].0@);
            }
            if same {
                proof {
                    assert(s[i as int].0 == key@);
                    lemma_pairs_map_at(s, i as int);
                }
                return Some(&self.entries[i].1);
            }
            i = i + 1;
        }
        proof {
            lemma_pairs_map_keys(s, key@);
        }
        None
    }

    /// The number of keys held.
    pub fn len(&self) -> (r: usize)
        requires
            self.wf(),
        ensures
            r == self.view().len(),
    {
        proof {
            lemma_pairs_map_len(self.pairs());
        }
        self.entries.len()
    }
}

/// Reads every record of the section `data` into a key to payload mapping; of
/// two records with one key, the later wins.
pub fn get_all_data_sections(data: &[u8]) -> (r: Result<DataSections, Error>)
    ensures
        sections(data@) matches Err(e) ==> r == Err::<DataSections, Error>(e),
        sections(data@) matches Ok(rs) ==> (r matches Ok(m) && m.wf() && m.view() == sections_map(rs)),
{
    let records = match iter_data_section(data) {
        Err(e) => {
            return Err(e);
        },
        Ok(v) => v,
    };
    let ghost rs = entries_view(records@);
    let mut out = DataSections::new();
    let mut i: usize = 0;
    proof {
        assert(rs.take(0).map_values(|e: (nat, Seq<char>, Seq<u8>)| (e.1, e.2)) =~= Seq::empty());
    }
    while i < records.len()
        invariant
            rs == entries_view(records@),
            i <= rs.len(),
            out.wf(),
            out.view() == sections_map(rs.take(i as int)),
        decreases rs.len() - i,
    {
        let key = records[i].1.clone();
        let payload = copy_range(records[i].2.as_slice(), 0, records[i].2.len());
        proof {
            assert(payload@ =~= records@[i as int].2@);
        }
        out.insert(key, payload);
        proof {
            let f = |e: (nat, Seq<char>, Seq<u8>)| (e.1, e.2);
            assert(rs.take(i + 1).map_values(f).last() == (rs[i as int].1, rs[i as int].2));
            assert(rs.take(i + 1).map_values(f).drop_last() =~= rs.take(i as int).map_values(f));
            assert(rs[i as int] == (records@[i as int].0 as nat, records@[i as int].1@, records@[i as int].2@));
        }
        i = i + 1;
    }
    proof {
        assert(rs.take(i as int) =~= rs);
    }
    Ok(out)
}

} // verus!
