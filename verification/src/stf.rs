//! The STF localized string-table format: a binary file mapping short
//! UTF-8 keys to UTF-16 translated values, all little-endian.

use vstd::prelude::*;
use vstd::utf8::{decode_utf8, valid_utf8};

use crate::types::{read_u16_le, read_u32_le, spec_u16_at, spec_u32_at};

verus! {

/// Error type for string-table decoding.
#[derive(Debug, Clone, PartialEq, Eq)]
pub enum Error {
    /// Truncated input or another byte-level failure.
    IOError(String),
    /// A key is not valid UTF-8.
    UTF8Error,
    /// A value is not valid UTF-16. Values are kept as raw code units, so
    /// decoding never produces this; lossy rendering replaces bad units.
    UTF16Error,
    /// The input is not a valid string table file.
    InvalidFile,
}

/// The UTF-16 code units of a string: a function of its characters alone.
pub uninterp spec fn utf16_units_of(s: Seq<char>) -> Seq<u16>;

/// Relies on `str::encode_utf16`: yields the UTF-16 code units of the
/// string's characters.
#[verifier::external_body]
pub(crate) fn encode_utf16_units(s: &str) -> (r: Vec<u16>)
    ensures
        r@ == utf16_units_of(s@),
{
    s.encode_utf16().collect()
}

/// The characters `String::from_utf16_lossy` yields for a sequence of
/// UTF-16 code units: a function of the units alone.
pub uninterp spec fn utf16_lossy_of(units: Seq<u16>) -> Seq<char>;

/// Relies on `String::from_utf16_lossy`: decodes the code units, replacing
/// invalid surrogates with the replacement character.
#[verifier::external_body]
pub(crate) fn utf16_lossy(units: &[u16]) -> (r: String)
    ensures
        r@ == utf16_lossy_of(units@),
{
    String::from_utf16_lossy(units)
}

/// Relies on `String::from_utf8`: succeeds exactly on valid UTF-8 and then
/// decodes the bytes.
#[verifier::external_body]
pub(crate) fn utf8_strict(bytes: &[u8]) -> (r: Option<String>)
    ensures
        match r {
            Some(s) => valid_utf8(bytes@) && s@ == decode_utf8(bytes@),
            None => !valid_utf8(bytes@),
        },
{
    match String::from_utf8(bytes.to_vec()) {
        Ok(s) => Some(s),
        Err(_) => None,
    }
}

/// The first index of `t` whose key is `k`, or `-1` when none bears it.
pub open spec fn spec_find_key(t: Seq<(Seq<char>, Seq<u16>)>, k: Seq<char>) -> int
    decreases t.len(),
{
    if t.len() == 0 {
        -1
    } else if t[0].0 == k {
        0
    } else {
        let r = spec_find_key(t.skip(1), k);
        if r < 0 {
            -1
        } else {
            r + 1
        }
    }
}

/// The first key index, when present, is in bounds, bears the key, and no
/// earlier entry does.
pub proof fn lemma_find_key_props(t: Seq<(Seq<char>, Seq<u16>)>, k: Seq<char>)
    ensures
        spec_find_key(t, k) >= 0 ==> {
            &&& spec_find_key(t, k) < t.len()
            &&& t[spec_find_key(t, k)].0 == k
            &&& forall|j: int| 0 <= j < spec_find_key(t, k) ==> t[j].0 != k
        },
        spec_find_key(t, k) < 0 ==> forall|j: int| 0 <= j < t.len() ==> t[j].0 != k,
    decreases t.len(),
{
    if t.len() > 0 && t[0].0 != k {
        let s = t.skip(1);
        lemma_find_key_props(s, k);
        assert(forall|j: int| 0 <= j < s.len() ==> s[j] == t[j + 1]);
        if spec_find_key(t, k) >= 0 {
            let i = spec_find_key(t, k);
            assert(spec_find_key(s, k) == i - 1);
            assert(forall|j: int| 0 <= j < i ==> t[j].0 != k) by {
                assert(forall|j: int| 1 <= j < i ==> t[j] == s[j - 1]);
            }
        } else {
            assert(forall|j: int| 0 <= j < t.len() ==> t[j].0 != k) by {
                assert(forall|j: int| 1 <= j < t.len() ==> t[j] == s[j - 1]);
            }
        }
    }
}

/// The first entry bearing `k` stands at `i` exactly when entry `i` bears
/// it and no earlier entry does.
pub proof fn lemma_find_key_at(t: Seq<(Seq<char>, Seq<u16>)>, k: Seq<char>, i: int)
    requires
        0 <= i < t.len(),
        t[i].0 == k,
        forall|j: int| 0 <= j < i ==> t[j].0 != k,
    ensures
        spec_find_key(t, k) == i,
    decreases i,
{
    if i > 0 {
        let s = t.skip(1);
        assert(forall|j: int| 0 <= j < s.len() ==> s[j] == t[j + 1]);
        lemma_find_key_at(s, k, i - 1);
    }
}

/// Sets key `k` to value `v`: replaces the first entry bearing `k` in
/// place, or appends a new entry when none does.
pub open spec fn spec_upsert(
    t: Seq<(Seq<char>, Seq<u16>)>,
    k: Seq<char>,
    v: Seq<u16>,
) -> Seq<(Seq<char>, Seq<u16>)> {
    let i = spec_find_key(t, k);
    if i >= 0 {
        t.update(i, (k, v))
    } else {
        t.push((k, v))
    }
}

/// The value a table maps `k` to: that of the first entry bearing `k`.
pub open spec fn spec_table_get(t: Seq<(Seq<char>, Seq<u16>)>, k: Seq<char>) -> Option<Seq<u16>> {
    let i = spec_find_key(t, k);
    if i >= 0 {
        Some(t[i].1)
    } else {
        None
    }
}

/// In a table with unique keys, any entry bearing `k` pins the lookup.
pub proof fn lemma_table_get_at(t: Seq<(Seq<char>, Seq<u16>)>, k: Seq<char>, i: int)
    requires
        spec_unique_keys(t),
        0 <= i < t.len(),
        t[i].0 == k,
    ensures
        spec_table_get(t, k) == Some(t[i].1),
{
    assert(forall|j: int| 0 <= j < i ==> t[j].0 != k);
    lemma_find_key_at(t, k, i);
}

/// When no entry bears `k`, the lookup yields nothing.
pub proof fn lemma_table_get_none(t: Seq<(Seq<char>, Seq<u16>)>, k: Seq<char>)
    requires
        forall|j: int| 0 <= j < t.len() ==> (#[trigger] t[j]).0 != k,
    ensures
        spec_table_get(t, k) is None,
{
    lemma_find_key_props(t, k);
    if spec_find_key(t, k) >= 0 {
        assert(t[spec_find_key(t, k)].0 == k);
    }
}

/// No two entries bear the same key.
pub open spec fn spec_unique_keys(t: Seq<(Seq<char>, Seq<u16>)>) -> bool {
    forall|i: int, j: int| 0 <= i < j < t.len() ==> t[i].0 != t[j].0
}

/// Upserting preserves key uniqueness.
pub proof fn lemma_upsert_unique(t: Seq<(Seq<char>, Seq<u16>)>, k: Seq<char>, v: Seq<u16>)
    requires
        spec_unique_keys(t),
    ensures
        spec_unique_keys(spec_upsert(t, k, v)),
{
    lemma_find_key_props(t, k);
    let i = spec_find_key(t, k);
    if i >= 0 {
        let u = t.update(i, (k, v));
        assert forall|a: int, b: int| 0 <= a < b < u.len() implies u[a].0 != u[b].0 by {
            if a != i && b != i {
                assert(u[a] == t[a] && u[b] == t[b]);
            } else if a == i {
                assert(u[a].0 == k && u[b] == t[b]);
                assert(t[i].0 == k);
            } else {
                assert(u[b].0 == k && u[a] == t[a]);
                assert(t[i].0 == k);
            }
        }
    } else {
        let u = t.push((k, v));
        assert forall|a: int, b: int| 0 <= a < b < u.len() implies u[a].0 != u[b].0 by {
            if b < t.len() {
                assert(u[a] == t[a] && u[b] == t[b]);
            } else {
                assert(u[a] == t[a] && u[b].0 == k);
            }
        }
    }
}

/// A table of translated strings: an ordered map from UTF-8 keys to UTF-16
/// values, with unique keys.
#[derive(Debug, Clone)]
pub struct StringTable {
    entries: Vec<(String, Vec<u16>)>,
}

impl View for StringTable {
    type V = Seq<(Seq<char>, Seq<u16>)>;

    closed spec fn view(&self) -> Seq<(Seq<char>, Seq<u16>)> {
        Seq::new(self.entries@.len(), |i: int| (self.entries@[i].0@, self.entries@[i].1@))
    }
}

impl StringTable {
    /// The table's keys are unique.
    pub open spec fn wf(self) -> bool {
        spec_unique_keys(self@)
    }

    /// An empty table.
    pub fn empty() -> (r: StringTable)
        ensures
            r@ == Seq::<(Seq<char>, Seq<u16>)>::empty(),
            r.wf(),
    {
        let t = StringTable { entries: Vec::new() };
        proof {
            assert(t@ =~= Seq::<(Seq<char>, Seq<u16>)>::empty());
        }
        t
    }

    /// Builds a table from (key, value) pairs; a later pair with an
    /// already-present key replaces the earlier value in place.
    pub fn new(pairs: Vec<(String, Vec<u16>)>) -> (r: StringTable)
        ensures
            r.wf(),
            r@ == spec_table_of_pairs(pairs.deep_view(), pairs@.len() as int),
    {
        let mut t = StringTable::empty();
        let n = pairs.len();
        let mut i: usize = 0;
        proof {
            assert(pairs.deep_view().len() == pairs@.len());
        }
        while i < n
            invariant
                i <= n,
                n == pairs@.len(),
                pairs.deep_view().len() == n,
                t.wf(),
                t@ == spec_table_of_pairs(pairs.deep_view(), i as int),
            decreases n - i,
        {
            let key = pairs[i].0.clone();
            let value = clone_u16s(&pairs[i].1);
            proof {
                assert(pairs.deep_view()[i as int] == (pairs@[i as int].0@, pairs@[i as int].1@));
            }
            t.upsert(key, value);
            i = i + 1;
        }
        t
    }

    /// Sets `key` to `value`, replacing in place any entry bearing it.
    pub fn upsert(&mut self, key: String, value: Vec<u16>)
        requires
            old(self).wf(),
        ensures
            final(self).wf(),
            final(self)@ == spec_upsert(old(self)@, key@, value@),
    {
        proof {
            lemma_find_key_props(self@, key@);
            lemma_upsert_unique(self@, key@, value@);
        }
        let n = self.entries.len();
        let mut i: usize = 0;
        while i < n
            invariant
                i <= n,
                *self == *old(self),
                old(self).wf(),
                n == self.entries@.len(),
                forall|j: int| 0 <= j < i ==> self@[j].0 != key@,
            decreases n - i,
        {
            if crate::read::str_eq(self.entries[i].0.as_str(), key.as_str()) {
                proof {
                    lemma_find_key_at(self@, key@, i as int);
                }
                self.entries[i] = (key, value);
                proof {
                    lemma_find_key_props(old(self)@, key@);
                    lemma_upsert_unique(old(self)@, key@, value@);
                    assert(self@ =~= spec_upsert(old(self)@, key@, value@)) by {
                        assert(self.entries@ == old(self).entries@.update(i as int, (key, value)));
                        assert(self.entries@[i as int] == (key, value));
                        assert(self@[i as int] == (key@, value@));
                        assert(forall|j: int|
                            0 <= j < self@.len() && j != i ==> #[trigger] self@[j] == old(
                                self,
                            )@[j]);
                    }
                }
                return ;
            }
            i = i + 1;
        }
        proof {
            assert(spec_find_key(self@, key@) < 0) by {
                lemma_find_key_props(self@, key@);
                if spec_find_key(self@, key@) >= 0 {
                    assert(self@[spec_find_key(self@, key@)].0 == key@);
                }
            }
        }
        self.entries.push((key, value));
        proof {
            lemma_find_key_props(old(self)@, key@);
            lemma_upsert_unique(old(self)@, key@, value@);
            assert(self@ =~= spec_upsert(old(self)@, key@, value@)) by {
                assert(self.entries@[n as int] == (key, value));
                assert(self@[n as int] == (key@, value@));
                assert(forall|j: int|
                    0 <= j < n ==> #[trigger] self@[j] == old(self)@[j]);
            }
        }
    }

    /// The number of entries in the table.
    pub fn len(&self) -> (r: usize)
        ensures
            r == self@.len(),
    {
        self.entries.len()
    }

    /// Whether the table holds no entries.
    pub fn is_empty(&self) -> (r: bool)
        ensures
            r == (self@.len() == 0),
    {
        self.entries.len() == 0
    }

    /// Whether the table holds `key`.
    pub fn contains_key(&self, key: &str) -> (r: bool)
        ensures
            r == (exists|i: int| 0 <= i < self@.len() && (#[trigger] self@[i]).0 == key@),
    {
        let n = self.entries.len();
        let mut i: usize = 0;
        while i < n
            invariant
                i <= n,
                n == self@.len(),
                forall|j: int| 0 <= j < i ==> (#[trigger] self@[j]).0 != key@,
            decreases n - i,
        {
            if crate::read::str_eq(self.entries[i].0.as_str(), key) {
                proof {
                    assert((self@[i as int]).0 == key@);
                }
                return true;
            }
            i = i + 1;
        }
        false
    }

    /// The value stored under `key`, if the table holds it.
    pub fn get(&self, key: &str) -> (r: Option<&Vec<u16>>)
        ensures
            match r {
                Some(v) => exists|i: int|
                    0 <= i < self@.len() && #[trigger] self@[i] == (key@, v@),
                None => forall|i: int| 0 <= i < self@.len() ==> (#[trigger] self@[i]).0 != key@,
            },
    {
        let n = self.entries.len();
        let mut i: usize = 0;
        while i < n
            invariant
                i <= n,
                n == self@.len(),
                n == self.entries@.len(),
                forall|j: int| 0 <= j < i ==> (#[trigger] self@[j]).0 != key@,
            decreases n - i,
        {
            if crate::read::str_eq(self.entries[i].0.as_str(), key) {
                proof {
                    assert(self@[i as int] == (key@, self.entries@[i as int].1@));
                }
                return Some(&self.entries[i].1);
            }
            i = i + 1;
        }
        None
    }

    /// The value stored under `key`, if the table holds it; the exact
    /// UTF-16 code units as read from the file.
    pub fn by_id(&self, key: &str) -> (r: Option<&Vec<u16>>)
        ensures
            match r {
                Some(v) => exists|i: int|
                    0 <= i < self@.len() && #[trigger] self@[i] == (key@, v@),
                None => forall|i: int| 0 <= i < self@.len() ==> (#[trigger] self@[i]).0 != key@,
            },
    {
        self.get(key)
    }

    /// The keys of the table, in entry order.
    pub fn keys(&self) -> (r: Vec<String>)
        ensures
            r@.len() == self@.len(),
            forall|i: int| 0 <= i < r@.len() ==> #[trigger] r@[i]@ == self@[i].0,
    {
        let n = self.entries.len();
        let mut out: Vec<String> = Vec::new();
        let mut i: usize = 0;
        while i < n
            invariant
                i <= n,
                n == self@.len(),
                n == self.entries@.len(),
                out@.len() == i,
                forall|j: int| 0 <= j < i ==> #[trigger] out@[j]@ == self@[j].0,
            decreases n - i,
        {
            out.push(self.entries[i].0.clone());
            i = i + 1;
        }
        out
    }

    /// The (key, value) entries of the table, in order.
    pub fn entries(&self) -> (r: &Vec<(String, Vec<u16>)>)
        ensures
            r@.len() == self@.len(),
            forall|i: int|
                0 <= i < r@.len() ==> (#[trigger] r@[i].0@) == self@[i].0 && r@[i].1@
                    == self@[i].1,
    {
        &self.entries
    }

    /// The table as (key, lossy UTF-8 value) string pairs, in entry order;
    /// the interchange form used for text serialization.
    pub fn to_pairs(&self) -> (r: Vec<(String, String)>)
        ensures
            r@.len() == self@.len(),
            forall|i: int|
                0 <= i < r@.len() ==> (#[trigger] r@[i].0@) == self@[i].0 && r@[i].1@
                    == utf16_lossy_of(self@[i].1),
    {
        let n = self.entries.len();
        let mut out: Vec<(String, String)> = Vec::new();
        let mut i: usize = 0;
        while i < n
            invariant
                i <= n,
                n == self@.len(),
                n == self.entries@.len(),
                out@.len() == i,
                forall|j: int|
                    0 <= j < i ==> (#[trigger] out@[j].0@) == self@[j].0 && out@[j].1@
                        == utf16_lossy_of(self@[j].1),
            decreases n - i,
        {
            let key = self.entries[i].0.clone();
            let value = utf16_lossy(self.entries[i].1.as_slice());
            let ghost out0 = out@;
            out.push((key, value));
            proof {
                assert(forall|j: int| 0 <= j < i ==> #[trigger] out@[j] == out0[j]);
                assert(out@[i as int].0@ == self@[i as int].0);
                assert(out@[i as int].1@ == utf16_lossy_of(self@[i as int].1));
            }
            i = i + 1;
        }
        out
    }

    /// Builds a table from (key, text) string pairs, encoding each value
    /// as UTF-16; a later pair with an already-present key replaces the
    /// earlier value. The interchange form used for text deserialization.
    pub fn from_pairs(pairs: &Vec<(String, String)>) -> (r: StringTable)
        ensures
            r.wf(),
            r@ == spec_table_of_text_pairs(pairs.deep_view(), pairs@.len() as int),
    {
        let mut t = StringTable::empty();
        let n = pairs.len();
        let mut i: usize = 0;
        while i < n
            invariant
                i <= n,
                n == pairs@.len(),
                pairs.deep_view().len() == n,
                t.wf(),
                t@ == spec_table_of_text_pairs(pairs.deep_view(), i as int),
            decreases n - i,
        {
            let key = pairs[i].0.clone();
            let value = encode_utf16_units(pairs[i].1.as_str());
            proof {
                assert(pairs.deep_view()[i as int] == (pairs@[i as int].0@, pairs@[i as int].1@));
            }
            t.upsert(key, value);
            i = i + 1;
        }
        t
    }
}

/// The table built by upserting the first `n` (key, value) pairs in order.
pub open spec fn spec_table_of_pairs(
    pairs: Seq<(Seq<char>, Seq<u16>)>,
    n: int,
) -> Seq<(Seq<char>, Seq<u16>)>
    decreases n,
{
    if n <= 0 {
        Seq::empty()
    } else {
        spec_upsert(spec_table_of_pairs(pairs, n - 1), pairs[n - 1].0, pairs[n - 1].1)
    }
}

/// The table built by upserting the first `n` (key, text) pairs in order,
/// each text encoded as UTF-16.
pub open spec fn spec_table_of_text_pairs(
    pairs: Seq<(Seq<char>, Seq<char>)>,
    n: int,
) -> Seq<(Seq<char>, Seq<u16>)>
    decreases n,
{
    if n <= 0 {
        Seq::empty()
    } else {
        spec_upsert(
            spec_table_of_text_pairs(pairs, n - 1),
            pairs[n - 1].0,
            utf16_units_of(pairs[n - 1].1),
        )
    }
}

/// Clones a vector of UTF-16 code units.
pub(crate) fn clone_u16s(v: &Vec<u16>) -> (r: Vec<u16>)
    ensures
        r@ == v@,
{
    let r = v.clone();
    proof {
        assert(r@ =~= v@);
    }
    r
}

/// The `n` value records at offset `off` of `s` — each `{id, ignored word,
/// rune count, UTF-16 units}` — with the offset that follows them; `None`
/// when the input ends first.
pub open spec fn spec_parse_values(s: Seq<u8>, off: int, n: nat) -> Option<
    (Seq<(u32, Seq<u16>)>, int),
>
    decreases n,
{
    if n == 0 {
        Some((Seq::empty(), off))
    } else if off + 12 > s.len() {
        None
    } else {
        let id = spec_u32_at(s, off);
        let runes = spec_u32_at(s, off + 8) as int;
        if off + 12 + 2 * runes > s.len() {
            None
        } else {
            let units = Seq::new(runes as nat, |j: int| spec_u16_at(s, off + 12 + 2 * j));
            match spec_parse_values(s, off + 12 + 2 * runes, (n - 1) as nat) {
                Some((rest, end)) => Some((seq![(id, units)] + rest, end)),
                None => None,
            }
        }
    }
}

/// What parsing key records yields: the records, or the reason they do not
/// parse.
pub enum KeysResult {
    /// The `(id, decoded key)` records, in file order.
    Keys(Seq<(u32, Seq<char>)>),
    /// The input ends inside a record.
    Truncated,
    /// A key is not valid UTF-8.
    BadUtf8,
}

/// The `n` key records at offset `off` of `s`: each `{id, rune count,
/// UTF-8 key bytes}`.
pub open spec fn spec_parse_keys(s: Seq<u8>, off: int, n: nat) -> KeysResult
    decreases n,
{
    if n == 0 {
        KeysResult::Keys(Seq::empty())
    } else if off + 8 > s.len() {
        KeysResult::Truncated
    } else {
        let id = spec_u32_at(s, off);
        let runes = spec_u32_at(s, off + 4) as int;
        if off + 8 + runes > s.len() {
            KeysResult::Truncated
        } else {
            let kb = s.subrange(off + 8, off + 8 + runes);
            if !valid_utf8(kb) {
                KeysResult::BadUtf8
            } else {
                match spec_parse_keys(s, off + 8 + runes, (n - 1) as nat) {
                    KeysResult::Keys(rest) => KeysResult::Keys(
                        seq![(id, decode_utf8(kb))] + rest,
                    ),
                    r => r,
                }
            }
        }
    }
}

/// The value of the last value record bearing `id`, if any; a later record
/// with the same id shadows an earlier one.
pub open spec fn spec_last_value(values: Seq<(u32, Seq<u16>)>, id: u32) -> Option<Seq<u16>>
    decreases values.len(),
{
    if values.len() == 0 {
        None
    } else if values.last().0 == id {
        Some(values.last().1)
    } else {
        spec_last_value(values.drop_last(), id)
    }
}

/// Key record `i` wins for its id: no later key record bears the same id.
pub open spec fn spec_key_effective(keys: Seq<(u32, Seq<char>)>, i: int) -> bool {
    forall|j: int| i < j < keys.len() ==> (#[trigger] keys[j]).0 != keys[i].0
}

/// The table joined from the first `n` key records: each winning key maps
/// to the last value record bearing its id; a key with no matching value is
/// dropped silently.
pub open spec fn spec_join(
    values: Seq<(u32, Seq<u16>)>,
    keys: Seq<(u32, Seq<char>)>,
    n: int,
) -> Seq<(Seq<char>, Seq<u16>)>
    decreases n,
{
    if n <= 0 {
        Seq::empty()
    } else {
        let t = spec_join(values, keys, n - 1);
        if spec_key_effective(keys, n - 1) {
            match spec_last_value(values, keys[n - 1].0) {
                Some(v) => spec_upsert(t, keys[n - 1].1, v),
                None => t,
            }
        } else {
            t
        }
    }
}

/// The joined table has unique keys.
pub proof fn lemma_join_unique(
    values: Seq<(u32, Seq<u16>)>,
    keys: Seq<(u32, Seq<char>)>,
    n: int,
)
    ensures
        spec_unique_keys(spec_join(values, keys, n)),
    decreases n,
{
    if n > 0 {
        lemma_join_unique(values, keys, n - 1);
        if spec_key_effective(keys, n - 1) {
            match spec_last_value(values, keys[n - 1].0) {
                Some(v) => {
                    lemma_upsert_unique(spec_join(values, keys, n - 1), keys[n - 1].1, v);
                },
                None => {},
            }
        }
    }
}

/// What decoding a string table yields on given bytes.
pub enum StfParse {
    /// The joined `(key, UTF-16 value)` table.
    Table(Seq<(Seq<char>, Seq<u16>)>),
    /// The magic word is wrong.
    BadMagic,
    /// The input ends inside the header or a record.
    Truncated,
    /// A key is not valid UTF-8.
    BadUtf8,
}

/// The string table parsed from `bytes`: a magic word, an ignored flag
/// byte, an ignored next-index word, a record count, the value records,
/// then the key records, joined on id.
pub open spec fn spec_stf_parse(bytes: Seq<u8>) -> StfParse {
    if bytes.len() < 4 {
        StfParse::Truncated
    } else if spec_u32_at(bytes, 0) != 0xABCD {
        StfParse::BadMagic
    } else if bytes.len() < 13 {
        StfParse::Truncated
    } else {
        let count = spec_u32_at(bytes, 9) as nat;
        match spec_parse_values(bytes, 13, count) {
            None => StfParse::Truncated,
            Some((values, off)) => match spec_parse_keys(bytes, off, count) {
                KeysResult::Truncated => StfParse::Truncated,
                KeysResult::BadUtf8 => StfParse::BadUtf8,
                KeysResult::Keys(keys) => StfParse::Table(
                    spec_join(values, keys, keys.len() as int),
                ),
            },
        }
    }
}

/// The last value record bearing `id` stands at `i` exactly when record `i`
/// bears it and no later record does.
proof fn lemma_last_value_at(values: Seq<(u32, Seq<u16>)>, id: u32, i: int)
    requires
        0 <= i < values.len(),
        values[i].0 == id,
        forall|j: int| i < j < values.len() ==> (#[trigger] values[j]).0 != id,
    ensures
        spec_last_value(values, id) == Some(values[i].1),
    decreases values.len(),
{
    if i + 1 < values.len() {
        let d = values.drop_last();
        assert(forall|j: int| 0 <= j < d.len() ==> d[j] == values[j]);
        lemma_last_value_at(d, id, i);
    }
}

/// When no value record bears `id`, there is no last one.
proof fn lemma_last_value_none(values: Seq<(u32, Seq<u16>)>, id: u32)
    requires
        forall|j: int| 0 <= j < values.len() ==> (#[trigger] values[j]).0 != id,
    ensures
        spec_last_value(values, id) is None,
    decreases values.len(),
{
    if values.len() > 0 {
        let d = values.drop_last();
        assert(forall|j: int| 0 <= j < d.len() ==> d[j] == values[j]);
        lemma_last_value_none(d, id);
    }
}

/// The index of the last value record bearing `id`, if any.
fn find_last_value(values: &Vec<(u32, Vec<u16>)>, id: u32) -> (r: Option<usize>)
    ensures
        match r {
            Some(i) => i < values@.len() && spec_last_value(values.deep_view(), id) == Some(
                values@[i as int].1@,
            ),
            None => spec_last_value(values.deep_view(), id) is None,
        },
{
    let n = values.len();
    proof {
        assert(values.deep_view().len() == n);
        assert(forall|j: int|
            0 <= j < n ==> #[trigger] values.deep_view()[j] == (values@[j].0, values@[j].1@));
    }
    let mut i: usize = n;
    while i > 0
        invariant
            i <= n,
            n == values@.len(),
            values.deep_view().len() == n,
            forall|j: int|
                0 <= j < n ==> #[trigger] values.deep_view()[j] == (values@[j].0, values@[j].1@),
            forall|j: int| i <= j < n ==> (#[trigger] values.deep_view()[j]).0 != id,
        decreases i,
    {
        i = i - 1;
        if values[i].0 == id {
            proof {
                lemma_last_value_at(values.deep_view(), id, i as int);
            }
            return Some(i);
        }
    }
    proof {
        lemma_last_value_none(values.deep_view(), id);
    }
    None
}

/// Whether key record `i` wins for its id.
fn key_is_effective(keys: &Vec<(u32, String)>, i: usize) -> (r: bool)
    requires
        i < keys@.len(),
    ensures
        r == spec_key_effective(keys.deep_view(), i as int),
{
    let n = keys.len();
    proof {
        assert(keys.deep_view().len() == n);
        assert(forall|j: int|
            0 <= j < n ==> #[trigger] keys.deep_view()[j] == (keys@[j].0, keys@[j].1@));
    }
    let id = keys[i].0;
    let mut j: usize = i + 1;
    while j < n
        invariant
            i < j <= n,
            n == keys@.len(),
            id == keys@[i as int].0,
            keys.deep_view().len() == n,
            forall|k: int|
                0 <= k < n ==> #[trigger] keys.deep_view()[k] == (keys@[k].0, keys@[k].1@),
            forall|k: int|
                i < k < j ==> (#[trigger] keys.deep_view()[k]).0 != keys.deep_view()[i as int].0,
        decreases n - j,
    {
        if keys[j].0 == id {
            proof {
                assert((keys.deep_view()[j as int]).0 == keys.deep_view()[i as int].0);
            }
            return false;
        }
        j = j + 1;
    }
    true
}

/// STF file reader.
pub struct StringTableReader {}

impl StringTableReader {
    /// Reads an STF payload and parses its entries into a table. Fails
    /// with `InvalidFile` on a wrong magic word, an I/O error on truncated
    /// input, and a UTF-8 error on a malformed key.
    #[verifier::loop_isolation(false)]
    #[verifier::rlimit(100)]
    pub fn decode(bytes: &[u8]) -> (r: Result<StringTable, Error>)
        ensures
            match spec_stf_parse(bytes@) {
                StfParse::Table(t) => r matches Ok(st) && st@ == t && st.wf(),
                StfParse::BadMagic => r == Err::<StringTable, Error>(Error::InvalidFile),
                StfParse::Truncated => r matches Err(e) && (e matches Error::IOError(_)),
                StfParse::BadUtf8 => r == Err::<StringTable, Error>(Error::UTF8Error),
            },
    {
        let len = bytes.len();
        if len < 4 {
            return Err(Error::IOError("unexpected end of input".to_owned()));
        }
        if read_u32_le(bytes, 0) != 0xABCD {
            return Err(Error::InvalidFile);
        }
        if len < 13 {
            return Err(Error::IOError("unexpected end of input".to_owned()));
        }
        let count = read_u32_le(bytes, 9);
        let mut values: Vec<(u32, Vec<u16>)> = Vec::new();
        let mut off: usize = 13;
        let mut c: u32 = 0;
        proof {
            assert(values.deep_view() =~= Seq::<(u32, Seq<u16>)>::empty());
            match spec_parse_values(bytes@, 13, count as nat) {
                Some((rest, end)) => {
                    assert(values.deep_view() + rest =~= rest);
                },
                None => {},
            }
        }
        while c < count
            invariant
                13 <= off <= len,
                c <= count,
                values@.len() == c,
                (match spec_parse_values(bytes@, off as int, (count - c) as nat) {
                    Some((rest, end)) => spec_parse_values(bytes@, 13, count as nat) == Some(
                        (values.deep_view() + rest, end),
                    ),
                    None => spec_parse_values(bytes@, 13, count as nat) is None,
                }),
            decreases count - c,
        {
            let ghost off0 = off as int;
            let ghost vals0 = values.deep_view();
            let ghost m = (count - c) as nat;
            if len - off < 12 {
                return Err(Error::IOError("unexpected end of input".to_owned()));
            }
            let id = read_u32_le(bytes, off);
            let runes = read_u32_le(bytes, off + 8);
            if (((len - (off + 12)) as u64) < 2 * (runes as u64)) {
                return Err(Error::IOError("unexpected end of input".to_owned()));
            }
            let runes_us = runes as usize;
            let mut units: Vec<u16> = Vec::new();
            let mut j: usize = 0;
            while j < runes_us
                invariant
                    j <= runes_us,
                    off + 12 + 2 * runes_us <= len,
                    units@.len() == j,
                    forall|k: int|
                        0 <= k < j ==> #[trigger] units@[k] == spec_u16_at(
                            bytes@,
                            off + 12 + 2 * k,
                        ),
                decreases runes_us - j,
            {
                units.push(read_u16_le(bytes, off + 12 + 2 * j));
                j = j + 1;
            }
            proof {
                assert(units@ =~= Seq::new(
                    runes as nat,
                    |k: int| spec_u16_at(bytes@, off0 + 12 + 2 * k),
                ));
            }
            let ghost unitsv = units@;
            values.push((id, units));
            off = off + 12 + 2 * runes_us;
            c = c + 1;
            proof {
                assert(values.deep_view() =~~= vals0 + seq![(id, unitsv)]) by {
                    assert(forall|k: int|
                        0 <= k < vals0.len() ==> values.deep_view()[k] == vals0[k]);
                    assert(values.deep_view()[vals0.len() as int] =~= (id, unitsv));
                }
                match spec_parse_values(bytes@, off as int, (count - c) as nat) {
                    Some((rest1, end1)) => {
                        assert(spec_parse_values(bytes@, off0, m) == Some(
                            (seq![(id, unitsv)] + rest1, end1),
                        ));
                        assert(vals0 + (seq![(id, unitsv)] + rest1) =~= (vals0 + seq![
                            (id, unitsv),
                        ]) + rest1);
                    },
                    None => {
                        assert(spec_parse_values(bytes@, off0, m) is None);
                    },
                }
            }
        }
        let ghost valuesv = values.deep_view();
        proof {
            assert(spec_parse_values(bytes@, off as int, 0) == Some(
                (Seq::<(u32, Seq<u16>)>::empty(), off as int),
            ));
            assert(valuesv + Seq::<(u32, Seq<u16>)>::empty() =~= valuesv);
            assert(spec_parse_values(bytes@, 13, count as nat) == Some((valuesv, off as int)));
        }
        let ghost koff = off as int;
        let mut keys: Vec<(u32, String)> = Vec::new();
        let mut c2: u32 = 0;
        proof {
            assert(keys.deep_view() =~= Seq::<(u32, Seq<char>)>::empty());
            match spec_parse_keys(bytes@, koff, count as nat) {
                KeysResult::Keys(rest) => {
                    assert(keys.deep_view() + rest =~= rest);
                },
                _ => {},
            }
        }
        while c2 < count
            invariant
                13 <= off <= len,
                c2 <= count,
                keys@.len() == c2,
                (match spec_parse_keys(bytes@, off as int, (count - c2) as nat) {
                    KeysResult::Keys(rest) => spec_parse_keys(bytes@, koff, count as nat)
                        == KeysResult::Keys(keys.deep_view() + rest),
                    r => spec_parse_keys(bytes@, koff, count as nat) == r,
                }),
            decreases count - c2,
        {
            let ghost off0 = off as int;
            let ghost keys0 = keys.deep_view();
            let ghost m = (count - c2) as nat;
            if len - off < 8 {
                return Err(Error::IOError("unexpected end of input".to_owned()));
            }
            let id = read_u32_le(bytes, off);
            let runes = read_u32_le(bytes, off + 4);
            if (((len - (off + 8)) as u64) < (runes as u64)) {
                return Err(Error::IOError("unexpected end of input".to_owned()));
            }
            let runes_us = runes as usize;
            let kb = vstd::slice::slice_subrange(bytes, off + 8, off + 8 + runes_us);
            let key = match utf8_strict(kb) {
                Some(s) => s,
                None => {
                    return Err(Error::UTF8Error);
                },
            };
            let ghost keyv = key@;
            keys.push((id, key));
            off = off + 8 + runes_us;
            c2 = c2 + 1;
            proof {
                assert(keys.deep_view() =~~= keys0 + seq![(id, keyv)]) by {
                    assert(forall|k: int|
                        0 <= k < keys0.len() ==> keys.deep_view()[k] == keys0[k]);
                    assert(keys.deep_view()[keys0.len() as int] =~= (id, keyv));
                }
                match spec_parse_keys(bytes@, off as int, (count - c2) as nat) {
                    KeysResult::Keys(rest1) => {
                        assert(spec_parse_keys(bytes@, off0, m) == KeysResult::Keys(
                            seq![(id, keyv)] + rest1,
                        ));
                        assert(keys0 + (seq![(id, keyv)] + rest1) =~= (keys0 + seq![(id, keyv)])
                            + rest1);
                    },
                    _ => {},
                }
            }
        }
        let ghost keysv = keys.deep_view();
        proof {
            assert(spec_parse_keys(bytes@, off as int, 0) == KeysResult::Keys(
                Seq::<(u32, Seq<char>)>::empty(),
            ));
            assert(keysv + Seq::<(u32, Seq<char>)>::empty() =~= keysv);
            assert(spec_parse_keys(bytes@, koff, count as nat) == KeysResult::Keys(keysv));
            assert(keysv.len() == count);
        }
        let mut table = StringTable::empty();
        let nk = keys.len();
        let mut i: usize = 0;
        while i < nk
            invariant
                i <= nk,
                nk == keys@.len(),
                keysv == keys.deep_view(),
                keysv.len() == nk,
                valuesv == values.deep_view(),
                table.wf(),
                table@ == spec_join(valuesv, keysv, i as int),
            decreases nk - i,
        {
            proof {
                assert(keysv[i as int] == (keys@[i as int].0, keys@[i as int].1@));
            }
            if key_is_effective(&keys, i) {
                match find_last_value(&values, keys[i].0) {
                    Some(vi) => {
                        let v = clone_u16s(&values[vi].1);
                        let key = keys[i].1.clone();
                        table.upsert(key, v);
                    },
                    None => {},
                }
            }
            i = i + 1;
        }
        proof {
            lemma_join_unique(valuesv, keysv, nk as int);
        }
        Ok(table)
    }
}

/// Decode exactness: when the key records bear distinct ids and distinct
/// names and every key id has a matching value record, the joined table
/// holds exactly one entry per key record, each key mapping to exactly the
/// stored code units of its value record — and nothing else.
pub proof fn lemma_join_exact(
    values: Seq<(u32, Seq<u16>)>,
    keys: Seq<(u32, Seq<char>)>,
    n: int,
)
    requires
        0 <= n <= keys.len(),
        forall|i: int, j: int| 0 <= i < j < keys.len() ==> keys[i].0 != keys[j].0,
        forall|i: int, j: int| 0 <= i < j < keys.len() ==> keys[i].1 != keys[j].1,
        forall|i: int|
            0 <= i < keys.len() ==> spec_last_value(values, (#[trigger] keys[i]).0) is Some,
    ensures
        spec_join(values, keys, n).len() == n,
        forall|j: int|
            0 <= j < n ==> spec_table_get(spec_join(values, keys, n), (#[trigger] keys[j]).1)
                == spec_last_value(values, keys[j].0),
        forall|k: Seq<char>|
            spec_table_get(spec_join(values, keys, n), k) is Some ==> exists|j: int|
                0 <= j < n && (#[trigger] keys[j]).1 == k,
    decreases n,
{
    if n > 0 {
        lemma_join_exact(values, keys, n - 1);
        let t = spec_join(values, keys, n - 1);
        let name = keys[n - 1].1;
        let id = keys[n - 1].0;
        assert(spec_key_effective(keys, n - 1));
        let v = spec_last_value(values, id).unwrap();
        let t2 = spec_join(values, keys, n);
        assert(t2 == spec_upsert(t, name, v));
        assert(spec_find_key(t, name) < 0) by {
            lemma_find_key_props(t, name);
            if spec_find_key(t, name) >= 0 {
                let w = spec_find_key(t, name);
                assert(t[w].0 == name);
                lemma_table_get_at_unchecked(t, name, w);
                let j = choose|j: int| 0 <= j < n - 1 && (#[trigger] keys[j]).1 == name;
                assert(keys[j].1 == keys[n - 1].1);
            }
        }
        assert(t2 == t.push((name, v)));
        assert(t2.len() == n);
        assert forall|j: int|
            0 <= j < n implies spec_table_get(t2, (#[trigger] keys[j]).1) == spec_last_value(
            values,
            keys[j].0,
        ) by {
            if j < n - 1 {
                assert(spec_table_get(t, keys[j].1) == spec_last_value(values, keys[j].0));
                lemma_find_key_props(t, keys[j].1);
                let w = spec_find_key(t, keys[j].1);
                assert(0 <= w < t.len() && t[w].0 == keys[j].1);
                assert(t2[w] == t[w]);
                assert(forall|l: int| 0 <= l < w ==> t2[l] == t[l]);
                lemma_find_key_at_units(t2, keys[j].1, w);
                assert(t2[w].1 == t[w].1);
            } else {
                assert(t2[t.len() as int] == (name, v));
                assert(forall|l: int| 0 <= l < t.len() ==> t2[l] == t[l]);
                assert forall|l: int| 0 <= l < t.len() implies t2[l].0 != name by {
                    lemma_find_key_props(t, name);
                }
                lemma_find_key_at_units(t2, name, t.len() as int);
            }
        }
        assert forall|k: Seq<char>|
            spec_table_get(t2, k) is Some implies exists|j: int|
            0 <= j < n && (#[trigger] keys[j]).1 == k by {
            lemma_find_key_props(t2, k);
            let w = spec_find_key(t2, k);
            assert(0 <= w < t2.len() && t2[w].0 == k);
            if w < t.len() {
                assert(t[w].0 == k);
                lemma_table_get_at_unchecked(t, k, w);
                let j = choose|j: int| 0 <= j < n - 1 && (#[trigger] keys[j]).1 == k;
                assert(keys[j].1 == k);
            } else {
                assert(keys[n - 1].1 == k);
            }
        }
    } else {
        assert(spec_join(values, keys, 0) =~= Seq::<(Seq<char>, Seq<u16>)>::empty());
    }
}

/// An entry bearing `k` makes the lookup succeed, whatever stands first.
proof fn lemma_table_get_at_unchecked(t: Seq<(Seq<char>, Seq<u16>)>, k: Seq<char>, i: int)
    requires
        0 <= i < t.len(),
        t[i].0 == k,
    ensures
        spec_table_get(t, k) is Some,
    decreases t.len(),
{
    if t.len() > 0 && t[0].0 != k {
        let s = t.skip(1);
        assert(forall|j: int| 0 <= j < s.len() ==> s[j] == t[j + 1]);
        lemma_table_get_at_unchecked(s, k, i - 1);
        lemma_find_key_props(s, k);
        lemma_find_key_props(t, k);
        if spec_find_key(t, k) < 0 {
            assert(t[i].0 != k);
        }
    }
}

/// The first entry bearing `k` pins the lookup's value.
proof fn lemma_find_key_at_units(t: Seq<(Seq<char>, Seq<u16>)>, k: Seq<char>, i: int)
    requires
        0 <= i < t.len(),
        t[i].0 == k,
        forall|j: int| 0 <= j < i ==> t[j].0 != k,
    ensures
        spec_table_get(t, k) == Some(t[i].1),
{
    lemma_find_key_at(t, k, i);
}

/// Accumulates string pairs into a table: the builder used when a table is
/// rebuilt from a `{string: string}` map, encoding each value as UTF-16.
pub struct StringTableVisitor {
    table: StringTable,
}

impl View for StringTableVisitor {
    type V = Seq<(Seq<char>, Seq<u16>)>;

    closed spec fn view(&self) -> Seq<(Seq<char>, Seq<u16>)> {
        self.table@
    }
}

impl StringTableVisitor {
    /// The accumulated table's keys stay unique.
    pub open spec fn wf(self) -> bool {
        spec_unique_keys(self@)
    }

    /// A visitor with no entries yet.
    pub fn new() -> (r: StringTableVisitor)
        ensures
            r@ == Seq::<(Seq<char>, Seq<u16>)>::empty(),
            r.wf(),
    {
        StringTableVisitor { table: StringTable::empty() }
    }

    /// Accepts one (key, text) pair; a key seen before takes the new value.
    pub fn visit_entry(&mut self, key: String, value: &str)
        requires
            old(self).wf(),
        ensures
            final(self).wf(),
            final(self)@ == spec_upsert(old(self)@, key@, utf16_units_of(value@)),
    {
        let units = encode_utf16_units(value);
        self.table.upsert(key, units);
    }

    /// The accumulated table.
    pub fn finish(self) -> (r: StringTable)
        ensures
            r@ == self@,
            self.wf() ==> r.wf(),
    {
        self.table
    }
}

} // verus!
