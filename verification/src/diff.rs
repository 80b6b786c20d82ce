//! Structural comparison of two archives: entry sets, per-file payloads,
//! and a specialized comparator for STF string-table payloads.

use vstd::prelude::*;
use vstd::string::StringSliceAdditionalSpecFns;
use vstd::utf8::encode_utf8;

use crate::error::Error;
use crate::read::{spec_entry_data_at, FileView, TreArchive};
use crate::stf::{spec_table_get, utf16_lossy, utf16_lossy_of, StringTable};

verus! {

/// Lexicographic (byte-wise) strict order on byte sequences.
pub open spec fn spec_bytes_lt(a: Seq<u8>, b: Seq<u8>) -> bool
    decreases a.len(),
{
    if b.len() == 0 {
        false
    } else if a.len() == 0 {
        true
    } else if a[0] < b[0] {
        true
    } else if a[0] > b[0] {
        false
    } else {
        spec_bytes_lt(a.skip(1), b.skip(1))
    }
}

/// Strict order on names: byte-wise over their UTF-8 encodings.
pub open spec fn spec_name_lt(a: Seq<char>, b: Seq<char>) -> bool {
    spec_bytes_lt(encode_utf8(a), encode_utf8(b))
}

/// Dropping an equal prefix does not change the order.
proof fn lemma_bytes_lt_skip(a: Seq<u8>, b: Seq<u8>, i: int)
    requires
        0 <= i <= a.len(),
        i <= b.len(),
        forall|j: int| 0 <= j < i ==> a[j] == b[j],
    ensures
        spec_bytes_lt(a, b) == spec_bytes_lt(a.skip(i), b.skip(i)),
    decreases i,
{
    if i > 0 {
        assert(a.len() > 0 && b.len() > 0);
        assert(a[0] == b[0]);
        let a1 = a.skip(1);
        let b1 = b.skip(1);
        assert(forall|j: int| 0 <= j < i - 1 ==> a1[j] == a[j + 1] && b1[j] == b[j + 1]);
        lemma_bytes_lt_skip(a1, b1, i - 1);
        assert(a1.skip(i - 1) =~= a.skip(i));
        assert(b1.skip(i - 1) =~= b.skip(i));
    } else {
        assert(a.skip(0) =~= a);
        assert(b.skip(0) =~= b);
    }
}

/// Distinct byte sequences are ordered one way or the other.
proof fn lemma_bytes_lt_total(a: Seq<u8>, b: Seq<u8>)
    requires
        a != b,
    ensures
        spec_bytes_lt(a, b) || spec_bytes_lt(b, a),
    decreases a.len(),
{
    if a.len() == 0 {
        assert(b.len() > 0) by {
            if b.len() == 0 {
                assert(a =~= b);
            }
        }
    } else if b.len() == 0 {
    } else if a[0] == b[0] {
        let a1 = a.skip(1);
        let b1 = b.skip(1);
        assert(a1 != b1) by {
            if a1 == b1 {
                assert(a1.len() == b1.len());
                assert(a.len() == b.len());
                assert forall|j: int| 0 <= j < a.len() implies #[trigger] a[j] == b[j] by {
                    if j >= 1 {
                        assert(a[j] == a1[j - 1]);
                        assert(b[j] == b1[j - 1]);
                    }
                }
                assert(a =~= b);
            }
        }
        lemma_bytes_lt_total(a1, b1);
    }
}

/// The byte order is transitive.
proof fn lemma_bytes_lt_trans(a: Seq<u8>, b: Seq<u8>, c: Seq<u8>)
    requires
        spec_bytes_lt(a, b),
        spec_bytes_lt(b, c),
    ensures
        spec_bytes_lt(a, c),
    decreases a.len(),
{
    if a.len() > 0 && b.len() > 0 && c.len() > 0 {
        if a[0] == b[0] && b[0] == c[0] {
            lemma_bytes_lt_trans(a.skip(1), b.skip(1), c.skip(1));
        }
    }
}

/// The byte order is irreflexive.
proof fn lemma_bytes_lt_irrefl(a: Seq<u8>)
    ensures
        !spec_bytes_lt(a, a),
    decreases a.len(),
{
    if a.len() > 0 {
        lemma_bytes_lt_irrefl(a.skip(1));
    }
}

/// Distinct names are ordered one way or the other.
pub proof fn lemma_name_lt_total(a: Seq<char>, b: Seq<char>)
    requires
        a != b,
    ensures
        spec_name_lt(a, b) || spec_name_lt(b, a),
{
    broadcast use vstd::utf8::encode_utf8_decode_utf8;

    assert(encode_utf8(a) != encode_utf8(b)) by {
        if encode_utf8(a) == encode_utf8(b) {
            assert(vstd::utf8::decode_utf8(encode_utf8(a)) == a);
            assert(vstd::utf8::decode_utf8(encode_utf8(b)) == b);
        }
    }
    lemma_bytes_lt_total(encode_utf8(a), encode_utf8(b));
}

/// Compares two strings in the byte-wise order.
fn str_lt(a: &str, b: &str) -> (r: bool)
    ensures
        r == spec_name_lt(a@, b@),
{
    let ab = a.as_bytes();
    let bb = b.as_bytes();
    let alen = ab.len();
    let blen = bb.len();
    let mut i: usize = 0;
    while i < alen && i < blen
        invariant
            i <= alen,
            i <= blen,
            alen == ab@.len(),
            blen == bb@.len(),
            ab@ == encode_utf8(a@),
            bb@ == encode_utf8(b@),
            forall|j: int| 0 <= j < i ==> ab@[j] == bb@[j],
        decreases alen - i,
    {
        if ab[i] < bb[i] {
            proof {
                lemma_bytes_lt_skip(ab@, bb@, i as int);
            }
            return true;
        }
        if ab[i] > bb[i] {
            proof {
                lemma_bytes_lt_skip(ab@, bb@, i as int);
            }
            return false;
        }
        i = i + 1;
    }
    proof {
        lemma_bytes_lt_skip(ab@, bb@, i as int);
        if i == alen {
            assert(ab@.skip(i as int) =~= Seq::<u8>::empty());
        }
        if i == blen {
            assert(bb@.skip(i as int) =~= Seq::<u8>::empty());
        }
    }
    alen < blen
}

/// Strictly sorted names: each one byte-wise below the next, so also
/// pairwise distinct.
pub open spec fn spec_sorted_names(v: Seq<Seq<char>>) -> bool {
    forall|i: int, j: int| 0 <= i < j < v.len() ==> spec_name_lt(#[trigger] v[i], #[trigger] v[j])
}

/// `names` holds `k`.
pub open spec fn spec_has_name(names: Seq<Seq<char>>, k: Seq<char>) -> bool {
    exists|i: int| 0 <= i < names.len() && names[i] == k
}

/// Determinism of the sorted name sets: a strictly sorted list is fixed by
/// its membership alone. Any two values meeting the diff contracts for the
/// same archives therefore agree on their added and removed name lists,
/// and on the order of their changed entries.
pub proof fn lemma_sorted_names_determined(a: Seq<Seq<char>>, b: Seq<Seq<char>>)
    requires
        spec_sorted_names(a),
        spec_sorted_names(b),
        forall|k: Seq<char>| spec_has_name(a, k) == spec_has_name(b, k),
    ensures
        a == b,
    decreases a.len(),
{
    if a.len() == 0 {
        if b.len() > 0 {
            assert(spec_has_name(b, b[0]));
            assert(spec_has_name(a, b[0]));
        }
        assert(a =~= b);
    } else {
        assert(spec_has_name(a, a[0]));
        assert(spec_has_name(b, a[0]));
        let j = choose|j: int| 0 <= j < b.len() && b[j] == a[0];
        assert(spec_has_name(b, b[0]));
        assert(spec_has_name(a, b[0]));
        let i = choose|i: int| 0 <= i < a.len() && a[i] == b[0];
        assert(a[0] == b[0]) by {
            if a[0] != b[0] {
                assert(j != 0 && i != 0);
                assert(spec_name_lt(b[0], b[j]));
                assert(spec_name_lt(a[0], a[i]));
                lemma_bytes_lt_trans(
                    encode_utf8(a[0]),
                    encode_utf8(a[i]),
                    encode_utf8(b[j]),
                );
                lemma_bytes_lt_irrefl(encode_utf8(a[0]));
            }
        }
        let ta = a.skip(1);
        let tb = b.skip(1);
        assert(forall|l: int| 0 <= l < ta.len() ==> #[trigger] ta[l] == a[l + 1]);
        assert(forall|l: int| 0 <= l < tb.len() ==> #[trigger] tb[l] == b[l + 1]);
        assert forall|p: int, q: int|
            0 <= p < q < ta.len() implies spec_name_lt(#[trigger] ta[p], #[trigger] ta[q]) by {
            assert(spec_name_lt(a[p + 1], a[q + 1]));
        }
        assert forall|p: int, q: int|
            0 <= p < q < tb.len() implies spec_name_lt(#[trigger] tb[p], #[trigger] tb[q]) by {
            assert(spec_name_lt(b[p + 1], b[q + 1]));
        }
        assert forall|k: Seq<char>| spec_has_name(ta, k) == spec_has_name(tb, k) by {
            if spec_has_name(ta, k) {
                let w = choose|w: int| 0 <= w < ta.len() && ta[w] == k;
                assert(a[w + 1] == k);
                assert(spec_has_name(a, k));
                assert(k != a[0]) by {
                    if k == a[0] {
                        assert(spec_name_lt(a[0], a[w + 1]));
                        lemma_bytes_lt_irrefl(encode_utf8(a[0]));
                    }
                }
                let w2 = choose|w2: int| 0 <= w2 < b.len() && b[w2] == k;
                assert(w2 != 0);
                assert(tb[w2 - 1] == k);
            }
            if spec_has_name(tb, k) {
                let w = choose|w: int| 0 <= w < tb.len() && tb[w] == k;
                assert(b[w + 1] == k);
                assert(spec_has_name(b, k));
                assert(k != b[0]) by {
                    if k == b[0] {
                        assert(spec_name_lt(b[0], b[w + 1]));
                        lemma_bytes_lt_irrefl(encode_utf8(b[0]));
                    }
                }
                let w2 = choose|w2: int| 0 <= w2 < a.len() && a[w2] == k;
                assert(w2 != 0);
                assert(ta[w2 - 1] == k);
            }
        }
        lemma_sorted_names_determined(ta, tb);
        assert(a.len() == b.len());
        assert forall|l: int| 0 <= l < a.len() implies a[l] == b[l] by {
            if l >= 1 {
                assert(ta[l - 1] == a[l]);
                assert(tb[l - 1] == b[l]);
            }
        }
        assert(a =~= b);
    }
}

/// Inserts `x` into a strictly sorted list, keeping it strictly sorted;
/// a name already present is not duplicated.
fn insert_sorted(v: &mut Vec<String>, x: String)
    requires
        spec_sorted_names(old(v).deep_view()),
    ensures
        spec_sorted_names(final(v).deep_view()),
        forall|k: Seq<char>|
            spec_has_name(final(v).deep_view(), k) == (spec_has_name(old(v).deep_view(), k) || k
                == x@),
{
    let n = v.len();
    proof {
        assert(v.deep_view().len() == n);
        assert(forall|j: int| 0 <= j < n ==> #[trigger] v.deep_view()[j] == v@[j]@);
    }
    let mut i: usize = 0;
    while i < n
        invariant
            i <= n,
            *v == *old(v),
            n == v@.len(),
            spec_sorted_names(v.deep_view()),
            v.deep_view().len() == n,
            forall|j: int| 0 <= j < n ==> #[trigger] v.deep_view()[j] == v@[j]@,
            forall|j: int| 0 <= j < i ==> spec_name_lt(#[trigger] v.deep_view()[j], x@),
        decreases n - i,
    {
        if !str_lt(v[i].as_str(), x.as_str()) {
            if crate::read::str_eq(v[i].as_str(), x.as_str()) {
                proof {
                    assert(spec_has_name(v.deep_view(), x@)) by {
                        assert(v.deep_view()[i as int] == x@);
                    }
                }
                return ;
            }
            proof {
                lemma_name_lt_total(v.deep_view()[i as int], x@);
                assert(spec_name_lt(x@, v.deep_view()[i as int]));
            }
            let ghost old_dv = v.deep_view();
            v.insert(i, x);
            proof {
                let dv = v.deep_view();
                assert(dv.len() == old_dv.len() + 1);
                assert(forall|j: int| 0 <= j < i ==> #[trigger] dv[j] == old_dv[j]);
                assert(dv[i as int] == x@);
                assert(forall|j: int| i < j < dv.len() ==> #[trigger] dv[j] == old_dv[j - 1]);
                assert forall|p: int, q: int|
                    0 <= p < q < dv.len() implies spec_name_lt(#[trigger] dv[p], #[trigger] dv[q]) by {
                    if p < i && q < i {
                    } else if p < i && q == i {
                        assert(spec_name_lt(old_dv[p], x@));
                    } else if p < i && q > i {
                    } else if p == i && q > i {
                        if q - 1 == i {
                            assert(spec_name_lt(x@, old_dv[i as int]));
                        } else {
                            lemma_bytes_lt_trans(
                                encode_utf8(x@),
                                encode_utf8(old_dv[i as int]),
                                encode_utf8(old_dv[q - 1]),
                            );
                        }
                    } else {
                    }
                }
                assert forall|k: Seq<char>|
                    spec_has_name(dv, k) == (spec_has_name(old_dv, k) || k == x@) by {
                    if spec_has_name(dv, k) {
                        let w = choose|w: int| 0 <= w < dv.len() && dv[w] == k;
                        if w < i {
                            assert(old_dv[w] == k);
                        } else if w == i {
                        } else {
                            assert(old_dv[w - 1] == k);
                        }
                    }
                    if spec_has_name(old_dv, k) {
                        let w = choose|w: int| 0 <= w < old_dv.len() && old_dv[w] == k;
                        if w < i {
                            assert(dv[w] == k);
                        } else {
                            assert(dv[w + 1] == k);
                        }
                    }
                    if k == x@ {
                        assert(dv[i as int] == k);
                    }
                }
            }
            return ;
        }
        proof {
            lemma_bytes_lt_irrefl(encode_utf8(x@));
        }
        i = i + 1;
    }
    let ghost old_dv = v.deep_view();
    v.push(x);
    proof {
        let dv = v.deep_view();
        assert(forall|j: int| 0 <= j < n ==> #[trigger] dv[j] == old_dv[j]);
        assert(dv[n as int] == x@);
        assert forall|p: int, q: int|
            0 <= p < q < dv.len() implies spec_name_lt(#[trigger] dv[p], #[trigger] dv[q]) by {
            if q == n {
                assert(spec_name_lt(old_dv[p], x@));
            }
        }
        assert forall|k: Seq<char>|
            spec_has_name(dv, k) == (spec_has_name(old_dv, k) || k == x@) by {
            if spec_has_name(dv, k) {
                let w = choose|w: int| 0 <= w < dv.len() && dv[w] == k;
                if w < n {
                    assert(old_dv[w] == k);
                }
            }
            if spec_has_name(old_dv, k) {
                let w = choose|w: int| 0 <= w < old_dv.len() && old_dv[w] == k;
                assert(dv[w] == k);
            }
            if k == x@ {
                assert(dv[n as int] == k);
            }
        }
    }
}

/// The two comparison modes.
#[derive(Debug, Clone, Copy, PartialEq, Eq, Structural)]
pub enum DiffMode {
    /// Reports structural changes only.
    Semantic,
    /// Additionally reports container-layout differences and inline text
    /// diffs of changed values.
    Full,
}

/// The tagged lines of the line-level text diff of two texts: a function
/// of the two texts alone. Tag 0 marks an equal line, 1 an inserted one,
/// 2 a deleted one.
pub uninterp spec fn line_diff_of(old_text: Seq<char>, new_text: Seq<char>) -> Seq<(u8, Seq<char>)>;

/// Relies on similar's `TextDiff::from_lines`: its changes are a pure
/// function of the two texts. Each change is tagged 0 (equal line),
/// 1 (inserted) or 2 (deleted).
#[verifier::external_body]
fn line_diff(old_text: &str, new_text: &str) -> (r: Vec<(u8, String)>)
    ensures
        r.deep_view() == line_diff_of(old_text@, new_text@),
{
    let d = similar::TextDiff::from_lines(old_text, new_text);
    let mut out = Vec::new();
    for change in d.iter_all_changes() {
        let tag: u8 = match change.tag() {
            similar::ChangeTag::Equal => 0,
            similar::ChangeTag::Insert => 1,
            similar::ChangeTag::Delete => 2,
        };
        out.push((tag, change.to_string_lossy().into_owned()));
    }
    out
}

/// The keys of a sequence of keyed pairs, in order.
pub open spec fn spec_keys_of<T>(s: Seq<(Seq<char>, T)>) -> Seq<Seq<char>> {
    Seq::new(s.len(), |i: int| s[i].0)
}

/// `added` lists exactly the keys of `rt` absent from `lt`, sorted, each
/// with the lossy text of its `rt` value.
pub open spec fn spec_added_ok(
    lt: Seq<(Seq<char>, Seq<u16>)>,
    rt: Seq<(Seq<char>, Seq<u16>)>,
    added: Seq<(Seq<char>, Seq<char>)>,
) -> bool {
    &&& spec_sorted_names(spec_keys_of(added))
    &&& forall|i: int|
        0 <= i < added.len() ==> {
            &&& spec_table_get(lt, (#[trigger] added[i]).0) is None
            &&& spec_table_get(rt, added[i].0) matches Some(v) && added[i].1 == utf16_lossy_of(v)
        }
    &&& forall|k: Seq<char>|
        (#[trigger] spec_table_get(rt, k)) is Some && spec_table_get(lt, k) is None
            ==> spec_has_name(spec_keys_of(added), k)
}

/// `modified` lists exactly the shared keys whose lossy value texts
/// differ, sorted; in full mode each carries the tagged line diff of the
/// two texts, otherwise no lines.
pub open spec fn spec_modified_ok(
    lt: Seq<(Seq<char>, Seq<u16>)>,
    rt: Seq<(Seq<char>, Seq<u16>)>,
    mode: DiffMode,
    modified: Seq<(Seq<char>, Seq<(u8, Seq<char>)>)>,
) -> bool {
    &&& spec_sorted_names(spec_keys_of(modified))
    &&& forall|i: int|
        0 <= i < modified.len() ==> {
            let k = (#[trigger] modified[i]).0;
            &&& spec_table_get(lt, k) matches Some(lv) && spec_table_get(rt, k) matches Some(rv)
                && utf16_lossy_of(lv) != utf16_lossy_of(rv) && modified[i].1 == (
            if mode is Full {
                line_diff_of(utf16_lossy_of(lv), utf16_lossy_of(rv))
            } else {
                Seq::<(u8, Seq<char>)>::empty()
            })
        }
    &&& forall|k: Seq<char>|
        (#[trigger] spec_table_get(lt, k)) matches Some(lv) && spec_table_get(rt, k) matches Some(
            rv,
        ) && utf16_lossy_of(lv) != utf16_lossy_of(rv) ==> spec_has_name(spec_keys_of(modified), k)
}

/// The changes between two string tables.
#[derive(Debug)]
pub struct StfDiff {
    /// Keys only in the right table, each with its lossy value text,
    /// sorted by key.
    pub added: Vec<(String, String)>,
    /// Keys only in the left table, each with its lossy value text,
    /// sorted by key.
    pub removed: Vec<(String, String)>,
    /// Shared keys whose lossy value texts differ, sorted by key; in full
    /// mode each carries the tagged lines of the text diff.
    pub modified: Vec<(String, Vec<(u8, String)>)>,
}

impl StfDiff {
    /// Whether the two tables are equivalent.
    pub fn is_empty(&self) -> (r: bool)
        ensures
            r == (self.added@.len() == 0 && self.removed@.len() == 0 && self.modified@.len() == 0),
    {
        self.added.len() == 0 && self.removed.len() == 0 && self.modified.len() == 0
    }
}

/// Collects, in sorted order, the keys of `side` for which `in_other`
/// says the other table has no entry (when `absent` is true) or has one
/// (when `absent` is false).
#[verifier::loop_isolation(false)]
fn select_keys(side: &StringTable, other: &StringTable, absent: bool) -> (r: Vec<String>)
    requires
        side.wf(),
        other.wf(),
    ensures
        spec_sorted_names(r.deep_view()),
        forall|k: Seq<char>|
            spec_has_name(r.deep_view(), k) == ((#[trigger] spec_table_get(side@, k)) is Some && (
            spec_table_get(other@, k) is None) == absent),
{
    let keys = side.keys();
    let n = keys.len();
    let mut out: Vec<String> = Vec::new();
    proof {
        assert(out.deep_view().len() == 0);
    }
    let mut i: usize = 0;
    while i < n
        invariant
            i <= n,
            n == keys@.len(),
            spec_sorted_names(out.deep_view()),
            forall|k: Seq<char>|
                spec_has_name(out.deep_view(), k) == (exists|j: int|
                    0 <= j < i && #[trigger] keys@[j]@ == k && ((spec_table_get(other@, k) is None)
                        == absent)),
        decreases n - i,
    {
        let key = keys[i].clone();
        let present = other.contains_key(key.as_str());
        proof {
            if present {
                let w = choose|w: int| 0 <= w < other@.len() && (#[trigger] other@[w]).0 == key@;
                crate::stf::lemma_table_get_at(other@, key@, w);
            } else {
                crate::stf::lemma_table_get_none(other@, key@);
            }
        }
        if present != absent {
            insert_sorted(&mut out, key);
        }
        i = i + 1;
    }
    proof {
        assert forall|k: Seq<char>|
            spec_has_name(out.deep_view(), k) == ((#[trigger] spec_table_get(side@, k)) is Some
                && (spec_table_get(other@, k) is None) == absent) by {
            if spec_has_name(out.deep_view(), k) {
                let j = choose|j: int|
                    0 <= j < n && #[trigger] keys@[j]@ == k && ((spec_table_get(other@, k) is None)
                        == absent);
                assert(side@[j].0 == k);
                crate::stf::lemma_table_get_at(side@, k, j);
            }
            if spec_table_get(side@, k) is Some && (spec_table_get(other@, k) is None) == absent {
                crate::stf::lemma_find_key_props(side@, k);
                let j = crate::stf::spec_find_key(side@, k);
                assert(keys@[j]@ == k);
            }
        }
    }
    out
}

/// Pairs each listed key with the lossy text of its value in `side`.
#[verifier::loop_isolation(false)]
fn pair_with_values(side: &StringTable, keys: &Vec<String>) -> (r: Vec<(String, String)>)
    requires
        side.wf(),
        forall|j: int|
            0 <= j < keys.deep_view().len() ==> (#[trigger] spec_table_get(
                side@,
                keys.deep_view()[j],
            )) is Some,
    ensures
        spec_keys_of(r.deep_view()) == keys.deep_view(),
        forall|p: int|
            0 <= p < r.deep_view().len() ==> (#[trigger] r.deep_view()[p]).1 == utf16_lossy_of(
                spec_table_get(side@, r.deep_view()[p].0).unwrap(),
            ),
{
    let n = keys.len();
    let mut out: Vec<(String, String)> = Vec::new();
    let mut i: usize = 0;
    while i < n
        invariant
            i <= n,
            n == keys@.len(),
            out.deep_view().len() == i,
            forall|p: int|
                0 <= p < i ==> (#[trigger] out.deep_view()[p]).0 == keys.deep_view()[p],
            forall|p: int|
                0 <= p < i ==> (#[trigger] out.deep_view()[p]).1 == utf16_lossy_of(
                    spec_table_get(side@, out.deep_view()[p].0).unwrap(),
                ),
        decreases n - i,
    {
        let key = keys[i].clone();
        proof {
            assert(keys.deep_view()[i as int] == key@);
        }
        let text = match side.get(key.as_str()) {
            Some(v) => {
                proof {
                    let w = choose|w: int|
                        0 <= w < side@.len() && #[trigger] side@[w] == (key@, v@);
                    crate::stf::lemma_table_get_at(side@, key@, w);
                }
                utf16_lossy(v.as_slice())
            },
            None => {
                proof {
                    assert(spec_table_get(side@, key@) is Some) by {
                        assert(spec_table_get(side@, keys.deep_view()[i as int]) is Some);
                    }
                    crate::stf::lemma_find_key_props(side@, key@);
                    assert(side@[crate::stf::spec_find_key(side@, key@)].0 == key@);
                    assert(false);
                }
                String::new()
            },
        };
        let ghost out0 = out.deep_view();
        out.push((key, text));
        proof {
            assert(forall|p: int| 0 <= p < i ==> #[trigger] out.deep_view()[p] == out0[p]);
            assert(out.deep_view()[i as int].0 == keys.deep_view()[i as int]);
            assert(out.deep_view()[i as int].1 == text@);
        }
        i = i + 1;
    }
    proof {
        assert(spec_keys_of(out.deep_view()) =~= keys.deep_view());
    }
    out
}

/// Compares two string tables: added and removed keys, and shared keys
/// whose lossy value texts differ — with inline line diffs in full mode.
#[verifier::loop_isolation(false)]
#[verifier::rlimit(100)]
pub fn diff_string_tables(left: &StringTable, right: &StringTable, mode: DiffMode) -> (r: StfDiff)
    requires
        left.wf(),
        right.wf(),
    ensures
        spec_added_ok(left@, right@, r.added.deep_view()),
        spec_added_ok(right@, left@, r.removed.deep_view()),
        spec_modified_ok(left@, right@, mode, r.modified.deep_view()),
{
    let added_keys = select_keys(right, left, true);
    let removed_keys = select_keys(left, right, true);
    let shared_keys = select_keys(left, right, false);
    proof {
        assert(forall|j: int|
            0 <= j < added_keys.deep_view().len() ==> (#[trigger] spec_table_get(
                right@,
                added_keys.deep_view()[j],
            )) is Some && spec_table_get(left@, added_keys.deep_view()[j]) is None) by {
            assert(forall|j: int|
                0 <= j < added_keys.deep_view().len() ==> #[trigger] spec_has_name(
                    added_keys.deep_view(),
                    added_keys.deep_view()[j],
                ));
        }
        assert(forall|j: int|
            0 <= j < removed_keys.deep_view().len() ==> (#[trigger] spec_table_get(
                left@,
                removed_keys.deep_view()[j],
            )) is Some && spec_table_get(right@, removed_keys.deep_view()[j]) is None) by {
            assert(forall|j: int|
                0 <= j < removed_keys.deep_view().len() ==> #[trigger] spec_has_name(
                    removed_keys.deep_view(),
                    removed_keys.deep_view()[j],
                ));
        }
        assert(forall|j: int|
            0 <= j < shared_keys.deep_view().len() ==> (#[trigger] spec_table_get(
                left@,
                shared_keys.deep_view()[j],
            )) is Some && spec_table_get(right@, shared_keys.deep_view()[j]) is Some) by {
            assert(forall|j: int|
                0 <= j < shared_keys.deep_view().len() ==> #[trigger] spec_has_name(
                    shared_keys.deep_view(),
                    shared_keys.deep_view()[j],
                ));
        }
    }
    let added = pair_with_values(right, &added_keys);
    let removed = pair_with_values(left, &removed_keys);
    let n = shared_keys.len();
    let mut modified: Vec<(String, Vec<(u8, String)>)> = Vec::new();
    let mut i: usize = 0;
    while i < n
        invariant
            i <= n,
            n == shared_keys@.len(),
            n == shared_keys.deep_view().len(),
            spec_sorted_names(spec_keys_of(modified.deep_view())),
            forall|p: int|
                0 <= p < modified.deep_view().len() ==> exists|j: int|
                    0 <= j < i && (#[trigger] modified.deep_view()[p]).0
                        == shared_keys.deep_view()[j],
            forall|p: int|
                0 <= p < modified.deep_view().len() ==> {
                    let k = (#[trigger] modified.deep_view()[p]).0;
                    &&& spec_table_get(left@, k) matches Some(lv) && spec_table_get(right@, k)
                        matches Some(rv) && utf16_lossy_of(lv) != utf16_lossy_of(rv)
                        && modified.deep_view()[p].1 == (
                    if mode is Full {
                        line_diff_of(utf16_lossy_of(lv), utf16_lossy_of(rv))
                    } else {
                        Seq::<(u8, Seq<char>)>::empty()
                    })
                },
            forall|k: Seq<char>|
                ((#[trigger] spec_table_get(left@, k)) matches Some(lv) && spec_table_get(
                    right@,
                    k,
                ) matches Some(rv) && utf16_lossy_of(lv) != utf16_lossy_of(rv) && (exists|j: int|
                    0 <= j < i && shared_keys.deep_view()[j] == k)) ==> spec_has_name(
                    spec_keys_of(modified.deep_view()),
                    k,
                ),
        decreases n - i,
    {
        let key = shared_keys[i].clone();
        proof {
            assert(shared_keys.deep_view()[i as int] == key@);
            assert(spec_table_get(left@, key@) is Some) by {
                assert(spec_table_get(left@, shared_keys.deep_view()[i as int]) is Some);
            }
            assert(spec_table_get(right@, key@) is Some) by {
                assert(spec_table_get(right@, shared_keys.deep_view()[i as int]) is Some);
            }
        }
        let ltext = match left.get(key.as_str()) {
            Some(v) => {
                proof {
                    let w = choose|w: int|
                        0 <= w < left@.len() && #[trigger] left@[w] == (key@, v@);
                    crate::stf::lemma_table_get_at(left@, key@, w);
                }
                utf16_lossy(v.as_slice())
            },
            None => {
                proof {
                    crate::stf::lemma_find_key_props(left@, key@);
                    assert(left@[crate::stf::spec_find_key(left@, key@)].0 == key@);
                    assert(false);
                }
                String::new()
            },
        };
        let rtext = match right.get(key.as_str()) {
            Some(v) => {
                proof {
                    let w = choose|w: int|
                        0 <= w < right@.len() && #[trigger] right@[w] == (key@, v@);
                    crate::stf::lemma_table_get_at(right@, key@, w);
                }
                utf16_lossy(v.as_slice())
            },
            None => {
                proof {
                    crate::stf::lemma_find_key_props(right@, key@);
                    assert(right@[crate::stf::spec_find_key(right@, key@)].0 == key@);
                    assert(false);
                }
                String::new()
            },
        };
        let ghost mods0 = modified.deep_view();
        if !crate::read::str_eq(ltext.as_str(), rtext.as_str()) {
            let lines: Vec<(u8, String)> = if mode == DiffMode::Full {
                line_diff(ltext.as_str(), rtext.as_str())
            } else {
                Vec::new()
            };
            proof {
                if !(mode is Full) {
                    assert(lines.deep_view() =~= Seq::<(u8, Seq<char>)>::empty());
                }
            }
            modified.push((key, lines));
            proof {
                let dv = modified.deep_view();
                assert(forall|p: int| 0 <= p < mods0.len() ==> #[trigger] dv[p] == mods0[p]);
                assert(dv[mods0.len() as int].0 == key@);
                assert(dv[mods0.len() as int].1 == lines.deep_view());
                assert forall|p: int, q: int|
                    0 <= p < q < dv.len() implies spec_name_lt(
                    #[trigger] spec_keys_of(dv)[p],
                    #[trigger] spec_keys_of(dv)[q],
                ) by {
                    if q < mods0.len() {
                        assert(spec_keys_of(mods0)[p] == spec_keys_of(dv)[p]);
                        assert(spec_keys_of(mods0)[q] == spec_keys_of(dv)[q]);
                    } else {
                        let j = choose|j: int|
                            0 <= j < i && (#[trigger] mods0[p]).0 == shared_keys.deep_view()[j];
                        assert(spec_name_lt(
                            shared_keys.deep_view()[j],
                            shared_keys.deep_view()[i as int],
                        ));
                    }
                }
            }
        }
        i = i + 1;
        proof {
            assert forall|k: Seq<char>|
                ((#[trigger] spec_table_get(left@, k)) matches Some(lv) && spec_table_get(
                    right@,
                    k,
                ) matches Some(rv) && utf16_lossy_of(lv) != utf16_lossy_of(rv) && (exists|j: int|
                    0 <= j < i && shared_keys.deep_view()[j] == k)) implies spec_has_name(
                spec_keys_of(modified.deep_view()),
                k,
            ) by {
                let dv = modified.deep_view();
                let j = choose|j: int| 0 <= j < i && shared_keys.deep_view()[j] == k;
                if j == i - 1 {
                    assert(k == key@);
                    assert(spec_keys_of(dv)[dv.len() - 1] == k);
                } else {
                    assert(exists|j2: int|
                        0 <= j2 < i - 1 && shared_keys.deep_view()[j2] == k);
                    assert(spec_has_name(spec_keys_of(mods0), k));
                    let w = choose|w: int|
                        0 <= w < spec_keys_of(mods0).len() && spec_keys_of(mods0)[w] == k;
                    assert(mods0[w].0 == k);
                    assert(dv[w].0 == k);
                    assert(spec_keys_of(dv)[w] == k);
                }
            }
        }
    }
    proof {
        assert(spec_added_ok(left@, right@, added.deep_view())) by {
            assert(spec_keys_of(added.deep_view()) == added_keys.deep_view());
            assert(added.deep_view().len() == added_keys.deep_view().len());
            assert forall|i: int|
                0 <= i < added.deep_view().len() implies {
                &&& spec_table_get(left@, (#[trigger] added.deep_view()[i]).0) is None
                &&& spec_table_get(right@, added.deep_view()[i].0) matches Some(v)
                    && added.deep_view()[i].1 == utf16_lossy_of(v)
            } by {
                assert(spec_keys_of(added.deep_view())[i] == added.deep_view()[i].0);
                assert(added.deep_view()[i].0 == added_keys.deep_view()[i]);
                assert(spec_table_get(right@, added_keys.deep_view()[i]) is Some);
                assert(spec_table_get(left@, added_keys.deep_view()[i]) is None);
            }
            assert forall|k: Seq<char>|
                (#[trigger] spec_table_get(right@, k)) is Some && spec_table_get(left@, k) is None
                    implies spec_has_name(spec_keys_of(added.deep_view()), k) by {
                assert(spec_has_name(added_keys.deep_view(), k));
            }
        }
        assert(spec_added_ok(right@, left@, removed.deep_view())) by {
            assert(spec_keys_of(removed.deep_view()) == removed_keys.deep_view());
            assert(removed.deep_view().len() == removed_keys.deep_view().len());
            assert forall|i: int|
                0 <= i < removed.deep_view().len() implies {
                &&& spec_table_get(right@, (#[trigger] removed.deep_view()[i]).0) is None
                &&& spec_table_get(left@, removed.deep_view()[i].0) matches Some(v)
                    && removed.deep_view()[i].1 == utf16_lossy_of(v)
            } by {
                assert(spec_keys_of(removed.deep_view())[i] == removed.deep_view()[i].0);
                assert(removed.deep_view()[i].0 == removed_keys.deep_view()[i]);
                assert(spec_table_get(left@, removed_keys.deep_view()[i]) is Some);
                assert(spec_table_get(right@, removed_keys.deep_view()[i]) is None);
            }
            assert forall|k: Seq<char>|
                (#[trigger] spec_table_get(left@, k)) is Some && spec_table_get(right@, k) is None
                    implies spec_has_name(spec_keys_of(removed.deep_view()), k) by {
                assert(spec_has_name(removed_keys.deep_view(), k));
            }
        }
    }
    StfDiff { added, removed, modified }
}

/// The first entry index bearing `name`, or `-1` when none does.
pub open spec fn spec_name_index(files: Seq<FileView>, k: Seq<char>) -> int
    decreases files.len(),
{
    if files.len() == 0 {
        -1
    } else if files[0].name == k {
        0
    } else {
        let r = spec_name_index(files.skip(1), k);
        if r < 0 {
            -1
        } else {
            r + 1
        }
    }
}

/// The first index bearing a name, when present, is in bounds, bears it,
/// and has no earlier bearer.
pub proof fn lemma_name_index_props(files: Seq<FileView>, k: Seq<char>)
    ensures
        spec_name_index(files, k) >= 0 ==> {
            &&& spec_name_index(files, k) < files.len()
            &&& files[spec_name_index(files, k)].name == k
            &&& forall|j: int| 0 <= j < spec_name_index(files, k) ==> files[j].name != k
        },
        spec_name_index(files, k) < 0 ==> forall|j: int|
            0 <= j < files.len() ==> files[j].name != k,
    decreases files.len(),
{
    if files.len() > 0 && files[0].name != k {
        let s = files.skip(1);
        lemma_name_index_props(s, k);
        assert(forall|j: int| 0 <= j < s.len() ==> s[j] == files[j + 1]);
        if spec_name_index(files, k) >= 0 {
            let i = spec_name_index(files, k);
            assert(spec_name_index(s, k) == i - 1);
            assert(forall|j: int| 0 <= j < i ==> files[j].name != k) by {
                assert(forall|j: int| 1 <= j < i ==> files[j] == s[j - 1]);
            }
        } else {
            assert(forall|j: int| 0 <= j < files.len() ==> files[j].name != k) by {
                assert(forall|j: int| 1 <= j < files.len() ==> files[j] == s[j - 1]);
            }
        }
    }
}

/// The first bearer of a name pins `spec_name_index`.
pub proof fn lemma_name_index_at(files: Seq<FileView>, k: Seq<char>, i: int)
    requires
        0 <= i < files.len(),
        files[i].name == k,
        forall|j: int| 0 <= j < i ==> files[j].name != k,
    ensures
        spec_name_index(files, k) == i,
    decreases i,
{
    if i > 0 {
        let s = files.skip(1);
        assert(forall|j: int| 0 <= j < s.len() ==> s[j] == files[j + 1]);
        lemma_name_index_at(s, k, i - 1);
    }
}

/// An archive holds an entry named `k`.
pub open spec fn spec_arch_has(files: Seq<FileView>, k: Seq<char>) -> bool {
    exists|i: int| 0 <= i < files.len() && (#[trigger] files[i]).name == k
}

/// The payload of the first entry named `k`, decompressed; `None` when the
/// name is absent or the stored payload is corrupt.
pub open spec fn spec_data_by_name(a: TreArchive, k: Seq<char>) -> Option<Seq<u8>> {
    let i = spec_name_index(a@, k);
    if i >= 0 {
        spec_entry_data_at(a, i)
    } else {
        None
    }
}

/// The name's UTF-8 encoding ends with the four bytes of `.stf`.
pub open spec fn spec_is_stf_name(k: Seq<char>) -> bool {
    let b = encode_utf8(k);
    &&& b.len() >= 4
    &&& b[b.len() - 4] == 0x2e
    &&& b[b.len() - 3] == 0x73
    &&& b[b.len() - 2] == 0x74
    &&& b[b.len() - 1] == 0x66
}

/// Whether the name ends with `.stf`.
fn ends_with_stf(name: &str) -> (r: bool)
    ensures
        r == spec_is_stf_name(name@),
{
    let b = name.as_bytes();
    let n = b.len();
    if n < 4 {
        return false;
    }
    b[n - 4] == 0x2e && b[n - 3] == 0x73 && b[n - 2] == 0x74 && b[n - 1] == 0x66
}

/// The table an STF payload parses to, when it parses.
#[verifier::opaque]
pub open spec fn spec_parsed_table(d: Seq<u8>) -> Option<Seq<(Seq<char>, Seq<u16>)>> {
    match crate::stf::spec_stf_parse(d) {
        crate::stf::StfParse::Table(t) => Some(t),
        _ => None,
    }
}

/// Two string tables are equivalent: the same keys, and for each key the
/// same lossy value text.
pub open spec fn spec_tables_equiv(
    lt: Seq<(Seq<char>, Seq<u16>)>,
    rt: Seq<(Seq<char>, Seq<u16>)>,
) -> bool {
    &&& forall|k: Seq<char>| (#[trigger] spec_table_get(lt, k)) is Some ==> spec_table_get(rt, k) is Some
    &&& forall|k: Seq<char>| (#[trigger] spec_table_get(rt, k)) is Some ==> spec_table_get(lt, k) is Some
    &&& forall|k: Seq<char>|
        ((#[trigger] spec_table_get(lt, k)) is Some && spec_table_get(rt, k) is Some)
            ==> utf16_lossy_of(spec_table_get(lt, k).unwrap()) == utf16_lossy_of(
            spec_table_get(rt, k).unwrap(),
        )
}

/// The changes found in one shared archive entry.
#[derive(Debug)]
pub struct FileDiff {
    /// The entry's name.
    pub name: String,
    /// The two payload sizes, when they differ.
    pub size: Option<(u64, u64)>,
    /// The string-table comparison, when the entry is an STF payload whose
    /// tables are not equivalent.
    pub stf: Option<StfDiff>,
}

/// One shared entry's diff is correct for the two archives.
#[verifier::opaque]
pub open spec fn spec_file_diff_ok(
    left: TreArchive,
    right: TreArchive,
    mode: DiffMode,
    fd: FileDiff,
) -> bool {
    let k = fd.name@;
    &&& spec_arch_has(left@, k)
    &&& spec_arch_has(right@, k)
    &&& spec_data_by_name(left, k) matches Some(ld) && spec_data_by_name(right, k) matches Some(
        rd,
    ) && {
        &&& fd.size == (
        if ld.len() != rd.len() {
            Some((ld.len() as u64, rd.len() as u64))
        } else {
            None::<(u64, u64)>
        })
        &&& match fd.stf {
            Some(sd) => {
                &&& spec_is_stf_name(k)
                &&& spec_parsed_table(ld) matches Some(lt) && spec_parsed_table(rd) matches Some(
                    rt,
                ) && {
                    &&& spec_added_ok(lt, rt, sd.added.deep_view())
                    &&& spec_added_ok(rt, lt, sd.removed.deep_view())
                    &&& spec_modified_ok(lt, rt, mode, sd.modified.deep_view())
                    &&& !(sd.added@.len() == 0 && sd.removed@.len() == 0 && sd.modified@.len()
                        == 0)
                }
            },
            None => !spec_is_stf_name(k) || (spec_parsed_table(ld) matches Some(lt)
                && spec_parsed_table(rd) matches Some(rt) && spec_tables_equiv(lt, rt)),
        }
        &&& fd.size is Some || fd.stf is Some
    }
}

/// A shared entry is changed: its payload sizes differ, or it is an STF
/// payload whose tables are not equivalent.
#[verifier::opaque]
pub open spec fn spec_entry_changed(left: TreArchive, right: TreArchive, k: Seq<char>) -> bool {
    &&& spec_data_by_name(left, k) matches Some(ld) && spec_data_by_name(right, k) matches Some(
        rd,
    ) && (ld.len() != rd.len() || (spec_is_stf_name(k) && spec_parsed_table(ld) is Some
        && spec_parsed_table(rd) is Some && !spec_tables_equiv(
        spec_parsed_table(ld).unwrap(),
        spec_parsed_table(rd).unwrap(),
    )))
}

/// A shared entry the diff cannot read: a payload that does not load, or
/// an STF payload that does not decode.
#[verifier::opaque]
pub open spec fn spec_entry_unreadable(left: TreArchive, right: TreArchive, k: Seq<char>) -> bool {
    ||| spec_data_by_name(left, k) is None
    ||| spec_data_by_name(right, k) is None
    ||| (spec_is_stf_name(k) && spec_data_by_name(left, k) is Some && spec_parsed_table(
        spec_data_by_name(left, k).unwrap(),
    ) is None)
    ||| (spec_is_stf_name(k) && spec_data_by_name(right, k) is Some && spec_parsed_table(
        spec_data_by_name(right, k).unwrap(),
    ) is None)
}

/// The changes found between two archives.
#[derive(Debug)]
pub struct ArchiveDiff {
    /// The two entry counts, when they differ.
    pub entries: Option<(u64, u64)>,
    /// The two record-block compression tags, compared in full mode.
    pub record_compression: Option<(u32, u32)>,
    /// The two record-block sizes, compared in full mode.
    pub record_block_size: Option<(u32, u32)>,
    /// The two name-block sizes, compared in full mode.
    pub name_block_size: Option<(u32, u32)>,
    /// Names present only on the right side, sorted.
    pub added: Vec<String>,
    /// Names present only on the left side, sorted.
    pub removed: Vec<String>,
    /// Shared entries that changed, sorted by name.
    pub modified: Vec<FileDiff>,
}

impl ArchiveDiff {
    /// Whether the two archives are equivalent under the chosen mode.
    pub fn is_empty(&self) -> (r: bool)
        ensures
            r == (self.entries is None && self.record_compression is None
                && self.record_block_size is None && self.name_block_size is None
                && self.added@.len() == 0 && self.removed@.len() == 0 && self.modified@.len()
                == 0),
    {
        self.entries.is_none() && self.record_compression.is_none()
            && self.record_block_size.is_none() && self.name_block_size.is_none()
            && self.added.len() == 0 && self.removed.len() == 0 && self.modified.len() == 0
    }
}

/// Collects, in sorted order, the names of `side` whose presence in
/// `other` equals `present`.
#[verifier::loop_isolation(false)]
fn select_names(side: &TreArchive, other: &TreArchive, present: bool) -> (r: Vec<String>)
    ensures
        spec_sorted_names(r.deep_view()),
        forall|k: Seq<char>|
            spec_has_name(r.deep_view(), k) == ((#[trigger] spec_arch_has(side@, k))
                && spec_arch_has(other@, k) == present),
{
    let names = side.file_names();
    let n = names.len();
    let mut out: Vec<String> = Vec::new();
    proof {
        assert(out.deep_view().len() == 0);
    }
    let mut i: usize = 0;
    while i < n
        invariant
            i <= n,
            n == names@.len(),
            spec_sorted_names(out.deep_view()),
            forall|k: Seq<char>|
                spec_has_name(out.deep_view(), k) == (exists|j: int|
                    0 <= j < i && #[trigger] names@[j]@ == k && spec_arch_has(other@, k)
                        == present),
        decreases n - i,
    {
        let name = names[i].clone();
        let found = match other.index_for_name(name.as_str()) {
            Some(_) => true,
            None => false,
        };
        proof {
            if found {
                assert(spec_arch_has(other@, name@));
            } else {
                assert(!spec_arch_has(other@, name@)) by {
                    if spec_arch_has(other@, name@) {
                        let w = choose|w: int|
                            0 <= w < other@.len() && (#[trigger] other@[w]).name == name@;
                        assert(other@[w].name != name@);
                    }
                }
            }
        }
        if found == present {
            insert_sorted(&mut out, name);
        }
        i = i + 1;
    }
    proof {
        assert forall|k: Seq<char>|
            spec_has_name(out.deep_view(), k) == ((#[trigger] spec_arch_has(side@, k))
                && spec_arch_has(other@, k) == present) by {
            if spec_has_name(out.deep_view(), k) {
                let j = choose|j: int|
                    0 <= j < n && #[trigger] names@[j]@ == k && spec_arch_has(other@, k)
                        == present;
                assert(side@[j].name == k);
            }
            if spec_arch_has(side@, k) && spec_arch_has(other@, k) == present {
                let w = choose|w: int|
                    0 <= w < side@.len() && (#[trigger] side@[w]).name == k;
                assert(names@[w]@ == k);
            }
        }
    }
    out
}

/// Compares one shared entry of the two archives: its payload sizes and,
/// for an STF payload, its string tables. Yields the entry's diff when it
/// changed, nothing when it did not, and fails exactly when a payload does
/// not load or an STF payload does not decode.
#[verifier::loop_isolation(false)]
#[verifier::rlimit(100)]
fn compare_shared_entry(left: &TreArchive, right: &TreArchive, mode: DiffMode, name: &str) -> (r:
    Result<Option<FileDiff>, Error>)
    requires
        left.wf(),
        right.wf(),
        spec_arch_has(left@, name@),
        spec_arch_has(right@, name@),
    ensures
        match r {
            Ok(fd_opt) => match fd_opt {
                Some(fd) => fd.name@ == name@ && spec_file_diff_ok(*left, *right, mode, fd)
                    && spec_entry_changed(*left, *right, name@),
                None => !spec_entry_changed(*left, *right, name@) && spec_data_by_name(
                    *left,
                    name@,
                ) is Some && spec_data_by_name(*right, name@) is Some,
            },
            Err(e) => (e matches Error::IOError(_) || e matches Error::CustomError(_))
                && spec_entry_unreadable(*left, *right, name@),
        },
{
    let lf = match left.by_name(name) {
        Ok(f) => f,
        Err(e) => {
            proof {
                match e {
                    Error::FileNotFound(_) => {
                        let w = choose|w: int|
                            0 <= w < left@.len() && (#[trigger] left@[w]).name == name@;
                        assert(left@[w].name != name@);
                    },
                    _ => {
                        let w = choose|w: int|
                            #[trigger] crate::read::spec_first_with_name(left@, name@, w)
                                && spec_entry_data_at(*left, w) is None;
                        lemma_name_index_at(left@, name@, w);
                        assert(spec_data_by_name(*left, name@) is None);
                    },
                }
                reveal(spec_entry_unreadable);
            }
            return Err(e);
        },
    };
    proof {
        let w = choose|w: int|
            #[trigger] crate::read::spec_first_with_name(left@, name@, w) && lf@ == left@[w]
                && Some(lf.spec_data()) == spec_entry_data_at(*left, w);
        lemma_name_index_at(left@, name@, w);
        assert(spec_data_by_name(*left, name@) == Some(lf.spec_data()));
    }
    let rf = match right.by_name(name) {
        Ok(f) => f,
        Err(e) => {
            proof {
                match e {
                    Error::FileNotFound(_) => {
                        let w = choose|w: int|
                            0 <= w < right@.len() && (#[trigger] right@[w]).name == name@;
                        assert(right@[w].name != name@);
                    },
                    _ => {
                        let w = choose|w: int|
                            #[trigger] crate::read::spec_first_with_name(right@, name@, w)
                                && spec_entry_data_at(*right, w) is None;
                        lemma_name_index_at(right@, name@, w);
                        assert(spec_data_by_name(*right, name@) is None);
                    },
                }
                reveal(spec_entry_unreadable);
            }
            return Err(e);
        },
    };
    proof {
        let w = choose|w: int|
            #[trigger] crate::read::spec_first_with_name(right@, name@, w) && rf@ == right@[w]
                && Some(rf.spec_data()) == spec_entry_data_at(*right, w);
        lemma_name_index_at(right@, name@, w);
        assert(spec_data_by_name(*right, name@) == Some(rf.spec_data()));
    }
    let llen_d = lf.data().len();
    let rlen_d = rf.data().len();
    let size: Option<(u64, u64)> = if llen_d != rlen_d {
        Some((llen_d as u64, rlen_d as u64))
    } else {
        None
    };
    let mut stf_opt: Option<StfDiff> = None;
    let is_stf = ends_with_stf(name);
    if is_stf {
        stf_opt = match compare_stf_payloads(lf.data(), rf.data(), mode) {
            Ok(o) => o,
            Err(e) => {
                proof {
                    reveal(spec_entry_unreadable);
                }
                return Err(e);
            },
        };
    }
    proof {
        reveal(spec_file_diff_ok);
        reveal(spec_entry_changed);
    }
    if size.is_some() || stf_opt.is_some() {
        Ok(Some(FileDiff { name: name.to_owned(), size, stf: stf_opt }))
    } else {
        Ok(None)
    }
}

/// Decodes two STF payloads and compares their tables; yields their diff
/// when the tables are not equivalent, nothing when they are, and fails
/// exactly when a payload does not decode.
#[verifier::loop_isolation(false)]
#[verifier::rlimit(100)]
fn compare_stf_payloads(ld: &Vec<u8>, rd: &Vec<u8>, mode: DiffMode) -> (r: Result<
    Option<StfDiff>,
    Error,
>)
    ensures
        match r {
            Ok(sd_opt) => match sd_opt {
                Some(sd) => spec_parsed_table(ld@) matches Some(lt) && spec_parsed_table(rd@)
                    matches Some(rt) && {
                    &&& spec_added_ok(lt, rt, sd.added.deep_view())
                    &&& spec_added_ok(rt, lt, sd.removed.deep_view())
                    &&& spec_modified_ok(lt, rt, mode, sd.modified.deep_view())
                    &&& !(sd.added@.len() == 0 && sd.removed@.len() == 0 && sd.modified@.len()
                        == 0)
                    &&& !spec_tables_equiv(lt, rt)
                },
                None => spec_parsed_table(ld@) matches Some(lt) && spec_parsed_table(rd@)
                    matches Some(rt) && spec_tables_equiv(lt, rt),
            },
            Err(e) => (e matches Error::CustomError(_)) && (spec_parsed_table(ld@) is None
                || spec_parsed_table(rd@) is None),
        },
{
    proof {
        reveal(spec_parsed_table);
    }
    let lt = match crate::stf::StringTableReader::decode(ld.as_slice()) {
        Ok(t) => t,
        Err(_) => {
            return Err(Error::CustomError("invalid string table payload".to_owned()));
        },
    };
    let rt = match crate::stf::StringTableReader::decode(rd.as_slice()) {
        Ok(t) => t,
        Err(_) => {
            return Err(Error::CustomError("invalid string table payload".to_owned()));
        },
    };
    proof {
        assert(spec_parsed_table(ld@) == Some(lt@));
        assert(spec_parsed_table(rd@) == Some(rt@));
    }
    let sd = diff_string_tables(&lt, &rt, mode);
    if !sd.is_empty() {
        proof {
            assert(!spec_tables_equiv(lt@, rt@)) by {
                if sd.added.deep_view().len() > 0 {
                    let k = sd.added.deep_view()[0].0;
                    assert(spec_table_get(lt@, k) is None && spec_table_get(rt@, k) is Some);
                } else if sd.removed.deep_view().len() > 0 {
                    let k = sd.removed.deep_view()[0].0;
                    assert(spec_table_get(rt@, k) is None && spec_table_get(lt@, k) is Some);
                } else {
                    let k = sd.modified.deep_view()[0].0;
                    assert(spec_table_get(lt@, k) is Some && spec_table_get(rt@, k) is Some
                        && utf16_lossy_of(spec_table_get(lt@, k).unwrap()) != utf16_lossy_of(
                        spec_table_get(rt@, k).unwrap(),
                    ));
                }
            }
        }
        Ok(Some(sd))
    } else {
        proof {
            assert(spec_tables_equiv(lt@, rt@)) by {
                assert(sd.added.deep_view().len() == 0);
                assert(sd.removed.deep_view().len() == 0);
                assert(sd.modified.deep_view().len() == 0);
                assert forall|k: Seq<char>|
                    (#[trigger] spec_table_get(rt@, k)) is Some implies spec_table_get(
                    lt@,
                    k,
                ) is Some by {
                    if spec_table_get(lt@, k) is None {
                        assert(spec_has_name(spec_keys_of(sd.added.deep_view()), k));
                    }
                }
                assert forall|k: Seq<char>|
                    (#[trigger] spec_table_get(lt@, k)) is Some implies spec_table_get(
                    rt@,
                    k,
                ) is Some by {
                    if spec_table_get(rt@, k) is None {
                        assert(spec_has_name(spec_keys_of(sd.removed.deep_view()), k));
                    }
                }
                assert forall|k: Seq<char>|
                    ((#[trigger] spec_table_get(lt@, k)) is Some && spec_table_get(rt@, k)
                        is Some) implies utf16_lossy_of(spec_table_get(lt@, k).unwrap())
                    == utf16_lossy_of(spec_table_get(rt@, k).unwrap()) by {
                    if utf16_lossy_of(spec_table_get(lt@, k).unwrap()) != utf16_lossy_of(
                        spec_table_get(rt@, k).unwrap(),
                    ) {
                        assert(spec_has_name(spec_keys_of(sd.modified.deep_view()), k));
                    }
                }
            }
        }
        Ok(None)
    }
}

/// The archive-level diff is correct for the two archives and mode: exact
/// count and layout comparisons, sorted and exact added and removed name
/// sets, and a sorted, exact list of changed shared entries.
#[verifier::opaque]
pub open spec fn spec_archive_diff_ok(
    left: TreArchive,
    right: TreArchive,
    mode: DiffMode,
    d: ArchiveDiff,
) -> bool {
    &&& d.entries == (
    if left@.len() != right@.len() {
        Some((left@.len() as u64, right@.len() as u64))
    } else {
        None::<(u64, u64)>
    })
    &&& d.record_compression == (
    if mode is Full && left.spec_header().record_compression
        != right.spec_header().record_compression {
        Some(
            (
                left.spec_header().record_compression.spec_tag(),
                right.spec_header().record_compression.spec_tag(),
            ),
        )
    } else {
        None::<(u32, u32)>
    })
    &&& d.record_block_size == (
    if mode is Full && left.spec_header().record_compressed
        != right.spec_header().record_compressed {
        Some((left.spec_header().record_compressed, right.spec_header().record_compressed))
    } else {
        None::<(u32, u32)>
    })
    &&& d.name_block_size == (
    if mode is Full && left.spec_header().name_compressed != right.spec_header().name_compressed {
        Some((left.spec_header().name_compressed, right.spec_header().name_compressed))
    } else {
        None::<(u32, u32)>
    })
    &&& spec_sorted_names(d.added.deep_view())
    &&& forall|k: Seq<char>|
        spec_has_name(d.added.deep_view(), k) == ((#[trigger] spec_arch_has(right@, k))
            && !spec_arch_has(left@, k))
    &&& spec_sorted_names(d.removed.deep_view())
    &&& forall|k: Seq<char>|
        spec_has_name(d.removed.deep_view(), k) == ((#[trigger] spec_arch_has(left@, k))
            && !spec_arch_has(right@, k))
    &&& spec_sorted_names(Seq::new(d.modified@.len(), |p: int| d.modified@[p].name@))
    &&& forall|p: int|
        0 <= p < d.modified@.len() ==> spec_file_diff_ok(
            left,
            right,
            mode,
            #[trigger] d.modified@[p],
        )
    &&& forall|k: Seq<char>|
        ((#[trigger] spec_arch_has(left@, k)) && spec_arch_has(right@, k) && spec_entry_changed(
            left,
            right,
            k,
        )) ==> exists|p: int| 0 <= p < d.modified@.len() && (#[trigger] d.modified@[p]).name@ == k
}

/// Compares two archives per the chosen mode: entry counts, container
/// layout in full mode, added, removed and changed entries — the latter
/// with a string-table comparison for `.stf` payloads. Fails exactly when
/// some shared entry cannot be read.
#[verifier::loop_isolation(false)]
#[verifier::rlimit(100)]
pub fn diff_archives(left: &TreArchive, right: &TreArchive, mode: DiffMode) -> (r: Result<
    ArchiveDiff,
    Error,
>)
    requires
        left.wf(),
        right.wf(),
    ensures
        match r {
            Ok(d) => spec_archive_diff_ok(*left, *right, mode, d),
            Err(e) => {
                &&& (e matches Error::IOError(_) || e matches Error::CustomError(_))
                &&& exists|k: Seq<char>|
                    (#[trigger] spec_arch_has(left@, k)) && spec_arch_has(right@, k)
                        && spec_entry_unreadable(*left, *right, k)
            },
        },
{
    let llen = left.len();
    let rlen = right.len();
    let entries: Option<(u64, u64)> = if llen != rlen {
        Some((llen as u64, rlen as u64))
    } else {
        None
    };
    let full = mode == DiffMode::Full;
    let record_compression: Option<(u32, u32)> = if full && left.get_record_compression()
        != right.get_record_compression() {
        Some((left.get_record_compression().tag(), right.get_record_compression().tag()))
    } else {
        None
    };
    let record_block_size: Option<(u32, u32)> = if full && left.get_record_block_size()
        != right.get_record_block_size() {
        Some((left.get_record_block_size(), right.get_record_block_size()))
    } else {
        None
    };
    let name_block_size: Option<(u32, u32)> = if full && left.get_name_block_size()
        != right.get_name_block_size() {
        Some((left.get_name_block_size(), right.get_name_block_size()))
    } else {
        None
    };
    let added = select_names(right, left, false);
    let removed = select_names(left, right, false);
    let shared = select_names(left, right, true);
    let ns = shared.len();
    let mut modified: Vec<FileDiff> = Vec::new();
    let mut i: usize = 0;
    #[verifier::loop_isolation(true)]
    while i < ns
        invariant
            i <= ns,
            ns == shared@.len(),
            ns == shared.deep_view().len(),
            left.wf(),
            right.wf(),
            spec_sorted_names(shared.deep_view()),
            forall|j: int| 0 <= j < ns ==> #[trigger] shared.deep_view()[j] == shared@[j]@,
            forall|k: Seq<char>|
                #![trigger spec_arch_has(left@, k)]
                #![trigger spec_has_name(shared.deep_view(), k)]
                spec_has_name(shared.deep_view(), k) == (spec_arch_has(left@, k)
                    && spec_arch_has(right@, k)),
            spec_sorted_names(Seq::new(modified@.len(), |p: int| modified@[p].name@)),
            forall|p: int|
                0 <= p < modified@.len() ==> exists|j: int|
                    0 <= j < i && (#[trigger] modified@[p]).name@ == shared.deep_view()[j],
            forall|p: int|
                0 <= p < modified@.len() ==> spec_file_diff_ok(
                    *left,
                    *right,
                    mode,
                    #[trigger] modified@[p],
                ),
            forall|k: Seq<char>|
                ((#[trigger] spec_arch_has(left@, k)) && spec_arch_has(right@, k)
                    && spec_entry_changed(*left, *right, k) && (exists|j: int|
                    0 <= j < i && shared.deep_view()[j] == k)) ==> exists|p: int|
                    0 <= p < modified@.len() && (#[trigger] modified@[p]).name@ == k,
        decreases ns - i,
    {
        let name = shared[i].clone();
        proof {
            assert(shared.deep_view()[i as int] == name@);
            assert(spec_has_name(shared.deep_view(), name@)) by {
                assert(shared.deep_view()[i as int] == name@);
            }
            assert(spec_arch_has(left@, name@) && spec_arch_has(right@, name@));
        }
        let step = match compare_shared_entry(left, right, mode, name.as_str()) {
            Ok(s) => s,
            Err(e) => {
                return Err(e);
            },
        };
        let ghost mods0 = modified@;
        match step {
            Some(fd) => {
                modified.push(fd);
                proof {
                    assert(forall|p: int|
                        0 <= p < mods0.len() ==> #[trigger] modified@[p] == mods0[p]);
                    assert(modified@[mods0.len() as int].name@ == shared.deep_view()[i as int]);
                    let keys0 = Seq::new(mods0.len(), |p: int| mods0[p].name@);
                    let keys1 = Seq::new(modified@.len(), |p: int| modified@[p].name@);
                    assert(forall|p: int|
                        0 <= p < mods0.len() ==> #[trigger] keys1[p] == keys0[p]);
                    assert forall|p: int, q: int|
                        0 <= p < q < keys1.len() implies spec_name_lt(
                        #[trigger] keys1[p],
                        #[trigger] keys1[q],
                    ) by {
                        if q < mods0.len() {
                            assert(keys0[p] == keys1[p] && keys0[q] == keys1[q]);
                        } else {
                            let j = choose|j: int|
                                0 <= j < i && (#[trigger] mods0[p]).name@
                                    == shared.deep_view()[j];
                            assert(spec_name_lt(
                                shared.deep_view()[j],
                                shared.deep_view()[i as int],
                            ));
                        }
                    }
                }
            },
            None => {},
        }
        i = i + 1;
        proof {
            assert forall|k: Seq<char>|
                ((#[trigger] spec_arch_has(left@, k)) && spec_arch_has(right@, k)
                    && spec_entry_changed(*left, *right, k) && (exists|j: int|
                    0 <= j < i && shared.deep_view()[j] == k)) implies exists|p: int|
                0 <= p < modified@.len() && (#[trigger] modified@[p]).name@ == k by {
                let j = choose|j: int| 0 <= j < i && shared.deep_view()[j] == k;
                if j == i - 1 {
                    assert(k == name@);
                    assert(modified@[modified@.len() - 1].name@ == k);
                } else {
                    let p = choose|p: int|
                        0 <= p < mods0.len() && (#[trigger] mods0[p]).name@ == k;
                    assert(modified@[p].name@ == k);
                }
            }
        }
    }
    proof {
        assert(i == ns);
        assert forall|k: Seq<char>|
            ((#[trigger] spec_arch_has(left@, k)) && spec_arch_has(right@, k)
                && spec_entry_changed(*left, *right, k)) implies exists|p: int|
            0 <= p < modified@.len() && (#[trigger] modified@[p]).name@ == k by {
            assert(spec_arch_has(right@, k) == true);
            assert(spec_has_name(shared.deep_view(), k));
            let j = choose|j: int|
                0 <= j < shared.deep_view().len() && #[trigger] shared.deep_view()[j] == k;
            assert(0 <= j < i && shared.deep_view()[j] == k);
            assert(exists|j2: int| 0 <= j2 < i && shared.deep_view()[j2] == k);
        }
    }
    let d = ArchiveDiff {
        entries,
        record_compression,
        record_block_size,
        name_block_size,
        added,
        removed,
        modified,
    };
    proof {
        reveal(spec_archive_diff_ok);
        assert(spec_archive_diff_ok(*left, *right, mode, d));
    }
    Ok(d)
}

} // verus!\n