//! The attributes of an element: a map from names to values whose entries
//! are kept in increasing order of name, as an ordered map of strings
//! keeps them.

use vstd::prelude::*;

use crate::text::{chars_eq, chars_lt, chars_of, lemma_seq_lt_asymmetric, lemma_seq_lt_irreflexive, lemma_seq_lt_total, lemma_seq_lt_transitive, seq_lt};

verus! {

/// An attribute entry as plain text: name and value.
pub type Entry = (Seq<char>, Seq<char>);

/// The names of `s` strictly increase.
pub open spec fn keys_sorted(s: Seq<Entry>) -> bool {
    forall|i: int, j: int| 0 <= i < j < s.len() ==> seq_lt(#[trigger] s[i].0, #[trigger] s[j].0)
}

/// The value of the first entry named `k`, if any.
pub open spec fn lookup(s: Seq<Entry>, k: Seq<char>) -> Option<Seq<char>>
    decreases s.len(),
{
    if s.len() == 0 {
        None
    } else if s[0].0 == k {
        Some(s[0].1)
    } else {
        lookup(s.drop_first(), k)
    }
}

/// `s` with `k` set to `v`: the entry named `k` is replaced, or a new
/// entry is put before the first entry whose name is greater.
pub open spec fn sorted_insert(s: Seq<Entry>, k: Seq<char>, v: Seq<char>) -> Seq<Entry>
    decreases s.len(),
{
    if s.len() == 0 {
        seq![(k, v)]
    } else if s[0].0 == k {
        seq![(k, v)] + s.drop_first()
    } else if seq_lt(k, s[0].0) {
        seq![(k, v)] + s
    } else {
        seq![s[0]] + sorted_insert(s.drop_first(), k, v)
    }
}

/// The entries that inserting `pairs` one after the other into an empty
/// map gives: later pairs win over earlier ones with the same name.
pub open spec fn insert_all(pairs: Seq<Entry>) -> Seq<Entry>
    decreases pairs.len(),
{
    if pairs.len() == 0 {
        seq![]
    } else {
        let last = pairs.last();
        sorted_insert(insert_all(pairs.drop_last()), last.0, last.1)
    }
}

/// The entries of `v` as plain text.
pub open spec fn entry_views(v: Seq<(String, String)>) -> Seq<Entry> {
    Seq::new(v.len(), |i: int| (v[i].0@, v[i].1@))
}

// ---------------------------------------------------------------------------
// Laws of the ordered map
// ---------------------------------------------------------------------------

/// The first entry of a sorted sequence has the smallest name.
proof fn lemma_sorted_tail(s: Seq<Entry>)
    requires
        keys_sorted(s),
        s.len() > 0,
    ensures
        keys_sorted(s.drop_first()),
        forall|j: int| 0 <= j < s.drop_first().len() ==> seq_lt(s[0].0, #[trigger] s.drop_first()[j].0),
{
    assert forall|j: int| 0 <= j < s.drop_first().len() implies seq_lt(
        s[0].0,
        #[trigger] s.drop_first()[j].0,
    ) by {
        assert(s.drop_first()[j] == s[j + 1]);
    }
    assert forall|i: int, j: int| 0 <= i < j < s.drop_first().len() implies seq_lt(
        #[trigger] s.drop_first()[i].0,
        #[trigger] s.drop_first()[j].0,
    ) by {
        assert(s.drop_first()[i] == s[i + 1]);
        assert(s.drop_first()[j] == s[j + 1]);
    }
}

/// Every name of `sorted_insert(s, k, v)` is a name of `s` or `k`.
proof fn lemma_insert_names(s: Seq<Entry>, k: Seq<char>, v: Seq<char>, j: int)
    requires
        0 <= j < sorted_insert(s, k, v).len(),
    ensures
        sorted_insert(s, k, v)[j].0 == k || exists|i: int|
            0 <= i < s.len() && #[trigger] s[i].0 == sorted_insert(s, k, v)[j].0,
    decreases s.len(),
{
    let r = sorted_insert(s, k, v);
    if s.len() == 0 {
    } else if s[0].0 == k {
        if j > 0 {
            assert(r[j] == s[j]);
        }
    } else if seq_lt(k, s[0].0) {
        if j > 0 {
            assert(r[j] == s[j - 1]);
        }
    } else {
        if j == 0 {
            assert(s[0].0 == r[j].0);
        } else {
            let t = s.drop_first();
            assert(r[j] == sorted_insert(t, k, v)[j - 1]);
            lemma_insert_names(t, k, v, j - 1);
            if sorted_insert(t, k, v)[j - 1].0 != k {
                let i = choose|i: int| 0 <= i < t.len() && #[trigger] t[i].0 == sorted_insert(t, k, v)[j - 1].0;
                assert(s[i + 1] == t[i]);
            }
        }
    }
}

/// Inserting keeps the names sorted.
pub proof fn lemma_insert_keeps_sorted(s: Seq<Entry>, k: Seq<char>, v: Seq<char>)
    requires
        keys_sorted(s),
    ensures
        keys_sorted(sorted_insert(s, k, v)),
    decreases s.len(),
{
    let r = sorted_insert(s, k, v);
    if s.len() == 0 {
    } else if s[0].0 == k {
        lemma_sorted_tail(s);
        assert forall|i: int, j: int| 0 <= i < j < r.len() implies seq_lt(#[trigger] r[i].0, #[trigger] r[j].0) by {
            if i == 0 {
                assert(r[j] == s[j]);
            } else {
                assert(r[i] == s[i]);
                assert(r[j] == s[j]);
            }
        }
    } else if seq_lt(k, s[0].0) {
        assert forall|i: int, j: int| 0 <= i < j < r.len() implies seq_lt(#[trigger] r[i].0, #[trigger] r[j].0) by {
            if i == 0 {
                assert(r[j] == s[j - 1]);
                if j - 1 > 0 {
                    lemma_seq_lt_transitive(k, s[0].0, s[j - 1].0);
                }
            } else {
                assert(r[i] == s[i - 1]);
                assert(r[j] == s[j - 1]);
            }
        }
    } else {
        let t = s.drop_first();
        lemma_sorted_tail(s);
        lemma_insert_keeps_sorted(t, k, v);
        lemma_seq_lt_total(k, s[0].0);
        let rt = sorted_insert(t, k, v);
        assert forall|i: int, j: int| 0 <= i < j < r.len() implies seq_lt(#[trigger] r[i].0, #[trigger] r[j].0) by {
            if i == 0 {
                assert(r[0] == s[0]);
                assert(r[j] == rt[j - 1]);
                lemma_insert_names(t, k, v, j - 1);
                if rt[j - 1].0 != k {
                    let m = choose|m: int| 0 <= m < t.len() && #[trigger] t[m].0 == rt[j - 1].0;
                    assert(seq_lt(s[0].0, t[m].0));
                }
            } else {
                assert(r[i] == rt[i - 1]);
                assert(r[j] == rt[j - 1]);
            }
        }
    }
}

/// After `k` is set to `v`, looking up `k` gives `v`.
pub proof fn lemma_insert_then_lookup_same(s: Seq<Entry>, k: Seq<char>, v: Seq<char>)
    ensures
        lookup(sorted_insert(s, k, v), k) == Some(v),
    decreases s.len(),
{
    let r = sorted_insert(s, k, v);
    if s.len() == 0 {
    } else if s[0].0 == k {
    } else if seq_lt(k, s[0].0) {
    } else {
        lemma_insert_then_lookup_same(s.drop_first(), k, v);
        assert(r.drop_first() == sorted_insert(s.drop_first(), k, v));
    }
}

/// Setting `k` leaves every other name as it was.
pub proof fn lemma_insert_then_lookup_other(s: Seq<Entry>, k: Seq<char>, v: Seq<char>, k2: Seq<char>)
    requires
        k2 != k,
    ensures
        lookup(sorted_insert(s, k, v), k2) == lookup(s, k2),
    decreases s.len(),
{
    let r = sorted_insert(s, k, v);
    if s.len() == 0 {
        assert(r.drop_first() =~= Seq::<Entry>::empty());
        assert(lookup(r, k2) == lookup(r.drop_first(), k2));
    } else if s[0].0 == k {
        assert(r.drop_first() =~= s.drop_first());
        assert(lookup(r, k2) == lookup(r.drop_first(), k2));
        assert(lookup(s, k2) == lookup(s.drop_first(), k2));
    } else if seq_lt(k, s[0].0) {
        assert(r.drop_first() =~= s);
        assert(lookup(r, k2) == lookup(r.drop_first(), k2));
    } else {
        lemma_insert_then_lookup_other(s.drop_first(), k, v, k2);
        assert(r.drop_first() =~= sorted_insert(s.drop_first(), k, v));
        assert(r[0] == s[0]);
        if s[0].0 != k2 {
            assert(lookup(r, k2) == lookup(r.drop_first(), k2));
            assert(lookup(s, k2) == lookup(s.drop_first(), k2));
        }
    }
}

/// In sorted entries, a name is found exactly where it occurs.
pub proof fn lemma_lookup_sorted(s: Seq<Entry>, i: int)
    requires
        keys_sorted(s),
        0 <= i < s.len(),
    ensures
        lookup(s, s[i].0) == Some(s[i].1),
    decreases s.len(),
{
    if i > 0 {
        lemma_sorted_tail(s);
        assert(s.drop_first()[i - 1] == s[i]);
        lemma_lookup_sorted(s.drop_first(), i - 1);
        assert(seq_lt(s[0].0, s[i].0));
        lemma_seq_lt_irreflexive(s[0].0);
    }
}

/// Sorted entries are determined by what they map names to: two sorted
/// sequences that answer every lookup alike are equal.
pub proof fn lemma_sorted_extensional(a: Seq<Entry>, b: Seq<Entry>)
    requires
        keys_sorted(a),
        keys_sorted(b),
        forall|k: Seq<char>| #[trigger] lookup(a, k) == lookup(b, k),
    ensures
        a == b,
    decreases a.len() + b.len(),
{
    if a.len() == 0 {
        if b.len() > 0 {
            assert(lookup(b, b[0].0) is Some);
            assert(lookup(a, b[0].0) is None);
        }
        assert(a =~= b);
    } else if b.len() == 0 {
        assert(lookup(a, a[0].0) is Some);
        assert(lookup(b, a[0].0) is None);
    } else {
        lemma_sorted_tail(a);
        lemma_sorted_tail(b);
        // the smallest names agree
        lemma_lookup_present(b, a[0].0);
        lemma_lookup_present(a, b[0].0);
        assert(lookup(a, a[0].0) is Some);
        assert(lookup(b, b[0].0) is Some);
        let ia = choose|i: int| 0 <= i < a.len() && a[i].0 == b[0].0;
        let ib = choose|i: int| 0 <= i < b.len() && b[i].0 == a[0].0;
        if ia > 0 && ib > 0 {
            assert(seq_lt(a[0].0, a[ia].0));
            assert(seq_lt(b[0].0, b[ib].0));
            lemma_seq_lt_asymmetric(a[0].0, b[0].0);
        } else if ia > 0 {
            lemma_seq_lt_irreflexive(a[0].0);
        } else if ib > 0 {
            lemma_seq_lt_irreflexive(b[0].0);
        }
        assert(a[0].0 == b[0].0);
        assert(a[0].1 == b[0].1) by {
            assert(lookup(a, a[0].0) == Some(a[0].1));
            assert(lookup(b, b[0].0) == Some(b[0].1));
        }
        assert forall|k: Seq<char>| #[trigger] lookup(a.drop_first(), k) == lookup(b.drop_first(), k) by {
            if k != a[0].0 {
                assert(lookup(a, k) == lookup(a.drop_first(), k));
                assert(lookup(b, k) == lookup(b.drop_first(), k));
            } else {
                lemma_lookup_absent_smallest(a, k);
                lemma_lookup_absent_smallest(b, k);
            }
        }
        lemma_sorted_extensional(a.drop_first(), b.drop_first());
        assert(a =~= seq![a[0]] + a.drop_first());
        assert(b =~= seq![b[0]] + b.drop_first());
    }
}

/// A name that is found occurs in the entries.
proof fn lemma_lookup_present(s: Seq<Entry>, k: Seq<char>)
    ensures
        lookup(s, k) is Some <==> exists|i: int| 0 <= i < s.len() && s[i].0 == k,
    decreases s.len(),
{
    if s.len() > 0 {
        lemma_lookup_present(s.drop_first(), k);
        if s[0].0 != k {
            if exists|i: int| 0 <= i < s.len() && s[i].0 == k {
                let i = choose|i: int| 0 <= i < s.len() && s[i].0 == k;
                assert(s.drop_first()[i - 1] == s[i]);
            }
            if exists|i: int| 0 <= i < s.drop_first().len() && s.drop_first()[i].0 == k {
                let i = choose|i: int| 0 <= i < s.drop_first().len() && s.drop_first()[i].0 == k;
                assert(s.drop_first()[i] == s[i + 1]);
            }
        }
    }
}

/// The smallest name of sorted entries does not occur again after them.
proof fn lemma_lookup_absent_smallest(s: Seq<Entry>, k: Seq<char>)
    requires
        keys_sorted(s),
        s.len() > 0,
        s[0].0 == k,
    ensures
        lookup(s.drop_first(), k) is None,
{
    lemma_sorted_tail(s);
    lemma_lookup_present(s.drop_first(), k);
    if exists|i: int| 0 <= i < s.drop_first().len() && s.drop_first()[i].0 == k {
        let i = choose|i: int| 0 <= i < s.drop_first().len() && s.drop_first()[i].0 == k;
        assert(seq_lt(s[0].0, s.drop_first()[i].0));
        lemma_seq_lt_irreflexive(k);
    }
}

/// Entries before position `i` that neither carry `k` nor come after it are
/// passed over by `sorted_insert`.
proof fn lemma_insert_prefix(s: Seq<Entry>, k: Seq<char>, v: Seq<char>, i: int)
    requires
        0 <= i <= s.len(),
        forall|j: int| 0 <= j < i ==> #[trigger] s[j].0 != k && !seq_lt(k, s[j].0),
    ensures
        sorted_insert(s, k, v) == s.take(i) + sorted_insert(s.skip(i), k, v),
    decreases i,
{
    if i == 0 {
        assert(s.skip(0) =~= s);
        assert(s.take(0) + sorted_insert(s.skip(0), k, v) =~= sorted_insert(s, k, v));
    } else {
        let t = s.drop_first();
        assert forall|j: int| 0 <= j < i - 1 implies #[trigger] t[j].0 != k && !seq_lt(k, t[j].0) by {
            assert(t[j] == s[j + 1]);
        }
        assert(s[0].0 != k && !seq_lt(k, s[0].0));
        lemma_insert_prefix(t, k, v, i - 1);
        assert(t.skip(i - 1) =~= s.skip(i));
        assert(seq![s[0]] + t.take(i - 1) =~= s.take(i));
        assert(sorted_insert(s, k, v) == seq![s[0]] + sorted_insert(t, k, v));
        assert(sorted_insert(s, k, v) =~= s.take(i) + sorted_insert(s.skip(i), k, v));
    }
}

// ---------------------------------------------------------------------------
// The map
// ---------------------------------------------------------------------------

/// Attribute names mapped to values, in increasing order of name.
#[derive(Debug)]
pub struct AttrMap {
    entries: Vec<(String, String)>,
}

impl View for AttrMap {
    type V = Seq<Entry>;

    closed spec fn view(&self) -> Seq<Entry> {
        entry_views(self.entries@)
    }
}

impl AttrMap {
    #[verifier::type_invariant]
    spec fn names_increase(&self) -> bool {
        keys_sorted(entry_views(self.entries@))
    }

    /// The empty map.
    pub fn new() -> (r: AttrMap)
        ensures
            r@ == Seq::<Entry>::empty(),
    {
        let r = AttrMap { entries: Vec::new() };
        assert(r@ =~= Seq::<Entry>::empty());
        r
    }

    /// The number of entries.
    pub fn len(&self) -> (n: usize)
        ensures
            n == self@.len(),
    {
        self.entries.len()
    }

    /// Whether there is no entry.
    pub fn is_empty(&self) -> (b: bool)
        ensures
            b == (self@.len() == 0),
    {
        self.entries.len() == 0
    }

    /// The entries in increasing order of name.
    pub fn entries(&self) -> (r: &Vec<(String, String)>)
        ensures
            entry_views(r@) == self@,
            keys_sorted(self@),
    {
        proof {
            use_type_invariant(self);
        }
        &self.entries
    }

    /// Sets `key` to `value`, replacing the value it had.
    pub fn insert(&mut self, key: String, value: String)
        ensures
            final(self)@ == sorted_insert(old(self)@, key@, value@),
    {
        proof {
            use_type_invariant(&*self);
        }
        let ghost s = self@;
        let kc = chars_of(key.as_str());
        let n = self.entries.len();
        let mut i: usize = 0;
        let mut same = false;
        loop
            invariant_except_break
                n == self.entries@.len(),
                s == entry_views(self.entries@),
                kc@ == key@,
                0 <= i <= n,
                !same,
                forall|j: int| 0 <= j < i ==> #[trigger] s[j].0 != key@ && !seq_lt(key@, s[j].0),
            ensures
                n == self.entries@.len(),
                s == entry_views(self.entries@),
                0 <= i <= n,
                forall|j: int| 0 <= j < i ==> #[trigger] s[j].0 != key@ && !seq_lt(key@, s[j].0),
                same ==> i < n && s[i as int].0 == key@,
                !same && i < n ==> seq_lt(key@, s[i as int].0),
            decreases n - i,
        {
            if i == n {
                break;
            }
            let ec = chars_of(self.entries[i].0.as_str());
            assert(ec@ == s[i as int].0);
            if chars_eq(&ec, &kc) {
                same = true;
                break;
            }
            if chars_lt(&kc, &ec) {
                break;
            }
            i = i + 1;
        }
        proof {
            lemma_insert_prefix(s, key@, value@, i as int);
            lemma_insert_keeps_sorted(s, key@, value@);
        }
        let ghost kv = key@;
        let ghost vv = value@;
        let mut es: Vec<(String, String)> = Vec::new();
        std::mem::swap(&mut es, &mut self.entries);
        proof {
            let t = s.skip(i as int);
            if i < n {
                assert(t[0] == s[i as int]);
                if !same {
                    lemma_seq_lt_irreflexive(kv);
                }
                assert(t.drop_first() =~= s.skip(i + 1));
            } else {
                assert(t =~= Seq::<Entry>::empty());
            }
        }
        if same {
            es.set(i, (key, value));
            assert(entry_views(es@) =~= s.take(i as int) + (seq![(kv, vv)] + s.skip(i as int).drop_first()));
        } else {
            es.insert(i, (key, value));
            assert(entry_views(es@) =~= s.take(i as int) + (seq![(kv, vv)] + s.skip(i as int)));
        }
        self.entries = es;
    }

    /// The value of `key`, if the map has it.
    pub fn get(&self, key: &str) -> (r: Option<&String>)
        ensures
            match r {
                Some(v) => lookup(self@, key@) == Some(v@),
                None => lookup(self@, key@) is None,
            },
    {
        let kc = chars_of(key);
        let n = self.entries.len();
        let ghost s = self@;
        let mut i: usize = 0;
        assert(s.skip(0) =~= s);
        while i < n
            invariant
                n == self.entries@.len(),
                s == entry_views(self.entries@),
                kc@ == key@,
                0 <= i <= n,
                lookup(s, key@) == lookup(s.skip(i as int), key@),
            decreases n - i,
        {
            let ec = chars_of(self.entries[i].0.as_str());
            if chars_eq(&ec, &kc) {
                assert(s.skip(i as int)[0] == s[i as int]);
                return Some(&self.entries[i].1);
            }
            assert(s.skip(i as int).drop_first() =~= s.skip(i + 1));
            i = i + 1;
        }
        None
    }

    /// A map with the same entries.
    pub fn copy(&self) -> (r: AttrMap)
        ensures
            r@ == self@,
    {
        proof {
            use_type_invariant(self);
        }
        let mut out: Vec<(String, String)> = Vec::new();
        let n = self.entries.len();
        let mut i: usize = 0;
        while i < n
            invariant
                n == self.entries@.len(),
                0 <= i <= n,
                entry_views(out@) == entry_views(self.entries@).take(i as int),
            decreases n - i,
        {
            let k = self.entries[i].0.clone();
            let v = self.entries[i].1.clone();
            let ghost before = out@;
            out.push((k, v));
            assert(out@ == before.push((k, v)));
            assert(entry_views(out@) =~= entry_views(before).push((k@, v@)));
            i = i + 1;
            assert(entry_views(out@) =~= entry_views(self.entries@).take(i as int));
        }
        assert(entry_views(self.entries@).take(n as int) =~= entry_views(self.entries@));
        AttrMap { entries: out }
    }

    /// The map that inserting `pairs` in order into an empty map gives.
    pub fn from_pairs(pairs: &Vec<(String, String)>) -> (r: AttrMap)
        ensures
            r@ == insert_all(entry_views(pairs@)),
    {
        let mut m = AttrMap::new();
        let ghost ps = entry_views(pairs@);
        let n = pairs.len();
        let mut i: usize = 0;
        assert(ps.take(0) =~= Seq::<Entry>::empty());
        while i < n
            invariant
                n == ps.len(),
                ps == entry_views(pairs@),
                0 <= i <= n,
                m@ == insert_all(ps.take(i as int)),
            decreases n - i,
        {
            let k = pairs[i].0.clone();
            let v = pairs[i].1.clone();
            m.insert(k, v);
            i = i + 1;
            proof {
                assert(ps.take(i as int).drop_last() =~= ps.take(i - 1));
                assert(ps.take(i as int).last() == ps[i - 1]);
            }
        }
        assert(ps.take(n as int) =~= ps);
        m
    }
}

impl Clone for AttrMap {
    fn clone(&self) -> (r: AttrMap) {
        self.copy()
    }
}

} // verus!
