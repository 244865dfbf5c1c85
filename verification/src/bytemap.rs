//! Maps keyed by byte strings, kept in the byte-wise lexicographic order of their keys, as a
//! `BTreeMap` keyed by strings orders them.
use vstd::prelude::*;

verus! {

/// Byte-wise lexicographic order: `a` comes strictly before `b`.
pub open spec fn lex_lt(a: Seq<u8>, b: Seq<u8>) -> bool
    decreases a.len(),
{
    if b.len() == 0 {
        false
    } else if a.len() == 0 {
        true
    } else if a[0] != b[0] {
        a[0] < b[0]
    } else {
        lex_lt(a.drop_first(), b.drop_first())
    }
}

/// No byte string comes before itself.
pub proof fn lemma_lex_irreflexive(a: Seq<u8>)
    ensures
        !lex_lt(a, a),
    decreases a.len(),
{
    if a.len() > 0 {
        lemma_lex_irreflexive(a.drop_first());
    }
}

/// Of two different byte strings, exactly one comes first.
pub proof fn lemma_lex_total(a: Seq<u8>, b: Seq<u8>)
    ensures
        a != b ==> (lex_lt(a, b) || lex_lt(b, a)),
        !(lex_lt(a, b) && lex_lt(b, a)),
    decreases a.len(),
{
    if a.len() > 0 && b.len() > 0 {
        lemma_lex_total(a.drop_first(), b.drop_first());
        if a[0] == b[0] && a != b {
            assert(a == seq![a[0]] + a.drop_first());
            assert(b == seq![b[0]] + b.drop_first());
        }
    } else if a.len() == 0 && b.len() == 0 {
        assert(a =~= b);
    }
}

/// The order is transitive.
pub proof fn lemma_lex_trans(a: Seq<u8>, b: Seq<u8>, c: Seq<u8>)
    requires
        lex_lt(a, b),
        lex_lt(b, c),
    ensures
        lex_lt(a, c),
    decreases a.len(),
{
    if a.len() > 0 && b.len() > 0 && c.len() > 0 && a[0] == b[0] && b[0] == c[0] {
        lemma_lex_trans(a.drop_first(), b.drop_first(), c.drop_first());
    }
}

/// Whether the keys of `s` come in strictly increasing order.
pub open spec fn keys_sorted<V>(s: Seq<(Seq<u8>, V)>) -> bool {
    forall|i: int, j: int| 0 <= i < j < s.len() ==> lex_lt(#[trigger] s[i].0, #[trigger] s[j].0)
}

/// Where `k` belongs in the sorted `s`: the number of keys before it.
pub open spec fn slot<V>(s: Seq<(Seq<u8>, V)>, k: Seq<u8>) -> int
    decreases s.len(),
{
    if s.len() == 0 {
        0
    } else if lex_lt(s[0].0, k) {
        1 + slot(s.drop_first(), k)
    } else {
        0
    }
}

/// `s` with `k` mapped to `v`: the value of an equal key replaced, or a new entry in order.
pub open spec fn sorted_insert<V>(s: Seq<(Seq<u8>, V)>, k: Seq<u8>, v: V) -> Seq<(Seq<u8>, V)> {
    let i = slot(s, k);
    if i < s.len() && s[i].0 == k {
        s.update(i, (k, v))
    } else {
        s.insert(i, (k, v))
    }
}

/// The value of `k` in `s`, if `k` is a key.
pub open spec fn lookup<V>(s: Seq<(Seq<u8>, V)>, k: Seq<u8>) -> Option<V>
    decreases s.len(),
{
    if s.len() == 0 {
        None
    } else if s[0].0 == k {
        Some(s[0].1)
    } else {
        lookup(s.drop_first(), k)
    }
}

pub proof fn lemma_slot<V>(s: Seq<(Seq<u8>, V)>, k: Seq<u8>)
    requires
        keys_sorted(s),
    ensures
        0 <= slot(s, k) <= s.len(),
        forall|j: int| 0 <= j < slot(s, k) ==> lex_lt(#[trigger] s[j].0, k),
        forall|j: int| slot(s, k) <= j < s.len() ==> !lex_lt(#[trigger] s[j].0, k),
    decreases s.len(),
{
    if s.len() > 0 {
        let t = s.drop_first();
        assert(keys_sorted(t)) by {
            assert forall|i: int, j: int| 0 <= i < j < t.len() implies lex_lt(
                #[trigger] t[i].0,
                #[trigger] t[j].0,
            ) by {
                assert(t[i] == s[i + 1] && t[j] == s[j + 1]);
            }
        }
        lemma_slot(t, k);
        if lex_lt(s[0].0, k) {
            assert forall|j: int| 0 <= j < slot(s, k) implies lex_lt(#[trigger] s[j].0, k) by {
                if j > 0 {
                    assert(s[j] == t[j - 1]);
                }
            }
            assert forall|j: int| slot(s, k) <= j < s.len() implies !lex_lt(#[trigger] s[j].0, k) by {
                assert(s[j] == t[j - 1]);
            }
        } else {
            assert forall|j: int| 0 <= j < s.len() implies !lex_lt(#[trigger] s[j].0, k) by {
                if j > 0 && lex_lt(s[j].0, k) {
                    lemma_lex_total(s[0].0, s[j].0);
                    assert(lex_lt(s[0].0, s[j].0));
                    lemma_lex_trans(s[0].0, s[j].0, k);
                }
            }
        }
    }
}

/// Inserting keeps the keys in order.
pub proof fn lemma_sorted_insert<V>(s: Seq<(Seq<u8>, V)>, k: Seq<u8>, v: V)
    requires
        keys_sorted(s),
    ensures
        keys_sorted(sorted_insert(s, k, v)),
{
    lemma_slot(s, k);
    let i = slot(s, k);
    let r = sorted_insert(s, k, v);
    if i < s.len() && s[i].0 == k {
        assert forall|a: int, b: int| 0 <= a < b < r.len() implies lex_lt(
            #[trigger] r[a].0,
            #[trigger] r[b].0,
        ) by {
            assert(r[a].0 == s[a].0 && r[b].0 == s[b].0);
        }
    } else {
        assert forall|a: int, b: int| 0 <= a < b < r.len() implies lex_lt(
            #[trigger] r[a].0,
            #[trigger] r[b].0,
        ) by {
            if b < i {
                assert(r[a] == s[a] && r[b] == s[b]);
            } else if b == i {
                assert(r[a] == s[a]);
            } else if a == i {
                assert(r[b] == s[b - 1]);
                lemma_lex_total(s[b - 1].0, k);
                if b - 1 > i {
                    assert(lex_lt(s[i].0, s[b - 1].0));
                    lemma_lex_total(s[i].0, k);
                    if lex_lt(s[i].0, k) {
                    } else {
                        lemma_lex_trans(k, s[i].0, s[b - 1].0);
                    }
                }
            } else if a < i {
                assert(r[a] == s[a] && r[b] == s[b - 1]);
            } else {
                assert(r[a] == s[a - 1] && r[b] == s[b - 1]);
            }
        }
    }
}

/// In sorted entries, the value of `k` is the one at its slot.
pub proof fn lemma_lookup_slot<V>(s: Seq<(Seq<u8>, V)>, k: Seq<u8>)
    requires
        keys_sorted(s),
    ensures
        lookup(s, k) == (if slot(s, k) < s.len() && s[slot(s, k)].0 == k {
            Some(s[slot(s, k)].1)
        } else {
            None::<V>
        }),
    decreases s.len(),
{
    lemma_slot(s, k);
    if s.len() > 0 {
        let t = s.drop_first();
        assert(keys_sorted(t)) by {
            assert forall|i: int, j: int| 0 <= i < j < t.len() implies lex_lt(
                #[trigger] t[i].0,
                #[trigger] t[j].0,
            ) by {
                assert(t[i] == s[i + 1] && t[j] == s[j + 1]);
            }
        }
        lemma_lookup_slot(t, k);
        lemma_slot(t, k);
        if s[0].0 == k {
            lemma_lex_irreflexive(k);
        } else if lex_lt(s[0].0, k) {
        } else {
            lemma_lex_total(s[0].0, k);
            if slot(t, k) < t.len() && t[slot(t, k)].0 == k {
                assert(lex_lt(s[0].0, s[1 + slot(t, k)].0));
            }
        }
    }
}

/// A key after every key of `s` is not in `s`, and inserting it appends it.
pub proof fn lemma_insert_last<V>(s: Seq<(Seq<u8>, V)>, k: Seq<u8>, v: V)
    requires
        keys_sorted(s),
        forall|j: int| 0 <= j < s.len() ==> lex_lt(#[trigger] s[j].0, k),
    ensures
        lookup(s, k) is None,
        sorted_insert(s, k, v) == s.push((k, v)),
{
    lemma_slot(s, k);
    lemma_lookup_slot(s, k);
    if slot(s, k) < s.len() {
        assert(lex_lt(s[slot(s, k)].0, k));
    }
    assert(s.insert(s.len() as int, (k, v)) =~= s.push((k, v)));
}

/// What a lookup gives after an insert: the inserted value for its key, the old value for others.
pub proof fn lemma_lookup_insert<V>(s: Seq<(Seq<u8>, V)>, k: Seq<u8>, v: V, q: Seq<u8>)
    requires
        keys_sorted(s),
    ensures
        lookup(sorted_insert(s, k, v), q) == (if q == k {
            Some(v)
        } else {
            lookup(s, q)
        }),
{
    lemma_sorted_insert(s, k, v);
    lemma_slot(s, k);
    let r = sorted_insert(s, k, v);
    let i = slot(s, k);
    lemma_lookup_slot(r, q);
    lemma_lookup_slot(s, q);
    lemma_slot(r, q);
    lemma_slot(s, q);
    if q == k {
        assert(r[i].0 == k);
        lemma_lex_irreflexive(k);
        assert(slot(r, q) == i) by {
            if slot(r, q) < i {
                assert(!lex_lt(r[slot(r, q)].0, q));
            } else if slot(r, q) > i {
                assert(lex_lt(r[i].0, q));
            }
        }
    } else {
        let sq = slot(s, q);
        if sq < s.len() && s[sq].0 == q {
            assert(sq != i || !(i < s.len() && s[i].0 == k));
            let rq = if i < s.len() && s[i].0 == k || sq < i { sq } else { sq + 1 };
            assert(r[rq] == s[sq]);
            assert(slot(r, q) == rq) by {
                if slot(r, q) < rq {
                    assert(lex_lt(r[slot(r, q)].0, q));
                    assert(!lex_lt(r[rq].0, q)) by {
                        lemma_lex_irreflexive(q);
                    }
                    lemma_lex_total(r[slot(r, q)].0, r[rq].0);
                    assert(lex_lt(r[slot(r, q)].0, r[rq].0));
                } else if slot(r, q) > rq {
                    assert(lex_lt(r[rq].0, q));
                    lemma_lex_irreflexive(q);
                }
            }
        } else {
            if slot(r, q) < r.len() && r[slot(r, q)].0 == q {
                let j = slot(r, q);
                if j == i {
                } else if j < i {
                    assert(r[j] == s[j]);
                    assert(lex_lt(s[j].0, k));
                    assert(s[j].0 == q);
                    lemma_lex_irreflexive(q);
                    assert(!lex_lt(s[j].0, q));
                    assert(sq <= j);
                    if sq < j {
                        assert(lex_lt(s[sq].0, s[j].0));
                        assert(!lex_lt(s[sq].0, q));
                    }
                } else {
                    let sj = if i < s.len() && s[i].0 == k { j } else { j - 1 };
                    assert(r[j] == s[sj]);
                    lemma_lex_irreflexive(q);
                    assert(!lex_lt(s[sj].0, q));
                    assert(sq <= sj);
                    if sq < sj {
                        assert(lex_lt(s[sq].0, s[sj].0));
                        assert(!lex_lt(s[sq].0, q));
                    }
                }
            }
        }
    }
}

/// Whether `a` comes strictly before `b`.
pub fn lex_less(a: &[u8], b: &[u8]) -> (r: bool)
    ensures
        r == lex_lt(a@, b@),
{
    let mut i: usize = 0;
    assert(a@.subrange(0, a@.len() as int) =~= a@);
    assert(b@.subrange(0, b@.len() as int) =~= b@);
    while i < a.len() && i < b.len()
        invariant
            i <= a@.len(),
            i <= b@.len(),
            a@.subrange(0, i as int) == b@.subrange(0, i as int),
            lex_lt(a@, b@) == lex_lt(a@.subrange(i as int, a@.len() as int), b@.subrange(i as int, b@.len() as int)),
        decreases a@.len() - i,
    {
        if a[i] != b[i] {
            let ghost sa = a@.subrange(i as int, a@.len() as int);
            let ghost sb = b@.subrange(i as int, b@.len() as int);
            assert(sa[0] == a@[i as int] && sb[0] == b@[i as int]);
            return a[i] < b[i];
        }
        let ghost sa = a@.subrange(i as int, a@.len() as int);
        let ghost sb = b@.subrange(i as int, b@.len() as int);
        assert(sa.drop_first() =~= a@.subrange(i + 1, a@.len() as int));
        assert(sb.drop_first() =~= b@.subrange(i + 1, b@.len() as int));
        assert(a@.subrange(0, i + 1) =~= a@.subrange(0, i as int).push(a@[i as int]));
        assert(b@.subrange(0, i + 1) =~= b@.subrange(0, i as int).push(b@[i as int]));
        i = i + 1;
    }
    i < b.len()
}

/// Entries keyed by byte strings, kept sorted by key with each key once.
#[derive(Debug)]
pub struct ByteMap<V> {
    entries: Vec<(Vec<u8>, V)>,
}

/// The keys of owned entries as byte sequences.
pub open spec fn entries_view<V>(s: Seq<(Vec<u8>, V)>) -> Seq<(Seq<u8>, V)> {
    s.map_values(|e: (Vec<u8>, V)| (e.0@, e.1))
}

impl<V> ByteMap<V> {
    /// The entries, in key order.
    pub closed spec fn entries(&self) -> Seq<(Seq<u8>, V)> {
        entries_view(self.entries@)
    }

    /// Keys sorted and unique.
    pub open spec fn wf(&self) -> bool {
        keys_sorted(self.entries())
    }

    /// An empty map.
    pub fn new() -> (r: Self)
        ensures
            r.wf(),
            r.entries() == Seq::<(Seq<u8>, V)>::empty(),
    {
        let r = ByteMap { entries: Vec::new() };
        assert(r.entries() =~= Seq::<(Seq<u8>, V)>::empty());
        r
    }

    /// How many keys the map holds.
    pub fn len(&self) -> (r: usize)
        ensures
            r == self.entries().len(),
    {
        self.entries.len()
    }

    /// The key and value at position `i` in key order.
    pub fn entry_at(&self, i: usize) -> (r: (&[u8], &V))
        requires
            i < self.entries().len(),
        ensures
            r.0@ == self.entries()[i as int].0,
            *r.1 == self.entries()[i as int].1,
    {
        let e = &self.entries[i];
        (e.0.as_slice(), &e.1)
    }

    /// Where `key` belongs: the number of keys before it.
    fn find_slot(&self, key: &[u8]) -> (r: usize)
        requires
            self.wf(),
        ensures
            r == slot(self.entries(), key@),
    {
        proof {
            lemma_slot(self.entries(), key@);
        }
        let mut i: usize = 0;
        while i < self.entries.len()
            invariant
                self.wf(),
                i <= self.entries@.len(),
                self.entries().len() == self.entries@.len(),
                forall|j: int| 0 <= j < i ==> lex_lt(#[trigger] self.entries()[j].0, key@),
                0 <= slot(self.entries(), key@) <= self.entries().len(),
                forall|j: int| 0 <= j < slot(self.entries(), key@) ==> lex_lt(#[trigger] self.entries()[j].0, key@),
                forall|j: int| slot(self.entries(), key@) <= j < self.entries().len() ==> !lex_lt(#[trigger] self.entries()[j].0, key@),
            decreases self.entries@.len() - i,
        {
            assert(self.entries()[i as int].0 == self.entries@[i as int].0@);
            if !lex_less(self.entries[i].0.as_slice(), key) {
                proof {
                    let sl = slot(self.entries(), key@);
                    if sl < i {
                        assert(lex_lt(self.entries()[sl].0, key@));
                    } else if sl > i {
                        assert(lex_lt(self.entries()[i as int].0, key@));
                    }
                }
                return i;
            }
            i = i + 1;
        }
        proof {
            let sl = slot(self.entries(), key@);
            if sl < i {
                assert(lex_lt(self.entries()[sl].0, key@));
            }
        }
        i
    }

    /// The value of `key`, if present.
    pub fn get(&self, key: &[u8]) -> (r: Option<&V>)
        requires
            self.wf(),
        ensures
            match r {
                Some(v) => lookup(self.entries(), key@) == Some(*v),
                None => lookup(self.entries(), key@) is None,
            },
    {
        proof {
            lemma_lookup_slot(self.entries(), key@);
        }
        let i = self.find_slot(key);
        if i < self.entries.len() && crate::strs::eq_bytes(self.entries[i].0.as_slice(), key) {
            Some(&self.entries[i].1)
        } else {
            None
        }
    }

    /// Whether `key` is present.
    pub fn contains_key(&self, key: &[u8]) -> (r: bool)
        requires
            self.wf(),
        ensures
            r == lookup(self.entries(), key@) is Some,
    {
        self.get(key).is_some()
    }

    /// Maps `key` to `value`, replacing the value of an equal key.
    pub fn insert(&mut self, key: Vec<u8>, value: V)
        requires
            old(self).wf(),
        ensures
            final(self).wf(),
            final(self).entries() == sorted_insert(old(self).entries(), key@, value),
    {
        proof {
            lemma_sorted_insert(self.entries(), key@, value);
            lemma_slot(self.entries(), key@);
        }
        let i = self.find_slot(key.as_slice());
        let ghost s = self.entries();
        let ghost k = key@;
        if i < self.entries.len() && crate::strs::eq_bytes(self.entries[i].0.as_slice(), key.as_slice()) {
            self.entries.set(i, (key, value));
            assert(self.entries() =~= s.update(i as int, (k, value)));
        } else {
            self.entries.insert(i, (key, value));
            assert(self.entries() =~= s.insert(i as int, (k, value)));
        }
    }
}

/// Entries with each value mapped through `f`.
pub open spec fn map_entries<V, W>(s: Seq<(Seq<u8>, V)>, f: spec_fn(V) -> W) -> Seq<(Seq<u8>, W)> {
    s.map_values(|e: (Seq<u8>, V)| (e.0, f(e.1)))
}

proof fn lemma_slot_map<V, W>(s: Seq<(Seq<u8>, V)>, f: spec_fn(V) -> W, k: Seq<u8>)
    ensures
        slot(map_entries(s, f), k) == slot(s, k),
        0 <= slot(s, k) <= s.len(),
    decreases s.len(),
{
    if s.len() > 0 {
        assert(map_entries(s, f).drop_first() =~= map_entries(s.drop_first(), f));
        lemma_slot_map(s.drop_first(), f, k);
    }
}

/// Mapping the values keeps the keys, so it commutes with an insert.
pub proof fn lemma_map_insert<V, W>(s: Seq<(Seq<u8>, V)>, f: spec_fn(V) -> W, k: Seq<u8>, v: V)
    ensures
        map_entries(sorted_insert(s, k, v), f) == sorted_insert(map_entries(s, f), k, f(v)),
        keys_sorted(s) ==> keys_sorted(map_entries(s, f)),
{
    lemma_slot_map(s, f, k);
    let i = slot(s, k);
    let m = map_entries(s, f);
    if i < s.len() {
        assert(m[i].0 == s[i].0);
    }
    if i < s.len() && s[i].0 == k {
        assert(map_entries(sorted_insert(s, k, v), f) =~= sorted_insert(map_entries(s, f), k, f(v)));
    } else {
        assert(map_entries(sorted_insert(s, k, v), f) =~= sorted_insert(map_entries(s, f), k, f(v)));
    }
    if keys_sorted(s) {
        let m = map_entries(s, f);
        assert forall|a: int, b: int| 0 <= a < b < m.len() implies lex_lt(#[trigger] m[a].0, #[trigger] m[b].0) by {
            assert(m[a].0 == s[a].0 && m[b].0 == s[b].0);
        }
    }
}

/// Mapping the values keeps the keys, so a lookup finds the mapped value.
pub proof fn lemma_map_lookup<V, W>(s: Seq<(Seq<u8>, V)>, f: spec_fn(V) -> W, k: Seq<u8>)
    ensures
        (lookup(map_entries(s, f), k) is Some) == (lookup(s, k) is Some),
    decreases s.len(),
{
    if s.len() > 0 {
        assert(map_entries(s, f).drop_first() =~= map_entries(s.drop_first(), f));
        lemma_map_lookup(s.drop_first(), f, k);
    }
}

/// Entries with optional byte values, the values as byte sequences.
pub open spec fn text_entries(s: Seq<(Seq<u8>, Option<Vec<u8>>)>) -> Seq<(Seq<u8>, Option<Seq<u8>>)> {
    map_entries(s, |v: Option<Vec<u8>>| crate::io::opt_view_vec(v))
}

impl ByteMap<Option<Vec<u8>>> {
    /// The keys with their values, in key order.
    pub fn pairs(&self) -> (r: Vec<(&[u8], Option<&[u8]>)>)
        ensures
            r@.len() == text_entries(self.entries()).len(),
            forall|i: int| 0 <= i < r@.len() ==> (#[trigger] r@[i]).0@ == text_entries(self.entries())[i].0
                && match r@[i].1 {
                    Some(v) => text_entries(self.entries())[i].1 == Some(v@),
                    None => text_entries(self.entries())[i].1 is None,
                },
    {
        let ghost t = text_entries(self.entries());
        let mut out: Vec<(&[u8], Option<&[u8]>)> = Vec::new();
        let n = self.len();
        let mut i: usize = 0;
        while i < n
            invariant
                n == self.entries().len(),
                t == text_entries(self.entries()),
                i <= n,
                out@.len() == i,
                forall|j: int| 0 <= j < i ==> (#[trigger] out@[j]).0@ == t[j].0
                    && match out@[j].1 {
                        Some(v) => t[j].1 == Some(v@),
                        None => t[j].1 is None,
                    },
            decreases n - i,
        {
            let (k, v) = self.entry_at(i);
            let vs: Option<&[u8]> = match v {
                Some(x) => Some(x.as_slice()),
                None => None,
            };
            out.push((k, vs));
            i = i + 1;
        }
        out
    }
}

/// Mapping the values keeps the keys, so a lookup finds the mapped value.
pub proof fn lemma_map_lookup_value<V, W>(s: Seq<(Seq<u8>, V)>, f: spec_fn(V) -> W, k: Seq<u8>)
    ensures
        lookup(map_entries(s, f), k) == match lookup(s, k) {
            Some(v) => Some(f(v)),
            None => None::<W>,
        },
    decreases s.len(),
{
    if s.len() > 0 {
        assert(map_entries(s, f).drop_first() =~= map_entries(s.drop_first(), f));
        lemma_map_lookup_value(s.drop_first(), f, k);
    }
}

impl<V> ByteMap<V> {
    /// The position of `key`, if present.
    pub fn find(&self, key: &[u8]) -> (r: Option<usize>)
        requires
            self.wf(),
        ensures
            match r {
                Some(i) => i < self.entries().len() && self.entries()[i as int].0 == key@ && lookup(
                    self.entries(),
                    key@,
                ) == Some(self.entries()[i as int].1),
                None => lookup(self.entries(), key@) is None,
            },
    {
        proof {
            lemma_lookup_slot(self.entries(), key@);
            lemma_slot(self.entries(), key@);
        }
        let i = self.find_slot(key);
        if i < self.entries.len() && crate::strs::eq_bytes(self.entries[i].0.as_slice(), key) {
            Some(i)
        } else {
            None
        }
    }

    /// Puts `v` as the value at position `i`, handing out the value that stood there.
    pub fn replace_at(&mut self, i: usize, v: V) -> (r: V)
        requires
            i < old(self).entries().len(),
        ensures
            r == old(self).entries()[i as int].1,
            final(self).entries() == old(self).entries().update(i as int, (old(self).entries()[i as int].0, v)),
    {
        let (k, old_v) = self.entries.remove(i);
        self.entries.insert(i, (k, v));
        assert(self.entries() =~= old(self).entries().update(i as int, (old(self).entries()[i as int].0, v)));
        old_v
    }
}

/// Replacing a value keeps the keys in order.
pub proof fn lemma_update_sorted<V>(s: Seq<(Seq<u8>, V)>, i: int, v: V)
    requires
        keys_sorted(s),
        0 <= i < s.len(),
    ensures
        keys_sorted(s.update(i, (s[i].0, v))),
        lookup(s.update(i, (s[i].0, v)), s[i].0) == Some(v),
        s.update(i, (s[i].0, v)) == sorted_insert(s, s[i].0, v),
{
    let t = s.update(i, (s[i].0, v));
    assert forall|a: int, b: int| 0 <= a < b < t.len() implies lex_lt(#[trigger] t[a].0, #[trigger] t[b].0) by {
        assert(t[a].0 == s[a].0 && t[b].0 == s[b].0);
    }
    lemma_slot(s, s[i].0);
    lemma_lex_irreflexive(s[i].0);
    assert(slot(s, s[i].0) == i) by {
        let sl = slot(s, s[i].0);
        if sl < i {
            assert(!lex_lt(s[sl].0, s[i].0));
        } else if sl > i {
            assert(lex_lt(s[i].0, s[i].0));
        }
    }
    lemma_sorted_insert(s, s[i].0, v);
    lemma_lookup_insert(s, s[i].0, v, s[i].0);
}

} // verus!
