use vstd::prelude::*;

use crate::model::PlaceId;

verus! {

/// Position of a key in the order of slot map keys: by slot index, then by version.
pub open spec fn key_rank(k: u64) -> int {
    (k % 0x1_0000_0000) as int * 0x1_0000_0000 + (k / 0x1_0000_0000) as int
}

/// The entries are in increasing key order, so no place occurs twice.
pub open spec fn key_sorted(s: Seq<(PlaceId, u32)>) -> bool {
    forall|i: int, j: int| 0 <= i < j < s.len() ==> key_rank((#[trigger] s[i]).0.0) < key_rank((#[trigger] s[j]).0.0)
}

/// Tokens `s` records for place `k`, if it has an entry for it.
pub open spec fn lookup(s: Seq<(PlaceId, u32)>, k: u64) -> Option<u32> {
    if exists|i: int| 0 <= i < s.len() && (#[trigger] s[i]).0.0 == k {
        Some(s[choose|i: int| 0 <= i < s.len() && (#[trigger] s[i]).0.0 == k].1)
    } else {
        None
    }
}

/// A marking of an editable net: a token count for some of its places, kept in
/// key order with one entry per place.
#[derive(PartialEq, Eq, Hash, Debug)]
pub struct Marking {
    entries: Vec<(PlaceId, u32)>,
}

impl View for Marking {
    type V = Seq<(PlaceId, u32)>;

    closed spec fn view(&self) -> Seq<(PlaceId, u32)> {
        self.entries@
    }
}

proof fn lemma_rank_order(a: u64, b: u64)
    ensures
        key_rank(a) < key_rank(b) <==> (a % 0x1_0000_0000 < b % 0x1_0000_0000 || (a % 0x1_0000_0000
            == b % 0x1_0000_0000 && a / 0x1_0000_0000 < b / 0x1_0000_0000)),
        key_rank(a) == key_rank(b) <==> a == b,
{
    let ia = a % 0x1_0000_0000;
    let ib = b % 0x1_0000_0000;
    let va = a / 0x1_0000_0000;
    let vb = b / 0x1_0000_0000;
    assert(a == va * 0x1_0000_0000 + ia);
    assert(b == vb * 0x1_0000_0000 + ib);
    assert(0 <= va < 0x1_0000_0000 && 0 <= vb < 0x1_0000_0000) by {
        assert(a < 0x1_0000_0000_0000_0000);
        assert(b < 0x1_0000_0000_0000_0000);
    };
    assert(key_rank(a) < key_rank(b) <==> (ia < ib || (ia == ib && va < vb))) by (nonlinear_arith)
        requires
            key_rank(a) == ia * 0x1_0000_0000 + va,
            key_rank(b) == ib * 0x1_0000_0000 + vb,
            0 <= va < 0x1_0000_0000,
            0 <= vb < 0x1_0000_0000,
            0 <= ia < 0x1_0000_0000,
            0 <= ib < 0x1_0000_0000,
    ;
    assert(key_rank(a) == key_rank(b) <==> (ia == ib && va == vb)) by (nonlinear_arith)
        requires
            key_rank(a) == ia * 0x1_0000_0000 + va,
            key_rank(b) == ib * 0x1_0000_0000 + vb,
            0 <= va < 0x1_0000_0000,
            0 <= vb < 0x1_0000_0000,
            0 <= ia < 0x1_0000_0000,
            0 <= ib < 0x1_0000_0000,
    ;
}

/// Whether key `a` comes before key `b` in slot map key order.
pub fn key_before(a: u64, b: u64) -> (r: bool)
    ensures
        r == (key_rank(a) < key_rank(b)),
{
    proof {
        lemma_rank_order(a, b);
    }
    let ia = a % 0x1_0000_0000;
    let ib = b % 0x1_0000_0000;
    if ia != ib {
        ia < ib
    } else {
        a / 0x1_0000_0000 < b / 0x1_0000_0000
    }
}

/// A copy of the entries `v`.
fn copy_entries(v: &Vec<(PlaceId, u32)>) -> (r: Vec<(PlaceId, u32)>)
    ensures
        r@ == v@,
{
    let mut r: Vec<(PlaceId, u32)> = Vec::new();
    let mut i: usize = 0;
    while i < v.len()
        invariant
            i <= v@.len(),
            r@ == v@.take(i as int),
        decreases v@.len() - i,
    {
        r.push(v[i]);
        i += 1;
        proof {
            assert(r@ =~= v@.take(i as int));
        }
    }
    proof {
        assert(v@.take(v@.len() as int) =~= v@);
    }
    r
}

/// Puts `(p, n)` into the key-ordered entries `v`, replacing (and returning)
/// the tokens recorded for `p` before.
fn insert_sorted(v: &mut Vec<(PlaceId, u32)>, p: PlaceId, n: u32) -> (r: Option<u32>)
    requires
        key_sorted(old(v)@),
    ensures
        key_sorted(final(v)@),
        r == lookup(old(v)@, p.0),
        lookup(final(v)@, p.0) == Some(n),
        forall|k: u64| k != p.0 ==> #[trigger] lookup(final(v)@, k) == lookup(old(v)@, k),
        final(v)@.len() == old(v)@.len() + if r is Some { 0int } else { 1 },
{
    let ghost s = v@;
    let len = v.len();
    let mut i: usize = 0;
    while i < len
        invariant
            len == s.len(),
            s == old(v)@,
            v@ == s,
            key_sorted(s),
            i <= len,
            forall|j: int| 0 <= j < i ==> key_rank(s[j].0.0) < key_rank(p.0),
        decreases len - i,
    {
        let k = v[i].0.0;
        if k == p.0 {
            let prev = v[i].1;
            proof {
                assert(s[i as int].0.0 == p.0);
                assert forall|j: int| 0 <= j < s.len() && s[j].0.0 == p.0 implies j == i by {
                    lemma_rank_order(s[j].0.0, s[i as int].0.0);
                    if j < i {
                    } else if j > i {
                    }
                };
                let c0 = choose|j: int| 0 <= j < s.len() && (#[trigger] s[j]).0.0 == p.0;
                assert(c0 == i);
                assert(lookup(s, p.0) == Some(s[i as int].1));
            }
            v.set(i, (p, n));
            proof {
                let t = v@;
                assert(t[i as int].0.0 == p.0);
                assert forall|k: u64| k != p.0 implies lookup(t, k) == lookup(s, k) by {
                    if exists|j: int| 0 <= j < s.len() && (#[trigger] s[j]).0.0 == k {
                        let j = choose|j: int| 0 <= j < s.len() && (#[trigger] s[j]).0.0 == k;
                        assert(t[j] == s[j]);
                        let c = choose|c: int| 0 <= c < t.len() && (#[trigger] t[c]).0.0 == k;
                        lemma_rank_order(t[c].0.0, t[j].0.0);
                        if c < j {
                        } else if c > j {
                        }
                    }
                    if exists|j: int| 0 <= j < t.len() && (#[trigger] t[j]).0.0 == k {
                        let j = choose|j: int| 0 <= j < t.len() && (#[trigger] t[j]).0.0 == k;
                        assert(s[j] == t[j]);
                    }
                };
                let c = choose|c: int| 0 <= c < t.len() && (#[trigger] t[c]).0.0 == p.0;
                lemma_rank_order(t[c].0.0, t[i as int].0.0);
                if c < i {
                } else if c > i {
                }
                assert(key_sorted(t)) by {
                    assert forall|a: int, b: int| 0 <= a < b < t.len() implies key_rank((#[trigger] t[a]).0.0) < key_rank((#[trigger] t[b]).0.0) by {
                        assert(s[a] == t[a] || a == i);
                        assert(s[b] == t[b] || b == i);
                    };
                };
            }
            return Some(prev);
        }
        proof {
            lemma_rank_order(k, p.0);
        }
        if key_before(p.0, k) {
            proof {
                assert forall|j: int| 0 <= j < s.len() implies s[j].0.0 != p.0 by {
                    lemma_rank_order(s[j].0.0, p.0);
                    if j > i {
                        assert(key_rank(s[i as int].0.0) < key_rank(s[j].0.0));
                    }
                };
            }
            v.insert(i, (p, n));
            proof {
                lemma_insert_at(v@, s, i as int, p, n);
            }
            return None;
        }
        i += 1;
    }
    proof {
        assert forall|j: int| 0 <= j < s.len() implies s[j].0.0 != p.0 by {
            lemma_rank_order(s[j].0.0, p.0);
        };
    }
    v.push((p, n));
    proof {
        assert(v@ =~= s.insert(len as int, (p, n)));
        lemma_insert_at(v@, s, len as int, p, n);
    }
    None
}

proof fn lemma_insert_at(t: Seq<(PlaceId, u32)>, s: Seq<(PlaceId, u32)>, i: int, p: PlaceId, n: u32)
    requires
        key_sorted(s),
        0 <= i <= s.len(),
        forall|j: int| 0 <= j < i ==> key_rank(s[j].0.0) < key_rank(p.0),
        forall|j: int| i <= j < s.len() ==> key_rank(p.0) < key_rank(s[j].0.0),
        t == s.insert(i, (p, n)),
    ensures
        key_sorted(t),
        lookup(t, p.0) == Some(n),
        forall|k: u64| k != p.0 ==> #[trigger] lookup(t, k) == lookup(s, k),
        lookup(s, p.0) is None,
{
    assert forall|a: int, b: int| 0 <= a < b < t.len() implies key_rank((#[trigger] t[a]).0.0) < key_rank((#[trigger] t[b]).0.0) by {
        if a < i && b == i {
        } else if a < i && b > i {
            assert(t[b] == s[b - 1]);
        } else if a == i {
            assert(t[b] == s[b - 1]);
        } else if a > i {
            assert(t[a] == s[a - 1] && t[b] == s[b - 1]);
        }
    };
    assert forall|j: int| 0 <= j < s.len() implies s[j].0.0 != p.0 by {
        lemma_rank_order(s[j].0.0, p.0);
    };
    assert(t[i].0.0 == p.0);
    let c = choose|c: int| 0 <= c < t.len() && (#[trigger] t[c]).0.0 == p.0;
    lemma_rank_order(t[c].0.0, t[i].0.0);
    if c < i {
    } else if c > i {
    }
    assert forall|k: u64| k != p.0 implies #[trigger] lookup(t, k) == lookup(s, k) by {
        if exists|j: int| 0 <= j < s.len() && (#[trigger] s[j]).0.0 == k {
            let j = choose|j: int| 0 <= j < s.len() && (#[trigger] s[j]).0.0 == k;
            let jj = if j < i { j } else { j + 1 };
            assert(t[jj] == s[j]);
            let cc = choose|cc: int| 0 <= cc < t.len() && (#[trigger] t[cc]).0.0 == k;
            lemma_rank_order(t[cc].0.0, t[jj].0.0);
            if cc < jj {
            } else if cc > jj {
            }
        }
        if exists|j: int| 0 <= j < t.len() && (#[trigger] t[j]).0.0 == k {
            let j = choose|j: int| 0 <= j < t.len() && (#[trigger] t[j]).0.0 == k;
            if j < i {
                assert(s[j] == t[j]);
            } else if j > i {
                assert(s[j - 1] == t[j]);
            }
        }
    };
}


/// Where `p`, which `s` does not hold, goes in the key order of `s`.
proof fn lemma_insert_index(s: Seq<(PlaceId, u32)>, p: PlaceId) -> (i: int)
    requires
        key_sorted(s),
        forall|j: int| 0 <= j < s.len() ==> (#[trigger] s[j]).0.0 != p.0,
    ensures
        0 <= i <= s.len(),
        forall|j: int| 0 <= j < i ==> key_rank((#[trigger] s[j]).0.0) < key_rank(p.0),
        forall|j: int| i <= j < s.len() ==> key_rank(p.0) < key_rank((#[trigger] s[j]).0.0),
    decreases s.len(),
{
    if s.len() == 0 {
        0
    } else {
        let d = s.drop_last();
        let n = s.len() - 1;
        assert forall|a: int, b: int| 0 <= a < b < d.len() implies key_rank((#[trigger] d[a]).0.0) < key_rank((#[trigger] d[b]).0.0) by {
            assert(d[a] == s[a] && d[b] == s[b]);
        };
        assert forall|j: int| 0 <= j < d.len() implies (#[trigger] d[j]).0.0 != p.0 by {
            assert(d[j] == s[j]);
        };
        let id = lemma_insert_index(d, p);
        lemma_rank_order(s[n].0.0, p.0);
        if key_rank(s[n].0.0) < key_rank(p.0) {
            assert forall|j: int| 0 <= j < s.len() implies key_rank((#[trigger] s[j]).0.0) < key_rank(p.0) by {
                if j < n {
                    assert(key_rank(s[j].0.0) < key_rank(s[n].0.0));
                }
            };
            s.len() as int
        } else {
            assert forall|j: int| 0 <= j < id implies key_rank((#[trigger] s[j]).0.0) < key_rank(p.0) by {
                assert(d[j] == s[j]);
            };
            assert forall|j: int| id <= j < s.len() implies key_rank(p.0) < key_rank((#[trigger] s[j]).0.0) by {
                if j < n {
                    assert(d[j] == s[j]);
                }
            };
            id
        }
    }
}

/// Some key-ordered marking records `n` tokens for `p` and agrees with `s`
/// on every other place.
pub proof fn lemma_set_exists(s: Seq<(PlaceId, u32)>, p: PlaceId, n: u32)
    requires
        key_sorted(s),
    ensures
        exists|t: Seq<(PlaceId, u32)>| key_sorted(t) && lookup(t, p.0) == Some(n)
            && forall|k: u64| k != p.0 ==> #[trigger] lookup(t, k) == lookup(s, k),
{
    if exists|j: int| 0 <= j < s.len() && (#[trigger] s[j]).0.0 == p.0 {
        let j = choose|j: int| 0 <= j < s.len() && (#[trigger] s[j]).0.0 == p.0;
        let t = s.update(j, (s[j].0, n));
        assert forall|a: int, b: int| 0 <= a < b < t.len() implies key_rank((#[trigger] t[a]).0.0) < key_rank((#[trigger] t[b]).0.0) by {
            assert(t[a].0 == s[a].0 && t[b].0 == s[b].0);
        };
        assert(t[j].0.0 == p.0);
        let c = choose|c: int| 0 <= c < t.len() && (#[trigger] t[c]).0.0 == p.0;
        if c != j {
            lemma_rank_order(t[c].0.0, t[j].0.0);
        }
        assert(lookup(t, p.0) == Some(n));
        assert forall|k: u64| k != p.0 implies #[trigger] lookup(t, k) == lookup(s, k) by {
            if exists|i: int| 0 <= i < s.len() && (#[trigger] s[i]).0.0 == k {
                let i = choose|i: int| 0 <= i < s.len() && (#[trigger] s[i]).0.0 == k;
                assert(t[i].0.0 == k);
                let ci = choose|ci: int| 0 <= ci < t.len() && (#[trigger] t[ci]).0.0 == k;
                if ci != i {
                    lemma_rank_order(t[ci].0.0, t[i].0.0);
                }
                assert(i != j);
                assert(t[i] == s[i]);
            }
            if exists|i: int| 0 <= i < t.len() && (#[trigger] t[i]).0.0 == k {
                let i = choose|i: int| 0 <= i < t.len() && (#[trigger] t[i]).0.0 == k;
                assert(s[i].0.0 == k);
            }
        };
        assert(key_sorted(t) && lookup(t, p.0) == Some(n) && forall|k: u64| k != p.0 ==> #[trigger] lookup(t, k) == lookup(s, k));
    } else {
        let i = lemma_insert_index(s, p);
        let t = s.insert(i, (p, n));
        lemma_insert_at(t, s, i, p, n);
        assert(key_sorted(t) && lookup(t, p.0) == Some(n) && forall|k: u64| k != p.0 ==> #[trigger] lookup(t, k) == lookup(s, k));
    }
}

impl Marking {
    #[verifier::type_invariant]
    closed spec fn sorted(self) -> bool {
        key_sorted(self.entries@)
    }

    /// The empty marking.
    pub fn new() -> (m: Self)
        ensures
            m@ == Seq::<(PlaceId, u32)>::empty(),
            key_sorted(m@),
    {
        Marking { entries: Vec::new() }
    }

    /// The entries `(place, tokens)`, in key order.
    pub fn entries(&self) -> (r: &[(PlaceId, u32)])
        ensures
            r@ == self@,
            key_sorted(r@),
    {
        proof {
            use_type_invariant(self);
        }
        self.entries.as_slice()
    }

    /// Number of places with an entry.
    pub fn len(&self) -> (n: usize)
        ensures
            n == self@.len(),
            key_sorted(self@),
    {
        proof {
            use_type_invariant(self);
        }
        self.entries.len()
    }

    /// Tokens recorded for place `p`, if any.
    pub fn get(&self, p: &PlaceId) -> (r: Option<&u32>)
        ensures
            match r {
                Some(n) => lookup(self@, p.0) == Some(*n),
                None => lookup(self@, p.0) is None,
            },
    {
        proof {
            use_type_invariant(self);
        }
        let mut i: usize = 0;
        while i < self.entries.len()
            invariant
                i <= self@.len(),
                key_sorted(self@),
                forall|j: int| 0 <= j < i ==> self@[j].0.0 != p.0,
            decreases self@.len() - i,
        {
            if self.entries[i].0.0 == p.0 {
                proof {
                    assert(self@[i as int].0.0 == p.0);
                    let c = choose|j: int| 0 <= j < self@.len() && (#[trigger] self@[j]).0.0 == p.0;
                    lemma_rank_order(self@[c].0.0, self@[i as int].0.0);
                    if c < i {
                    } else if c > i {
                    }
                    assert(c == i);
                }
                return Some(&self.entries[i].1);
            }
            i += 1;
        }
        None
    }

    /// Tokens recorded for place `p`, zero if none.
    pub fn tokens_or_zero(&self, p: PlaceId) -> (n: u32)
        ensures
            n == match lookup(self@, p.0) {
                Some(x) => x,
                None => 0u32,
            },
    {
        match self.get(&p) {
            Some(n) => *n,
            None => 0,
        }
    }

    /// Records `n` tokens for place `p`, replacing (and returning) what was
    /// recorded for it before; the key order is kept.
    pub fn insert(&mut self, p: PlaceId, n: u32) -> (r: Option<u32>)
        ensures
            r == lookup(old(self)@, p.0),
            lookup(final(self)@, p.0) == Some(n),
            forall|k: u64| k != p.0 ==> #[trigger] lookup(final(self)@, k) == lookup(old(self)@, k),
            final(self)@.len() == old(self)@.len() + if r is Some { 0int } else { 1 },
    {
        proof {
            use_type_invariant(&*self);
        }
        let mut v = copy_entries(&self.entries);
        let r = insert_sorted(&mut v, p, n);
        self.entries = v;
        r
    }

    /// A copy of this marking.
    pub fn duplicate(&self) -> (r: Self)
        ensures
            r@ == self@,
    {
        proof {
            use_type_invariant(self);
        }
        let mut v: Vec<(PlaceId, u32)> = Vec::new();
        let mut i: usize = 0;
        while i < self.entries.len()
            invariant
                i <= self@.len(),
                v@ == self@.take(i as int),
            decreases self@.len() - i,
        {
            v.push(self.entries[i]);
            i += 1;
            proof {
                assert(v@ =~= self@.take(i as int));
            }
        }
        proof {
            assert(self@.take(self@.len() as int) =~= self@);
        }
        Marking { entries: v }
    }

    /// Whether both markings record the same tokens for the same places.
    pub fn same(&self, other: &Marking) -> (b: bool)
        ensures
            b == (self@ == other@),
    {
        if self.entries.len() != other.entries.len() {
            return false;
        }
        let mut i: usize = 0;
        while i < self.entries.len()
            invariant
                self@.len() == other@.len(),
                i <= self@.len(),
                forall|j: int| 0 <= j < i ==> self@[j] == other@[j],
            decreases self@.len() - i,
        {
            let (p, n) = self.entries[i];
            let (q, m) = other.entries[i];
            if p != q || n != m {
                return false;
            }
            i += 1;
        }
        proof {
            assert(self@ =~= other@);
        }
        true
    }
}

impl Clone for Marking {
    fn clone(&self) -> (r: Self)
        ensures
            r@ == self@,
    {
        self.duplicate()
    }
}

/// Two key-ordered entry lists that record the same tokens for every place are equal.
pub proof fn lemma_sorted_unique(a: Seq<(PlaceId, u32)>, b: Seq<(PlaceId, u32)>)
    requires
        key_sorted(a),
        key_sorted(b),
        forall|k: u64| #[trigger] lookup(a, k) == lookup(b, k),
    ensures
        a == b,
    decreases a.len(),
{
    if a.len() == 0 {
        if b.len() > 0 {
            assert(lookup(b, b[0].0.0) is Some);
            assert(lookup(a, b[0].0.0) is None);
        }
        assert(a =~= b);
    } else {
        assert(lookup(a, a[0].0.0) is Some);
        assert(lookup(b, a[0].0.0) is Some);
        assert(b.len() > 0);
        assert(lookup(b, b[0].0.0) is Some);
        assert(lookup(a, b[0].0.0) is Some);
        let k = choose|k: int| 0 <= k < b.len() && (#[trigger] b[k]).0.0 == a[0].0.0;
        let m = choose|m: int| 0 <= m < a.len() && (#[trigger] a[m]).0.0 == b[0].0.0;
        if k > 0 && m > 0 {
            lemma_rank_order(a[0].0.0, a[m].0.0);
            lemma_rank_order(b[0].0.0, b[k].0.0);
        } else if k > 0 {
            assert(b[0].0.0 == a[0].0.0);
            lemma_rank_order(b[0].0.0, b[k].0.0);
        } else if m > 0 {
            assert(a[0].0.0 == b[0].0.0);
            lemma_rank_order(a[0].0.0, a[m].0.0);
        }
        assert(a[0].0 == b[0].0);
        let key = a[0].0.0;
        assert(lookup(a, key) == Some(a[0].1)) by {
            let c = choose|c: int| 0 <= c < a.len() && (#[trigger] a[c]).0.0 == key;
            if c > 0 {
                lemma_rank_order(a[0].0.0, a[c].0.0);
            }
        };
        assert(lookup(b, key) == Some(b[0].1)) by {
            let c = choose|c: int| 0 <= c < b.len() && (#[trigger] b[c]).0.0 == key;
            if c > 0 {
                lemma_rank_order(b[0].0.0, b[c].0.0);
            }
        };
        assert(a[0] == b[0]);
        let a1 = a.drop_first();
        let b1 = b.drop_first();
        assert forall|kk: u64| #[trigger] lookup(a1, kk) == lookup(b1, kk) by {
            lemma_lookup_drop_first(a, kk);
            lemma_lookup_drop_first(b, kk);
        };
        lemma_sorted_unique(a1, b1);
        assert(a =~= seq![a[0]] + a1);
        assert(b =~= seq![b[0]] + b1);
    }
}

/// Looking up in the entries after the first: the first key is gone, the rest unchanged.
proof fn lemma_lookup_drop_first(a: Seq<(PlaceId, u32)>, k: u64)
    requires
        key_sorted(a),
        a.len() > 0,
    ensures
        key_sorted(a.drop_first()),
        lookup(a.drop_first(), k) == if k == a[0].0.0 { None } else { lookup(a, k) },
{
    let a1 = a.drop_first();
    assert forall|i: int, j: int| 0 <= i < j < a1.len() implies key_rank((#[trigger] a1[i]).0.0) < key_rank((#[trigger] a1[j]).0.0) by {
        assert(a1[i] == a[i + 1] && a1[j] == a[j + 1]);
    };
    if k == a[0].0.0 {
        if exists|i: int| 0 <= i < a1.len() && (#[trigger] a1[i]).0.0 == k {
            let i = choose|i: int| 0 <= i < a1.len() && (#[trigger] a1[i]).0.0 == k;
            assert(a[i + 1] == a1[i]);
            lemma_rank_order(a[0].0.0, a[i + 1].0.0);
        }
    } else {
        if exists|i: int| 0 <= i < a.len() && (#[trigger] a[i]).0.0 == k {
            let i = choose|i: int| 0 <= i < a.len() && (#[trigger] a[i]).0.0 == k;
            assert(i > 0);
            assert(a1[i - 1] == a[i]);
            let c = choose|c: int| 0 <= c < a1.len() && (#[trigger] a1[c]).0.0 == k;
            assert(a1[c] == a[c + 1]);
            lemma_rank_order(a[c + 1].0.0, a[i].0.0);
            if c + 1 < i {
            } else if c + 1 > i {
            }
        }
        if exists|i: int| 0 <= i < a1.len() && (#[trigger] a1[i]).0.0 == k {
            let i = choose|i: int| 0 <= i < a1.len() && (#[trigger] a1[i]).0.0 == k;
            assert(a[i + 1] == a1[i]);
        }
    }
}

} // verus!
