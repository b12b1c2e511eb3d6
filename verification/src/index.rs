//! Cross-index tables: association lists from player identity to
//! lobby id or peer handle, and from socket origin to player identity.
//! Keys are unique; the spec predicates below are what the server
//! invariants are phrased over.

use vstd::prelude::*;

verus! {

/// The table rows, as mathematical values.
pub type IdTable = Seq<(Seq<char>, u128)>;

/// True when some row maps `k` to `v`.
pub open spec fn pair_in(s: IdTable, k: Seq<char>, v: u128) -> bool {
    exists|i: int| 0 <= i < s.len() && s[i] == (k, v)
}

/// True when `k` is a key of some row.
pub open spec fn key_in(s: IdTable, k: Seq<char>) -> bool {
    exists|i: int| 0 <= i < s.len() && s[i].0 == k
}

/// True when `v` is the value of some row.
pub open spec fn val_in(s: IdTable, v: u128) -> bool {
    exists|i: int| 0 <= i < s.len() && s[i].1 == v
}

/// True when no key occurs twice.
pub open spec fn keys_unique(s: IdTable) -> bool {
    forall|i: int, j: int| 0 <= i < j < s.len() ==> s[i].0 != s[j].0
}

/// True when no value occurs twice.
pub open spec fn vals_unique(s: IdTable) -> bool {
    forall|i: int, j: int| 0 <= i < j < s.len() ==> s[i].1 != s[j].1
}

/// With unique keys, a key determines its value.
pub proof fn lemma_key_determines_val(s: IdTable, k: Seq<char>, v1: u128, v2: u128)
    requires
        keys_unique(s),
        pair_in(s, k, v1),
        pair_in(s, k, v2),
    ensures
        v1 == v2,
{
    let i = choose|i: int| 0 <= i < s.len() && s[i] == (k, v1);
    let j = choose|j: int| 0 <= j < s.len() && s[j] == (k, v2);
    assert(s[i].0 == s[j].0);
}

/// With unique values, a value determines its key.
pub proof fn lemma_val_determines_key(s: IdTable, k1: Seq<char>, k2: Seq<char>, v: u128)
    requires
        vals_unique(s),
        pair_in(s, k1, v),
        pair_in(s, k2, v),
    ensures
        k1 == k2,
{
    let i = choose|i: int| 0 <= i < s.len() && s[i] == (k1, v);
    let j = choose|j: int| 0 <= j < s.len() && s[j] == (k2, v);
    if i < j {
        assert(s[i].1 != s[j].1);
    }
    if j < i {
        assert(s[j].1 != s[i].1);
    }
}

/// A table from player identity to a 128-bit handle (a lobby id or a
/// peer handle). Keys are unique.
pub struct IdIndex {
    pub rows: Vec<(String, u128)>,
}

impl View for IdIndex {
    type V = IdTable;

    open spec fn view(&self) -> IdTable {
        self.rows.deep_view()
    }
}

impl IdIndex {
    pub open spec fn wf(self) -> bool {
        keys_unique(self@)
    }

    pub fn new() -> (r: IdIndex)
        ensures
            r@ =~= Seq::<(Seq<char>, u128)>::empty(),
            r.wf(),
    {
        IdIndex { rows: Vec::new() }
    }

    /// Looks the key up; `None` exactly when the key is absent.
    pub fn get(&self, k: &String) -> (r: Option<u128>)
        ensures
            match r {
                Some(v) => pair_in(self@, k@, v),
                None => !key_in(self@, k@),
            },
    {
        let n = self.rows.len();
        for i in 0..n
            invariant
                n == self.rows.len(),
                forall|j: int| 0 <= j < i ==> self@[j].0 != k@,
        {
            assert(self@[i as int] == (self.rows[i as int].0@, self.rows[i as int].1));
            if self.rows[i].0 == *k {
                return Some(self.rows[i].1);
            }
        }
        None
    }

    /// True exactly when the key is present.
    pub fn contains_key(&self, k: &String) -> (r: bool)
        ensures
            r == key_in(self@, k@),
    {
        self.get(k).is_some()
    }

    /// Maps `k` to `v`, replacing any earlier row for `k`. Rows for
    /// other keys are untouched.
    pub fn set(&mut self, k: String, v: u128)
        requires
            old(self).wf(),
        ensures
            final(self).wf(),
            pair_in(final(self)@, k@, v),
            key_in(final(self)@, k@),
            forall|x: Seq<char>, y: u128|
                x != k@ ==> (pair_in(final(self)@, x, y) <==> pair_in(old(self)@, x, y)),
            forall|x: Seq<char>| x != k@ ==> (key_in(final(self)@, x) <==> key_in(old(self)@, x)),
            forall|x: Seq<char>, y: u128|
                pair_in(final(self)@, x, y) ==> (pair_in(old(self)@, x, y) || (x == k@ && y == v)),
    {
        self.remove(&k);
        let ghost mid = self@;
        self.rows.push((k, v));
        assert(self@ =~= mid.push((k@, v)));
        assert forall|x: Seq<char>, y: u128|
            x != k@ && pair_in(mid, x, y) implies pair_in(self@, x, y) by {
            let i = choose|i: int| 0 <= i < mid.len() && mid[i] == (x, y);
            assert(self@[i] == (x, y));
        }
        assert forall|x: Seq<char>| x != k@ && key_in(mid, x) implies key_in(self@, x) by {
            let i = choose|i: int| 0 <= i < mid.len() && mid[i].0 == x;
            assert(self@[i].0 == x);
        }
        assert(self@[self@.len() - 1] == (k@, v));
    }

    /// Drops the row for `k`, returning its value; rows for other keys
    /// are untouched.
    pub fn remove(&mut self, k: &String) -> (r: Option<u128>)
        requires
            old(self).wf(),
        ensures
            final(self).wf(),
            !key_in(final(self)@, k@),
            match r {
                Some(v) => pair_in(old(self)@, k@, v),
                None => !key_in(old(self)@, k@) && final(self)@ == old(self)@,
            },
            forall|x: Seq<char>, y: u128|
                x != k@ ==> (pair_in(final(self)@, x, y) <==> pair_in(old(self)@, x, y)),
            forall|x: Seq<char>| x != k@ ==> (key_in(final(self)@, x) <==> key_in(old(self)@, x)),
            forall|x: Seq<char>, y: u128| pair_in(final(self)@, x, y) ==> pair_in(old(self)@, x, y),
    {
        let n = self.rows.len();
        for i in 0..n
            invariant
                n == self.rows.len(),
                self@ == old(self)@,
                keys_unique(self@),
                forall|j: int| 0 <= j < i ==> self@[j].0 != k@,
        {
            assert(self@[i as int] == (self.rows[i as int].0@, self.rows[i as int].1));
            if self.rows[i].0 == *k {
                let ghost pre = self@;
                let row = self.rows.remove(i);
                assert(self@ =~= pre.remove(i as int));
                let ghost post = self@;
                assert forall|x: Seq<char>, y: u128|
                    pair_in(post, x, y) implies pair_in(pre, x, y) by {
                    let j = choose|j: int| 0 <= j < post.len() && post[j] == (x, y);
                    if j < i {
                        assert(pre[j] == (x, y));
                    } else {
                        assert(pre[j + 1] == (x, y));
                    }
                }
                assert forall|x: Seq<char>| key_in(post, x) implies key_in(pre, x) by {
                    let j = choose|j: int| 0 <= j < post.len() && post[j].0 == x;
                    if j < i {
                        assert(pre[j].0 == x);
                    } else {
                        assert(pre[j + 1].0 == x);
                    }
                }
                assert forall|x: Seq<char>, y: u128|
                    x != k@ && pair_in(pre, x, y) implies pair_in(post, x, y) by {
                    let j = choose|j: int| 0 <= j < pre.len() && pre[j] == (x, y);
                    if j < i {
                        assert(post[j] == (x, y));
                    } else {
                        assert(j != i);
                        assert(post[j - 1] == (x, y));
                    }
                }
                assert forall|x: Seq<char>| x != k@ && key_in(pre, x) implies key_in(post, x) by {
                    let j = choose|j: int| 0 <= j < pre.len() && pre[j].0 == x;
                    if j < i {
                        assert(post[j].0 == x);
                    } else {
                        assert(j != i);
                        assert(post[j - 1].0 == x);
                    }
                }
                assert forall|x: Seq<char>| key_in(post, x) implies x != k@ by {
                    let j = choose|j: int| 0 <= j < post.len() && post[j].0 == x;
                    if j < i {
                        assert(pre[j].0 != k@);
                    } else {
                        assert(pre[j + 1].0 != k@);
                    }
                }
                return Some(row.1);
            }
        }
        None
    }

    /// Drops every row whose value is `v`; rows with other values are
    /// untouched.
    pub fn remove_by_val(&mut self, v: u128)
        requires
            old(self).wf(),
        ensures
            final(self).wf(),
            !val_in(final(self)@, v),
            forall|x: Seq<char>, y: u128|
                pair_in(final(self)@, x, y) <==> (pair_in(old(self)@, x, y) && y != v),
    {
        let ghost orig = self@;
        let mut out: Vec<(String, u128)> = Vec::new();
        let n = self.rows.len();
        for i in 0..n
            invariant
                n == self.rows.len(),
                self@ == orig,
                keys_unique(orig),
                forall|x: Seq<char>, y: u128| #[trigger]
                    pair_in(out.deep_view(), x, y) <==> (pair_in(orig.subrange(0, i as int), x, y)
                        && y != v),
                keys_unique(out.deep_view()),
        {
            let ghost prefix = orig.subrange(0, i as int);
            let ghost prefix1 = orig.subrange(0, i + 1);
            assert(orig[i as int] == (self.rows[i as int].0@, self.rows[i as int].1));
            if self.rows[i].1 != v {
                let ghost prev = out.deep_view();
                let entry = (self.rows[i].0.clone(), self.rows[i].1);
                assert(entry.deep_view() == orig[i as int]);
                out.push(entry);
                assert(out.deep_view() =~= prev.push(orig[i as int]));
                assert forall|x: Seq<char>, y: u128| #[trigger]
                    pair_in(out.deep_view(), x, y) implies (pair_in(prefix1, x, y) && y
                    != v) by {
                    let j = choose|j: int|
                        0 <= j < out.deep_view().len() && out.deep_view()[j] == (x, y);
                    if j < prev.len() {
                        assert(pair_in(prev, x, y));
                        let m = choose|m: int| 0 <= m < prefix.len() && prefix[m] == (x, y);
                        assert(prefix1[m] == (x, y));
                    } else {
                        assert(prefix1[i as int] == (x, y));
                    }
                }
                assert forall|x: Seq<char>, y: u128|
                    pair_in(prefix1, x, y) && y != v implies #[trigger] pair_in(
                    out.deep_view(),
                    x,
                    y,
                ) by {
                    let m = choose|m: int| 0 <= m < prefix1.len() && prefix1[m] == (x, y);
                    if m < i {
                        assert(prefix[m] == (x, y));
                        assert(pair_in(prev, x, y));
                        let j = choose|j: int| 0 <= j < prev.len() && prev[j] == (x, y);
                        assert(out.deep_view()[j] == (x, y));
                    } else {
                        assert(out.deep_view()[out.deep_view().len() - 1] == (x, y));
                    }
                }
                assert forall|a: int, b: int|
                    0 <= a < b < out.deep_view().len() implies out.deep_view()[a].0
                    != out.deep_view()[b].0 by {
                    if b == out.deep_view().len() - 1 {
                        assert(pair_in(prev, out.deep_view()[a].0, out.deep_view()[a].1));
                        let m = choose|m: int|
                            0 <= m < prefix.len() && prefix[m] == (out.deep_view()[a].0,
                            out.deep_view()[a].1);
                        assert(orig[m].0 == out.deep_view()[a].0);
                        assert(orig[i as int].0 == out.deep_view()[b].0);
                    }
                }
            } else {
                assert forall|x: Seq<char>, y: u128|
                    pair_in(prefix1, x, y) && y != v implies #[trigger] pair_in(
                    out.deep_view(),
                    x,
                    y,
                ) by {
                    let m = choose|m: int| 0 <= m < prefix1.len() && prefix1[m] == (x, y);
                    assert(m < i);
                    assert(prefix[m] == (x, y));
                }
                assert forall|x: Seq<char>, y: u128| #[trigger]
                    pair_in(out.deep_view(), x, y) implies (pair_in(prefix1, x, y) && y
                    != v) by {
                    assert(pair_in(prefix, x, y));
                    let m = choose|m: int| 0 <= m < prefix.len() && prefix[m] == (x, y);
                    assert(prefix1[m] == (x, y));
                }
            }
        }
        assert(orig.subrange(0, n as int) =~= orig);
        self.rows = out;
        proof {
            if val_in(self@, v) {
                let i = choose|i: int| 0 <= i < self@.len() && self@[i].1 == v;
                assert(pair_in(self@, self@[i].0, v));
            }
        }
    }

    /// Keeps exactly the rows whose value lies in `[lo, hi]`.
    pub fn retain_window(&mut self, lo: u128, hi: u128)
        requires
            old(self).wf(),
        ensures
            final(self).wf(),
            forall|x: Seq<char>, y: u128|
                pair_in(final(self)@, x, y) <==> (pair_in(old(self)@, x, y) && lo <= y <= hi),
    {
        let ghost orig = self@;
        let mut out: Vec<(String, u128)> = Vec::new();
        let n = self.rows.len();
        for i in 0..n
            invariant
                n == self.rows.len(),
                self@ == orig,
                keys_unique(orig),
                forall|x: Seq<char>, y: u128| #[trigger]
                    pair_in(out.deep_view(), x, y) <==> (pair_in(orig.subrange(0, i as int), x, y)
                        && lo <= y <= hi),
                keys_unique(out.deep_view()),
        {
            let ghost prefix = orig.subrange(0, i as int);
            let ghost prefix1 = orig.subrange(0, i + 1);
            assert(orig[i as int] == (self.rows[i as int].0@, self.rows[i as int].1));
            if lo <= self.rows[i].1 && self.rows[i].1 <= hi {
                let ghost prev = out.deep_view();
                let entry = (self.rows[i].0.clone(), self.rows[i].1);
                assert(entry.deep_view() == orig[i as int]);
                out.push(entry);
                assert(out.deep_view() =~= prev.push(orig[i as int]));
                assert forall|x: Seq<char>, y: u128| #[trigger]
                    pair_in(out.deep_view(), x, y) implies (pair_in(prefix1, x, y) && lo <= y
                    <= hi) by {
                    let j = choose|j: int|
                        0 <= j < out.deep_view().len() && out.deep_view()[j] == (x, y);
                    if j < prev.len() {
                        assert(pair_in(prev, x, y));
                        let m = choose|m: int| 0 <= m < prefix.len() && prefix[m] == (x, y);
                        assert(prefix1[m] == (x, y));
                    } else {
                        assert(prefix1[i as int] == (x, y));
                    }
                }
                assert forall|x: Seq<char>, y: u128|
                    pair_in(prefix1, x, y) && lo <= y <= hi implies #[trigger] pair_in(
                    out.deep_view(),
                    x,
                    y,
                ) by {
                    let m = choose|m: int| 0 <= m < prefix1.len() && prefix1[m] == (x, y);
                    if m < i {
                        assert(prefix[m] == (x, y));
                        assert(pair_in(prev, x, y));
                        let j = choose|j: int| 0 <= j < prev.len() && prev[j] == (x, y);
                        assert(out.deep_view()[j] == (x, y));
                    } else {
                        assert(out.deep_view()[out.deep_view().len() - 1] == (x, y));
                    }
                }
                assert forall|a: int, b: int|
                    0 <= a < b < out.deep_view().len() implies out.deep_view()[a].0
                    != out.deep_view()[b].0 by {
                    if b == out.deep_view().len() - 1 {
                        assert(pair_in(prev, out.deep_view()[a].0, out.deep_view()[a].1));
                        let m = choose|m: int|
                            0 <= m < prefix.len() && prefix[m] == (out.deep_view()[a].0,
                            out.deep_view()[a].1);
                        assert(orig[m].0 == out.deep_view()[a].0);
                        assert(orig[i as int].0 == out.deep_view()[b].0);
                    }
                }
            } else {
                assert forall|x: Seq<char>, y: u128|
                    pair_in(prefix1, x, y) && lo <= y <= hi implies #[trigger] pair_in(
                    out.deep_view(),
                    x,
                    y,
                ) by {
                    let m = choose|m: int| 0 <= m < prefix1.len() && prefix1[m] == (x, y);
                    assert(m < i);
                    assert(prefix[m] == (x, y));
                }
                assert forall|x: Seq<char>, y: u128| #[trigger]
                    pair_in(out.deep_view(), x, y) implies (pair_in(prefix1, x, y) && lo <= y
                    <= hi) by {
                    assert(pair_in(prefix, x, y));
                    let m = choose|m: int| 0 <= m < prefix.len() && prefix[m] == (x, y);
                    assert(prefix1[m] == (x, y));
                }
            }
        }
        assert(orig.subrange(0, n as int) =~= orig);
        self.rows = out;
    }

    /// Finds a key mapped to value `v` (the reverse lookup used to
    /// correlate a peer handle with its player).
    pub fn key_of_val(&self, v: u128) -> (r: Option<String>)
        ensures
            match r {
                Some(k) => pair_in(self@, k@, v),
                None => !val_in(self@, v),
            },
    {
        let n = self.rows.len();
        for i in 0..n
            invariant
                n == self.rows.len(),
                forall|j: int| 0 <= j < i ==> self@[j].1 != v,
        {
            assert(self@[i as int] == (self.rows[i as int].0@, self.rows[i as int].1));
            if self.rows[i].1 == v {
                return Some(self.rows[i].0.clone());
            }
        }
        None
    }

    /// The number of rows.
    pub fn len(&self) -> (r: usize)
        ensures
            r == self@.len(),
    {
        self.rows.len()
    }
}

/// The rows of an origin table, as mathematical values.
pub type StrTable = Seq<(Seq<char>, Seq<char>)>;

/// True when some row maps `k` to `v`.
pub open spec fn spair_in(s: StrTable, k: Seq<char>, v: Seq<char>) -> bool {
    exists|i: int| 0 <= i < s.len() && s[i] == (k, v)
}

/// True when `k` is a key of some row.
pub open spec fn skey_in(s: StrTable, k: Seq<char>) -> bool {
    exists|i: int| 0 <= i < s.len() && s[i].0 == k
}

/// True when no key occurs twice.
pub open spec fn skeys_unique(s: StrTable) -> bool {
    forall|i: int, j: int| 0 <= i < j < s.len() ==> s[i].0 != s[j].0
}

/// A table from a socket origin to a player identity, keyed uniquely
/// by origin.
pub struct OriginIndex {
    pub rows: Vec<(String, String)>,
}

impl View for OriginIndex {
    type V = StrTable;

    open spec fn view(&self) -> StrTable {
        self.rows.deep_view()
    }
}

impl OriginIndex {
    pub open spec fn wf(self) -> bool {
        skeys_unique(self@)
    }

    pub fn new() -> (r: OriginIndex)
        ensures
            r@ =~= Seq::<(Seq<char>, Seq<char>)>::empty(),
            r.wf(),
    {
        OriginIndex { rows: Vec::new() }
    }

    /// Maps `k` to `v`, replacing any earlier row for `k`. Rows for
    /// other keys are untouched.
    pub fn set(&mut self, k: String, v: String)
        requires
            old(self).wf(),
        ensures
            final(self).wf(),
            spair_in(final(self)@, k@, v@),
            forall|x: Seq<char>, y: Seq<char>|
                x != k@ ==> (spair_in(final(self)@, x, y) <==> spair_in(old(self)@, x, y)),
    {
        self.remove(&k);
        let ghost mid = self@;
        self.rows.push((k, v));
        assert(self@ =~= mid.push((k@, v@)));
        assert forall|x: Seq<char>, y: Seq<char>|
            x != k@ && spair_in(mid, x, y) implies spair_in(self@, x, y) by {
            let i = choose|i: int| 0 <= i < mid.len() && mid[i] == (x, y);
            assert(self@[i] == (x, y));
        }
        assert(self@[self@.len() - 1] == (k@, v@));
    }

    /// Drops the row for `k`, returning its value; rows for other keys
    /// are untouched.
    pub fn remove(&mut self, k: &String) -> (r: Option<String>)
        requires
            old(self).wf(),
        ensures
            final(self).wf(),
            !skey_in(final(self)@, k@),
            match r {
                Some(v) => spair_in(old(self)@, k@, v@),
                None => !skey_in(old(self)@, k@) && final(self)@ == old(self)@,
            },
            forall|x: Seq<char>, y: Seq<char>|
                x != k@ ==> (spair_in(final(self)@, x, y) <==> spair_in(old(self)@, x, y)),
            forall|x: Seq<char>, y: Seq<char>|
                spair_in(final(self)@, x, y) ==> spair_in(old(self)@, x, y),
    {
        let n = self.rows.len();
        for i in 0..n
            invariant
                n == self.rows.len(),
                self@ == old(self)@,
                skeys_unique(self@),
                forall|j: int| 0 <= j < i ==> self@[j].0 != k@,
        {
            assert(self@[i as int] == (self.rows[i as int].0@, self.rows[i as int].1@));
            if self.rows[i].0 == *k {
                let ghost pre = self@;
                let row = self.rows.remove(i);
                assert(self@ =~= pre.remove(i as int));
                let ghost post = self@;
                assert forall|x: Seq<char>, y: Seq<char>|
                    spair_in(post, x, y) implies spair_in(pre, x, y) by {
                    let j = choose|j: int| 0 <= j < post.len() && post[j] == (x, y);
                    if j < i {
                        assert(pre[j] == (x, y));
                    } else {
                        assert(pre[j + 1] == (x, y));
                    }
                }
                assert forall|x: Seq<char>, y: Seq<char>|
                    x != k@ && spair_in(pre, x, y) implies spair_in(post, x, y) by {
                    let j = choose|j: int| 0 <= j < pre.len() && pre[j] == (x, y);
                    if j < i {
                        assert(post[j] == (x, y));
                    } else {
                        assert(j != i);
                        assert(post[j - 1] == (x, y));
                    }
                }
                assert forall|x: Seq<char>| skey_in(post, x) implies x != k@ by {
                    let j = choose|j: int| 0 <= j < post.len() && post[j].0 == x;
                    if j < i {
                        assert(pre[j].0 != k@);
                    } else {
                        assert(pre[j + 1].0 != k@);
                    }
                }
                assert forall|a: int, b: int|
                    0 <= a < b < post.len() implies post[a].0 != post[b].0 by {
                    let a0 = if a < i {
                        a
                    } else {
                        a + 1
                    };
                    let b0 = if b < i {
                        b
                    } else {
                        b + 1
                    };
                    assert(post[a].0 == pre[a0].0 && post[b].0 == pre[b0].0);
                }
                return Some(row.1);
            }
        }
        None
    }
}

} // verus!
