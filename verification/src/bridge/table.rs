//! A table from text keys to values, kept in key order.
//!
//! Key order rather than insertion order, so the same contents always list
//! the same way: what crosses the boundary is covered by the reproducibility
//! invariant too. Keys compare character by character, by code point — the
//! order of their UTF-8 bytes.

use crate::text::chars_of;
use vstd::prelude::*;

verus! {

/// `a` sorts strictly before `b`.
pub open spec fn key_lt(a: Seq<char>, b: Seq<char>) -> bool
    decreases a.len(),
{
    if a.len() == 0 {
        b.len() > 0
    } else if b.len() == 0 {
        false
    } else if a[0] != b[0] {
        (a[0] as int) < (b[0] as int)
    } else {
        key_lt(a.drop_first(), b.drop_first())
    }
}

/// No key sorts before itself.
pub proof fn lemma_key_lt_irreflexive(a: Seq<char>)
    ensures
        !key_lt(a, a),
    decreases a.len(),
{
    if a.len() > 0 {
        lemma_key_lt_irreflexive(a.drop_first());
    }
}

/// Two different keys sort one way or the other, and not both.
pub proof fn lemma_key_lt_total(a: Seq<char>, b: Seq<char>)
    ensures
        a != b ==> (key_lt(a, b) || key_lt(b, a)),
        !(key_lt(a, b) && key_lt(b, a)),
    decreases a.len(),
{
    if a.len() > 0 && b.len() > 0 && a[0] == b[0] {
        lemma_key_lt_total(a.drop_first(), b.drop_first());
        if a != b {
            assert(a.drop_first() != b.drop_first()) by {
                if a.drop_first() == b.drop_first() {
                    assert(a =~= seq![a[0]] + a.drop_first());
                    assert(b =~= seq![b[0]] + b.drop_first());
                }
            }
        }
    } else if a.len() == 0 && b.len() == 0 {
        assert(a =~= b);
    } else if a.len() > 0 && b.len() > 0 {
        if (a[0] as int) == (b[0] as int) {
            assert(a[0] == b[0]);
        }
    }
}

/// Key order is transitive.
pub proof fn lemma_key_lt_transitive(a: Seq<char>, b: Seq<char>, c: Seq<char>)
    requires
        key_lt(a, b),
        key_lt(b, c),
    ensures
        key_lt(a, c),
    decreases a.len(),
{
    if a.len() > 0 && b.len() > 0 && c.len() > 0 && a[0] == b[0] && b[0] == c[0] {
        lemma_key_lt_transitive(a.drop_first(), b.drop_first(), c.drop_first());
    } else if a.len() > 0 && c.len() > 0 && a[0] == c[0] {
        if (a[0] as int) == (b[0] as int) {
            assert(a[0] == b[0]);
        }
    }
}

/// Comparing from a common prefix on is comparing the whole.
proof fn lemma_key_lt_skip(a: Seq<char>, b: Seq<char>, i: int)
    requires
        0 <= i <= a.len(),
        i <= b.len(),
        a.take(i) == b.take(i),
    ensures
        key_lt(a, b) == key_lt(a.skip(i), b.skip(i)),
    decreases i,
{
    if i > 0 {
        assert(a[0] == a.take(i)[0]);
        assert(b[0] == b.take(i)[0]);
        assert(a.drop_first().take(i - 1) =~= a.take(i).drop_first());
        assert(b.drop_first().take(i - 1) =~= b.take(i).drop_first());
        lemma_key_lt_skip(a.drop_first(), b.drop_first(), i - 1);
        assert(a.drop_first().skip(i - 1) =~= a.skip(i));
        assert(b.drop_first().skip(i - 1) =~= b.skip(i));
    } else {
        assert(a.skip(0) =~= a);
        assert(b.skip(0) =~= b);
    }
}

/// Whether `a` sorts strictly before `b`.
pub fn key_precedes(a: &Vec<char>, b: &Vec<char>) -> (r: bool)
    ensures
        r == key_lt(a@, b@),
{
    let mut i: usize = 0;
    while i < a.len() && i < b.len() && a[i] == b[i]
        invariant
            i <= a.len(),
            i <= b.len(),
            a@.take(i as int) == b@.take(i as int),
        decreases a.len() - i,
    {
        proof {
            assert(a@.take(i + 1) =~= a@.take(i as int).push(a@[i as int]));
            assert(b@.take(i + 1) =~= b@.take(i as int).push(b@[i as int]));
        }
        i = i + 1;
    }
    proof {
        lemma_key_lt_skip(a@, b@, i as int);
    }
    if i == a.len() {
        proof {
            assert(a@.skip(i as int).len() == 0);
        }
        i < b.len()
    } else if i == b.len() {
        proof {
            assert(b@.skip(i as int).len() == 0);
        }
        false
    } else {
        let (x, y) = (a[i], b[i]);
        proof {
            assert(x != y);
            assert(a@.skip(i as int)[0] == x);
            assert(b@.skip(i as int)[0] == y);
            assert(a@.skip(i as int).len() > 0);
            assert(b@.skip(i as int).len() > 0);
        }
        x < y
    }
}

/// Whether two keys are the same text.
pub fn same_key(a: &Vec<char>, b: &Vec<char>) -> (r: bool)
    ensures
        r == (a@ == b@),
{
    if a.len() != b.len() {
        return false;
    }
    let mut i: usize = 0;
    while i < a.len()
        invariant
            i <= a.len() == b.len(),
            a@.take(i as int) == b@.take(i as int),
        decreases a.len() - i,
    {
        if a[i] != b[i] {
            return false;
        }
        proof {
            assert(a@.take(i + 1) =~= a@.take(i as int).push(a@[i as int]));
            assert(b@.take(i + 1) =~= b@.take(i as int).push(b@[i as int]));
        }
        i = i + 1;
    }
    proof {
        assert(a@ =~= a@.take(a.len() as int));
        assert(b@ =~= b@.take(b.len() as int));
    }
    true
}

/// A listing whose keys strictly increase.
pub open spec fn ordered<V>(s: Seq<(Seq<char>, V)>) -> bool {
    forall|i: int, j: int| 0 <= i < j < s.len() ==> key_lt(#[trigger] s[i].0, #[trigger] s[j].0)
}

/// Key `k` occurs in listing `s`.
pub open spec fn listed<V>(s: Seq<(Seq<char>, V)>, k: Seq<char>) -> bool {
    exists|i: int| 0 <= i < s.len() && #[trigger] s[i].0 == k
}

/// A place where key `k` occurs in listing `s`, if it occurs.
pub open spec fn place<V>(s: Seq<(Seq<char>, V)>, k: Seq<char>) -> int {
    choose|i: int| 0 <= i < s.len() && #[trigger] s[i].0 == k
}

/// The contents of a listing, as a map: each key to the value beside it.
pub open spec fn contents<V>(s: Seq<(Seq<char>, V)>) -> Map<Seq<char>, V> {
    Map::new(|k: Seq<char>| listed(s, k), |k: Seq<char>| s[place(s, k)].1)
}

/// In an ordered listing, a key occurs at one place only.
proof fn lemma_ordered_unique<V>(s: Seq<(Seq<char>, V)>, i: int, j: int)
    requires
        ordered(s),
        0 <= i < s.len(),
        0 <= j < s.len(),
        s[i].0 == s[j].0,
    ensures
        i == j,
{
    if i < j {
        lemma_key_lt_irreflexive(s[i].0);
    } else if j < i {
        lemma_key_lt_irreflexive(s[j].0);
    }
}

/// The value an ordered listing holds for the key at `i`.
proof fn lemma_contents_at<V>(s: Seq<(Seq<char>, V)>, i: int)
    requires
        ordered(s),
        0 <= i < s.len(),
    ensures
        contents(s).contains_key(s[i].0),
        contents(s)[s[i].0] == s[i].1,
{
    let k = s[i].0;
    assert(listed(s, k));
    let c = place(s, k);
    lemma_ordered_unique(s, i, c);
    assert(contents(s)[k] == s[c].1);
}

/// Two ordered listings with the same contents are the same listing: the
/// order is a function of the contents alone.
pub proof fn law_the_listing_is_a_function_of_the_contents<V>(
    s: Seq<(Seq<char>, V)>,
    t: Seq<(Seq<char>, V)>,
)
    requires
        ordered(s),
        ordered(t),
        contents(s) == contents(t),
    ensures
        s == t,
    decreases s.len(),
{
    if s.len() == 0 {
        if t.len() > 0 {
            lemma_contents_at(t, 0);
            assert(contents(s).contains_key(t[0].0));
        }
        assert(s =~= t);
        return;
    }
    lemma_contents_at(s, 0);
    assert(contents(t).contains_key(s[0].0));
    let j = choose|j: int| 0 <= j < t.len() && #[trigger] t[j].0 == s[0].0;
    lemma_contents_at(t, 0);
    assert(contents(s).contains_key(t[0].0));
    let i = choose|i: int| 0 <= i < s.len() && #[trigger] s[i].0 == t[0].0;
    if j > 0 {
        assert(key_lt(t[0].0, t[j].0));
        if i > 0 {
            assert(key_lt(s[0].0, s[i].0));
            lemma_key_lt_transitive(s[0].0, t[0].0, s[0].0);
            lemma_key_lt_irreflexive(s[0].0);
        } else {
            lemma_key_lt_irreflexive(s[0].0);
        }
    }
    assert(j == 0);
    lemma_contents_at(t, 0);
    assert(s[0] == t[0]);
    let s1 = s.drop_first();
    let t1 = t.drop_first();
    assert(ordered(s1)) by {
        assert forall|a: int, b: int| 0 <= a < b < s1.len() implies key_lt(
            #[trigger] s1[a].0,
            #[trigger] s1[b].0,
        ) by {
            assert(s1[a] == s[a + 1]);
            assert(s1[b] == s[b + 1]);
        }
    }
    assert(ordered(t1)) by {
        assert forall|a: int, b: int| 0 <= a < b < t1.len() implies key_lt(
            #[trigger] t1[a].0,
            #[trigger] t1[b].0,
        ) by {
            assert(t1[a] == t[a + 1]);
            assert(t1[b] == t[b + 1]);
        }
    }
    assert(contents(s1) == contents(t1)) by {
        assert forall|k: Seq<char>| #[trigger] contents(s1).contains_key(k) implies contents(
            t1,
        ).contains_key(k) && contents(s1)[k] == contents(t1)[k] by {
            let a = choose|a: int| 0 <= a < s1.len() && #[trigger] s1[a].0 == k;
            lemma_contents_at(s, a + 1);
            assert(s[a + 1] == s1[a]);
            assert(contents(t).contains_key(k));
            let b = choose|b: int| 0 <= b < t.len() && #[trigger] t[b].0 == k;
            if b == 0 {
                lemma_ordered_unique(s, 0, a + 1);
            }
            assert(t1[b - 1] == t[b]);
            lemma_contents_at(t, b);
            lemma_contents_at(s1, a);
            lemma_contents_at(t1, b - 1);
        }
        assert forall|k: Seq<char>| #[trigger] contents(t1).contains_key(k) implies contents(
            s1,
        ).contains_key(k) by {
            let b = choose|b: int| 0 <= b < t1.len() && #[trigger] t1[b].0 == k;
            lemma_contents_at(t, b + 1);
            assert(t[b + 1] == t1[b]);
            assert(contents(s).contains_key(k));
            let a = choose|a: int| 0 <= a < s.len() && #[trigger] s[a].0 == k;
            if a == 0 {
                lemma_ordered_unique(t, 0, b + 1);
            }
            assert(s1[a - 1] == s[a]);
        }
        assert(contents(s1) =~= contents(t1));
    }
    law_the_listing_is_a_function_of_the_contents(s1, t1);
    assert(s =~= seq![s[0]] + s1);
    assert(t =~= seq![t[0]] + t1);
}

/// Text keys to values of type `V`, kept in key order with each key once.
#[derive(Debug)]
pub struct Table<V: View> {
    entries: Vec<(Vec<char>, V)>,
}

/// The listing of a table's entries, keys and values taken by their views.
pub open spec fn listing_of<V: View>(entries: Seq<(Vec<char>, V)>) -> Seq<(Seq<char>, V::V)> {
    entries.map_values(|e: (Vec<char>, V)| (e.0@, e.1@))
}

impl<V: View> Table<V> {
    #[verifier::type_invariant]
    spec fn keys_increase(self) -> bool {
        ordered(listing_of(self.entries@))
    }

    /// The entries in key order.
    pub closed spec fn listing(self) -> Seq<(Seq<char>, V::V)> {
        listing_of(self.entries@)
    }

    /// What every table satisfies: its listing is in strictly increasing key
    /// order.
    pub open spec fn wf(self) -> bool {
        ordered(self.listing())
    }

    /// An empty table.
    pub fn new() -> (t: Table<V>)
        ensures
            t.listing() == Seq::<(Seq<char>, V::V)>::empty(),
            t.wf(),
    {
        let t = Table { entries: Vec::new() };
        proof {
            assert(listing_of(t.entries@) =~= Seq::<(Seq<char>, V::V)>::empty());
        }
        t
    }

    pub fn len(&self) -> (n: usize)
        ensures
            n == self.listing().len(),
    {
        self.entries.len()
    }

    pub fn is_empty(&self) -> (r: bool)
        ensures
            r == (self.listing().len() == 0),
    {
        self.entries.len() == 0
    }

    /// The entry at position `i` in key order.
    pub fn entry(&self, i: usize) -> (r: (&Vec<char>, &V))
        requires
            i < self.listing().len(),
        ensures
            (r.0@, r.1@) == self.listing()[i as int],
    {
        (&self.entries[i].0, &self.entries[i].1)
    }

    /// The value stored under `key`, if any.
    pub fn get(&self, key: &str) -> (r: Option<&V>)
        ensures
            contents(self.listing()).contains_key(key@) ==> (r matches Some(v) && v@ == contents(
                self.listing(),
            )[key@]),
            !contents(self.listing()).contains_key(key@) ==> r is None,
    {
        proof {
            use_type_invariant(self);
        }
        let k = chars_of(key);
        let mut i: usize = 0;
        while i < self.entries.len()
            invariant
                i <= self.entries.len(),
                k@ == key@,
                ordered(listing_of(self.entries@)),
                forall|j: int| 0 <= j < i ==> (#[trigger] self.entries@[j]).0@ != key@,
            decreases self.entries.len() - i,
        {
            if same_key(&self.entries[i].0, &k) {
                proof {
                    let s = listing_of(self.entries@);
                    assert(s[i as int].0 == key@);
                    lemma_contents_at(s, i as int);
                }
                return Some(&self.entries[i].1);
            }
            i = i + 1;
        }
        proof {
            let s = listing_of(self.entries@);
            if listed(s, key@) {
                let j = choose|j: int| 0 <= j < s.len() && #[trigger] s[j].0 == key@;
                assert(self.entries@[j].0@ == s[j].0);
            }
        }
        None
    }

    /// Stores `value` under `key`, replacing what was there.
    pub fn insert(&mut self, key: &str, value: V)
        ensures
            contents(final(self).listing()) == contents(old(self).listing()).insert(key@, value@),
            final(self).wf(),
    {
        proof {
            use_type_invariant(&*self);
        }
        let k = chars_of(key);
        let ghost s = listing_of(self.entries@);
        let ghost w = value@;
        let mut i: usize = 0;
        while i < self.entries.len() && key_precedes(&self.entries[i].0, &k)
            invariant
                i <= self.entries.len(),
                k@ == key@,
                s == listing_of(self.entries@),
                ordered(s),
                forall|j: int| 0 <= j < i ==> key_lt(#[trigger] s[j].0, key@),
            decreases self.entries.len() - i,
        {
            i = i + 1;
        }
        if i < self.entries.len() && same_key(&self.entries[i].0, &k) {
            let mut entries = Vec::new();
            std::mem::swap(&mut entries, &mut self.entries);
            entries.set(i, (k, value));
            let ghost t = listing_of(entries@);
            proof {
                assert(t =~= s.update(i as int, (key@, w)));
                assert(ordered(t)) by {
                    assert forall|a: int, b: int| 0 <= a < b < t.len() implies key_lt(
                        #[trigger] t[a].0,
                        #[trigger] t[b].0,
                    ) by {
                        assert(s[i as int].0 == key@);
                    }
                }
                lemma_replaced(s, i as int, key@, w);
            }
            self.entries = entries;
        } else {
            let mut entries = Vec::new();
            std::mem::swap(&mut entries, &mut self.entries);
            entries.insert(i, (k, value));
            let ghost t = listing_of(entries@);
            proof {
                assert(t =~= s.insert(i as int, (key@, w)));
                if i < s.len() {
                    lemma_key_lt_total(s[i as int].0, key@);
                }
                assert(ordered(t)) by {
                    assert forall|a: int, b: int| 0 <= a < b < t.len() implies key_lt(
                        #[trigger] t[a].0,
                        #[trigger] t[b].0,
                    ) by {
                        if a < i && b == i {
                        } else if a < i && b > i {
                            assert(t[b] == s[b - 1]);
                            if b - 1 > i {
                                lemma_key_lt_transitive(key@, s[i as int].0, s[b - 1].0);
                            }
                            lemma_key_lt_transitive(s[a].0, key@, s[b - 1].0);
                        } else if a == i {
                            assert(t[b] == s[b - 1]);
                            if b - 1 > i {
                                lemma_key_lt_transitive(key@, s[i as int].0, s[b - 1].0);
                            }
                        } else if a > i {
                            assert(t[a] == s[a - 1]);
                            assert(t[b] == s[b - 1]);
                        }
                    }
                }
                lemma_inserted(s, i as int, key@, w);
            }
            self.entries = entries;
        }
    }
}

/// Replacing the value of the key at `i` changes only that key's value.
proof fn lemma_replaced<V>(s: Seq<(Seq<char>, V)>, i: int, k: Seq<char>, v: V)
    requires
        ordered(s),
        ordered(s.update(i, (k, v))),
        0 <= i < s.len(),
        s[i].0 == k,
    ensures
        contents(s.update(i, (k, v))) == contents(s).insert(k, v),
{
    let t = s.update(i, (k, v));
    assert forall|key: Seq<char>| #[trigger] contents(t).contains_key(key) <==> contents(
        s,
    ).insert(k, v).contains_key(key) by {
        if contents(t).contains_key(key) {
            let a = choose|a: int| 0 <= a < t.len() && #[trigger] t[a].0 == key;
            if a != i {
                assert(s[a] == t[a]);
                assert(listed(s, key));
            }
        }
        if contents(s).contains_key(key) {
            let a = choose|a: int| 0 <= a < s.len() && #[trigger] s[a].0 == key;
            if a != i {
                assert(s[a] == t[a]);
            }
            assert(t[a].0 == key);
            assert(listed(t, key));
        }
        if key == k {
            assert(t[i].0 == key);
            assert(listed(t, key));
        }
    }
    assert forall|key: Seq<char>| #[trigger] contents(t).contains_key(key) implies contents(t)[key]
        == contents(s).insert(k, v)[key] by {
        let a = choose|a: int| 0 <= a < t.len() && #[trigger] t[a].0 == key;
        lemma_contents_at(t, a);
        if a != i {
            assert(s[a] == t[a]);
            lemma_contents_at(s, a);
            if s[a].0 == s[i].0 {
                lemma_ordered_unique(s, a, i);
            }
        }
    }
    assert(contents(t) =~= contents(s).insert(k, v));
}

/// Inserting a new key at its place adds exactly that key.
proof fn lemma_inserted<V>(s: Seq<(Seq<char>, V)>, i: int, k: Seq<char>, v: V)
    requires
        ordered(s),
        ordered(s.insert(i, (k, v))),
        0 <= i <= s.len(),
    ensures
        contents(s.insert(i, (k, v))) == contents(s).insert(k, v),
{
    let t = s.insert(i, (k, v));
    assert forall|key: Seq<char>| #[trigger] contents(t).contains_key(key) <==> contents(
        s,
    ).insert(k, v).contains_key(key) by {
        if contents(t).contains_key(key) {
            let a = choose|a: int| 0 <= a < t.len() && #[trigger] t[a].0 == key;
            if a < i {
                assert(s[a] == t[a]);
                assert(listed(s, key));
            } else if a > i {
                assert(s[a - 1] == t[a]);
                assert(listed(s, key));
            }
        }
        if contents(s).contains_key(key) {
            let a = choose|a: int| 0 <= a < s.len() && #[trigger] s[a].0 == key;
            if a < i {
                assert(s[a] == t[a]);
            } else {
                assert(s[a] == t[a + 1]);
            }
            assert(listed(t, key));
        }
        if key == k {
            assert(t[i].0 == key);
            assert(listed(t, key));
        }
    }
    assert forall|key: Seq<char>| #[trigger] contents(t).contains_key(key) implies contents(t)[key]
        == contents(s).insert(k, v)[key] by {
        let a = choose|a: int| 0 <= a < t.len() && #[trigger] t[a].0 == key;
        lemma_contents_at(t, a);
        lemma_contents_at(t, i);
        if a < i {
            assert(s[a] == t[a]);
            lemma_contents_at(s, a);
            if t[a].0 == t[i].0 {
                lemma_ordered_unique(t, a, i);
            }
        } else if a > i {
            assert(s[a - 1] == t[a]);
            lemma_contents_at(s, a - 1);
            if t[a].0 == t[i].0 {
                lemma_ordered_unique(t, a, i);
            }
        }
    }
    assert(contents(t) =~= contents(s).insert(k, v));
}

} // verus!
