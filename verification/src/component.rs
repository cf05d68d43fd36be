//! Component tables and the AND-join engine: sorted entity-keyed storage
//! with map-level contracts, and the cursor-merge intersection over several
//! tables.

use vstd::prelude::*;

use crate::entity::EntityID;

verus! {

/// Looks a key up in an entry list: the value of the first entry carrying the
/// key, if any.
pub open spec fn seq_lookup<V>(s: Seq<(EntityID, V)>, k: EntityID) -> Option<V>
    decreases s.len(),
{
    if s.len() == 0 {
        None
    } else if s[0].0 == k {
        Some(s[0].1)
    } else {
        seq_lookup(s.drop_first(), k)
    }
}

/// The entry list carries strictly ascending keys, so each key appears at
/// most once and the entries come out in ascending id order.
pub open spec fn entries_sorted<V>(s: Seq<(EntityID, V)>) -> bool {
    forall|i: int, j: int|
        0 <= i < j < s.len() ==> (#[trigger] s[i]).0 < (#[trigger] s[j]).0
}

/// The contents of an entry list as a map from key to stored value.
pub open spec fn entries_map<V>(s: Seq<(EntityID, V)>) -> Map<EntityID, V> {
    Map::new(|k: EntityID| seq_lookup(s, k).is_some(), |k: EntityID| seq_lookup(s, k).unwrap())
}

/// Looking a key up in the concatenation of two entry lists finds its first
/// entry: the second list only answers where the first has no entry.
pub proof fn lemma_lookup_concat<V>(s1: Seq<(EntityID, V)>, s2: Seq<(EntityID, V)>, k: EntityID)
    ensures
        seq_lookup(s1 + s2, k) == if seq_lookup(s1, k).is_some() {
            seq_lookup(s1, k)
        } else {
            seq_lookup(s2, k)
        },
    decreases s1.len(),
{
    if s1.len() == 0 {
        assert(s1 + s2 =~= s2);
    } else {
        assert((s1 + s2)[0] == s1[0]);
        assert((s1 + s2).drop_first() =~= s1.drop_first() + s2);
        lemma_lookup_concat(s1.drop_first(), s2, k);
    }
}

/// A key no entry carries has no lookup result.
pub proof fn lemma_lookup_absent<V>(s: Seq<(EntityID, V)>, k: EntityID)
    requires
        forall|i: int| 0 <= i < s.len() ==> (#[trigger] s[i]).0 != k,
    ensures
        seq_lookup(s, k) is None,
    decreases s.len(),
{
    if s.len() > 0 {
        lemma_lookup_absent(s.drop_first(), k);
    }
}

/// A lookup result comes from some entry of the list.
pub proof fn lemma_lookup_some_index<V>(s: Seq<(EntityID, V)>, k: EntityID)
    requires
        seq_lookup(s, k).is_some(),
    ensures
        exists|i: int| 0 <= i < s.len() && #[trigger] s[i] == (k, seq_lookup(s, k).unwrap()),
    decreases s.len(),
{
    if s[0].0 == k {
        assert(s[0] == (k, seq_lookup(s, k).unwrap()));
    } else {
        lemma_lookup_some_index(s.drop_first(), k);
        let i0 = choose|i: int|
            0 <= i < s.drop_first().len() && #[trigger] s.drop_first()[i] == (
                k,
                seq_lookup(s.drop_first(), k).unwrap(),
            );
        assert(s[i0 + 1] == s.drop_first()[i0]);
    }
}

/// An entry whose key no earlier entry carries is what the lookup finds.
pub proof fn lemma_lookup_found<V>(s: Seq<(EntityID, V)>, i: int)
    requires
        0 <= i < s.len(),
        forall|j: int| 0 <= j < i ==> (#[trigger] s[j]).0 != s[i].0,
    ensures
        seq_lookup(s, s[i].0) == Some(s[i].1),
    decreases i,
{
    if i > 0 {
        assert(forall|j: int|
            0 <= j < i - 1 ==> (#[trigger] s.drop_first()[j]).0 == s[j + 1].0);
        lemma_lookup_found(s.drop_first(), i - 1);
    }
}

/// The storage contract every component table satisfies: point insertion with
/// overwrite, point removal, and point lookup, all speaking of the table's
/// contents as a map from entity id to stored value.
pub trait ComponentStorage<V>: Sized {
    /// The table's contents: a map from entity id to stored value.
    spec fn contents(&self) -> Map<EntityID, V>;

    /// Inserts `value` under `key`, overwriting any value already present.
    fn component_insert(&mut self, key: EntityID, value: V)
        ensures
            final(self).contents() == old(self).contents().insert(key, value),
    ;

    /// Removes the value stored under `key`; no effect when none is present.
    fn component_remove(&mut self, key: &EntityID)
        ensures
            final(self).contents() == old(self).contents().remove(*key),
    ;

    /// Looks up the value stored under `key`.
    fn component_get(&self, key: EntityID) -> (r: Option<&V>)
        ensures
            match r {
                Some(v) => self.contents().contains_key(key) && *v == self.contents()[key],
                None => !self.contents().contains_key(key),
            },
    ;
}

/// Marker for a component type stored in tables of type `S`: a field of an
/// entity, kept beside all other components of the same type rather than
/// inside the entity.
pub trait Component<S>: Sized where S: ComponentStorage<Self> {

}

/// The standard ordered map serves directly as a component storage.
impl<V> ComponentStorage<V> for std::collections::BTreeMap<EntityID, V> {
    closed spec fn contents(&self) -> Map<EntityID, V> {
        self@
    }

    fn component_insert(&mut self, key: EntityID, value: V) {
        broadcast use vstd::laws_cmp::group_laws_cmp;

        self.insert(key, value);
    }

    fn component_remove(&mut self, key: &EntityID) {
        broadcast use vstd::laws_cmp::group_laws_cmp, vstd::std_specs::btree::group_btree_axioms;

        self.remove(key);
    }

    fn component_get(&self, key: EntityID) -> (r: Option<&V>) {
        broadcast use vstd::laws_cmp::group_laws_cmp, vstd::std_specs::btree::group_btree_axioms;

        self.get(&key)
    }
}

/// An ordered entity-keyed table backed by a vector of entries sorted by
/// strictly ascending id: the backing store for component tables, producing
/// its entries in ascending id order.
pub struct ComponentTable<V> {
    entries: Vec<(EntityID, V)>,
}

impl<V> ComponentTable<V> {
    /// The entries in storage order.
    pub closed spec fn entries_seq(&self) -> Seq<(EntityID, V)> {
        self.entries@
    }

    #[verifier::type_invariant]
    spec fn wf(&self) -> bool {
        entries_sorted(self.entries@)
    }

    /// An empty table.
    pub fn new() -> (r: Self)
        ensures
            r.contents() == Map::<EntityID, V>::empty(),
            r.entries_seq().len() == 0,
    {
        let r = ComponentTable { entries: Vec::new() };
        proof {
            assert(r.contents() =~= Map::<EntityID, V>::empty());
        }
        r
    }

    /// How many entities have a value in this table.
    pub fn len(&self) -> (n: usize)
        ensures
            n == self.entries_seq().len(),
    {
        self.entries.len()
    }

    /// The entries, sorted by strictly ascending entity id: every entry is a
    /// binding of the contents and every binding has its entry.
    pub fn entries(&self) -> (r: &Vec<(EntityID, V)>)
        ensures
            r@ == self.entries_seq(),
            entries_sorted(self.entries_seq()),
            self.contents() == entries_map(self.entries_seq()),
            forall|i: int|
                0 <= i < self.entries_seq().len() ==> {
                    let e = #[trigger] self.entries_seq()[i];
                    self.contents().contains_key(e.0) && self.contents()[e.0] == e.1
                },
            forall|k: EntityID|
                self.contents().contains_key(k) ==> exists|i: int|
                    0 <= i < self.entries_seq().len() && #[trigger] self.entries_seq()[i] == (
                        k,
                        self.contents()[k],
                    ),
    {
        proof {
            use_type_invariant(self);
            let s = self.entries@;
            assert forall|i: int| 0 <= i < s.len() implies {
                let e = #[trigger] s[i];
                self.contents().contains_key(e.0) && self.contents()[e.0] == e.1
            } by {
                assert(forall|j: int| 0 <= j < i ==> (#[trigger] s[j]).0 != s[i].0);
                lemma_lookup_found(s, i);
            }
            assert forall|k: EntityID| self.contents().contains_key(k) implies exists|i: int|
                0 <= i < s.len() && #[trigger] s[i] == (k, self.contents()[k]) by {
                lemma_lookup_some_index(s, k);
            }
        }
        &self.entries
    }
}

impl<V> ComponentStorage<V> for ComponentTable<V> {
    closed spec fn contents(&self) -> Map<EntityID, V> {
        entries_map(self.entries@)
    }

    fn component_insert(&mut self, key: EntityID, value: V) {
        proof {
            use_type_invariant(&*self);
        }
        let ghost orig = self.entries@;
        let mut entries: Vec<(EntityID, V)> = Vec::new();
        std::mem::swap(&mut entries, &mut self.entries);
        let n = entries.len();
        let mut i: usize = 0;
        while i < n && entries[i].0 < key
            invariant
                i <= n,
                n == entries@.len(),
                entries@ == orig,
                forall|j: int| 0 <= j < i ==> (#[trigger] orig[j]).0 < key,
            decreases n - i,
        {
            i = i + 1;
        }
        if i < n && entries[i].0 == key {
            entries[i] = (key, value);
            proof {
                lemma_entries_update(orig, i as int, key, value);
            }
        } else {
            entries.insert(i, (key, value));
            proof {
                assert(forall|j: int|
                    i <= j < orig.len() ==> (#[trigger] orig[j]).0 > key);
                lemma_entries_insert(orig, i as int, key, value);
            }
        }
        self.entries = entries;
        proof {
            assert(final(self).contents() =~= old(self).contents().insert(key, value));
        }
    }

    fn component_remove(&mut self, key: &EntityID) {
        proof {
            use_type_invariant(&*self);
        }
        let k = *key;
        let ghost orig = self.entries@;
        let mut entries: Vec<(EntityID, V)> = Vec::new();
        std::mem::swap(&mut entries, &mut self.entries);
        let n = entries.len();
        let mut i: usize = 0;
        while i < n && entries[i].0 < k
            invariant
                i <= n,
                n == entries@.len(),
                entries@ == orig,
                forall|j: int| 0 <= j < i ==> (#[trigger] orig[j]).0 < k,
            decreases n - i,
        {
            i = i + 1;
        }
        if i < n && entries[i].0 == k {
            entries.remove(i);
            proof {
                lemma_entries_remove(orig, i as int);
            }
        } else {
            proof {
                assert(forall|j: int| 0 <= j < orig.len() ==> (#[trigger] orig[j]).0 != k);
                lemma_lookup_absent(orig, k);
            }
        }
        self.entries = entries;
        proof {
            assert(final(self).contents() =~= old(self).contents().remove(k));
        }
    }

    fn component_get(&self, key: EntityID) -> (r: Option<&V>) {
        proof {
            use_type_invariant(self);
        }
        let ghost s = self.entries@;
        let n = self.entries.len();
        let mut i: usize = 0;
        while i < n && self.entries[i].0 < key
            invariant
                i <= n,
                n == s.len(),
                s == self.entries@,
                entries_sorted(s),
                forall|j: int| 0 <= j < i ==> (#[trigger] s[j]).0 < key,
            decreases n - i,
        {
            i = i + 1;
        }
        if i < n && self.entries[i].0 == key {
            proof {
                assert(forall|j: int| 0 <= j < i ==> (#[trigger] s[j]).0 != s[i as int].0);
                lemma_lookup_found(s, i as int);
            }
            Some(&self.entries[i].1)
        } else {
            proof {
                assert(forall|j: int| 0 <= j < s.len() ==> (#[trigger] s[j]).0 != key);
                lemma_lookup_absent(s, key);
            }
            None
        }
    }
}

/// The AND-join of two sorted entry lists by the cursor-merge rule: when the
/// heads carry the same key, emit the pair and advance both lists; otherwise
/// advance the list whose head carries the strictly smaller key; stop when
/// either list is exhausted.
pub open spec fn join_entries<A, B>(a: Seq<(EntityID, A)>, b: Seq<(EntityID, B)>) -> Seq<
    (EntityID, (A, B)),
>
    decreases a.len() + b.len(),
{
    if a.len() == 0 || b.len() == 0 {
        Seq::empty()
    } else if a[0].0 == b[0].0 {
        seq![(a[0].0, (a[0].1, b[0].1))] + join_entries(a.drop_first(), b.drop_first())
    } else if a[0].0 < b[0].0 {
        join_entries(a.drop_first(), b)
    } else {
        join_entries(a, b.drop_first())
    }
}

/// Law: the AND-join of two sorted tables holds exactly the keys present in
/// both, in strictly ascending order, each paired with the two stored values.
pub proof fn lemma_join_entries_props<A, B>(a: Seq<(EntityID, A)>, b: Seq<(EntityID, B)>)
    requires
        entries_sorted(a),
        entries_sorted(b),
    ensures
        entries_sorted(join_entries(a, b)),
        forall|k: EntityID|
            #[trigger] seq_lookup(join_entries(a, b), k) == match (
                seq_lookup(a, k),
                seq_lookup(b, k),
            ) {
                (Some(x), Some(y)) => Some((x, y)),
                _ => None,
            },
    decreases a.len() + b.len(),
{
    let r = join_entries(a, b);
    if a.len() == 0 || b.len() == 0 {
        assert forall|k: EntityID|
            #[trigger] seq_lookup(r, k) == match (seq_lookup(a, k), seq_lookup(b, k)) {
                (Some(x), Some(y)) => Some((x, y)),
                _ => None,
            } by {
            if a.len() == 0 {
                assert(seq_lookup(a, k) is None);
            } else {
                assert(seq_lookup(b, k) is None);
            }
        }
    } else if a[0].0 == b[0].0 {
        let k0 = a[0].0;
        let a1 = a.drop_first();
        let b1 = b.drop_first();
        assert(entries_sorted(a1)) by {
            assert(forall|i: int| 0 <= i < a1.len() ==> a1[i] == a[i + 1]);
        }
        assert(entries_sorted(b1)) by {
            assert(forall|i: int| 0 <= i < b1.len() ==> b1[i] == b[i + 1]);
        }
        lemma_join_entries_props(a1, b1);
        let r1 = join_entries(a1, b1);
        assert(r == seq![(k0, (a[0].1, b[0].1))] + r1);
        assert forall|j: int| 0 <= j < r1.len() implies k0 < (#[trigger] r1[j]).0 by {
            assert(forall|p: int| 0 <= p < j ==> (#[trigger] r1[p]).0 != r1[j].0);
            lemma_lookup_found(r1, j);
            lemma_lookup_some_index(a1, r1[j].0);
            let i0 = choose|i: int|
                0 <= i < a1.len() && #[trigger] a1[i] == (r1[j].0, seq_lookup(a1, r1[j].0).unwrap());
            assert(a1[i0] == a[i0 + 1]);
        }
        assert(entries_sorted(r)) by {
            assert(r[0].0 == k0);
            assert(forall|j: int| 0 <= j < r1.len() ==> r[j + 1] == r1[j]);
        }
        assert forall|k: EntityID|
            #[trigger] seq_lookup(r, k) == match (seq_lookup(a, k), seq_lookup(b, k)) {
                (Some(x), Some(y)) => Some((x, y)),
                _ => None,
            } by {
            assert(r[0] == (k0, (a[0].1, b[0].1)));
            if k != k0 {
                assert(r.drop_first() =~= r1);
                assert(seq_lookup(r1, k) == match (seq_lookup(a1, k), seq_lookup(b1, k)) {
                    (Some(x), Some(y)) => Some::<(A, B)>((x, y)),
                    _ => None,
                });
                assert(seq_lookup(r, k) == seq_lookup(r.drop_first(), k));
                assert(seq_lookup(a, k) == seq_lookup(a1, k));
                assert(seq_lookup(b, k) == seq_lookup(b1, k));
            }
        }
    } else if a[0].0 < b[0].0 {
        let a1 = a.drop_first();
        assert(entries_sorted(a1)) by {
            assert(forall|i: int| 0 <= i < a1.len() ==> a1[i] == a[i + 1]);
        }
        lemma_join_entries_props(a1, b);
        assert forall|k: EntityID|
            #[trigger] seq_lookup(r, k) == match (seq_lookup(a, k), seq_lookup(b, k)) {
                (Some(x), Some(y)) => Some((x, y)),
                _ => None,
            } by {
            assert(seq_lookup(join_entries(a1, b), k) == match (
                seq_lookup(a1, k),
                seq_lookup(b, k),
            ) {
                (Some(x), Some(y)) => Some::<(A, B)>((x, y)),
                _ => None,
            });
            if k == a[0].0 {
                assert(forall|j: int| 0 <= j < b.len() ==> (#[trigger] b[j]).0 != k);
                lemma_lookup_absent(b, k);
                assert(forall|j: int| 0 <= j < a1.len() ==> (#[trigger] a1[j]).0 != k) by {
                    assert(forall|j: int| 0 <= j < a1.len() ==> a1[j] == a[j + 1]);
                }
                lemma_lookup_absent(a1, k);
            } else {
                assert(seq_lookup(a, k) == seq_lookup(a1, k));
            }
        }
    } else {
        let b1 = b.drop_first();
        assert(entries_sorted(b1)) by {
            assert(forall|i: int| 0 <= i < b1.len() ==> b1[i] == b[i + 1]);
        }
        lemma_join_entries_props(a, b1);
        assert forall|k: EntityID|
            #[trigger] seq_lookup(r, k) == match (seq_lookup(a, k), seq_lookup(b, k)) {
                (Some(x), Some(y)) => Some((x, y)),
                _ => None,
            } by {
            assert(seq_lookup(join_entries(a, b1), k) == match (
                seq_lookup(a, k),
                seq_lookup(b1, k),
            ) {
                (Some(x), Some(y)) => Some::<(A, B)>((x, y)),
                _ => None,
            });
            if k == b[0].0 {
                assert(forall|j: int| 0 <= j < a.len() ==> (#[trigger] a[j]).0 != k);
                lemma_lookup_absent(a, k);
                assert(forall|j: int| 0 <= j < b1.len() ==> (#[trigger] b1[j]).0 != k) by {
                    assert(forall|j: int| 0 <= j < b1.len() ==> b1[j] == b[j + 1]);
                }
                lemma_lookup_absent(b1, k);
            } else {
                assert(seq_lookup(b, k) == seq_lookup(b1, k));
            }
        }
    }
}

/// The cursor-merge AND-join over two sorted entry vectors: one pass, each
/// cursor visiting its entries at most once.
fn join_entries_exec<A: Copy, B: Copy>(a: &Vec<(EntityID, A)>, b: &Vec<(EntityID, B)>) -> (r: Vec<
    (EntityID, (A, B)),
>)
    ensures
        r@ == join_entries(a@, b@),
{
    let mut out: Vec<(EntityID, (A, B))> = Vec::new();
    let mut i: usize = 0;
    let mut j: usize = 0;
    proof {
        assert(a@.skip(0) =~= a@);
        assert(b@.skip(0) =~= b@);
        assert(out@ + join_entries(a@, b@) =~= join_entries(a@, b@));
    }
    while i < a.len() && j < b.len()
        invariant
            i <= a@.len(),
            j <= b@.len(),
            out@ + join_entries(a@.skip(i as int), b@.skip(j as int)) == join_entries(a@, b@),
        decreases a@.len() - i + b@.len() - j,
    {
        let ghost sa = a@.skip(i as int);
        let ghost sb = b@.skip(j as int);
        proof {
            assert(sa[0] == a@[i as int]);
            assert(sb[0] == b@[j as int]);
        }
        let ea = a[i];
        let eb = b[j];
        if ea.0 == eb.0 {
            out.push((ea.0, (ea.1, eb.1)));
            proof {
                assert(sa.drop_first() =~= a@.skip(i + 1));
                assert(sb.drop_first() =~= b@.skip(j + 1));
                assert(out@ + join_entries(a@.skip(i + 1), b@.skip(j + 1)) =~= (out@.drop_last()
                    + join_entries(sa, sb)));
            }
            i = i + 1;
            j = j + 1;
        } else if ea.0 < eb.0 {
            proof {
                assert(sa.drop_first() =~= a@.skip(i + 1));
            }
            i = i + 1;
        } else {
            proof {
                assert(sb.drop_first() =~= b@.skip(j + 1));
            }
            j = j + 1;
        }
    }
    proof {
        assert(join_entries(a@.skip(i as int), b@.skip(j as int)) =~= Seq::<
            (EntityID, (A, B)),
        >::empty());
        assert(out@ + join_entries(a@.skip(i as int), b@.skip(j as int)) =~= out@);
    }
    out
}

/// The AND-join of two component tables: exactly the entity ids present in
/// both tables, in strictly ascending order, each paired with the two stored
/// values.
pub fn join2<A: Copy, B: Copy>(a: &ComponentTable<A>, b: &ComponentTable<B>) -> (r: Vec<
    (EntityID, (A, B)),
>)
    ensures
        entries_sorted(r@),
        forall|k: EntityID|
            #[trigger] seq_lookup(r@, k) == if a.contents().contains_key(k)
                && b.contents().contains_key(k) {
                Some((a.contents()[k], b.contents()[k]))
            } else {
                None
            },
{
    let ea = a.entries();
    let eb = b.entries();
    let r = join_entries_exec(ea, eb);
    proof {
        lemma_join_entries_props(a.entries_seq(), b.entries_seq());
    }
    r
}

/// The AND-join of three component tables: exactly the entity ids present in
/// all three, in strictly ascending order, each paired with the three stored
/// values.
pub fn join3<A: Copy, B: Copy, C: Copy>(
    a: &ComponentTable<A>,
    b: &ComponentTable<B>,
    c: &ComponentTable<C>,
) -> (r: Vec<(EntityID, (A, B, C))>)
    ensures
        entries_sorted(r@),
        forall|k: EntityID|
            #[trigger] seq_lookup(r@, k) == if a.contents().contains_key(k)
                && b.contents().contains_key(k) && c.contents().contains_key(k) {
                Some((a.contents()[k], b.contents()[k], c.contents()[k]))
            } else {
                None
            },
{
    let ea = a.entries();
    let eb = b.entries();
    let ec = c.entries();
    let j1 = join_entries_exec(ea, eb);
    proof {
        lemma_join_entries_props(a.entries_seq(), b.entries_seq());
    }
    let j2 = join_entries_exec(&j1, ec);
    proof {
        lemma_join_entries_props(j1@, c.entries_seq());
    }
    let mut out: Vec<(EntityID, (A, B, C))> = Vec::new();
    let mut i: usize = 0;
    let n = j2.len();
    while i < n
        invariant
            i <= n,
            n == j2@.len(),
            out@.len() == i,
            forall|p: int|
                0 <= p < i ==> #[trigger] out@[p] == (
                    j2@[p].0,
                    (j2@[p].1.0.0, j2@[p].1.0.1, j2@[p].1.1),
                ),
        decreases n - i,
    {
        let e = j2[i];
        out.push((e.0, (e.1.0.0, e.1.0.1, e.1.1)));
        i = i + 1;
    }
    proof {
        assert(entries_sorted(out@)) by {
            assert(forall|p: int| 0 <= p < out@.len() ==> (#[trigger] out@[p]).0 == j2@[p].0);
        }
        assert forall|k: EntityID|
            #[trigger] seq_lookup(out@, k) == if a.contents().contains_key(k)
                && b.contents().contains_key(k) && c.contents().contains_key(k) {
                Some((a.contents()[k], b.contents()[k], c.contents()[k]))
            } else {
                None
            } by {
            if a.contents().contains_key(k) && b.contents().contains_key(k)
                && c.contents().contains_key(k) {
                lemma_lookup_some_index(j2@, k);
                let p = choose|p: int|
                    0 <= p < j2@.len() && #[trigger] j2@[p] == (k, seq_lookup(j2@, k).unwrap());
                assert(out@[p] == (k, (a.contents()[k], b.contents()[k], c.contents()[k])));
                assert(forall|q: int| 0 <= q < p ==> (#[trigger] out@[q]).0 != out@[p].0);
                lemma_lookup_found(out@, p);
            } else {
                assert(seq_lookup(j2@, k) is None);
                assert forall|p: int| 0 <= p < out@.len() implies (#[trigger] out@[p]).0 != k by {
                    if out@[p].0 == k {
                        assert(forall|q: int| 0 <= q < p ==> (#[trigger] j2@[q]).0 != j2@[p].0);
                        lemma_lookup_found(j2@, p);
                    }
                }
                lemma_lookup_absent(out@, k);
            }
        }
    }
    out
}

/// Overwriting the entry at a key's position turns the contents map into the
/// map with that one binding replaced.
proof fn lemma_entries_update_map<V>(s: Seq<(EntityID, V)>, i: int, key: EntityID, value: V)
    requires
        entries_sorted(s),
        0 <= i < s.len(),
        s[i].0 == key,
    ensures
        entries_sorted(s.update(i, (key, value))),
        entries_map(s.update(i, (key, value))) == entries_map(s).insert(key, value),
{
    lemma_entries_update(s, i, key, value);
    assert(entries_map(s.update(i, (key, value))) =~= entries_map(s).insert(key, value));
}

/// Overwriting the entry at a key's position changes exactly that key's
/// binding and keeps the entries sorted.
proof fn lemma_entries_update<V>(s: Seq<(EntityID, V)>, i: int, key: EntityID, value: V)
    requires
        entries_sorted(s),
        0 <= i < s.len(),
        s[i].0 == key,
    ensures
        entries_sorted(s.update(i, (key, value))),
        seq_lookup(s.update(i, (key, value)), key) == Some(value),
        forall|k: EntityID|
            k != key ==> #[trigger] seq_lookup(s.update(i, (key, value)), k) == seq_lookup(s, k),
{
    let t = s.update(i, (key, value));
    assert(entries_sorted(t)) by {
        assert(forall|j: int| 0 <= j < s.len() && j != i ==> t[j] == s[j]);
    }
    let front = s.take(i);
    let back = s.skip(i + 1);
    assert(t =~= front + (seq![(key, value)] + back));
    assert(s =~= front + (seq![s[i]] + back));
    assert(forall|j: int| 0 <= j < front.len() ==> (#[trigger] front[j]).0 != key);
    lemma_lookup_absent(front, key);
    lemma_lookup_concat(front, seq![(key, value)] + back, key);
    assert(seq_lookup(seq![(key, value)] + back, key) == Some(value)) by {
        assert((seq![(key, value)] + back)[0] == (key, value));
    }
    assert forall|k: EntityID| k != key implies #[trigger] seq_lookup(t, k) == seq_lookup(s, k) by {
        lemma_lookup_concat(front, seq![(key, value)] + back, k);
        lemma_lookup_concat(front, seq![s[i]] + back, k);
        assert((seq![(key, value)] + back)[0] == (key, value));
        assert((seq![s[i]] + back)[0] == s[i]);
        assert((seq![(key, value)] + back).drop_first() =~= back);
        assert((seq![s[i]] + back).drop_first() =~= back);
    }
}

/// Inserting an entry at the position where its key belongs gives that key a
/// binding, changes no other, and keeps the entries sorted.
proof fn lemma_entries_insert<V>(s: Seq<(EntityID, V)>, i: int, key: EntityID, value: V)
    requires
        entries_sorted(s),
        0 <= i <= s.len(),
        forall|j: int| 0 <= j < i ==> (#[trigger] s[j]).0 < key,
        forall|j: int| i <= j < s.len() ==> (#[trigger] s[j]).0 > key,
    ensures
        entries_sorted(s.insert(i, (key, value))),
        seq_lookup(s.insert(i, (key, value)), key) == Some(value),
        forall|k: EntityID|
            k != key ==> #[trigger] seq_lookup(s.insert(i, (key, value)), k) == seq_lookup(s, k),
{
    let t = s.insert(i, (key, value));
    let front = s.take(i);
    let back = s.skip(i);
    assert(t =~= front + (seq![(key, value)] + back));
    assert(s =~= front + back);
    assert(entries_sorted(t)) by {
        assert(forall|j: int| 0 <= j < i ==> t[j] == s[j]);
        assert(forall|j: int| i < j < t.len() ==> t[j] == s[j - 1]);
        assert(t[i] == (key, value));
    }
    assert(forall|j: int| 0 <= j < front.len() ==> (#[trigger] front[j]).0 != key);
    lemma_lookup_absent(front, key);
    lemma_lookup_concat(front, seq![(key, value)] + back, key);
    assert(seq_lookup(seq![(key, value)] + back, key) == Some(value)) by {
        assert((seq![(key, value)] + back)[0] == (key, value));
    }
    assert forall|k: EntityID| k != key implies #[trigger] seq_lookup(t, k) == seq_lookup(s, k) by {
        lemma_lookup_concat(front, seq![(key, value)] + back, k);
        lemma_lookup_concat(front, back, k);
        assert((seq![(key, value)] + back)[0] == (key, value));
        assert((seq![(key, value)] + back).drop_first() =~= back);
    }
}

/// Removing the entry at a key's position drops exactly that key's binding
/// and keeps the entries sorted.
proof fn lemma_entries_remove<V>(s: Seq<(EntityID, V)>, i: int)
    requires
        entries_sorted(s),
        0 <= i < s.len(),
    ensures
        entries_sorted(s.remove(i)),
        seq_lookup(s.remove(i), s[i].0) is None,
        forall|k: EntityID|
            k != s[i].0 ==> #[trigger] seq_lookup(s.remove(i), k) == seq_lookup(s, k),
{
    let key = s[i].0;
    let t = s.remove(i);
    let front = s.take(i);
    let back = s.skip(i + 1);
    assert(t =~= front + back);
    assert(s =~= front + (seq![s[i]] + back));
    assert(entries_sorted(t)) by {
        assert(forall|j: int| 0 <= j < i ==> t[j] == s[j]);
        assert(forall|j: int| i <= j < t.len() ==> t[j] == s[j + 1]);
    }
    assert(forall|j: int| 0 <= j < front.len() ==> (#[trigger] front[j]).0 != key);
    assert(forall|j: int| 0 <= j < back.len() ==> (#[trigger] back[j]).0 != key);
    lemma_lookup_absent(front, key);
    lemma_lookup_absent(back, key);
    lemma_lookup_concat(front, back, key);
    assert forall|k: EntityID| k != key implies #[trigger] seq_lookup(t, k) == seq_lookup(s, k) by {
        lemma_lookup_concat(front, back, k);
        lemma_lookup_concat(front, seq![s[i]] + back, k);
        assert((seq![s[i]] + back)[0] == s[i]);
        assert((seq![s[i]] + back).drop_first() =~= back);
    }
}

} // verus!
