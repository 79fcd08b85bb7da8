//! The keyed store: each identifier maps to the vector last written for it.
//!
//! A vector is carried as the IEEE-754 binary32 bit patterns of its
//! components. The store never does arithmetic on them: it keeps them, finds
//! them again by identifier and hands them back unchanged.

use crate::text::same_text;
use vstd::prelude::*;

verus! {

/// What a store holds, as a mathematical map from identifier to components.
pub type Mapping = Map<Seq<char>, Seq<u32>>;

/// One identifier with its vector.
#[derive(Clone, Debug, PartialEq, Eq)]
pub struct Entry {
    pub id: String,
    pub vector: Vec<u32>,
}

/// The map that results from writing the entries of `batch` into `m`, first to
/// last. A later entry overwrites an earlier one with the same identifier.
pub open spec fn apply_batch(m: Mapping, batch: Seq<Entry>) -> Mapping
    decreases batch.len(),
{
    if batch.len() == 0 {
        m
    } else {
        apply_batch(m, batch.drop_last()).insert(batch.last().id@, batch.last().vector@)
    }
}

/// The map that a list of entries stands for: the entries written into the
/// empty map, first to last.
pub open spec fn mapping_of(entries: Seq<Entry>) -> Mapping {
    apply_batch(Map::empty(), entries)
}

/// The identifiers that occur in `batch`.
pub open spec fn batch_ids(batch: Seq<Entry>) -> Set<Seq<char>> {
    Set::new(|k: Seq<char>| exists|i: int| 0 <= i < batch.len() && (#[trigger] batch[i]).id@ == k)
}

/// No identifier occurs twice in `batch`.
pub open spec fn ids_distinct(batch: Seq<Entry>) -> bool {
    forall|i: int, j: int|
        0 <= i < j < batch.len() ==> (#[trigger] batch[i]).id@ != (#[trigger] batch[j]).id@
}

/// No identifier of `batch` is a key of `m`.
pub open spec fn ids_absent(m: Mapping, batch: Seq<Entry>) -> bool {
    forall|i: int| 0 <= i < batch.len() ==> !m.contains_key((#[trigger] batch[i]).id@)
}

/// Every identifier of `batch` is a key of `m`.
pub open spec fn ids_present(m: Mapping, batch: Seq<Entry>) -> bool {
    forall|i: int| 0 <= i < batch.len() ==> m.contains_key((#[trigger] batch[i]).id@)
}

proof fn lemma_batch_ids_step(batch: Seq<Entry>)
    requires
        batch.len() > 0,
    ensures
        batch_ids(batch) =~= batch_ids(batch.drop_last()).insert(batch.last().id@),
        batch_ids(batch.drop_last()).finite() ==> batch_ids(batch).finite(),
{
    let front = batch.drop_last();
    assert forall|k: Seq<char>| batch_ids(batch).contains(k) implies batch_ids(front).insert(
        batch.last().id@,
    ).contains(k) by {
        let i = choose|i: int| 0 <= i < batch.len() && (#[trigger] batch[i]).id@ == k;
        if i < batch.len() - 1 {
            assert(front[i].id@ == k);
        }
    }
    assert forall|k: Seq<char>|
        batch_ids(front).insert(batch.last().id@).contains(k) implies batch_ids(batch).contains(
        k,
    ) by {
        if k == batch.last().id@ {
            assert(batch[batch.len() - 1].id@ == k);
        } else {
            let i = choose|i: int| 0 <= i < front.len() && (#[trigger] front[i]).id@ == k;
            assert(batch[i].id@ == k);
        }
    }
}

/// Writing a batch adds exactly the batch's identifiers to the keys.
pub proof fn lemma_apply_batch_keys(m: Mapping, batch: Seq<Entry>)
    ensures
        apply_batch(m, batch).dom() =~= m.dom().union(batch_ids(batch)),
        m.dom().finite() ==> apply_batch(m, batch).dom().finite(),
    decreases batch.len(),
{
    if batch.len() == 0 {
        assert(batch_ids(batch) =~= Set::empty());
    } else {
        lemma_apply_batch_keys(m, batch.drop_last());
        lemma_batch_ids_step(batch);
    }
}

/// Writing a batch leaves every identifier that the batch does not name as it
/// was.
pub proof fn lemma_apply_batch_keeps_others(m: Mapping, batch: Seq<Entry>, k: Seq<char>)
    requires
        !batch_ids(batch).contains(k),
    ensures
        apply_batch(m, batch).contains_key(k) == m.contains_key(k),
        apply_batch(m, batch)[k] == m[k],
    decreases batch.len(),
{
    if batch.len() > 0 {
        let front = batch.drop_last();
        lemma_batch_ids_step(batch);
        lemma_apply_batch_keeps_others(m, front, k);
    }
}

/// Last write wins: after a batch, an identifier holds the vector of the last
/// entry of the batch that names it.
pub proof fn lemma_apply_batch_last_write(m: Mapping, batch: Seq<Entry>, i: int)
    requires
        0 <= i < batch.len(),
        forall|j: int| i < j < batch.len() ==> (#[trigger] batch[j]).id@ != batch[i].id@,
    ensures
        apply_batch(m, batch).contains_key(batch[i].id@),
        apply_batch(m, batch)[batch[i].id@] == batch[i].vector@,
    decreases batch.len(),
{
    if i < batch.len() - 1 {
        let front = batch.drop_last();
        assert(batch[batch.len() - 1].id@ != batch[i].id@);
        assert forall|j: int| i < j < front.len() implies (#[trigger] front[j]).id@
            != front[i].id@ by {
            assert(batch[j].id@ != batch[i].id@);
        }
        lemma_apply_batch_last_write(m, front, i);
    }
}

/// Two batches that agree entry by entry on identifier and vector write the
/// same map.
pub proof fn lemma_apply_batch_by_views(m: Mapping, a: Seq<Entry>, b: Seq<Entry>)
    requires
        a.len() == b.len(),
        forall|i: int|
            0 <= i < a.len() ==> (#[trigger] a[i]).id@ == b[i].id@ && a[i].vector@ == b[i].vector@,
    ensures
        apply_batch(m, a) == apply_batch(m, b),
    decreases a.len(),
{
    if a.len() > 0 {
        assert(a[a.len() - 1].id@ == b[b.len() - 1].id@);
        assert(a[a.len() - 1].vector@ == b[b.len() - 1].vector@);
        assert forall|i: int| 0 <= i < a.drop_last().len() implies (#[trigger] a.drop_last()[i]).id@
            == b.drop_last()[i].id@ && a.drop_last()[i].vector@ == b.drop_last()[i].vector@ by {
            assert(a[i].id@ == b[i].id@);
        }
        lemma_apply_batch_by_views(m, a.drop_last(), b.drop_last());
    }
}

/// A list without repeated identifiers stands for a map with one key per
/// entry, each holding its entry's vector.
pub proof fn lemma_mapping_of_distinct(entries: Seq<Entry>)
    requires
        ids_distinct(entries),
    ensures
        mapping_of(entries).dom() =~= batch_ids(entries),
        mapping_of(entries).dom().finite(),
        mapping_of(entries).len() == entries.len(),
        forall|i: int|
            0 <= i < entries.len() ==> mapping_of(entries)[(#[trigger] entries[i]).id@]
                == entries[i].vector@,
    decreases entries.len(),
{
    lemma_apply_batch_keys(Map::empty(), entries);
    assert(Map::<Seq<char>, Seq<u32>>::empty().dom() =~= Set::empty());
    assert forall|i: int| 0 <= i < entries.len() implies mapping_of(entries)[(
    #[trigger] entries[i]).id@] == entries[i].vector@ by {
        lemma_apply_batch_last_write(Map::empty(), entries, i);
    }
    if entries.len() == 0 {
        assert(batch_ids(entries) =~= Set::empty());
    } else {
        let front = entries.drop_last();
        assert(ids_distinct(front)) by {
            assert forall|i: int, j: int| 0 <= i < j < front.len() implies (#[trigger] front[i]).id@
                != (#[trigger] front[j]).id@ by {
                assert(entries[i].id@ != entries[j].id@);
            }
        }
        lemma_mapping_of_distinct(front);
        lemma_batch_ids_step(entries);
        if batch_ids(front).contains(entries.last().id@) {
            let i = choose|i: int|
                0 <= i < front.len() && (#[trigger] front[i]).id@ == entries.last().id@;
            assert(entries[i].id@ != entries[entries.len() - 1].id@);
        }
    }
}

/// An entry as a pair of plain values: its identifier and its components.
pub open spec fn entry_view(entry: Entry) -> (Seq<char>, Seq<u32>) {
    (entry.id@, entry.vector@)
}

/// The entries of a list as pairs of plain values.
pub open spec fn entry_views(entries: Seq<Entry>) -> Seq<(Seq<char>, Seq<u32>)> {
    entries.map_values(|entry: Entry| entry_view(entry))
}

/// Some entry of `entries` has the identifier and the components of `entry`.
spec fn holds_view(entries: Seq<Entry>, entry: Entry) -> bool {
    exists|i: int| 0 <= i < entries.len() && entry_view(#[trigger] entries[i]) == entry_view(entry)
}

/// The map that a list stands for does not depend on the order of the list:
/// two lists that hold the same identifiers with the same components, no
/// identifier twice, stand for the same map. So a snapshot that comes back in
/// another order, as from an unordered file, still restores what was held.
pub proof fn lemma_mapping_ignores_entry_order(a: Seq<Entry>, b: Seq<Entry>)
    requires
        ids_distinct(a),
        entry_views(a).to_multiset() == entry_views(b).to_multiset(),
    ensures
        ids_distinct(b),
        mapping_of(a) == mapping_of(b),
{
    let va = entry_views(a);
    let vb = entry_views(b);
    va.to_multiset_ensures();
    vb.to_multiset_ensures();
    assert(va.no_duplicates()) by {
        assert forall|i: int, j: int| 0 <= i < va.len() && 0 <= j < va.len() && i != j implies va[i]
            != va[j] by {
            if i < j {
                assert(a[i].id@ != a[j].id@);
            } else {
                assert(a[j].id@ != a[i].id@);
            }
        }
    }
    va.lemma_multiset_has_no_duplicates();
    vb.lemma_multiset_has_no_duplicates_conv();
    assert forall|j: int| 0 <= j < b.len() implies holds_view(a, #[trigger] b[j]) by {
        assert(vb.contains(vb[j]));
        assert(vb.to_multiset().count(vb[j]) > 0);
        assert(va.to_multiset().count(vb[j]) > 0);
        assert(va.contains(vb[j]));
        let i = choose|i: int| 0 <= i < va.len() && va[i] == vb[j];
        assert(entry_view(a[i]) == entry_view(b[j]));
    }
    assert forall|i: int| 0 <= i < a.len() implies holds_view(b, #[trigger] a[i]) by {
        assert(va.contains(va[i]));
        assert(va.to_multiset().count(va[i]) > 0);
        assert(vb.to_multiset().count(va[i]) > 0);
        assert(vb.contains(va[i]));
        let j = choose|j: int| 0 <= j < vb.len() && vb[j] == va[i];
        assert(entry_view(b[j]) == entry_view(a[i]));
    }
    assert(ids_distinct(b)) by {
        assert forall|j1: int, j2: int| 0 <= j1 < j2 < b.len() implies (#[trigger] b[j1]).id@ != (
        #[trigger] b[j2]).id@ by {
            let i1 = choose|i: int|
                0 <= i < a.len() && entry_view(#[trigger] a[i]) == entry_view(b[j1]);
            let i2 = choose|i: int|
                0 <= i < a.len() && entry_view(#[trigger] a[i]) == entry_view(b[j2]);
            if b[j1].id@ == b[j2].id@ {
                if i1 < i2 {
                    assert(a[i1].id@ != a[i2].id@);
                } else if i2 < i1 {
                    assert(a[i2].id@ != a[i1].id@);
                }
                assert(vb[j1] == vb[j2]);
            }
        }
    }
    lemma_mapping_of_distinct(a);
    lemma_mapping_of_distinct(b);
    assert(batch_ids(a) =~= batch_ids(b)) by {
        assert forall|k: Seq<char>| batch_ids(a).contains(k) implies batch_ids(b).contains(k) by {
            let i = choose|i: int| 0 <= i < a.len() && (#[trigger] a[i]).id@ == k;
            let j = choose|j: int|
                0 <= j < b.len() && entry_view(#[trigger] b[j]) == entry_view(a[i]);
            assert(b[j].id@ == k);
        }
        assert forall|k: Seq<char>| batch_ids(b).contains(k) implies batch_ids(a).contains(k) by {
            let j = choose|j: int| 0 <= j < b.len() && (#[trigger] b[j]).id@ == k;
            let i = choose|i: int|
                0 <= i < a.len() && entry_view(#[trigger] a[i]) == entry_view(b[j]);
            assert(a[i].id@ == k);
        }
    }
    assert forall|k: Seq<char>| mapping_of(a).contains_key(k) implies mapping_of(a)[k]
        == mapping_of(b)[k] by {
        let i = choose|i: int| 0 <= i < a.len() && (#[trigger] a[i]).id@ == k;
        let j = choose|j: int| 0 <= j < b.len() && entry_view(#[trigger] b[j]) == entry_view(a[i]);
        assert(mapping_of(a)[a[i].id@] == a[i].vector@);
        assert(mapping_of(b)[b[j].id@] == b[j].vector@);
    }
    assert(mapping_of(a) =~= mapping_of(b));
}

/// How many entries of `batch` name an identifier that `m` does not hold.
pub open spec fn fresh_count(m: Mapping, batch: Seq<Entry>) -> nat
    decreases batch.len(),
{
    if batch.len() == 0 {
        0
    } else {
        fresh_count(m, batch.drop_last()) + if m.contains_key(batch.last().id@) {
            0nat
        } else {
            1nat
        }
    }
}

/// Writing the same vector under the same identifier a second time changes
/// nothing: the map, its size and the entry are as after the first write.
pub proof fn lemma_upsert_idempotent(m: Mapping, id: Seq<char>, vector: Seq<u32>)
    ensures
        m.insert(id, vector).insert(id, vector) == m.insert(id, vector),
        m.insert(id, vector).insert(id, vector).len() == m.insert(id, vector).len(),
        m.insert(id, vector).insert(id, vector)[id] == vector,
{
    assert(m.insert(id, vector).insert(id, vector) =~= m.insert(id, vector));
}

/// A batch without repeated identifiers grows the map by the number of its
/// entries whose identifier was not held: writing identifiers that are held
/// again adds nothing, each new one adds one.
pub proof fn lemma_bulk_count(m: Mapping, batch: Seq<Entry>)
    requires
        m.dom().finite(),
        ids_distinct(batch),
    ensures
        apply_batch(m, batch).len() == m.len() + fresh_count(m, batch),
    decreases batch.len(),
{
    if batch.len() > 0 {
        let front = batch.drop_last();
        let last = batch.last();
        assert(ids_distinct(front)) by {
            assert forall|i: int, j: int| 0 <= i < j < front.len() implies (#[trigger] front[i]).id@
                != (#[trigger] front[j]).id@ by {
                assert(batch[i].id@ != batch[j].id@);
            }
        }
        lemma_bulk_count(m, front);
        lemma_apply_batch_keys(m, front);
        if batch_ids(front).contains(last.id@) {
            let i = choose|i: int| 0 <= i < front.len() && (#[trigger] front[i]).id@ == last.id@;
            assert(batch[i].id@ != batch[batch.len() - 1].id@);
        }
        assert(apply_batch(m, front).contains_key(last.id@) == m.contains_key(last.id@));
    }
}

/// A batch of `n` distinct identifiers, none of them held, grows the map by
/// exactly `n`.
pub proof fn lemma_bulk_count_fresh(m: Mapping, batch: Seq<Entry>)
    requires
        m.dom().finite(),
        ids_distinct(batch),
        ids_absent(m, batch),
    ensures
        apply_batch(m, batch).len() == m.len() + batch.len(),
{
    lemma_bulk_count(m, batch);
    lemma_fresh_count_absent(m, batch);
}

/// A batch of distinct identifiers that are all held leaves the size as it
/// was.
pub proof fn lemma_bulk_count_held(m: Mapping, batch: Seq<Entry>)
    requires
        m.dom().finite(),
        ids_distinct(batch),
        ids_present(m, batch),
    ensures
        apply_batch(m, batch).len() == m.len(),
{
    lemma_bulk_count(m, batch);
    lemma_fresh_count_present(m, batch);
}

/// Writing `held`, whose identifiers are all held, followed by `fresh`, whose
/// identifiers are not, with no identifier repeated, grows the map by the
/// length of `fresh`.
pub proof fn lemma_bulk_count_mixed(m: Mapping, held: Seq<Entry>, fresh: Seq<Entry>)
    requires
        m.dom().finite(),
        ids_distinct(held + fresh),
        ids_present(m, held),
        ids_absent(m, fresh),
    ensures
        apply_batch(m, held + fresh).len() == m.len() + fresh.len(),
{
    let batch = held + fresh;
    lemma_bulk_count(m, batch);
    lemma_fresh_count_concat(m, held, fresh);
    lemma_fresh_count_present(m, held);
    lemma_fresh_count_absent(m, fresh);
}

proof fn lemma_fresh_count_absent(m: Mapping, batch: Seq<Entry>)
    requires
        ids_absent(m, batch),
    ensures
        fresh_count(m, batch) == batch.len(),
    decreases batch.len(),
{
    if batch.len() > 0 {
        let front = batch.drop_last();
        assert forall|i: int| 0 <= i < front.len() implies !m.contains_key(
            (#[trigger] front[i]).id@,
        ) by {
            assert(!m.contains_key(batch[i].id@));
        }
        lemma_fresh_count_absent(m, front);
        assert(!m.contains_key(batch[batch.len() - 1].id@));
    }
}

proof fn lemma_fresh_count_present(m: Mapping, batch: Seq<Entry>)
    requires
        ids_present(m, batch),
    ensures
        fresh_count(m, batch) == 0,
    decreases batch.len(),
{
    if batch.len() > 0 {
        let front = batch.drop_last();
        assert forall|i: int| 0 <= i < front.len() implies m.contains_key(
            (#[trigger] front[i]).id@,
        ) by {
            assert(m.contains_key(batch[i].id@));
        }
        lemma_fresh_count_present(m, front);
        assert(m.contains_key(batch[batch.len() - 1].id@));
    }
}

proof fn lemma_fresh_count_concat(m: Mapping, a: Seq<Entry>, b: Seq<Entry>)
    ensures
        fresh_count(m, a + b) == fresh_count(m, a) + fresh_count(m, b),
    decreases b.len(),
{
    if b.len() == 0 {
        assert(a + b =~= a);
    } else {
        assert((a + b).drop_last() =~= a + b.drop_last());
        assert((a + b).last() == b.last());
        lemma_fresh_count_concat(m, a, b.drop_last());
    }
}

/// Overwriting the entry at `i` with one of the same identifier keeps the
/// identifiers distinct and writes that entry into the map.
proof fn lemma_overwrite(before: Seq<Entry>, i: int, entry: Entry)
    requires
        ids_distinct(before),
        0 <= i < before.len(),
        before[i].id@ == entry.id@,
    ensures
        ids_distinct(before.update(i, entry)),
        mapping_of(before.update(i, entry)) == mapping_of(before).insert(entry.id@, entry.vector@),
{
    let after = before.update(i, entry);
    assert(ids_distinct(after)) by {
        assert forall|a: int, b: int| 0 <= a < b < after.len() implies (#[trigger] after[a]).id@
            != (#[trigger] after[b]).id@ by {
            assert(before[a].id@ != before[b].id@);
        }
    }
    lemma_mapping_of_distinct(before);
    lemma_mapping_of_distinct(after);
    assert(batch_ids(after) =~= batch_ids(before)) by {
        assert forall|k: Seq<char>| batch_ids(after).contains(k) implies batch_ids(
            before,
        ).contains(k) by {
            let a = choose|a: int| 0 <= a < after.len() && (#[trigger] after[a]).id@ == k;
            assert(before[a].id@ == k);
        }
        assert forall|k: Seq<char>| batch_ids(before).contains(k) implies batch_ids(
            after,
        ).contains(k) by {
            let a = choose|a: int| 0 <= a < before.len() && (#[trigger] before[a]).id@ == k;
            assert(after[a].id@ == k);
        }
    }
    assert(batch_ids(before).contains(before[i].id@));
    assert forall|k: Seq<char>| mapping_of(before).contains_key(k) && k
        != entry.id@ implies mapping_of(after)[k] == mapping_of(before)[k] by {
        let a = choose|a: int| 0 <= a < before.len() && (#[trigger] before[a]).id@ == k;
        assert(after[a] == before[a]);
    }
    assert(mapping_of(after)[after[i].id@] == entry.vector@);
    assert(mapping_of(after) =~= mapping_of(before).insert(entry.id@, entry.vector@));
}

/// Appending an entry whose identifier is new keeps the identifiers distinct
/// and writes that entry into the map.
proof fn lemma_append(before: Seq<Entry>, entry: Entry)
    requires
        ids_distinct(before),
        !batch_ids(before).contains(entry.id@),
    ensures
        ids_distinct(before.push(entry)),
        mapping_of(before.push(entry)) == mapping_of(before).insert(entry.id@, entry.vector@),
{
    let after = before.push(entry);
    assert(after.drop_last() =~= before);
    assert forall|a: int, b: int| 0 <= a < b < after.len() implies (#[trigger] after[a]).id@ != (
    #[trigger] after[b]).id@ by {
        if b < before.len() {
            assert(before[a].id@ != before[b].id@);
        } else {
            assert(batch_ids(before).contains(before[a].id@));
        }
    }
}

/// A keyed container of vectors. No identifier is held twice; writing an
/// identifier again replaces its vector.
pub struct VectorStore {
    entries: Vec<Entry>,
}

impl View for VectorStore {
    type V = Mapping;

    closed spec fn view(&self) -> Mapping {
        mapping_of(self.entries@)
    }
}

/// A copy of a vector's components.
fn copy_vector(vector: &Vec<u32>) -> (copy: Vec<u32>)
    ensures
        copy@ == vector@,
{
    let mut copy: Vec<u32> = Vec::new();
    let mut i: usize = 0;
    while i < vector.len()
        invariant
            i <= vector.len(),
            copy@ == vector@.take(i as int),
        decreases vector.len() - i,
    {
        copy.push(vector[i]);
        proof {
            assert(vector@.take(i + 1) =~= vector@.take(i as int).push(vector@[i as int]));
        }
        i += 1;
    }
    proof {
        assert(vector@.take(vector.len() as int) =~= vector@);
    }
    copy
}

impl VectorStore {
    #[verifier::type_invariant]
    spec fn well_formed(&self) -> bool {
        ids_distinct(self.entries@)
    }

    /// A store holds finitely many identifiers.
    pub proof fn lemma_finite(&self)
        ensures
            self@.dom().finite(),
    {
        lemma_apply_batch_keys(Map::empty(), self.entries@);
        assert(Map::<Seq<char>, Seq<u32>>::empty().dom() =~= Set::empty());
    }

    /// The empty store.
    pub fn new() -> (store: VectorStore)
        ensures
            store@ == Map::<Seq<char>, Seq<u32>>::empty(),
    {
        VectorStore { entries: Vec::new() }
    }

    /// The number of identifiers held.
    pub fn len(&self) -> (n: usize)
        ensures
            n == self@.len(),
            self@.dom().finite(),
    {
        proof {
            use_type_invariant(self);
            lemma_mapping_of_distinct(self.entries@);
        }
        self.entries.len()
    }

    /// Whether the store holds nothing.
    pub fn is_empty(&self) -> (empty: bool)
        ensures
            empty == (self@ == Map::<Seq<char>, Seq<u32>>::empty()),
    {
        proof {
            use_type_invariant(self);
            lemma_mapping_of_distinct(self.entries@);
            if self.entries@.len() > 0 {
                assert(batch_ids(self.entries@).contains(self.entries@[0].id@));
                assert(self@.contains_key(self.entries@[0].id@));
            }
        }
        self.entries.len() == 0
    }

    /// Where `id` is held, if it is.
    fn position(&self, id: &str) -> (found: Option<usize>)
        ensures
            match found {
                Some(i) => i < self.entries@.len() && self.entries@[i as int].id@ == id@,
                None => !batch_ids(self.entries@).contains(id@),
            },
    {
        let mut i: usize = 0;
        while i < self.entries.len()
            invariant
                i <= self.entries@.len(),
                forall|j: int| 0 <= j < i ==> (#[trigger] self.entries@[j]).id@ != id@,
            decreases self.entries.len() - i,
        {
            if same_text(self.entries[i].id.as_str(), id) {
                return Some(i);
            }
            i += 1;
        }
        None
    }

    /// Whether `id` is held.
    pub fn contains(&self, id: &str) -> (held: bool)
        ensures
            held == self@.contains_key(id@),
    {
        proof {
            use_type_invariant(self);
            lemma_mapping_of_distinct(self.entries@);
        }
        match self.position(id) {
            Some(i) => {
                proof {
                    assert(batch_ids(self.entries@).contains(self.entries@[i as int].id@));
                }
                true
            },
            None => false,
        }
    }

    /// The vector held for `id`, if there is one.
    pub fn get(&self, id: &str) -> (found: Option<&Vec<u32>>)
        ensures
            match found {
                Some(vector) => self@.contains_key(id@) && vector@ == self@[id@],
                None => !self@.contains_key(id@),
            },
    {
        proof {
            use_type_invariant(self);
            lemma_mapping_of_distinct(self.entries@);
        }
        match self.position(id) {
            Some(i) => {
                proof {
                    assert(batch_ids(self.entries@).contains(self.entries@[i as int].id@));
                }
                Some(&self.entries[i].vector)
            },
            None => None,
        }
    }

    /// Writes `vector` under `id`, replacing what `id` held before. Always
    /// succeeds; the number of components is not examined.
    pub fn upsert(&mut self, id: String, vector: Vec<u32>)
        ensures
            final(self)@ == old(self)@.insert(id@, vector@),
    {
        proof {
            use_type_invariant(&*self);
        }
        let found = self.position(id.as_str());
        let entry = Entry { id, vector };
        let mut entries: Vec<Entry> = Vec::new();
        core::mem::swap(&mut self.entries, &mut entries);
        match found {
            Some(i) => {
                proof {
                    lemma_overwrite(entries@, i as int, entry);
                }
                entries.set(i, entry);
            },
            None => {
                proof {
                    lemma_append(entries@, entry);
                }
                entries.push(entry);
            },
        }
        self.entries = entries;
    }

    /// Writes the entries of `batch`, first to last, and returns the number of
    /// identifiers held afterwards. The store is borrowed exclusively for the
    /// whole batch, so no reader sees a part of it.
    pub fn upsert_many(&mut self, batch: Vec<Entry>) -> (held: usize)
        ensures
            final(self)@ == apply_batch(old(self)@, batch@),
            held == final(self)@.len(),
    {
        let ghost start = self@;
        let ghost all = batch@;
        proof {
            assert(all.take(0) =~= Seq::empty());
        }
        for entry in it: batch
            invariant
                it.seq() == all,
                self@ == apply_batch(start, all.take(it.index() as int)),
        {
            proof {
                let done = it.index() as int;
                assert(all.take(done + 1).drop_last() =~= all.take(done));
                assert(all.take(done + 1).last() == entry);
            }
            self.upsert(entry.id, entry.vector);
        }
        proof {
            assert(all.take(all.len() as int) =~= all);
        }
        self.len()
    }

    /// An independent copy of everything held: one entry per identifier, with
    /// the vector that the identifier holds.
    pub fn snapshot(&self) -> (copy: Vec<Entry>)
        ensures
            ids_distinct(copy@),
            mapping_of(copy@) == self@,
            copy@.len() == self@.len(),
    {
        proof {
            use_type_invariant(self);
            lemma_mapping_of_distinct(self.entries@);
        }
        let mut copy: Vec<Entry> = Vec::new();
        let mut i: usize = 0;
        while i < self.entries.len()
            invariant
                i <= self.entries@.len(),
                copy@.len() == i,
                forall|j: int|
                    0 <= j < i ==> (#[trigger] copy@[j]).id@ == self.entries@[j].id@ && copy@[j].vector@
                        == self.entries@[j].vector@,
            decreases self.entries.len() - i,
        {
            let id = self.entries[i].id.clone();
            let vector = copy_vector(&self.entries[i].vector);
            copy.push(Entry { id, vector });
            i += 1;
        }
        proof {
            lemma_apply_batch_by_views(Map::empty(), copy@, self.entries@);
            assert forall|a: int, b: int| 0 <= a < b < copy@.len() implies (#[trigger] copy@[a]).id@
                != (#[trigger] copy@[b]).id@ by {
                assert(self.entries@[a].id@ != self.entries@[b].id@);
            }
        }
        copy
    }

    /// Discards everything held and installs the map that `entries` stands for.
    pub fn replace(&mut self, entries: Vec<Entry>)
        ensures
            final(self)@ == mapping_of(entries@),
    {
        let mut fresh = VectorStore::new();
        fresh.upsert_many(entries);
        *self = fresh;
    }
}

} // verus!
