//! The in-memory table, ordered by key.

use vstd::prelude::*;
use vstd::slice::slice_to_vec;

verus! {

/// Whether `a` comes before `b` in the order of byte strings: at the first
/// place where they differ the smaller byte decides, and a proper prefix
/// comes first.
pub open spec fn lex_lt(a: Seq<u8>, b: Seq<u8>) -> bool
    decreases a.len(),
{
    if b.len() == 0 {
        false
    } else if a.len() == 0 {
        true
    } else if a[0] != b[0] {
        a[0] < b[0]
    } else {
        lex_lt(a.skip(1), b.skip(1))
    }
}

/// No byte string comes before itself.
pub proof fn lemma_lex_lt_irreflexive(a: Seq<u8>)
    ensures
        !lex_lt(a, a),
    decreases a.len(),
{
    if a.len() > 0 {
        lemma_lex_lt_irreflexive(a.skip(1));
    }
}

/// The order of byte strings is transitive.
pub proof fn lemma_lex_lt_transitive(a: Seq<u8>, b: Seq<u8>, c: Seq<u8>)
    requires
        lex_lt(a, b),
        lex_lt(b, c),
    ensures
        lex_lt(a, c),
    decreases a.len(),
{
    if a.len() > 0 && a[0] == b[0] && b[0] == c[0] {
        lemma_lex_lt_transitive(a.skip(1), b.skip(1), c.skip(1));
    }
}

/// Of two different byte strings one comes before the other.
pub proof fn lemma_lex_lt_total(a: Seq<u8>, b: Seq<u8>)
    requires
        !lex_lt(a, b),
        !lex_lt(b, a),
    ensures
        a == b,
    decreases a.len(),
{
    if a.len() > 0 && b.len() > 0 {
        lemma_lex_lt_total(a.skip(1), b.skip(1));
        assert(b =~= seq![b[0]] + b.skip(1));
    } else {
        assert(a =~= b);
    }
}

/// Whether `a` comes before `b` in the order of byte strings.
pub fn bytes_lt(a: &[u8], b: &[u8]) -> (lt: bool)
    ensures
        lt == lex_lt(a@, b@),
{
    let mut i: usize = 0;
    assert(a@.skip(0) =~= a@ && b@.skip(0) =~= b@);
    while i < a.len() && i < b.len()
        invariant
            i <= a@.len(),
            i <= b@.len(),
            lex_lt(a@, b@) == lex_lt(a@.skip(i as int), b@.skip(i as int)),
        decreases a@.len() - i,
    {
        assert(a@.skip(i as int).skip(1) =~= a@.skip(i + 1));
        assert(b@.skip(i as int).skip(1) =~= b@.skip(i + 1));
        if a[i] != b[i] {
            return a[i] < b[i];
        }
        i += 1;
    }
    i < b.len()
}

struct Entry {
    key: Vec<u8>,
    value: Vec<u8>,
}

/// The in-memory table: a mapping from keys to values, kept in the order
/// of its keys. A key occurs once; writing it again replaces its value.
pub struct MemTable {
    entries: Vec<Entry>,
}

/// The keys grow strictly from each entry to the next.
spec fn keys_ascend(entries: Seq<Entry>) -> bool {
    forall|i: int, j: int|
        0 <= i < j < entries.len() ==> lex_lt(#[trigger] entries[i].key@, #[trigger] entries[j].key@)
}

/// Whether some entry has the key `key`.
spec fn has_key(entries: Seq<Entry>, key: Seq<u8>) -> bool {
    exists|i: int| 0 <= i < entries.len() && #[trigger] entries[i].key@ == key
}

/// The place of an entry with the key `key`.
spec fn place_of(entries: Seq<Entry>, key: Seq<u8>) -> int {
    choose|i: int| 0 <= i < entries.len() && #[trigger] entries[i].key@ == key
}

/// The mapping that a sequence of entries stands for.
spec fn mapping(entries: Seq<Entry>) -> Map<Seq<u8>, Seq<u8>> {
    Map::new(
        |key: Seq<u8>| has_key(entries, key),
        |key: Seq<u8>| entries[place_of(entries, key)].value@,
    )
}

/// With ascending keys, the entry at `i` is the one that its key maps to.
proof fn lemma_mapping_at(entries: Seq<Entry>, i: int)
    requires
        keys_ascend(entries),
        0 <= i < entries.len(),
    ensures
        mapping(entries).contains_key(entries[i].key@),
        mapping(entries)[entries[i].key@] == entries[i].value@,
{
    let key = entries[i].key@;
    let p = place_of(entries, key);
    if p != i {
        lemma_lex_lt_irreflexive(key);
        if p < i {
            assert(lex_lt(entries[p].key@, entries[i].key@));
        } else {
            assert(lex_lt(entries[i].key@, entries[p].key@));
        }
    }
}

/// Putting an entry in the place of one with the same key keeps the keys
/// ascending and maps that key to the new value.
proof fn lemma_replace(entries: Seq<Entry>, at: int, entry: Entry)
    requires
        keys_ascend(entries),
        0 <= at < entries.len(),
        entries[at].key@ == entry.key@,
    ensures
        keys_ascend(entries.update(at, entry)),
        mapping(entries.update(at, entry)) == mapping(entries).insert(entry.key@, entry.value@),
{
    let after = entries.update(at, entry);
    assert forall|i: int, j: int| 0 <= i < j < after.len() implies lex_lt(
        #[trigger] after[i].key@,
        #[trigger] after[j].key@,
    ) by {
        assert(after[j].key@ == entries[j].key@);
    }
    let want = mapping(entries).insert(entry.key@, entry.value@);
    assert forall|key: Seq<u8>| mapping(after).contains_key(key) <==> want.contains_key(key) by {
        if has_key(after, key) {
            let i = place_of(after, key);
        }
        if has_key(entries, key) {
            let i = place_of(entries, key);
            assert(after[i].key@ == key);
        }
        if key == entry.key@ {
            assert(after[at].key@ == key);
        }
    }
    assert forall|key: Seq<u8>| mapping(after).contains_key(key) implies mapping(after)[key]
        == want[key] by {
        let i = place_of(after, key);
        if i != at {
            lemma_mapping_at(entries, i);
            if key == entry.key@ {
                lemma_lex_lt_irreflexive(key);
                if i < at {
                    assert(lex_lt(entries[i].key@, entries[at].key@));
                } else {
                    assert(lex_lt(entries[at].key@, entries[i].key@));
                }
            }
        }
    }
}

/// Putting an entry with a new key between the keys before it and the keys
/// after it keeps the keys ascending and adds that key with its value.
proof fn lemma_insert(entries: Seq<Entry>, at: int, entry: Entry)
    requires
        keys_ascend(entries),
        0 <= at <= entries.len(),
        forall|i: int| 0 <= i < at ==> lex_lt(#[trigger] entries[i].key@, entry.key@),
        forall|i: int| at <= i < entries.len() ==> lex_lt(entry.key@, #[trigger] entries[i].key@),
    ensures
        keys_ascend(entries.insert(at, entry)),
        mapping(entries.insert(at, entry)) == mapping(entries).insert(entry.key@, entry.value@),
{
    let after = entries.insert(at, entry);
    assert forall|i: int, j: int| 0 <= i < j < after.len() implies lex_lt(
        #[trigger] after[i].key@,
        #[trigger] after[j].key@,
    ) by {
        if i < at {
            assert(after[i] == entries[i]);
        } else if i > at {
            assert(after[i] == entries[i - 1]);
        }
        if j < at {
            assert(after[j] == entries[j]);
        } else if j > at {
            assert(after[j] == entries[j - 1]);
        }
    }
    let want = mapping(entries).insert(entry.key@, entry.value@);
    assert forall|key: Seq<u8>| mapping(after).contains_key(key) <==> want.contains_key(key) by {
        if has_key(after, key) {
            let i = place_of(after, key);
            if i < at {
                assert(entries[i].key@ == key);
            } else if i > at {
                assert(entries[i - 1].key@ == key);
            }
        }
        if has_key(entries, key) {
            let i = place_of(entries, key);
            if i < at {
                assert(after[i].key@ == key);
            } else {
                assert(after[i + 1].key@ == key);
            }
        }
        if key == entry.key@ {
            assert(after[at].key@ == key);
        }
    }
    assert forall|key: Seq<u8>| mapping(after).contains_key(key) implies mapping(after)[key]
        == want[key] by {
        let i = place_of(after, key);
        lemma_lex_lt_irreflexive(key);
        if i < at {
            lemma_mapping_at(entries, i);
        } else if i > at {
            lemma_mapping_at(entries, i - 1);
        }
    }
}

impl View for MemTable {
    type V = Map<Seq<u8>, Seq<u8>>;

    closed spec fn view(&self) -> Map<Seq<u8>, Seq<u8>> {
        mapping(self.entries@)
    }
}

impl MemTable {
    #[verifier::type_invariant]
    spec fn ordered(self) -> bool {
        keys_ascend(self.entries@)
    }

    /// The empty table.
    pub fn new() -> (table: MemTable)
        ensures
            table@ == Map::<Seq<u8>, Seq<u8>>::empty(),
    {
        let table = MemTable { entries: Vec::new() };
        table
    }

    /// The place of the first entry whose key does not come before `key`.
    fn lower_bound(&self, key: &[u8]) -> (at: usize)
        ensures
            at <= self.entries@.len(),
            forall|i: int| 0 <= i < at ==> lex_lt(#[trigger] self.entries@[i].key@, key@),
            forall|i: int|
                at <= i < self.entries@.len() ==> !lex_lt(#[trigger] self.entries@[i].key@, key@),
    {
        proof {
            use_type_invariant(self);
        }
        let mut lo: usize = 0;
        let mut hi: usize = self.entries.len();
        while lo < hi
            invariant
                lo <= hi <= self.entries@.len(),
                keys_ascend(self.entries@),
                forall|i: int| 0 <= i < lo ==> lex_lt(#[trigger] self.entries@[i].key@, key@),
                forall|i: int|
                    hi <= i < self.entries@.len() ==> !lex_lt(
                        #[trigger] self.entries@[i].key@,
                        key@,
                    ),
            decreases hi - lo,
        {
            let mid = lo + (hi - lo) / 2;
            if bytes_lt(self.entries[mid].key.as_slice(), key) {
                assert forall|i: int| 0 <= i < mid + 1 implies lex_lt(
                    #[trigger] self.entries@[i].key@,
                    key@,
                ) by {
                    if i < mid {
                        lemma_lex_lt_transitive(
                            self.entries@[i].key@,
                            self.entries@[mid as int].key@,
                            key@,
                        );
                    }
                }
                lo = mid + 1;
            } else {
                assert forall|i: int| mid <= i < self.entries@.len() implies !lex_lt(
                    #[trigger] self.entries@[i].key@,
                    key@,
                ) by {
                    if i > mid && lex_lt(self.entries@[i].key@, key@) {
                        lemma_lex_lt_transitive(
                            self.entries@[mid as int].key@,
                            self.entries@[i].key@,
                            key@,
                        );
                    }
                }
                hi = mid;
            }
        }
        lo
    }

    /// Maps `key` to `value`, in place of the value that it mapped to, if
    /// any.
    pub fn insert(&mut self, key: Vec<u8>, value: Vec<u8>)
        ensures
            final(self)@ == old(self)@.insert(key@, value@),
    {
        proof {
            use_type_invariant(&*self);
        }
        let at = self.lower_bound(key.as_slice());
        let mut entries: Vec<Entry> = Vec::new();
        std::mem::swap(&mut entries, &mut self.entries);
        let entry = Entry { key, value };
        if at < entries.len() && !bytes_lt(entry.key.as_slice(), entries[at].key.as_slice()) {
            proof {
                lemma_lex_lt_total(entries@[at as int].key@, entry.key@);
                lemma_replace(entries@, at as int, entry);
            }
            entries.set(at, entry);
        } else {
            proof {
                assert forall|i: int| at <= i < entries@.len() implies lex_lt(
                    entry.key@,
                    #[trigger] entries@[i].key@,
                ) by {
                    if i > at {
                        lemma_lex_lt_transitive(
                            entry.key@,
                            entries@[at as int].key@,
                            entries@[i].key@,
                        );
                    }
                }
                lemma_insert(entries@, at as int, entry);
            }
            entries.insert(at, entry);
        }
        self.entries = entries;
    }

    /// The value that `key` maps to, if it maps to one.
    pub fn get(&self, key: &[u8]) -> (value: Option<&[u8]>)
        ensures
            match value {
                Some(v) => self@.contains_key(key@) && v@ == self@[key@],
                None => !self@.contains_key(key@),
            },
    {
        proof {
            use_type_invariant(self);
        }
        let at = self.lower_bound(key);
        if at < self.entries.len() && !bytes_lt(key, self.entries[at].key.as_slice()) {
            proof {
                lemma_lex_lt_total(self.entries@[at as int].key@, key@);
            }
            Some(self.entries[at].value.as_slice())
        } else {
            proof {
                if has_key(self.entries@, key@) {
                    let p = place_of(self.entries@, key@);
                    lemma_lex_lt_irreflexive(key@);
                    if p > at {
                        assert(lex_lt(self.entries@[at as int].key@, self.entries@[p].key@));
                    }
                }
            }
            None
        }
    }
}

} // verus!
