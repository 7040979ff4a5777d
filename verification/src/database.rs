//! The key-value database that holds a node's chain, and the byte order of its keys.
use crate::store::bytes_equal;
use vstd::prelude::*;

verus! {

/// Whether `a` comes before `b` in byte order; a prefix comes before what extends it.
pub open spec fn bytes_less(a: Seq<u8>, b: Seq<u8>) -> bool
    decreases a.len(),
{
    if b.len() == 0 {
        false
    } else if a.len() == 0 {
        true
    } else if a[0] != b[0] {
        a[0] < b[0]
    } else {
        bytes_less(a.drop_first(), b.drop_first())
    }
}

/// No byte string comes before itself.
pub proof fn lemma_bytes_less_irreflexive(a: Seq<u8>)
    ensures
        !bytes_less(a, a),
    decreases a.len(),
{
    if a.len() > 0 {
        lemma_bytes_less_irreflexive(a.drop_first());
    }
}

/// Of two byte strings, at most one comes before the other.
pub proof fn lemma_bytes_less_asymmetric(a: Seq<u8>, b: Seq<u8>)
    ensures
        bytes_less(a, b) ==> !bytes_less(b, a),
    decreases a.len(),
{
    if a.len() > 0 && b.len() > 0 && a[0] == b[0] {
        lemma_bytes_less_asymmetric(a.drop_first(), b.drop_first());
    }
}

/// Of two different byte strings, one comes before the other.
pub proof fn lemma_bytes_less_total(a: Seq<u8>, b: Seq<u8>)
    ensures
        a != b ==> bytes_less(a, b) || bytes_less(b, a),
    decreases a.len(),
{
    if a.len() == 0 && b.len() == 0 {
        assert(a =~= b);
    } else if a.len() > 0 && b.len() > 0 && a[0] == b[0] {
        lemma_bytes_less_total(a.drop_first(), b.drop_first());
        if a.drop_first() == b.drop_first() {
            assert(a =~= seq![a[0]] + a.drop_first());
            assert(b =~= seq![b[0]] + b.drop_first());
        }
    }
}

/// Byte order is transitive.
pub proof fn lemma_bytes_less_transitive(a: Seq<u8>, b: Seq<u8>, c: Seq<u8>)
    ensures
        bytes_less(a, b) && bytes_less(b, c) ==> bytes_less(a, c),
    decreases a.len(),
{
    if a.len() > 0 && b.len() > 0 && c.len() > 0 && a[0] == b[0] && b[0] == c[0] {
        lemma_bytes_less_transitive(a.drop_first(), b.drop_first(), c.drop_first());
    }
}

/// Whether `a` comes before `b` in byte order.
pub fn bytes_before(a: &[u8], b: &[u8]) -> (res: bool)
    ensures
        res == bytes_less(a@, b@),
{
    let mut i: usize = 0;
    assert(a@.skip(0) =~= a@);
    assert(b@.skip(0) =~= b@);
    while i < a.len() && i < b.len()
        invariant
            i <= a@.len(),
            i <= b@.len(),
            bytes_less(a@, b@) == bytes_less(a@.skip(i as int), b@.skip(i as int)),
        decreases a@.len() - i,
    {
        if a[i] != b[i] {
            assert(a@.skip(i as int)[0] == a@[i as int]);
            assert(b@.skip(i as int)[0] == b@[i as int]);
            return a[i] < b[i];
        }
        assert(a@.skip(i as int).drop_first() =~= a@.skip(i + 1));
        assert(b@.skip(i as int).drop_first() =~= b@.skip(i + 1));
        i = i + 1;
    }
    i < b.len()
}

/// The views of a list of key-value pairs.
pub open spec fn pair_views(v: Seq<(Vec<u8>, Vec<u8>)>) -> Seq<(Seq<u8>, Seq<u8>)> {
    v.map_values(|p: (Vec<u8>, Vec<u8>)| (p.0@, p.1@))
}

/// What a database holds once the pairs of `batch` are written, in order.
pub open spec fn written(c: Map<Seq<u8>, Seq<u8>>, batch: Seq<(Seq<u8>, Seq<u8>)>) -> Map<
    Seq<u8>,
    Seq<u8>,
>
    decreases batch.len(),
{
    if batch.len() == 0 {
        c
    } else {
        written(c, batch.drop_last()).insert(batch.last().0, batch.last().1)
    }
}

/// `es` is what a scan from `start` reads of a database holding `c`: entries of
/// `c` at or after `start`, in byte order of keys, skipping none; the scan may
/// end early, where the database cannot be read further.
pub open spec fn scanned_from(
    c: Map<Seq<u8>, Seq<u8>>,
    start: Seq<u8>,
    es: Seq<(Seq<u8>, Seq<u8>)>,
) -> bool {
    &&& forall|i: int|
        0 <= i < es.len() ==> c.contains_key(#[trigger] es[i].0) && c[es[i].0] == es[i].1
            && !bytes_less(es[i].0, start)
    &&& forall|i: int, j: int| 0 <= i < j < es.len() ==> bytes_less(#[trigger] es[i].0, #[trigger] es[j].0)
    &&& forall|k: Seq<u8>, j: int|
        0 <= j < es.len() && #[trigger] c.contains_key(k) && !bytes_less(k, start) && bytes_less(
            k,
            #[trigger] es[j].0,
        ) ==> exists|i: int| 0 <= i < j && es[i].0 == k
}

/// A key-value database with byte keys kept in byte order.
pub trait KeyValueStore {
    /// What the database holds: each key's value.
    spec fn contents(&self) -> Map<Seq<u8>, Seq<u8>>;

    /// Whether every read and every write of the database succeeds.
    spec fn never_fails(&self) -> bool;

    /// The value stored under `key`, if any; an error where the database cannot be read.
    fn get(&self, key: &[u8]) -> (res: Result<Option<Vec<u8>>, String>)
        ensures
            self.never_fails() ==> res is Ok,
            res matches Ok(found) ==> match found {
                Some(v) => self.contents().contains_key(key@) && self.contents()[key@] == v@,
                None => !self.contents().contains_key(key@),
            },
    ;

    /// Stores all pairs of `batch` at once, in order; on an error nothing is stored.
    fn write_batch(&mut self, batch: Vec<(Vec<u8>, Vec<u8>)>) -> (res: Result<(), String>)
        ensures
            old(self).never_fails() ==> res is Ok,
            final(self).never_fails() == old(self).never_fails(),
            final(self).contents() == (if res is Ok {
                written(old(self).contents(), pair_views(batch@))
            } else {
                old(self).contents()
            }),
    ;

    /// The entries whose keys come at or after `start` in byte order, in that
    /// order, up to the first that cannot be read.
    fn entries_from(&self, start: &[u8]) -> (res: Vec<(Vec<u8>, Vec<u8>)>)
        ensures
            scanned_from(self.contents(), start@, pair_views(res@)),
    ;
}

/// The map that a list of entries with distinct keys holds.
pub open spec fn entries_map(es: Seq<(Seq<u8>, Seq<u8>)>) -> Map<Seq<u8>, Seq<u8>>
    decreases es.len(),
{
    if es.len() == 0 {
        Map::empty()
    } else {
        entries_map(es.drop_last()).insert(es.last().0, es.last().1)
    }
}

/// The keys of the entries come in strictly increasing byte order.
pub open spec fn sorted_keys(es: Seq<(Seq<u8>, Seq<u8>)>) -> bool {
    forall|i: int, j: int| 0 <= i < j < es.len() ==> bytes_less(#[trigger] es[i].0, #[trigger] es[j].0)
}

/// With keys in strictly increasing order, the map holds exactly the entries.
proof fn lemma_entries_map(es: Seq<(Seq<u8>, Seq<u8>)>)
    requires
        sorted_keys(es),
    ensures
        forall|i: int| 0 <= i < es.len() ==> #[trigger] entries_map(es).contains_key(es[i].0)
            && entries_map(es)[es[i].0] == es[i].1,
        forall|k: Seq<u8>| #[trigger] entries_map(es).contains_key(k) ==> exists|i: int|
            0 <= i < es.len() && es[i].0 == k,
    decreases es.len(),
{
    if es.len() > 0 {
        let init = es.drop_last();
        assert(sorted_keys(init));
        lemma_entries_map(init);
        assert forall|i: int| 0 <= i < es.len() implies #[trigger] entries_map(es).contains_key(
            es[i].0,
        ) && entries_map(es)[es[i].0] == es[i].1 by {
            if i < es.len() - 1 {
                assert(init[i] == es[i]);
                assert(entries_map(init).contains_key(init[i].0));
                assert(bytes_less(es[i].0, es[es.len() - 1].0));
                lemma_bytes_less_irreflexive(es[i].0);
                assert(es[i].0 != es.last().0);
            } else {
                assert(es[i] == es.last());
            }
        }
        assert forall|k: Seq<u8>| #[trigger] entries_map(es).contains_key(k) implies exists|i: int|
            0 <= i < es.len() && es[i].0 == k by {
            if k != es.last().0 {
                assert(entries_map(init).contains_key(k));
                let i = choose|i: int| 0 <= i < init.len() && init[i].0 == k;
                assert(es[i] == init[i]);
            } else {
                assert(es[es.len() - 1].0 == k);
            }
        }
    }
}

/// A key-value database held in memory. It also keeps, in order, the pairs
/// written since its journal was last taken, for a program that copies them
/// to a database on disk.
pub struct MemoryStore {
    entries: Vec<(Vec<u8>, Vec<u8>)>,
    journal: Vec<(Vec<u8>, Vec<u8>)>,
}

impl MemoryStore {
    /// The entries, in byte order of keys.
    pub closed spec fn entry_views(&self) -> Seq<(Seq<u8>, Seq<u8>)> {
        pair_views(self.entries@)
    }

    /// The pairs written since the journal was last taken, in order.
    pub closed spec fn journal_views(&self) -> Seq<(Seq<u8>, Seq<u8>)> {
        pair_views(self.journal@)
    }

    #[verifier::type_invariant]
    spec fn in_order(&self) -> bool {
        sorted_keys(self.entry_views())
    }

    /// An empty database with an empty journal.
    pub fn new() -> (res: MemoryStore)
        ensures
            res.contents() == Map::<Seq<u8>, Seq<u8>>::empty(),
            res.journal_views() == Seq::<(Seq<u8>, Seq<u8>)>::empty(),
    {
        let res = MemoryStore { entries: Vec::new(), journal: Vec::new() };
        assert(res.entry_views() =~= Seq::<(Seq<u8>, Seq<u8>)>::empty());
        assert(res.journal_views() =~= Seq::<(Seq<u8>, Seq<u8>)>::empty());
        res
    }

    /// The pairs written since the journal was last taken, in order; the
    /// journal is left empty and the contents as they were.
    pub fn take_journal(&mut self) -> (res: Vec<(Vec<u8>, Vec<u8>)>)
        ensures
            pair_views(res@) == old(self).journal_views(),
            final(self).journal_views() == Seq::<(Seq<u8>, Seq<u8>)>::empty(),
            final(self).contents() == old(self).contents(),
    {
        proof {
            use_type_invariant(&*self);
        }
        let mut res: Vec<(Vec<u8>, Vec<u8>)> = Vec::new();
        std::mem::swap(&mut res, &mut self.journal);
        assert(self.journal_views() =~= Seq::<(Seq<u8>, Seq<u8>)>::empty());
        res
    }

    /// The position of the first entry whose key does not come before `key`.
    fn position(&self, key: &[u8]) -> (p: usize)
        ensures
            p <= self.entry_views().len(),
            forall|i: int| 0 <= i < p ==> bytes_less(#[trigger] self.entry_views()[i].0, key@),
            p < self.entry_views().len() ==> !bytes_less(self.entry_views()[p as int].0, key@),
    {
        proof {
            use_type_invariant(self);
        }
        let mut p: usize = 0;
        while p < self.entries.len()
            invariant
                p <= self.entries@.len(),
                self.entry_views().len() == self.entries@.len(),
                forall|i: int| 0 <= i < p ==> bytes_less(#[trigger] self.entry_views()[i].0, key@),
            decreases self.entries@.len() - p,
        {
            assert(self.entry_views()[p as int].0 == self.entries@[p as int].0@);
            if !bytes_before(self.entries[p].0.as_slice(), key) {
                return p;
            }
            p = p + 1;
        }
        p
    }

    /// Stores `value` under `key`, replacing what was there.
    fn put(&mut self, key: Vec<u8>, value: Vec<u8>)
        ensures
            final(self).contents() == old(self).contents().insert(key@, value@),
            final(self).journal_views() == old(self).journal_views(),
    {
        proof {
            use_type_invariant(&*self);
            lemma_entries_map(self.entry_views());
        }
        let p = self.position(key.as_slice());
        let ghost es = self.entry_views();
        let ghost k = key@;
        let ghost v = value@;
        if p < self.entries.len() && bytes_equal(self.entries[p].0.as_slice(), key.as_slice()) {
            let ghost new_es = es.update(p as int, (k, v));
            let mut entries: Vec<(Vec<u8>, Vec<u8>)> = Vec::new();
            std::mem::swap(&mut entries, &mut self.entries);
            entries.set(p, (key, value));
            assert(pair_views(entries@) =~= new_es);
            proof {
                assert forall|i: int, j: int| 0 <= i < j < new_es.len() implies bytes_less(
                    #[trigger] new_es[i].0,
                    #[trigger] new_es[j].0,
                ) by {
                    assert(bytes_less(es[i].0, es[j].0));
                }
                lemma_entries_map(new_es);
                assert(entries_map(new_es) =~= entries_map(es).insert(k, v)) by {
                    assert forall|key2: Seq<u8>| #[trigger] entries_map(new_es).contains_key(key2)
                        <==> entries_map(es).insert(k, v).contains_key(key2) by {
                        if entries_map(new_es).contains_key(key2) {
                            let i = choose|i: int| 0 <= i < new_es.len() && new_es[i].0 == key2;
                            assert(entries_map(es).contains_key(es[i].0));
                        }
                        if entries_map(es).contains_key(key2) {
                            let i = choose|i: int| 0 <= i < es.len() && es[i].0 == key2;
                            assert(entries_map(new_es).contains_key(new_es[i].0));
                        }
                    }
                    assert forall|key2: Seq<u8>| #[trigger] entries_map(new_es).contains_key(key2)
                        implies entries_map(new_es)[key2] == entries_map(es).insert(k, v)[key2] by {
                        let i = choose|i: int| 0 <= i < new_es.len() && new_es[i].0 == key2;
                        if i != p {
                            assert(entries_map(es)[es[i].0] == es[i].1);
                        }
                    }
                }
            }
            self.entries = entries;
        } else {
            let ghost new_es = es.insert(p as int, (k, v));
            let mut entries: Vec<(Vec<u8>, Vec<u8>)> = Vec::new();
            std::mem::swap(&mut entries, &mut self.entries);
            entries.insert(p, (key, value));
            assert(pair_views(entries@) =~= new_es);
            proof {
                if p < es.len() {
                    lemma_bytes_less_total(k, es[p as int].0);
                }
                assert forall|i: int, j: int| 0 <= i < j < new_es.len() implies bytes_less(
                    #[trigger] new_es[i].0,
                    #[trigger] new_es[j].0,
                ) by {
                    if j < p {
                        assert(bytes_less(es[i].0, es[j].0));
                    } else if j == p {
                        assert(new_es[i] == es[i]);
                    } else if i < p {
                        assert(new_es[j] == es[j - 1]);
                        assert(bytes_less(es[i].0, k));
                        assert(bytes_less(k, es[p as int].0));
                        if j - 1 > p {
                            assert(bytes_less(es[p as int].0, es[j - 1].0));
                            lemma_bytes_less_transitive(k, es[p as int].0, es[j - 1].0);
                        }
                        lemma_bytes_less_transitive(es[i].0, k, es[j - 1].0);
                    } else if i == p {
                        assert(new_es[j] == es[j - 1]);
                        if j - 1 > p {
                            assert(bytes_less(es[p as int].0, es[j - 1].0));
                            lemma_bytes_less_transitive(k, es[p as int].0, es[j - 1].0);
                        }
                    } else {
                        assert(bytes_less(es[i - 1].0, es[j - 1].0));
                    }
                }
                lemma_entries_map(new_es);
                assert forall|i: int| 0 <= i < es.len() implies es[i].0 != k by {
                    if i < p {
                        lemma_bytes_less_irreflexive(k);
                    } else if i > p {
                        assert(bytes_less(es[p as int].0, es[i].0));
                        lemma_bytes_less_transitive(k, es[p as int].0, es[i].0);
                        lemma_bytes_less_irreflexive(k);
                    }
                }
                assert(entries_map(new_es) =~= entries_map(es).insert(k, v)) by {
                    assert forall|key2: Seq<u8>| #[trigger] entries_map(new_es).contains_key(key2)
                        <==> entries_map(es).insert(k, v).contains_key(key2) by {
                        if entries_map(new_es).contains_key(key2) && key2 != k {
                            let i = choose|i: int| 0 <= i < new_es.len() && new_es[i].0 == key2;
                            if i < p {
                                assert(entries_map(es).contains_key(es[i].0));
                            } else {
                                assert(entries_map(es).contains_key(es[i - 1].0));
                            }
                        }
                        if entries_map(es).contains_key(key2) {
                            let i = choose|i: int| 0 <= i < es.len() && es[i].0 == key2;
                            if i < p {
                                assert(entries_map(new_es).contains_key(new_es[i].0));
                            } else {
                                assert(entries_map(new_es).contains_key(new_es[i + 1].0));
                            }
                        }
                        if key2 == k {
                            assert(entries_map(new_es).contains_key(new_es[p as int].0));
                        }
                    }
                    assert forall|key2: Seq<u8>| #[trigger] entries_map(new_es).contains_key(key2)
                        implies entries_map(new_es)[key2] == entries_map(es).insert(k, v)[key2] by {
                        let i = choose|i: int| 0 <= i < new_es.len() && new_es[i].0 == key2;
                        if i < p {
                            assert(entries_map(es)[es[i].0] == es[i].1);
                        } else if i > p {
                            assert(entries_map(es)[es[i - 1].0] == es[i - 1].1);
                        }
                    }
                }
            }
            self.entries = entries;
        }
    }
}

impl KeyValueStore for MemoryStore {
    closed spec fn contents(&self) -> Map<Seq<u8>, Seq<u8>> {
        entries_map(self.entry_views())
    }

    open spec fn never_fails(&self) -> bool {
        true
    }

    fn get(&self, key: &[u8]) -> (res: Result<Option<Vec<u8>>, String>) {
        proof {
            use_type_invariant(self);
            lemma_entries_map(self.entry_views());
        }
        let p = self.position(key);
        if p < self.entries.len() && bytes_equal(self.entries[p].0.as_slice(), key) {
            let value = crate::store::copy_bytes(&self.entries[p].1);
            assert(self.entry_views()[p as int] == (self.entries@[p as int].0@, self.entries@[p as int].1@));
            return Ok(Some(value));
        }
        proof {
            let es = self.entry_views();
            if entries_map(es).contains_key(key@) {
                let i = choose|i: int| 0 <= i < es.len() && es[i].0 == key@;
                if i < p {
                    lemma_bytes_less_irreflexive(key@);
                } else if i > p {
                    assert(bytes_less(es[p as int].0, es[i].0));
                    lemma_bytes_less_total(key@, es[p as int].0);
                    lemma_bytes_less_asymmetric(es[p as int].0, key@);
                }
            }
        }
        Ok(None)
    }

    fn write_batch(&mut self, batch: Vec<(Vec<u8>, Vec<u8>)>) -> (res: Result<(), String>)
        ensures
            res is Ok,
            final(self).journal_views() == old(self).journal_views() + pair_views(batch@),
    {
        let ghost c = self.contents();
        let ghost j = self.journal_views();
        let mut i: usize = 0;
        while i < batch.len()
            invariant
                i <= batch@.len(),
                self.contents() == written(c, pair_views(batch@).take(i as int)),
                self.journal_views() == j + pair_views(batch@).take(i as int),
            decreases batch@.len() - i,
        {
            let key = crate::store::copy_bytes(&batch[i].0);
            let value = crate::store::copy_bytes(&batch[i].1);
            let logged = (crate::store::copy_bytes(&batch[i].0), crate::store::copy_bytes(&batch[i].1));
            self.put(key, value);
            let ghost before = self.journal@;
            proof {
                use_type_invariant(&*self);
            }
            let mut journal: Vec<(Vec<u8>, Vec<u8>)> = Vec::new();
            std::mem::swap(&mut journal, &mut self.journal);
            journal.push(logged);
            std::mem::swap(&mut journal, &mut self.journal);
            assert(pair_views(self.journal@) =~= pair_views(before).push(pair_views(batch@)[i as int]));
            assert(pair_views(batch@).take(i + 1).drop_last() =~= pair_views(batch@).take(i as int));
            assert(pair_views(batch@).take(i + 1) =~= pair_views(batch@).take(i as int).push(
                pair_views(batch@)[i as int],
            ));
            i = i + 1;
        }
        assert(pair_views(batch@).take(i as int) =~= pair_views(batch@));
        Ok(())
    }

    fn entries_from(&self, start: &[u8]) -> (res: Vec<(Vec<u8>, Vec<u8>)>)
        ensures
            forall|k: Seq<u8>|
                #[trigger] self.contents().contains_key(k) && !bytes_less(k, start@) ==> exists|i: int|
                    0 <= i < res@.len() && res@[i].0@ == k,
    {
        proof {
            use_type_invariant(self);
            lemma_entries_map(self.entry_views());
        }
        let ghost es = self.entry_views();
        let p = self.position(start);
        let mut out: Vec<(Vec<u8>, Vec<u8>)> = Vec::new();
        let mut i: usize = p;
        while i < self.entries.len()
            invariant
                p <= i <= es.len(),
                es == self.entry_views(),
                es.len() == self.entries@.len(),
                sorted_keys(es),
                p < es.len() ==> !bytes_less(es[p as int].0, start@),
                pair_views(out@) == es.subrange(p as int, i as int),
            decreases es.len() - i,
        {
            let key = crate::store::copy_bytes(&self.entries[i].0);
            let value = crate::store::copy_bytes(&self.entries[i].1);
            assert(es[i as int] == (self.entries@[i as int].0@, self.entries@[i as int].1@));
            let ghost before = out@;
            out.push((key, value));
            assert(out@ == before.push((key, value)));
            assert(pair_views(out@) =~= pair_views(before).push((key@, value@)));
            assert(pair_views(out@) =~= es.subrange(p as int, i + 1));
            i = i + 1;
        }
        proof {
            let os = pair_views(out@);
            let c = entries_map(es);
            assert forall|j: int| 0 <= j < os.len() implies c.contains_key(#[trigger] os[j].0)
                && c[os[j].0] == os[j].1 && !bytes_less(os[j].0, start@) by {
                assert(os[j] == es[p + j]);
                if j > 0 {
                    assert(bytes_less(es[p as int].0, es[p + j].0));
                    lemma_bytes_less_asymmetric(es[p as int].0, es[p + j].0);
                    if bytes_less(es[p + j].0, start@) {
                        lemma_bytes_less_total(es[p as int].0, start@);
                        lemma_bytes_less_transitive(es[p as int].0, es[p + j].0, start@);
                    }
                }
            }
            assert forall|a: int, b: int| 0 <= a < b < os.len() implies bytes_less(
                #[trigger] os[a].0,
                #[trigger] os[b].0,
            ) by {
                assert(os[a] == es[p + a]);
                assert(os[b] == es[p + b]);
            }
            assert forall|k: Seq<u8>, j: int|
                0 <= j < os.len() && #[trigger] c.contains_key(k) && !bytes_less(k, start@)
                    && bytes_less(k, #[trigger] os[j].0) implies exists|a: int| 0 <= a < j && os[a].0
                == k by {
                let m = choose|m: int| 0 <= m < es.len() && es[m].0 == k;
                assert(os[j] == es[p + j]);
                if m < p {
                    assert(bytes_less(es[m].0, start@));
                } else if m >= p + j {
                    if m > p + j {
                        assert(bytes_less(es[p + j].0, es[m].0));
                        lemma_bytes_less_asymmetric(es[p + j].0, k);
                    } else {
                        lemma_bytes_less_irreflexive(k);
                    }
                } else {
                    assert(os[m - p] == es[m]);
                }
            }
            assert forall|k: Seq<u8>| #[trigger] c.contains_key(k) && !bytes_less(k, start@) implies exists|
                a: int,
            | 0 <= a < out@.len() && out@[a].0@ == k by {
                let m = choose|m: int| 0 <= m < es.len() && es[m].0 == k;
                if m < p {
                    assert(bytes_less(es[m].0, start@));
                } else {
                    assert(os[m - p] == es[m]);
                    assert(os[m - p].0 == out@[m - p].0@);
                }
            }
        }
        out
    }
}

} // verus!
