use vstd::prelude::*;
use vstd::multiset::Multiset;
use vstd::utf8::encode_utf8;

verus! {

broadcast use {
    vstd::seq_lib::group_to_multiset_ensures,
    vstd::multiset::group_multiset_axioms,
    vstd::multiset::group_multiset_properties,
};

/// A file as handed out by [`TopKFiles::to_sorted_vec_desc`].
#[derive(Debug, Clone)]
pub struct FileMetaData {
    pub name: String,
    pub size: u64,
    pub mtime: u64,
}

/// One kept file, as a mathematical value: its size and its name.
pub type FileEntry = (u64, Seq<char>);

/// The abstract state of a [`TopKFiles`]: its capacity and the files it holds.
pub struct TopKView {
    pub k: usize,
    pub files: Multiset<FileEntry>,
}

/// Lexicographic order on byte strings, the order of `str` in Rust.
pub open spec fn bytes_lt(a: Seq<u8>, b: Seq<u8>) -> bool
    decreases a.len(),
{
    if b.len() == 0 {
        false
    } else if a.len() == 0 {
        true
    } else if a[0] != b[0] {
        a[0] < b[0]
    } else {
        bytes_lt(a.drop_first(), b.drop_first())
    }
}

/// `a` leaves a full collection before `b`: the smaller size leaves first, and
/// among equal sizes the name that is greater in byte order.
pub open spec fn evicted_before(a: FileEntry, b: FileEntry) -> bool {
    a.0 < b.0 || (a.0 == b.0 && bytes_lt(encode_utf8(b.1), encode_utf8(a.1)))
}

/// `e` is the file that leaves `files` when a larger one arrives.
pub open spec fn is_next_evicted(files: Multiset<FileEntry>, e: FileEntry) -> bool {
    &&& files.contains(e)
    &&& forall|x: FileEntry| files.contains(x) ==> !evicted_before(x, e)
}

/// The file that leaves `files` when a larger one arrives (unique, see
/// `lemma_next_evicted_unique`).
pub open spec fn next_evicted(files: Multiset<FileEntry>) -> FileEntry {
    choose|e: FileEntry| is_next_evicted(files, e)
}

/// What offering a file of `size` bytes named `name` does to a collection.
pub open spec fn offer_spec(v: TopKView, name: Seq<char>, size: u64) -> TopKView {
    if v.k == 0 {
        v
    } else if v.files.len() < v.k {
        TopKView { k: v.k, files: v.files.insert((size, name)) }
    } else if size < next_evicted(v.files).0 {
        v
    } else {
        TopKView { k: v.k, files: v.files.remove(next_evicted(v.files)).insert((size, name)) }
    }
}

pub proof fn lemma_bytes_lt_irreflexive(a: Seq<u8>)
    ensures
        !bytes_lt(a, a),
    decreases a.len(),
{
    if a.len() > 0 {
        lemma_bytes_lt_irreflexive(a.drop_first());
    }
}

pub proof fn lemma_bytes_lt_transitive(a: Seq<u8>, b: Seq<u8>, c: Seq<u8>)
    requires
        bytes_lt(a, b),
        bytes_lt(b, c),
    ensures
        bytes_lt(a, c),
    decreases a.len(),
{
    if a.len() > 0 && a[0] == b[0] && b[0] == c[0] {
        lemma_bytes_lt_transitive(a.drop_first(), b.drop_first(), c.drop_first());
    }
}

pub proof fn lemma_bytes_lt_total(a: Seq<u8>, b: Seq<u8>)
    ensures
        bytes_lt(a, b) || a == b || bytes_lt(b, a),
    decreases a.len(),
{
    if a.len() == 0 {
        if b.len() == 0 {
            assert(a =~= b);
        }
    } else if b.len() > 0 && a[0] == b[0] {
        lemma_bytes_lt_total(a.drop_first(), b.drop_first());
        if a.drop_first() == b.drop_first() {
            assert(a =~= seq![a[0]] + a.drop_first());
            assert(b =~= seq![b[0]] + b.drop_first());
        }
    }
}

pub proof fn lemma_evicted_before_transitive(a: FileEntry, b: FileEntry, c: FileEntry)
    requires
        evicted_before(a, b),
        evicted_before(b, c),
    ensures
        evicted_before(a, c),
{
    if a.0 == b.0 && b.0 == c.0 {
        lemma_bytes_lt_transitive(encode_utf8(c.1), encode_utf8(b.1), encode_utf8(a.1));
    }
}

/// Two distinct files are always ordered one way or the other.
pub proof fn lemma_evicted_before_total(a: FileEntry, b: FileEntry)
    ensures
        evicted_before(a, b) || a == b || evicted_before(b, a),
{
    lemma_bytes_lt_total(encode_utf8(a.1), encode_utf8(b.1));
    if encode_utf8(a.1) == encode_utf8(b.1) {
        vstd::utf8::encode_utf8_decode_utf8(a.1);
        vstd::utf8::encode_utf8_decode_utf8(b.1);
    }
}

pub proof fn lemma_evicted_before_irreflexive(a: FileEntry)
    ensures
        !evicted_before(a, a),
{
    lemma_bytes_lt_irreflexive(encode_utf8(a.1));
}

/// At most one file of a collection is the next to leave it.
pub proof fn lemma_next_evicted_unique(files: Multiset<FileEntry>, e1: FileEntry, e2: FileEntry)
    requires
        is_next_evicted(files, e1),
        is_next_evicted(files, e2),
    ensures
        e1 == e2,
{
    lemma_evicted_before_total(e1, e2);
}

/// Every non-empty collection has a next file to leave it.
pub proof fn lemma_next_evicted_exists(files: Multiset<FileEntry>)
    requires
        files.len() > 0,
    ensures
        is_next_evicted(files, next_evicted(files)),
    decreases files.len(),
{
    let x = files.choose();
    let rest = files.remove(x);
    if rest.len() == 0 {
        assert forall|y: FileEntry| files.contains(y) implies !evicted_before(y, x) by {
            if y != x {
                assert(rest.count(y) == files.count(y));
            }
            lemma_evicted_before_irreflexive(x);
        }
        assert(is_next_evicted(files, x));
    } else {
        lemma_next_evicted_exists(rest);
        let e = next_evicted(rest);
        if evicted_before(x, e) {
            assert forall|y: FileEntry| files.contains(y) implies !evicted_before(y, x) by {
                if y == x {
                    lemma_evicted_before_irreflexive(x);
                } else {
                    assert(rest.contains(y));
                    if evicted_before(y, x) {
                        lemma_evicted_before_transitive(y, x, e);
                    }
                }
            }
            assert(is_next_evicted(files, x));
        } else {
            assert forall|y: FileEntry| files.contains(y) implies !evicted_before(y, e) by {
                if y != x {
                    assert(rest.contains(y));
                }
            }
            assert(is_next_evicted(files, e));
        }
    }
}


/// The collection left by offering `items` in order to an empty one of capacity `k`.
pub open spec fn offer_all(k: usize, items: Seq<FileEntry>) -> TopKView
    decreases items.len(),
{
    if items.len() == 0 {
        TopKView { k, files: Multiset::empty() }
    } else {
        offer_spec(offer_all(k, items.drop_last()), items.last().1, items.last().0)
    }
}

/// Top-k law: after offering any files in any order to an empty collection of
/// capacity `k`, it holds `min(k, n)` of the `n` files offered, each of them one
/// that was offered, and no file offered and not kept is larger than a file kept.
pub proof fn lemma_keeps_largest(k: usize, items: Seq<FileEntry>)
    ensures
        offer_all(k, items).k == k,
        offer_all(k, items).files.len() == (if k < items.len() { k as nat } else { items.len() }),
        offer_all(k, items).files.subset_of(items.to_multiset()),
        forall|x: FileEntry, y: FileEntry|
            offer_all(k, items).files.contains(x) && items.to_multiset().sub(offer_all(k, items).files).contains(y)
                ==> y.0 <= x.0,
    decreases items.len(),
{
    if items.len() == 0 {
        assert(items.to_multiset() =~= Multiset::<FileEntry>::empty());
    } else {
        let pre = items.drop_last();
        let last = items.last();
        assert(items =~= pre.push(last));
        lemma_keeps_largest(k, pre);
        let r = offer_all(k, pre).files;
        let pm = pre.to_multiset();
        let im = items.to_multiset();
        assert(im =~= pm.insert(last));
        let n = offer_all(k, items).files;
        if k == 0 {
            assert forall|x: FileEntry, y: FileEntry| n.contains(x) && im.sub(n).contains(y) implies y.0 <= x.0 by {
            }
        } else if r.len() < k {
            assert(n =~= r.insert(last));
            // every file offered before was kept
            assert(pm.sub(r).len() == 0);
            assert forall|y: FileEntry| #[trigger] im.sub(n).count(y) == 0 by {
                assert(pm.sub(r).count(y) == 0);
            }
        } else {
            lemma_next_evicted_exists(r);
            let e = next_evicted(r);
            if last.0 < e.0 {
                assert(n == r);
                assert forall|x: FileEntry, y: FileEntry| n.contains(x) && im.sub(n).contains(y) implies y.0 <= x.0 by {
                    assert(r.contains(x));
                    if y != last {
                        assert(pm.sub(r).count(y) == im.sub(n).count(y));
                        assert(pm.sub(r).contains(y));
                    } else {
                        assert(!evicted_before(x, e));
                    }
                }
            } else {
                assert(n =~= r.remove(e).insert(last));
                assert forall|x: FileEntry, y: FileEntry| n.contains(x) && im.sub(n).contains(y) implies y.0 <= x.0 by {
                    if y != e {
                        assert(pm.sub(r).count(y) >= im.sub(n).count(y));
                        assert(pm.sub(r).contains(y));
                        if x != last {
                            assert(r.contains(x));
                        } else {
                            assert(r.contains(e));
                            assert(y.0 <= e.0);
                        }
                    } else {
                        if x != last {
                            assert(r.contains(x));
                            assert(!evicted_before(x, e));
                        }
                    }
                }
            }
        }
    }
}

/// The `k` largest files offered to it, the smallest of them first in line
/// to leave when a larger one arrives.
#[derive(Debug)]
pub struct TopKFiles {
    k: usize,
    entries: Vec<(u64, String)>,
}

pub open spec fn entry_view(e: (u64, String)) -> FileEntry {
    (e.0, e.1@)
}

pub open spec fn meta_entry(f: FileMetaData) -> FileEntry {
    (f.size, f.name@)
}

impl View for TopKFiles {
    type V = TopKView;

    closed spec fn view(&self) -> TopKView {
        TopKView { k: self.k, files: self.entries@.map_values(|e: (u64, String)| entry_view(e)).to_multiset() }
    }
}

/// `e` put into the list `r`, which runs from the largest size down, before
/// the first file that is smaller than it.
pub open spec fn insert_desc(r: Seq<FileEntry>, e: FileEntry) -> Seq<FileEntry>
    decreases r.len(),
{
    if r.len() == 0 {
        seq![e]
    } else if e.0 > r[0].0 {
        seq![e] + r
    } else {
        seq![r[0]] + insert_desc(r.drop_first(), e)
    }
}

/// The files `q` from the largest size down, each put in turn before the
/// first smaller one, so that of equal sizes the earlier comes first.
pub open spec fn sort_desc(q: Seq<FileEntry>) -> Seq<FileEntry>
    decreases q.len(),
{
    if q.len() == 0 {
        Seq::empty()
    } else {
        insert_desc(sort_desc(q.drop_last()), q.last())
    }
}

proof fn lemma_insert_desc_at(r: Seq<FileEntry>, e: FileEntry, p: int)
    requires
        0 <= p <= r.len(),
        forall|a: int| 0 <= a < p ==> e.0 <= #[trigger] r[a].0,
        p < r.len() ==> r[p].0 < e.0,
    ensures
        insert_desc(r, e) == r.insert(p, e),
    decreases p,
{
    if p == 0 {
        if r.len() == 0 {
            assert(r.insert(0, e) =~= seq![e]);
        } else {
            assert(r.insert(0, e) =~= seq![e] + r);
        }
    } else {
        let rest = r.drop_first();
        assert forall|a: int| 0 <= a < p - 1 implies e.0 <= #[trigger] rest[a].0 by {
            assert(rest[a] == r[a + 1]);
        }
        if p - 1 < rest.len() {
            assert(rest[p - 1] == r[p]);
        }
        lemma_insert_desc_at(rest, e, p - 1);
        assert(r.insert(p, e) =~= seq![r[0]] + rest.insert(p - 1, e));
    }
}

/// Compares two byte strings in lexicographic order.
fn bytes_less(a: &[u8], b: &[u8]) -> (lt: bool)
    ensures
        lt == bytes_lt(a@, b@),
{
    let mut i: usize = 0;
    assert(a@.skip(0) =~= a@);
    assert(b@.skip(0) =~= b@);
    while i < a.len() && i < b.len()
        invariant
            i <= a.len(),
            i <= b.len(),
            bytes_lt(a@, b@) == bytes_lt(a@.skip(i as int), b@.skip(i as int)),
        decreases a.len() - i,
    {
        if a[i] != b[i] {
            return a[i] < b[i];
        }
        assert(a@.skip(i as int).drop_first() =~= a@.skip(i + 1));
        assert(b@.skip(i as int).drop_first() =~= b@.skip(i + 1));
        i = i + 1;
    }
    i < b.len()
}

impl TopKFiles {
    /// The files held, as [`TopKFiles::to_sorted_vec_desc`] lists them: from
    /// the largest size down, and of equal sizes in the order they are held.
    pub closed spec fn listed(&self) -> Seq<FileEntry> {
        sort_desc(self.entries@.map_values(|e: (u64, String)| entry_view(e)))
    }

    #[verifier::type_invariant]
    spec fn within_capacity(&self) -> bool {
        self.entries@.len() <= self.k
    }

    /// An empty collection that keeps at most `k` files.
    pub fn new(k: usize) -> (r: Self)
        ensures
            r@.k == k,
            r@.files == Multiset::<FileEntry>::empty(),
    {
        let r = TopKFiles { k, entries: Vec::new() };
        assert(r.entries@.map_values(|e: (u64, String)| entry_view(e)) =~= Seq::<FileEntry>::empty());
        r
    }

    /// Whether the entry at `i` leaves the collection before the one at `j`.
    fn leaves_before(&self, i: usize, j: usize) -> (b: bool)
        requires
            i < self.entries@.len(),
            j < self.entries@.len(),
        ensures
            b == evicted_before(entry_view(self.entries@[i as int]), entry_view(self.entries@[j as int])),
    {
        let a = &self.entries[i];
        let b = &self.entries[j];
        if a.0 != b.0 {
            a.0 < b.0
        } else {
            bytes_less(b.1.as_str().as_bytes(), a.1.as_str().as_bytes())
        }
    }

    /// The position of the file that leaves first.
    fn eviction_index(&self) -> (idx: usize)
        requires
            self.entries@.len() > 0,
        ensures
            idx < self.entries@.len(),
            forall|j: int| 0 <= j < self.entries@.len() ==>
                !evicted_before(entry_view(#[trigger] self.entries@[j]), entry_view(self.entries@[idx as int])),
    {
        let mut best: usize = 0;
        let mut i: usize = 1;
        proof {
            lemma_evicted_before_irreflexive(entry_view(self.entries@[0]));
        }
        while i < self.entries.len()
            invariant
                1 <= i <= self.entries@.len(),
                best < i,
                forall|j: int| 0 <= j < i ==>
                    !evicted_before(entry_view(#[trigger] self.entries@[j]), entry_view(self.entries@[best as int])),
            decreases self.entries@.len() - i,
        {
            if self.leaves_before(i, best) {
                proof {
                    assert forall|j: int| 0 <= j <= i implies
                        !evicted_before(entry_view(#[trigger] self.entries@[j]), entry_view(self.entries@[i as int])) by {
                        if j == i {
                            lemma_evicted_before_irreflexive(entry_view(self.entries@[i as int]));
                        } else if evicted_before(entry_view(self.entries@[j]), entry_view(self.entries@[i as int])) {
                            lemma_evicted_before_transitive(
                                entry_view(self.entries@[j]),
                                entry_view(self.entries@[i as int]),
                                entry_view(self.entries@[best as int]),
                            );
                        }
                    }
                }
                best = i;
            }
            i = i + 1;
        }
        best
    }

    /// Offers a file: it is kept while fewer than `k` files are held, and
    /// otherwise replaces the next file to leave unless it is smaller than that one.
    pub fn offer(&mut self, name: String, size: u64)
        ensures
            final(self)@ == offer_spec(old(self)@, name@, size),
    {
        proof {
            use_type_invariant(&*self);
        }
        let ghost old_seq = self.entries@.map_values(|e: (u64, String)| entry_view(e));
        if self.k == 0 {
            return;
        }
        if self.entries.len() < self.k {
            let mut entries: Vec<(u64, String)> = Vec::new();
            std::mem::swap(&mut entries, &mut self.entries);
            entries.push((size, name));
            self.entries = entries;
            proof {
                assert(self.entries@.map_values(|e: (u64, String)| entry_view(e)) =~= old_seq.push((size, name@)));
            }
            return;
        }
        let idx = self.eviction_index();
        let ghost e = old_seq[idx as int];
        proof {
            assert(old_seq.to_multiset().contains(e));
            assert forall|x: FileEntry| old_seq.to_multiset().contains(x) implies !evicted_before(x, e) by {
                assert(old_seq.contains(x));
                let j = choose|j: int| 0 <= j < old_seq.len() && old_seq[j] == x;
                assert(self.entries@[j] == self.entries@[j]);
            }
            lemma_next_evicted_exists(old_seq.to_multiset());
            lemma_next_evicted_unique(old_seq.to_multiset(), e, next_evicted(old_seq.to_multiset()));
        }
        if size < self.entries[idx].0 {
            return;
        }
        let mut entries: Vec<(u64, String)> = Vec::new();
        std::mem::swap(&mut entries, &mut self.entries);
        entries.set(idx, (size, name));
        self.entries = entries;
        proof {
            assert(self.entries@.map_values(|e: (u64, String)| entry_view(e)) =~= old_seq.update(idx as int, (size, name@)));
            assert(old_seq.to_multiset().insert((size, name@)).remove(e) =~= old_seq.to_multiset().remove(e).insert((size, name@)));
        }
    }
    /// The files held, largest first.
    pub fn to_sorted_vec_desc(&self) -> (v: Vec<FileMetaData>)
        ensures
            v@.map_values(|f: FileMetaData| meta_entry(f)).to_multiset() == self@.files,
            forall|i: int, j: int| 0 <= i < j < v@.len() ==> v@[j].size <= v@[i].size,
            forall|i: int| 0 <= i < v@.len() ==> v@[i].mtime == 0,
            v@.len() == self@.files.len(),
            v@.len() <= self@.k,
            v@.map_values(|f: FileMetaData| meta_entry(f)) == self.listed(),
    {
        proof {
            use_type_invariant(self);
        }
        let ghost src = self.entries@.map_values(|e: (u64, String)| entry_view(e));
        let mut v: Vec<FileMetaData> = Vec::new();
        let mut i: usize = 0;
        while i < self.entries.len()
            invariant
                i <= self.entries@.len(),
                v@.len() == i,
                src == self.entries@.map_values(|e: (u64, String)| entry_view(e)),
                v@.map_values(|f: FileMetaData| meta_entry(f)) == sort_desc(src.take(i as int)),
                v@.map_values(|f: FileMetaData| meta_entry(f)).to_multiset() == src.take(i as int).to_multiset(),
                forall|a: int, b: int| 0 <= a < b < v@.len() ==> v@[b].size <= v@[a].size,
                forall|a: int| 0 <= a < v@.len() ==> v@[a].mtime == 0,
            decreases self.entries@.len() - i,
        {
            let size = self.entries[i].0;
            let name = self.entries[i].1.clone();
            let mut p: usize = 0;
            while p < v.len() && size <= v[p].size
                invariant
                    p <= v@.len(),
                    forall|a: int| 0 <= a < p ==> size <= v@[a].size,
                decreases v@.len() - p,
            {
                p = p + 1;
            }
            let ghost before = v@;
            v.insert(p, FileMetaData { name, size, mtime: 0 });
            proof {
                assert(v@.map_values(|f: FileMetaData| meta_entry(f)) =~=
                    before.map_values(|f: FileMetaData| meta_entry(f)).insert(p as int, src[i as int]));
                assert(src.take(i + 1) =~= src.take(i as int).push(src[i as int]));
                let bm = before.map_values(|f: FileMetaData| meta_entry(f));
                assert forall|a: int| 0 <= a < p implies src[i as int].0 <= #[trigger] bm[a].0 by {
                    assert(bm[a] == meta_entry(before[a]));
                }
                if p < bm.len() {
                    assert(bm[p as int] == meta_entry(before[p as int]));
                }
                assert(src[i as int] == entry_view(self.entries@[i as int]));
                lemma_insert_desc_at(bm, src[i as int], p as int);
                assert(src.take(i + 1).drop_last() =~= src.take(i as int));
                assert forall|a: int, b: int| 0 <= a < b < v@.len() implies v@[b].size <= v@[a].size by {
                    if b > p && a < p {
                        assert(before[b - 1].size <= before[a].size);
                    }
                    if a == p as int && p < before.len() {
                        assert(before[b - 1].size <= before[p as int].size);
                    }
                }
            }
            i = i + 1;
        }
        proof {
            assert(src.take(i as int) =~= src);
        }
        v
    }
}

impl Clone for TopKFiles {
    fn clone(&self) -> (r: Self)
        ensures
            r@ == self@,
    {
        proof {
            use_type_invariant(self);
        }
        let mut entries: Vec<(u64, String)> = Vec::new();
        let mut i: usize = 0;
        while i < self.entries.len()
            invariant
                i <= self.entries@.len(),
                entries@.len() == i,
                forall|k: int| 0 <= k < i ==> entry_view(#[trigger] entries@[k]) == entry_view(self.entries@[k]),
            decreases self.entries@.len() - i,
        {
            let e = &self.entries[i];
            let name = e.1.clone();
            entries.push((e.0, name));
            i = i + 1;
        }
        let r = TopKFiles { k: self.k, entries };
        proof {
            assert(r.entries@.map_values(|e: (u64, String)| entry_view(e)) =~= self.entries@.map_values(
                |e: (u64, String)| entry_view(e),
            ));
        }
        r
    }
}

} // verus!
