//! Files listed in path order, and the map from path to entry that such a listing
//! stands for.
use vstd::prelude::*;
use crate::persist::{FileView, PersistedFile, file_views};
use crate::symbols::{Symbol, SymbolView, symbol_views};
use crate::text::{
    chars_of,
    chars_lt, compare_chars, lemma_chars_lt_irreflexive, lemma_chars_lt_transitive,
    lemma_chars_lt_trichotomy, Relation,
};

verus! {

/// What the index holds for one path: modification time and symbols.
pub struct FileEntry {
    pub mtime_ms: u64,
    pub symbols: Seq<SymbolView>,
}

/// The entry of a listed file.
pub open spec fn entry_of(f: FileView) -> FileEntry {
    FileEntry { mtime_ms: f.mtime_ms, symbols: f.symbols }
}

/// Paths strictly ascending: sorted, and no path twice.
pub open spec fn paths_sorted(files: Seq<FileView>) -> bool {
    forall|i: int, j: int|
        0 <= i < j < files.len() ==> chars_lt(#[trigger] files[i].path, #[trigger] files[j].path)
}

/// Whether `path` is listed.
pub open spec fn lists(files: Seq<FileView>, path: Seq<char>) -> bool {
    exists|i: int| 0 <= i < files.len() && #[trigger] files[i].path == path
}

/// The map from path to entry that a listing stands for.
pub open spec fn file_map(files: Seq<FileView>) -> Map<Seq<char>, FileEntry> {
    Map::new(
        |p: Seq<char>| lists(files, p),
        |p: Seq<char>|
            entry_of(files[choose|i: int| 0 <= i < files.len() && #[trigger] files[i].path == p]),
    )
}

/// The map that listing `files` in order gives when a later entry for a path replaces
/// an earlier one.
pub open spec fn map_of_list(files: Seq<FileView>) -> Map<Seq<char>, FileEntry>
    decreases files.len(),
{
    if files.len() == 0 {
        Map::empty()
    } else {
        map_of_list(files.drop_last()).insert(files.last().path, entry_of(files.last()))
    }
}

/// In a sorted listing, the entry for a listed path is the one listed.
pub proof fn lemma_file_map_at(files: Seq<FileView>, i: int)
    requires
        paths_sorted(files),
        0 <= i < files.len(),
    ensures
        file_map(files).contains_key(files[i].path),
        file_map(files)[files[i].path] == entry_of(files[i]),
{
    let p = files[i].path;
    assert(lists(files, p));
    let k = choose|k: int| 0 <= k < files.len() && #[trigger] files[k].path == p;
    if k != i {
        if k < i {
            assert(chars_lt(files[k].path, files[i].path));
        } else {
            assert(chars_lt(files[i].path, files[k].path));
        }
        lemma_chars_lt_irreflexive(p);
    }
}

/// Two sorted listings that stand for the same map are the same listing.
pub proof fn lemma_sorted_listing_unique(a: Seq<FileView>, b: Seq<FileView>)
    requires
        paths_sorted(a),
        paths_sorted(b),
        file_map(a) == file_map(b),
    ensures
        a == b,
    decreases a.len() + b.len(),
{
    if a.len() == 0 || b.len() == 0 {
        if a.len() > 0 {
            lemma_file_map_at(a, 0);
            assert(file_map(b).contains_key(a[0].path));
        }
        if b.len() > 0 {
            lemma_file_map_at(b, 0);
            assert(file_map(a).contains_key(b[0].path));
        }
        assert(a =~= b);
    } else {
        let la = a.last();
        let lb = b.last();
        lemma_file_map_at(a, a.len() - 1);
        lemma_file_map_at(b, b.len() - 1);
        assert(file_map(b).contains_key(la.path));
        assert(file_map(a).contains_key(lb.path));
        // The last paths are each the greatest of the common domain.
        let ia = choose|i: int| 0 <= i < b.len() && #[trigger] b[i].path == la.path;
        let ib = choose|i: int| 0 <= i < a.len() && #[trigger] a[i].path == lb.path;
        if la.path != lb.path {
            lemma_chars_lt_trichotomy(la.path, lb.path);
            if ia != b.len() - 1 {
                assert(chars_lt(b[ia].path, lb.path));
            }
            if ib != a.len() - 1 {
                assert(chars_lt(a[ib].path, la.path));
            }
            assert(false);
        }
        lemma_file_map_at(a, a.len() - 1);
        lemma_file_map_at(b, b.len() - 1);
        assert(entry_of(la) == entry_of(lb));
        assert(la == lb);
        lemma_drop_last_map(a);
        lemma_drop_last_map(b);
        lemma_sorted_drop_last(a);
        lemma_sorted_drop_last(b);
        lemma_sorted_listing_unique(a.drop_last(), b.drop_last());
        assert(a =~= a.drop_last().push(la));
        assert(b =~= b.drop_last().push(lb));
    }
}

/// Dropping the last of a sorted listing keeps it sorted.
pub proof fn lemma_sorted_drop_last(a: Seq<FileView>)
    requires
        paths_sorted(a),
        a.len() > 0,
    ensures
        paths_sorted(a.drop_last()),
{
    assert forall|i: int, j: int| 0 <= i < j < a.drop_last().len() implies chars_lt(
        #[trigger] a.drop_last()[i].path,
        #[trigger] a.drop_last()[j].path,
    ) by {
        assert(a.drop_last()[i] == a[i] && a.drop_last()[j] == a[j]);
    }
}

/// Dropping the last of a sorted listing drops its path from the map.
pub proof fn lemma_drop_last_map(a: Seq<FileView>)
    requires
        paths_sorted(a),
        a.len() > 0,
    ensures
        file_map(a.drop_last()) == file_map(a).remove(a.last().path),
{
    let d = a.drop_last();
    lemma_sorted_drop_last(a);
    assert forall|p: Seq<char>| #[trigger] file_map(d).contains_key(p) == file_map(a).remove(
        a.last().path,
    ).contains_key(p) by {
        if lists(d, p) {
            let k = choose|k: int| 0 <= k < d.len() && #[trigger] d[k].path == p;
            assert(a[k].path == p);
            assert(chars_lt(a[k].path, a.last().path));
            lemma_chars_lt_irreflexive(p);
            assert(lists(a, p));
        }
        if lists(a, p) && p != a.last().path {
            let k = choose|k: int| 0 <= k < a.len() && #[trigger] a[k].path == p;
            assert(k != a.len() - 1);
            assert(d[k].path == p);
            assert(lists(d, p));
        }
    }
    assert forall|p: Seq<char>| #[trigger] file_map(d).contains_key(p) implies file_map(d)[p]
        == file_map(a)[p] by {
        let k = choose|k: int| 0 <= k < d.len() && #[trigger] d[k].path == p;
        lemma_file_map_at(d, k);
        lemma_file_map_at(a, k);
        assert(d[k] == a[k]);
    }
    assert(file_map(d) =~= file_map(a).remove(a.last().path));
}

/// A sorted listing stands for the map that listing it in order gives.
pub proof fn lemma_sorted_map_of_list(a: Seq<FileView>)
    requires
        paths_sorted(a),
    ensures
        map_of_list(a) == file_map(a),
    decreases a.len(),
{
    if a.len() == 0 {
        assert(file_map(a) =~= Map::empty());
    } else {
        lemma_sorted_drop_last(a);
        lemma_sorted_map_of_list(a.drop_last());
        lemma_drop_last_map(a);
        lemma_file_map_at(a, a.len() - 1);
        assert(file_map(a) =~= file_map(a).remove(a.last().path).insert(
            a.last().path,
            entry_of(a.last()),
        ));
    }
}

/// A file of the index as the store keeps it: the path also as characters, for
/// comparisons.
pub struct FileRecord {
    pub path: String,
    pub key: Vec<char>,
    pub mtime_ms: u64,
    pub symbols: Vec<Symbol>,
}

impl FileRecord {
    /// The file as a mathematical value.
    pub open spec fn file_view(&self) -> FileView {
        FileView { path: self.path@, mtime_ms: self.mtime_ms, symbols: symbol_views(self.symbols@) }
    }

    /// The key holds the path's characters.
    pub open spec fn keyed(&self) -> bool {
        self.key@ == self.path@
    }
}

/// The views of a sequence of records.
pub open spec fn record_views(s: Seq<FileRecord>) -> Seq<FileView> {
    s.map_values(|r: FileRecord| r.file_view())
}

/// Records keyed and sorted by path.
pub open spec fn records_ok(s: Seq<FileRecord>) -> bool {
    &&& forall|i: int| 0 <= i < s.len() ==> (#[trigger] s[i]).keyed()
    &&& paths_sorted(record_views(s))
}

/// Where `key` stands among sorted records: `(true, i)` where record `i` has it;
/// `(false, i)` where it would be inserted at `i`.
pub fn locate(records: &Vec<FileRecord>, key: &[char]) -> (r: (bool, usize))
    requires
        records_ok(records@),
    ensures
        r.1 <= records@.len(),
        r.0 ==> r.1 < records@.len() && records@[r.1 as int].path@ == key@,
        !r.0 ==> forall|k: int|
            0 <= k < records@.len() ==> (k < r.1 ==> chars_lt(
                #[trigger] records@[k].path@,
                key@,
            )) && (k >= r.1 ==> chars_lt(key@, records@[k].path@)),
{
    let ghost views = record_views(records@);
    let mut lo: usize = 0;
    let mut hi: usize = records.len();
    while lo < hi
        invariant
            lo <= hi <= records@.len(),
            records_ok(records@),
            views == record_views(records@),
            forall|k: int| 0 <= k < lo ==> chars_lt(#[trigger] records@[k].path@, key@),
            forall|k: int| hi <= k < records@.len() ==> chars_lt(key@, #[trigger] records@[k].path@),
        decreases hi - lo,
    {
        let mid: usize = lo + (hi - lo) / 2;
        assert(records@[mid as int].keyed());
        let rel = compare_chars(records[mid].key.as_slice(), key);
        match rel {
            Relation::Equal => {
                return (true, mid);
            },
            Relation::Less => {
                assert forall|k: int| 0 <= k < mid + 1 implies chars_lt(
                    #[trigger] records@[k].path@,
                    key@,
                ) by {
                    if k < mid {
                        assert(views[k].path == records@[k].path@);
                        assert(views[mid as int].path == records@[mid as int].path@);
                        assert(chars_lt(views[k].path, views[mid as int].path));
                        lemma_chars_lt_transitive(records@[k].path@, records@[mid as int].path@, key@);
                    }
                }
                lo = mid + 1;
            },
            Relation::Greater => {
                assert forall|k: int| mid <= k < records@.len() implies chars_lt(
                    key@,
                    #[trigger] records@[k].path@,
                ) by {
                    if k > mid {
                        assert(views[k].path == records@[k].path@);
                        assert(views[mid as int].path == records@[mid as int].path@);
                        assert(chars_lt(views[mid as int].path, views[k].path));
                        lemma_chars_lt_transitive(key@, records@[mid as int].path@, records@[k].path@);
                    }
                }
                hi = mid;
            },
        }
    }
    (false, lo)
}

/// Replacing the listed file at `pos` by one with the same path keeps the listing
/// sorted and replaces that path's entry.
pub proof fn lemma_update_map(files: Seq<FileView>, pos: int, f: FileView)
    requires
        paths_sorted(files),
        0 <= pos < files.len(),
        files[pos].path == f.path,
    ensures
        paths_sorted(files.update(pos, f)),
        file_map(files.update(pos, f)) == file_map(files).insert(f.path, entry_of(f)),
{
    let u = files.update(pos, f);
    assert forall|i: int, j: int| 0 <= i < j < u.len() implies chars_lt(
        #[trigger] u[i].path,
        #[trigger] u[j].path,
    ) by {
        assert(u[i].path == files[i].path && u[j].path == files[j].path);
    }
    let m = file_map(files).insert(f.path, entry_of(f));
    assert forall|p: Seq<char>| #[trigger] file_map(u).contains_key(p) == m.contains_key(p) by {
        if lists(u, p) {
            let k = choose|k: int| 0 <= k < u.len() && #[trigger] u[k].path == p;
            assert(files[k].path == p);
            assert(lists(files, p));
        }
        if lists(files, p) {
            let k = choose|k: int| 0 <= k < files.len() && #[trigger] files[k].path == p;
            assert(u[k].path == p);
            assert(lists(u, p));
        }
        if p == f.path {
            assert(u[pos].path == p);
        }
    }
    assert forall|p: Seq<char>| #[trigger] file_map(u).contains_key(p) implies file_map(u)[p]
        == m[p] by {
        let k = choose|k: int| 0 <= k < u.len() && #[trigger] u[k].path == p;
        lemma_file_map_at(u, k);
        if k != pos {
            lemma_file_map_at(files, k);
            assert(p != f.path) by {
                if k < pos {
                    assert(chars_lt(files[k].path, files[pos].path));
                } else {
                    assert(chars_lt(files[pos].path, files[k].path));
                }
                lemma_chars_lt_irreflexive(p);
            }
        }
    }
    assert(file_map(u) =~= m);
}

/// Inserting a file at the place its path sorts to keeps the listing sorted and adds
/// its entry.
pub proof fn lemma_insert_map(files: Seq<FileView>, pos: int, f: FileView)
    requires
        paths_sorted(files),
        0 <= pos <= files.len(),
        forall|k: int| 0 <= k < pos ==> chars_lt(#[trigger] files[k].path, f.path),
        forall|k: int| pos <= k < files.len() ==> chars_lt(f.path, #[trigger] files[k].path),
    ensures
        paths_sorted(files.insert(pos, f)),
        file_map(files.insert(pos, f)) == file_map(files).insert(f.path, entry_of(f)),
{
    let u = files.insert(pos, f);
    assert forall|i: int, j: int| 0 <= i < j < u.len() implies chars_lt(
        #[trigger] u[i].path,
        #[trigger] u[j].path,
    ) by {
        if j < pos {
            assert(u[i] == files[i] && u[j] == files[j]);
        } else if j == pos {
            assert(u[i] == files[i]);
        } else if i < pos {
            assert(u[i] == files[i] && u[j] == files[j - 1]);
        } else if i == pos {
            assert(u[j] == files[j - 1]);
        } else {
            assert(u[i] == files[i - 1] && u[j] == files[j - 1]);
        }
    }
    let m = file_map(files).insert(f.path, entry_of(f));
    assert forall|p: Seq<char>| #[trigger] file_map(u).contains_key(p) == m.contains_key(p) by {
        if lists(u, p) {
            let k = choose|k: int| 0 <= k < u.len() && #[trigger] u[k].path == p;
            if k < pos {
                assert(files[k].path == p);
                assert(lists(files, p));
            } else if k > pos {
                assert(files[k - 1].path == p);
                assert(lists(files, p));
            }
        }
        if lists(files, p) {
            let k = choose|k: int| 0 <= k < files.len() && #[trigger] files[k].path == p;
            if k < pos {
                assert(u[k].path == p);
            } else {
                assert(u[k + 1].path == p);
            }
            assert(lists(u, p));
        }
        if p == f.path {
            assert(u[pos].path == p);
        }
    }
    assert forall|p: Seq<char>| #[trigger] file_map(u).contains_key(p) implies file_map(u)[p]
        == m[p] by {
        let k = choose|k: int| 0 <= k < u.len() && #[trigger] u[k].path == p;
        lemma_file_map_at(u, k);
        if k != pos {
            let k0 = if k < pos { k } else { k - 1 };
            assert(u[k] == files[k0]);
            lemma_file_map_at(files, k0);
            assert(p != f.path) by {
                if k0 < pos {
                    assert(chars_lt(files[k0].path, f.path));
                } else {
                    assert(chars_lt(f.path, files[k0].path));
                }
                lemma_chars_lt_irreflexive(p);
            }
        }
    }
    assert(file_map(u) =~= m);
}

/// Removing the listed file at `pos` keeps the listing sorted and drops its path.
pub proof fn lemma_remove_map(files: Seq<FileView>, pos: int)
    requires
        paths_sorted(files),
        0 <= pos < files.len(),
    ensures
        paths_sorted(files.remove(pos)),
        file_map(files.remove(pos)) == file_map(files).remove(files[pos].path),
{
    let u = files.remove(pos);
    let q = files[pos].path;
    assert forall|i: int, j: int| 0 <= i < j < u.len() implies chars_lt(
        #[trigger] u[i].path,
        #[trigger] u[j].path,
    ) by {
        let i0 = if i < pos { i } else { i + 1 };
        let j0 = if j < pos { j } else { j + 1 };
        assert(u[i] == files[i0] && u[j] == files[j0]);
    }
    let m = file_map(files).remove(q);
    assert forall|p: Seq<char>| #[trigger] file_map(u).contains_key(p) == m.contains_key(p) by {
        if lists(u, p) {
            let k = choose|k: int| 0 <= k < u.len() && #[trigger] u[k].path == p;
            let k0 = if k < pos { k } else { k + 1 };
            assert(files[k0].path == p);
            assert(lists(files, p));
            assert(p != q) by {
                if k0 < pos {
                    assert(chars_lt(files[k0].path, q));
                } else {
                    assert(chars_lt(q, files[k0].path));
                }
                lemma_chars_lt_irreflexive(p);
            }
        }
        if lists(files, p) && p != q {
            let k = choose|k: int| 0 <= k < files.len() && #[trigger] files[k].path == p;
            assert(k != pos);
            if k < pos {
                assert(u[k].path == p);
            } else {
                assert(u[k - 1].path == p);
            }
            assert(lists(u, p));
        }
    }
    assert forall|p: Seq<char>| #[trigger] file_map(u).contains_key(p) implies file_map(u)[p]
        == m[p] by {
        let k = choose|k: int| 0 <= k < u.len() && #[trigger] u[k].path == p;
        lemma_file_map_at(u, k);
        let k0 = if k < pos { k } else { k + 1 };
        assert(u[k] == files[k0]);
        lemma_file_map_at(files, k0);
    }
    assert(file_map(u) =~= m);
}

/// A path that no listed file has is not in the map.
pub proof fn lemma_unlisted(files: Seq<FileView>, path: Seq<char>)
    requires
        forall|k: int| 0 <= k < files.len() ==> (#[trigger] files[k]).path != path,
    ensures
        !file_map(files).contains_key(path),
        file_map(files).remove(path) == file_map(files),
{
    assert(file_map(files).remove(path) =~= file_map(files));
}

/// Puts `rec` among sorted records, in place of the record with the same path if
/// there is one.
pub fn upsert_record(records: &mut Vec<FileRecord>, rec: FileRecord)
    requires
        records_ok(old(records)@),
        rec.keyed(),
    ensures
        records_ok(final(records)@),
        file_map(record_views(final(records)@)) == file_map(record_views(old(records)@)).insert(
            rec.path@,
            entry_of(rec.file_view()),
        ),
{
    let (found, pos) = locate(records, rec.key.as_slice());
    let ghost before = records@;
    let ghost f = rec.file_view();
    if found {
        records.set(pos, rec);
        proof {
            assert(record_views(records@) =~= record_views(before).update(pos as int, f));
            lemma_update_map(record_views(before), pos as int, f);
        }
    } else {
        records.insert(pos, rec);
        proof {
            assert(record_views(records@) =~= record_views(before).insert(pos as int, f));
            lemma_insert_map(record_views(before), pos as int, f);
        }
    }
    proof {
        assert forall|i: int| 0 <= i < records@.len() implies (#[trigger] records@[i]).keyed() by {
            if found {
                if i != pos {
                    assert(records@[i] == before[i]);
                }
            } else if i < pos {
                assert(records@[i] == before[i]);
            } else if i > pos {
                assert(records@[i] == before[i - 1]);
            }
        }
    }
}

/// Takes the record for `key` out of sorted records, if there is one, and returns it.
pub fn remove_record(records: &mut Vec<FileRecord>, key: &[char]) -> (r: Option<FileRecord>)
    requires
        records_ok(old(records)@),
    ensures
        records_ok(final(records)@),
        file_map(record_views(final(records)@)) == file_map(record_views(old(records)@)).remove(
            key@,
        ),
        r matches Some(rec) ==> {
            &&& rec.path@ == key@
            &&& file_map(record_views(old(records)@)).contains_key(key@)
            &&& file_map(record_views(old(records)@))[key@] == entry_of(rec.file_view())
        },
        r is None ==> !file_map(record_views(old(records)@)).contains_key(key@),
{
    let (found, pos) = locate(records, key);
    let ghost before = records@;
    if found {
        proof {
            crate::listing::lemma_file_map_at(record_views(before), pos as int);
        }
        let rec = records.remove(pos);
        proof {
            assert(record_views(records@) =~= record_views(before).remove(pos as int));
            lemma_remove_map(record_views(before), pos as int);
            assert forall|i: int| 0 <= i < records@.len() implies (#[trigger] records@[i]).keyed() by {
                if i < pos {
                    assert(records@[i] == before[i]);
                } else {
                    assert(records@[i] == before[i + 1]);
                }
            }
        }
        Some(rec)
    } else {
        proof {
            assert forall|k: int| 0 <= k < record_views(before).len() implies (#[trigger] record_views(
                before,
            )[k]).path != key@ by {
                assert(chars_lt(before[k].path@, key@) || chars_lt(key@, before[k].path@));
                lemma_chars_lt_irreflexive(key@);
            }
            lemma_unlisted(record_views(before), key@);
        }
        None
    }
}

/// Sorted records for a list of files, where a path listed twice keeps its last entry.
pub fn records_from_files(files: Vec<PersistedFile>) -> (r: Vec<FileRecord>)
    ensures
        records_ok(r@),
        file_map(record_views(r@)) == map_of_list(file_views(files@)),
{
    let mut files = files;
    let ghost orig = file_views(files@);
    let n: usize = files.len();
    let mut records: Vec<FileRecord> = Vec::new();
    proof {
        assert(record_views(records@) =~= Seq::<FileView>::empty());
        assert(file_map(record_views(records@)) =~= Map::empty());
        assert(orig.take(0) =~= Seq::<FileView>::empty());
    }
    let mut i: usize = 0;
    while i < n
        invariant
            i <= n,
            n == files@.len(),
            orig.len() == n,
            forall|k: int| i <= k < n ==> (#[trigger] files@[k])@ == orig[k],
            records_ok(records@),
            file_map(record_views(records@)) == map_of_list(orig.take(i as int)),
        decreases n - i,
    {
        let mut f = PersistedFile { path: String::new(), mtime_ms: 0, symbols: Vec::new() };
        files.set_and_swap(i, &mut f);
        assert(f@ == orig[i as int]);
        let key = chars_of(f.path.as_str());
        let PersistedFile { path, mtime_ms, symbols } = f;
        upsert_record(&mut records, FileRecord { path, key, mtime_ms, symbols });
        proof {
            assert(orig.take(i + 1).drop_last() =~= orig.take(i as int));
            assert(orig.take(i + 1).last() == orig[i as int]);
        }
        i = i + 1;
    }
    proof {
        assert(orig.take(n as int) =~= orig);
    }
    records
}

} // verus!
