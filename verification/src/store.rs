//! The in-memory index: a project root and, for each file path, its modification time
//! and symbols, kept in path order.
use vstd::prelude::*;
use crate::listing::{
    FileEntry, FileRecord, file_map, map_of_list, paths_sorted, record_views, records_ok,
    records_from_files, remove_record, upsert_record, lemma_sorted_listing_unique,
    lemma_sorted_map_of_list,
};
use crate::persist::{FileView, PersistedFile, PersistedIndex, PersistedIndexView, file_views, CURRENT_VERSION};
use crate::search::{
    fuzzy_rank, is_fuzzy_ranking, key_texts, matches_at, nucleo_score, space_count, utf8_len,
};
use crate::symbols::{Symbol, SymbolKind, SymbolView, symbol_views, duplicate_symbols};
use crate::text::{chars_of, is_blank, is_blank_spec};

verus! {

/// A symbol found by a query, with the path of its file.
#[derive(Clone, Debug, PartialEq, Eq)]
pub struct SymbolHit {
    pub name: String,
    pub kind: SymbolKind,
    pub path: String,
    pub start_line: usize,
    pub end_line: usize,
}

/// A hit as a mathematical value.
pub struct SymbolHitView {
    pub name: Seq<char>,
    pub kind: SymbolKind,
    pub path: Seq<char>,
    pub start_line: usize,
    pub end_line: usize,
}

impl View for SymbolHit {
    type V = SymbolHitView;

    open spec fn view(&self) -> SymbolHitView {
        SymbolHitView {
            name: self.name@,
            kind: self.kind,
            path: self.path@,
            start_line: self.start_line,
            end_line: self.end_line,
        }
    }
}

/// The views of a sequence of hits.
pub open spec fn hit_views(s: Seq<SymbolHit>) -> Seq<SymbolHitView> {
    s.map_values(|h: SymbolHit| h@)
}

/// What the index holds, in sum.
#[derive(Clone, Debug, PartialEq, Eq)]
pub struct IndexStatus {
    pub root: Option<String>,
    pub file_count: usize,
    pub symbol_count: usize,
}

/// The view of an optional text.
pub open spec fn opt_view(o: Option<String>) -> Option<Seq<char>> {
    match o {
        Some(s) => Some(s@),
        None => None,
    }
}

/// The index as a mathematical value: the root, and the files in ascending path order.
pub struct IndexView {
    pub root: Option<Seq<char>>,
    pub files: Seq<FileView>,
}

/// The index of a project's symbols.
pub struct IndexStore {
    root: Option<String>,
    files: Vec<FileRecord>,
}

impl IndexStore {
    #[verifier::type_invariant]
    spec fn well_formed(self) -> bool {
        records_ok(self.files@)
    }
}

impl View for IndexStore {
    type V = IndexView;

    closed spec fn view(&self) -> IndexView {
        IndexView { root: opt_view(self.root), files: record_views(self.files@) }
    }
}

/// The hit for symbol `s` of the file at `path`.
pub open spec fn hit_of(path: Seq<char>, s: SymbolView) -> SymbolHitView {
    SymbolHitView {
        name: s.name,
        kind: s.kind,
        path,
        start_line: s.start_line,
        end_line: s.end_line,
    }
}

/// The hits for all symbols of one file, in order.
pub open spec fn file_hits(f: FileView) -> Seq<SymbolHitView> {
    f.symbols.map_values(|s: SymbolView| hit_of(f.path, s))
}

/// The hits for all symbols of a listing: file by file, each file's symbols in order.
pub open spec fn listed_hits(files: Seq<FileView>) -> Seq<SymbolHitView>
    decreases files.len(),
{
    if files.len() == 0 {
        Seq::empty()
    } else {
        listed_hits(files.drop_last()) + file_hits(files.last())
    }
}

/// The names of a sequence of hits.
pub open spec fn hit_names(hits: Seq<SymbolHitView>) -> Seq<Seq<char>> {
    hits.map_values(|h: SymbolHitView| h.name)
}

/// Whether `hits` answers `query` with at most `limit` hits over `files`: for a
/// query that is empty once trimmed, the first hits in listing order; otherwise the
/// hits whose names rank best against the query, best first.
pub open spec fn answers_query(
    files: Seq<FileView>,
    query: Seq<char>,
    limit: nat,
    hits: Seq<SymbolHitView>,
) -> bool {
    let all = listed_hits(files);
    if is_blank_spec(query) {
        hits == all.take(if limit < all.len() { limit as int } else { all.len() as int })
    } else {
        exists|r: Seq<usize>|
            is_fuzzy_ranking(query, hit_names(all), limit, r) && hits == r.map_values(
                |k: usize| all[k as int],
            )
    }
}

/// Number of symbols over all files of a listing.
pub open spec fn symbol_total(files: Seq<FileView>) -> nat
    decreases files.len(),
{
    if files.len() == 0 {
        0
    } else {
        symbol_total(files.drop_last()) + files.last().symbols.len()
    }
}

/// Whether `status` reports `v`: its root, its number of files and of symbols.
pub open spec fn reports(status: IndexStatus, v: IndexView) -> bool {
    &&& opt_view(status.root) == v.root
    &&& status.file_count == v.files.len()
    &&& status.symbol_count == symbol_total(v.files)
}

/// Whether `snap` is a snapshot of `v`: version 1, the root or empty text for none,
/// and the same files in the same order.
pub open spec fn is_snapshot_of(snap: PersistedIndexView, v: IndexView) -> bool {
    &&& snap.version == CURRENT_VERSION
    &&& snap.root == match v.root {
        Some(r) => r,
        None => Seq::<char>::empty(),
    }
    &&& snap.files == v.files
}

/// Whether `v` is what loading `snap` gives: no root for empty root text, and for each
/// path the entry of the last file listed with it, in path order.
pub open spec fn is_loaded_from(v: IndexView, snap: PersistedIndexView) -> bool {
    &&& v.root == if snap.root.len() == 0 {
        None::<Seq<char>>
    } else {
        Some(snap.root)
    }
    &&& paths_sorted(v.files)
    &&& file_map(v.files) == map_of_list(snap.files)
}

fn copy_text(o: &Option<String>) -> (r: Option<String>)
    ensures
        opt_view(r) == opt_view(*o),
{
    match o {
        Some(s) => Some(s.clone()),
        None => None,
    }
}

impl Default for IndexStore {
    /// An empty index with no root.
    fn default() -> (r: IndexStore)
        ensures
            r@.root is None,
            r@.files == Seq::<FileView>::empty(),
    {
        let r = IndexStore { root: None, files: Vec::new() };
        proof {
            assert(record_views(r.files@) =~= Seq::<FileView>::empty());
        }
        r
    }
}

impl IndexStore {
    /// Drops the root and every file.
    pub fn clear(&mut self)
        ensures
            final(self)@.root is None,
            final(self)@.files == Seq::<FileView>::empty(),
    {
        proof {
            use_type_invariant(&*self);
        }
        self.root = None;
        self.files = Vec::new();
        proof {
            assert(record_views(self.files@) =~= Seq::<FileView>::empty());
        }
    }

    /// Sets the root, leaving the files as they are.
    pub fn set_root(&mut self, root: Option<String>)
        ensures
            final(self)@.root == opt_view(root),
            final(self)@.files == old(self)@.files,
    {
        proof {
            use_type_invariant(&*self);
        }
        self.root = root;
    }

    /// Records `symbols` and `mtime_ms` for `path`, in place of what was recorded for it.
    pub fn replace_file(&mut self, path: String, mtime_ms: u64, symbols: Vec<Symbol>)
        ensures
            final(self)@.root == old(self)@.root,
            paths_sorted(final(self)@.files),
            file_map(final(self)@.files) == file_map(old(self)@.files).insert(
                path@,
                FileEntry { mtime_ms, symbols: symbol_views(symbols@) },
            ),
    {
        proof {
            use_type_invariant(&*self);
        }
        let key = chars_of(path.as_str());
        let rec = FileRecord { path, key, mtime_ms, symbols };
        let mut files: Vec<FileRecord> = Vec::new();
        std::mem::swap(&mut files, &mut self.files);
        upsert_record(&mut files, rec);
        self.files = files;
    }

    /// Drops what was recorded for `path`.
    pub fn remove_file(&mut self, path: &str)
        ensures
            final(self)@.root == old(self)@.root,
            paths_sorted(final(self)@.files),
            file_map(final(self)@.files) == file_map(old(self)@.files).remove(path@),
    {
        proof {
            use_type_invariant(&*self);
        }
        let key = chars_of(path);
        let mut files: Vec<FileRecord> = Vec::new();
        std::mem::swap(&mut files, &mut self.files);
        let _ = remove_record(&mut files, key.as_slice());
        self.files = files;
    }
}

/// The symbols over a prefix of a listing count no more than over all of it.
proof fn lemma_symbol_total_prefix(files: Seq<FileView>, i: int)
    requires
        0 <= i <= files.len(),
    ensures
        symbol_total(files.take(i)) <= symbol_total(files),
        i < files.len() ==> symbol_total(files.take(i + 1)) == symbol_total(files.take(i))
            + files[i].symbols.len(),
    decreases files.len() - i,
{
    if i < files.len() {
        assert(files.take(i + 1).drop_last() =~= files.take(i));
        lemma_symbol_total_prefix(files, i + 1);
    } else {
        assert(files.take(i) =~= files);
    }
}

/// Adding a file to a prefix of a listing adds its hits.
proof fn lemma_listed_hits_step(files: Seq<FileView>, i: int)
    requires
        0 <= i < files.len(),
    ensures
        listed_hits(files.take(i + 1)) == listed_hits(files.take(i)) + file_hits(files[i]),
{
    assert(files.take(i + 1).drop_last() =~= files.take(i));
    assert(files.take(i + 1).last() == files[i]);
}

/// The hit for symbol `si` of record `fi`.
fn hit_at(records: &Vec<FileRecord>, fi: usize, si: usize) -> (r: SymbolHit)
    requires
        fi < records@.len(),
        si < records@[fi as int].symbols@.len(),
    ensures
        r@ == hit_of(
            records@[fi as int].file_view().path,
            records@[fi as int].file_view().symbols[si as int],
        ),
{
    let rec = &records[fi];
    let s = &rec.symbols[si];
    SymbolHit {
        name: s.name.clone(),
        kind: s.kind,
        path: rec.path.clone(),
        start_line: s.start_line,
        end_line: s.end_line,
    }
}

/// Loading a snapshot taken of an index gives back that index, unless its root was
/// the empty text, which a snapshot cannot tell from no root.
pub proof fn law_snapshot_then_load_restores(
    before: IndexView,
    snap: PersistedIndexView,
    after: IndexView,
)
    requires
        paths_sorted(before.files),
        is_snapshot_of(snap, before),
        is_loaded_from(after, snap),
        before.root != Some(Seq::<char>::empty()),
    ensures
        after == before,
{
    lemma_sorted_map_of_list(before.files);
    lemma_sorted_listing_unique(after.files, before.files);
    match before.root {
        Some(r) => {
            assert(snap.root == r);
            assert(r.len() != 0) by {
                if r.len() == 0 {
                    assert(r =~= Seq::<char>::empty());
                }
            }
        },
        None => {},
    }
    assert(after.root == before.root);
}

/// Taking a snapshot of what a snapshot loads gives that snapshot back, where it has
/// version 1 and its paths ascend strictly.
pub proof fn law_load_then_snapshot_restores(
    snap: PersistedIndexView,
    loaded: IndexView,
    again: PersistedIndexView,
)
    requires
        snap.version == CURRENT_VERSION,
        paths_sorted(snap.files),
        is_loaded_from(loaded, snap),
        is_snapshot_of(again, loaded),
    ensures
        again == snap,
{
    lemma_sorted_map_of_list(snap.files);
    lemma_sorted_listing_unique(loaded.files, snap.files);
    if snap.root.len() == 0 {
        assert(snap.root =~= Seq::<char>::empty());
    }
    assert(again.root == snap.root);
}

/// The hit that stored symbol `j` of file `i` yields: the symbol's name, kind and lines,
/// with the file's path.
pub open spec fn is_hit_for(h: SymbolHitView, f: FileView, j: int) -> bool {
    &&& h.name == f.symbols[j].name
    &&& h.kind == f.symbols[j].kind
    &&& h.path == f.path
    &&& h.start_line == f.symbols[j].start_line
    &&& h.end_line == f.symbols[j].end_line
}

/// Symbol `j` of file `i` is listed at the place that follows the symbols of the files
/// before file `i`, as its own hit.
pub open spec fn listed_at(files: Seq<FileView>, i: int, j: int) -> bool {
    let pos = symbol_total(files.take(i)) + j;
    &&& pos < listed_hits(files).len()
    &&& is_hit_for(listed_hits(files)[pos], files[i], j)
}

/// Every stored symbol, of whatever kind, yields exactly one listed hit: the listing is
/// as long as the number of stored symbols, and symbol `j` of file `i` is listed at the
/// place that follows the symbols of the files before it, carrying its own name, kind
/// and lines and its file's path.
pub proof fn law_every_symbol_listed_once(files: Seq<FileView>)
    ensures
        listed_hits(files).len() == symbol_total(files),
        forall|i: int, j: int|
            #![trigger listed_at(files, i, j)]
            0 <= i < files.len() && 0 <= j < files[i].symbols.len() ==> listed_at(files, i, j),
{
    lemma_listed_len(files);
    assert forall|i: int, j: int|
        #![trigger listed_at(files, i, j)]
        0 <= i < files.len() && 0 <= j < files[i].symbols.len() implies listed_at(
        files,
        i,
        j,
    ) by {
        lemma_listed_at(files, i, j);
    }
}

proof fn lemma_listed_len(files: Seq<FileView>)
    ensures
        listed_hits(files).len() == symbol_total(files),
    decreases files.len(),
{
    if files.len() > 0 {
        lemma_listed_len(files.drop_last());
        assert(file_hits(files.last()).len() == files.last().symbols.len());
    }
}

proof fn lemma_listed_at(files: Seq<FileView>, i: int, j: int)
    requires
        0 <= i < files.len(),
        0 <= j < files[i].symbols.len(),
    ensures
        listed_at(files, i, j),
    decreases files.len(),
{
    let d = files.drop_last();
    let last = files.last();
    lemma_listed_len(files);
    lemma_listed_len(d);
    assert(listed_hits(files) == listed_hits(d) + file_hits(last));
    if i < files.len() - 1 {
        lemma_listed_at(d, i, j);
        assert(files.take(i) =~= d.take(i));
        assert(files[i] == d[i]);
        let pos = symbol_total(d.take(i)) + j;
        assert(pos < listed_hits(d).len());
        assert(listed_hits(files)[pos] == listed_hits(d)[pos]);
    } else {
        assert(files.take(i) =~= d);
        assert(files[i] == last);
        let pos = symbol_total(d) + j;
        assert(file_hits(last).len() == last.symbols.len());
        assert(pos < listed_hits(files).len());
        assert(listed_hits(files)[pos] == file_hits(last)[j]);
        assert(file_hits(last)[j] == hit_of(last.path, last.symbols[j]));
    }
}

proof fn lemma_total_monotone(files: Seq<FileView>, i: int)
    requires
        0 <= i <= files.len(),
    ensures
        symbol_total(files.take(i)) <= symbol_total(files),
{
    lemma_symbol_total_prefix(files, i);
}

/// A query whose answer is not cut by its limit lists every stored symbol whose name
/// the query matches, whatever the symbol's kind; a blank query then lists every stored
/// symbol.
pub proof fn law_uncut_query_lists_every_match(
    files: Seq<FileView>,
    query: Seq<char>,
    limit: nat,
    hits: Seq<SymbolHitView>,
    i: int,
    j: int,
)
    requires
        answers_query(files, query, limit, hits),
        hits.len() < limit,
        symbol_total(files) <= usize::MAX,
        0 <= i < files.len(),
        0 <= j < files[i].symbols.len(),
        is_blank_spec(query) || nucleo_score(query, files[i].symbols[j].name) is Some,
    ensures
        exists|k: int| 0 <= k < hits.len() && is_hit_for(#[trigger] hits[k], files[i], j),
{
    law_every_symbol_listed_once(files);
    let all = listed_hits(files);
    let pos = symbol_total(files.take(i)) + j;
    assert(listed_at(files, i, j));
    assert(is_hit_for(all[pos], files[i], j));
    if is_blank_spec(query) {
        assert(hits == all.take(if limit < all.len() { limit as int } else { all.len() as int }));
        assert(hits[pos] == all[pos]);
    } else {
        let r = choose|r: Seq<usize>|
            is_fuzzy_ranking(query, hit_names(all), limit, r) && hits == r.map_values(
                |k: usize| all[k as int],
            );
        assert(hit_names(all)[pos] == all[pos].name);
        assert(matches_at(query, hit_names(all), pos));
        assert(r.len() < limit);
        assert(r.contains(pos as usize));
        let k = choose|k: int| 0 <= k < r.len() && r[k] == pos as usize;
        assert(hits[k] == all[pos]);
    }
}

/// A query never returns more hits than its limit.
pub proof fn law_query_within_limit(
    files: Seq<FileView>,
    query: Seq<char>,
    limit: nat,
    hits: Seq<SymbolHitView>,
)
    requires
        answers_query(files, query, limit, hits),
    ensures
        hits.len() <= limit,
{
    if !is_blank_spec(query) {
        let all = listed_hits(files);
        let r = choose|r: Seq<usize>|
            is_fuzzy_ranking(query, hit_names(all), limit, r) && hits == r.map_values(
                |k: usize| all[k as int],
            );
        assert(hits.len() == r.len());
    }
}

/// An index without files answers every query with no hits.
pub proof fn law_empty_index_has_no_hits(query: Seq<char>, limit: nat, hits: Seq<SymbolHitView>)
    requires
        answers_query(Seq::<FileView>::empty(), query, limit, hits),
    ensures
        hits.len() == 0,
{
    let all = listed_hits(Seq::<FileView>::empty());
    assert(all.len() == 0);
    if !is_blank_spec(query) {
        let r = choose|r: Seq<usize>|
            is_fuzzy_ranking(query, hit_names(all), limit, r) && hits == r.map_values(
                |k: usize| all[k as int],
            );
        if r.len() > 0 {
            assert(crate::search::matches_at(query, hit_names(all), r[0] as int));
        }
        assert(hits.len() == r.len());
    }
}

impl IndexStore {
    /// The root, the number of files and the number of symbols over all files.
    pub fn status(&self) -> (r: IndexStatus)
        requires
            symbol_total(self@.files) <= usize::MAX,
        ensures
            reports(r, self@),
            paths_sorted(self@.files),
    {
        proof {
            use_type_invariant(self);
        }
        let ghost files = self@.files;
        let mut total: usize = 0;
        let mut i: usize = 0;
        while i < self.files.len()
            invariant
                i <= self.files@.len(),
                files == record_views(self.files@),
                symbol_total(files) <= usize::MAX,
                total == symbol_total(files.take(i as int)),
            decreases self.files.len() - i,
        {
            proof {
                lemma_symbol_total_prefix(files, i as int);
                lemma_symbol_total_prefix(files, i + 1);
            }
            total = total + self.files[i].symbols.len();
            i = i + 1;
        }
        proof {
            assert(files.take(i as int) =~= files);
        }
        IndexStatus { root: copy_text(&self.root), file_count: self.files.len(), symbol_count: total }
    }

    /// A snapshot of the index: version 1, the root (empty text for none), and the
    /// files in path order.
    pub fn snapshot(&self) -> (r: PersistedIndex)
        ensures
            is_snapshot_of(r@, self@),
            paths_sorted(self@.files),
    {
        proof {
            use_type_invariant(self);
        }
        let mut files: Vec<PersistedFile> = Vec::new();
        let mut i: usize = 0;
        while i < self.files.len()
            invariant
                i <= self.files@.len(),
                file_views(files@) =~= record_views(self.files@).take(i as int),
            decreases self.files.len() - i,
        {
            let rec = &self.files[i];
            let f = PersistedFile {
                path: rec.path.clone(),
                mtime_ms: rec.mtime_ms,
                symbols: duplicate_symbols(&rec.symbols),
            };
            let ghost fv = f@;
            let ghost before = files@;
            assert(fv == record_views(self.files@)[i as int]);
            files.push(f);
            proof {
                assert(file_views(files@) =~= file_views(before).push(fv));
                assert(record_views(self.files@).take(i + 1) =~= record_views(self.files@).take(
                    i as int,
                ).push(fv));
            }
            i = i + 1;
        }
        let root = match &self.root {
            Some(r) => r.clone(),
            None => String::new(),
        };
        proof {
            assert(record_views(self.files@).take(i as int) =~= record_views(self.files@));
        }
        PersistedIndex { version: CURRENT_VERSION, root, files }
    }

    /// Replaces the whole index with a snapshot: empty root text becomes no root, and a
    /// path listed twice keeps its last entry.
    pub fn load_snapshot(&mut self, index: PersistedIndex)
        ensures
            is_loaded_from(final(self)@, index@),
    {
        proof {
            use_type_invariant(&*self);
        }
        let PersistedIndex { version: _, root, files } = index;
        let records = records_from_files(files);
        let new_root = if root.as_str().is_empty() {
            None
        } else {
            Some(root)
        };
        self.root = new_root;
        self.files = records;
    }

    /// The hits for `query`, at most `limit` of them. A query that is empty once trimmed
    /// lists symbols file by file in path order; any other ranks the symbols' names
    /// against it with `fuzzy_rank`. The bounds in `requires` (at most 65536 spaces in
    /// the query, names of at most `u32::MAX` bytes) are those within which the matcher
    /// neither panics nor overflows.
    pub fn query(&self, query: &str, limit: usize) -> (r: Vec<SymbolHit>)
        requires
            !is_blank_spec(query@) ==> space_count(query@) <= 65536,
            !is_blank_spec(query@) ==> forall|k: int|
                0 <= k < listed_hits(self@.files).len() ==> utf8_len(
                    (#[trigger] listed_hits(self@.files)[k]).name,
                ) <= u32::MAX,
        ensures
            answers_query(self@.files, query@, limit as nat, hit_views(r@)),
            paths_sorted(self@.files),
    {
        proof {
            use_type_invariant(self);
        }
        let ghost files = self@.files;
        let ghost all = listed_hits(files);
        let mut slots: Vec<(usize, usize)> = Vec::new();
        let mut names: Vec<&str> = Vec::new();
        let mut i: usize = 0;
        proof {
            assert(files.take(0) =~= Seq::<FileView>::empty());
        }
        while i < self.files.len()
            invariant
                i <= self.files@.len(),
                files == record_views(self.files@),
                slots@.len() == names@.len(),
                slots@.len() == listed_hits(files.take(i as int)).len(),
                forall|k: int|
                    #![trigger slots@[k]]
                    0 <= k < slots@.len() ==> {
                        let sl = slots@[k];
                        &&& sl.0 < self.files@.len()
                        &&& sl.1 < self.files@[sl.0 as int].symbols@.len()
                        &&& hit_of(files[sl.0 as int].path, files[sl.0 as int].symbols[sl.1 as int])
                            == listed_hits(files.take(i as int))[k]
                        &&& names@[k]@ == listed_hits(files.take(i as int))[k].name
                    },
            decreases self.files.len() - i,
        {
            let rec = &self.files[i];
            let ghost base = listed_hits(files.take(i as int));
            let ghost fh = file_hits(files[i as int]);
            assert(files[i as int] == rec.file_view());
            let mut j: usize = 0;
            while j < rec.symbols.len()
                invariant
                    i < self.files@.len(),
                    *rec == self.files@[i as int],
                    files == record_views(self.files@),
                    base == listed_hits(files.take(i as int)),
                    fh == file_hits(files[i as int]),
                    fh.len() == rec.symbols@.len(),
                    j <= rec.symbols@.len(),
                    slots@.len() == names@.len(),
                    slots@.len() == base.len() + j,
                    forall|k: int|
                        #![trigger slots@[k]]
                        0 <= k < slots@.len() ==> {
                            let sl = slots@[k];
                            &&& sl.0 < self.files@.len()
                            &&& sl.1 < self.files@[sl.0 as int].symbols@.len()
                            &&& hit_of(
                                files[sl.0 as int].path,
                                files[sl.0 as int].symbols[sl.1 as int],
                            ) == (base + fh.take(j as int))[k]
                            &&& names@[k]@ == (base + fh.take(j as int))[k].name
                        },
                decreases rec.symbols.len() - j,
            {
                let ghost old_slots = slots@;
                let ghost old_names = names@;
                slots.push((i, j));
                names.push(rec.symbols[j].name.as_str());
                proof {
                    assert(base + fh.take(j + 1) =~= (base + fh.take(j as int)).push(fh[j as int]));
                    assert(fh[j as int] == hit_of(files[i as int].path, files[i as int].symbols[j as int]));
                    assert forall|k: int| 0 <= k < slots@.len() implies {
                        let sl = #[trigger] slots@[k];
                        &&& sl.0 < self.files@.len()
                        &&& sl.1 < self.files@[sl.0 as int].symbols@.len()
                        &&& hit_of(files[sl.0 as int].path, files[sl.0 as int].symbols[sl.1 as int])
                            == (base + fh.take(j + 1))[k]
                        &&& names@[k]@ == (base + fh.take(j + 1))[k].name
                    } by {
                        if k < slots@.len() - 1 {
                            assert(slots@[k] == old_slots[k]);
                            assert(names@[k] == old_names[k]);
                        }
                    }
                }
                j = j + 1;
            }
            proof {
                assert(fh.take(j as int) =~= fh);
                lemma_listed_hits_step(files, i as int);
            }
            i = i + 1;
        }
        proof {
            assert(files.take(i as int) =~= files);
            assert forall|k: int| 0 <= k < names@.len() implies #[trigger] key_texts(names@)[k]
                == hit_names(all)[k] by {
                assert(slots@[k] == slots@[k]);
            }
            assert(key_texts(names@) =~= hit_names(all));
            if !is_blank_spec(query@) {
                assert forall|k: int| 0 <= k < names@.len() implies utf8_len(
                    (#[trigger] names@[k])@,
                ) <= u32::MAX by {
                    assert(slots@[k] == slots@[k]);
                    assert(listed_hits(self@.files)[k] == all[k]);
                }
            }
        }
        let mut out: Vec<SymbolHit> = Vec::new();
        if is_blank(query) {
            let n: usize = if limit < slots.len() {
                limit
            } else {
                slots.len()
            };
            let mut k: usize = 0;
            while k < n
                invariant
                    k <= n,
                    n <= slots@.len(),
                    slots@.len() == all.len(),
                    files == record_views(self.files@),
                    forall|m: int|
                        #![trigger slots@[m]]
                        0 <= m < slots@.len() ==> {
                            let sl = slots@[m];
                            &&& sl.0 < self.files@.len()
                            &&& sl.1 < self.files@[sl.0 as int].symbols@.len()
                            &&& hit_of(
                                files[sl.0 as int].path,
                                files[sl.0 as int].symbols[sl.1 as int],
                            ) == all[m]
                        },
                    hit_views(out@) =~= all.take(k as int),
                decreases n - k,
            {
                let sl = slots[k];
                let h = hit_at(&self.files, sl.0, sl.1);
                out.push(h);
                proof {
                    assert(all.take(k + 1) =~= all.take(k as int).push(all[k as int]));
                }
                k = k + 1;
            }
        } else {
            let ranked = fuzzy_rank(query, names.as_slice(), limit);
            let mut k: usize = 0;
            while k < ranked.len()
                invariant
                    k <= ranked@.len(),
                    slots@.len() == all.len(),
                    files == record_views(self.files@),
                    is_fuzzy_ranking(query@, hit_names(all), limit as nat, ranked@),
                    forall|m: int|
                        #![trigger slots@[m]]
                        0 <= m < slots@.len() ==> {
                            let sl = slots@[m];
                            &&& sl.0 < self.files@.len()
                            &&& sl.1 < self.files@[sl.0 as int].symbols@.len()
                            &&& hit_of(
                                files[sl.0 as int].path,
                                files[sl.0 as int].symbols[sl.1 as int],
                            ) == all[m]
                        },
                    hit_views(out@) =~= ranked@.take(k as int).map_values(|x: usize| all[x as int]),
                decreases ranked.len() - k,
            {
                let idx: usize = ranked[k];
                assert(0 <= idx < hit_names(all).len());
                let sl = slots[idx];
                let h = hit_at(&self.files, sl.0, sl.1);
                assert(h@ == all[idx as int]);
                let ghost before = out@;
                out.push(h);
                proof {
                    assert(ranked@.take(k + 1) =~= ranked@.take(k as int).push(idx));
                    assert(hit_views(out@) =~= hit_views(before).push(all[idx as int]));
                    assert(ranked@.take(k + 1).map_values(|x: usize| all[x as int]) =~= ranked@.take(
                        k as int,
                    ).map_values(|x: usize| all[x as int]).push(all[idx as int]));
                }
                k = k + 1;
            }
            proof {
                assert(ranked@.take(k as int) =~= ranked@);
                assert(hit_views(out@) == ranked@.map_values(|x: usize| all[x as int]));
            }
        }
        out
    }
}

} // verus!
