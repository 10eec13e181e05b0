//! The rules that indexing a project follows: which files are indexed, which
//! directories the walk skips, when a cached entry may stand in for a fresh parse,
//! how often progress is reported, and the limits of a symbol query.
use vstd::prelude::*;
use crate::listing::{
    FileEntry, FileRecord, entry_of, file_map, map_of_list, record_views, records_ok,
    records_from_files, remove_record,
};
use crate::persist::{PersistedFile, PersistedIndex, crc32, crc32_of};
use crate::symbols::{extract_symbols, typescript_symbols, SymbolView};
use crate::syntax::ts_parses;
use crate::listing::paths_sorted;
use crate::store::{
    IndexStatus, IndexStore, SymbolHit, answers_query, hit_views, listed_hits, reports, symbol_total,
};
use crate::search::{space_count, utf8_len};
use crate::text::{chars_of, is_blank_spec, str_eq};

verus! {

/// The extension of the last component of `path`, as `std::path::Path::extension`
/// gives it: `None` where there is no file name, the name has no dot, or its only
/// dot leads it.
pub uninterp spec fn path_extension(path: Seq<char>) -> Option<Seq<char>>;

/// Calls `std::path::Path::extension` on `path`.
#[verifier::external_body]
fn extension_of(path: &str) -> (r: Option<String>)
    ensures
        r matches Some(e) ==> path_extension(path@) == Some(e@),
        r is None ==> path_extension(path@) is None,
{
    std::path::Path::new(path).extension().and_then(|e| e.to_str()).map(|e| e.to_string())
}

/// Whether a path names a file the index parses: a TypeScript file, `.ts`, `.mts` or
/// `.cts` (not `.tsx`).
pub open spec fn indexable(path: Seq<char>) -> bool {
    match path_extension(path) {
        Some(e) => e == "ts"@ || e == "mts"@ || e == "cts"@,
        None => false,
    }
}

/// Whether the file at `path` is one the index parses.
pub fn is_indexable(path: &str) -> (r: bool)
    ensures
        r == indexable(path@),
{
    match extension_of(path) {
        Some(e) => str_eq(e.as_str(), "ts") || str_eq(e.as_str(), "mts") || str_eq(e.as_str(), "cts"),
        None => false,
    }
}

/// Names of directories that the walk over a project does not enter.
pub open spec fn pruned_dir(name: Seq<char>) -> bool {
    ||| name == "node_modules"@
    ||| name == ".git"@
    ||| name == "target"@
    ||| name == "dist"@
    ||| name == "build"@
    ||| name == ".next"@
    ||| name == ".turbo"@
    ||| name == ".cache"@
    ||| name == ".venv"@
    ||| name == "__pycache__"@
}

/// The names of the directories that the walk over a project does not enter.
pub open spec fn pruned_names() -> Set<Seq<char>> {
    set![
        "node_modules"@,
        ".git"@,
        "target"@,
        "dist"@,
        "build"@,
        ".next"@,
        ".turbo"@,
        ".cache"@,
        ".venv"@,
        "__pycache__"@,
    ]
}

/// The walk skips exactly the directories named node_modules, .git, target, dist,
/// build, .next, .turbo, .cache, .venv and __pycache__, and enters every other.
pub proof fn law_pruned_names_are_the_listed_ten(name: Seq<char>)
    ensures
        pruned_dir(name) <==> pruned_names().contains(name),
{
}

/// Whether the walk over a project skips a directory named `name`.
pub fn is_pruned_dir_name(name: &str) -> (r: bool)
    ensures
        r == pruned_dir(name@),
        r <==> pruned_names().contains(name@),
{
    str_eq(name, "node_modules") || str_eq(name, ".git") || str_eq(name, "target") || str_eq(
        name,
        "dist",
    ) || str_eq(name, "build") || str_eq(name, ".next") || str_eq(name, ".turbo") || str_eq(
        name,
        ".cache",
    ) || str_eq(name, ".venv") || str_eq(name, "__pycache__")
}

/// Whether progress is reported after `indexed` of `total` files, the last report
/// having been made at `last_emit`: at the end, and at least every 50 files.
pub fn progress_due(indexed: usize, total: usize, last_emit: usize) -> (r: bool)
    requires
        last_emit <= indexed,
    ensures
        r == (indexed == total || indexed - last_emit >= 50),
{
    indexed == total || indexed - last_emit >= 50
}

/// The number of hits a symbol query returns: 50 unless asked, and never over 500.
pub open spec fn query_limit(limit: Option<usize>) -> usize {
    let l = match limit {
        Some(l) => l,
        None => 50,
    };
    if l < 500 {
        l
    } else {
        500
    }
}

/// The hits for `query` from `store`, `limit` of them by default 50 and at most 500.
pub fn query_symbols(query: &str, limit: Option<usize>, store: &IndexStore) -> (r: Vec<SymbolHit>)
    requires
        !is_blank_spec(query@) ==> space_count(query@) <= 65536,
        !is_blank_spec(query@) ==> forall|k: int|
            0 <= k < listed_hits(store@.files).len() ==> utf8_len(
                (#[trigger] listed_hits(store@.files)[k]).name,
            ) <= u32::MAX,
    ensures
        answers_query(store@.files, query@, query_limit(limit) as nat, hit_views(r@)),
{
    let wanted: usize = match limit {
        Some(l) => l,
        None => 50,
    };
    let capped: usize = if wanted < 500 {
        wanted
    } else {
        500
    };
    store.query(query, capped)
}

/// Whether `query` is within the bound that `IndexStore::query` and `query_symbols` ask
/// of a query: blank, or with at most 65536 spaces.
pub fn query_within_bounds(query: &str) -> (r: bool)
    ensures
        r == (is_blank_spec(query@) || space_count(query@) <= 65536),
{
    crate::text::is_blank(query) || crate::search::count_spaces(query) <= 65536
}

/// What `store` holds, in sum.
pub fn index_status(store: &IndexStore) -> (r: IndexStatus)
    requires
        symbol_total(store@.files) <= usize::MAX,
    ensures
        reports(r, store@),
{
    store.status()
}

/// The entries of a loaded cache that have not yet been matched against the files of a
/// project, by path.
pub struct CachedFiles {
    records: Vec<FileRecord>,
}

impl CachedFiles {
    #[verifier::type_invariant]
    spec fn well_formed(self) -> bool {
        records_ok(self.records@)
    }

    /// The entries still waiting, by path.
    pub closed spec fn entries(&self) -> Map<Seq<char>, FileEntry> {
        file_map(record_views(self.records@))
    }

    /// The entries of `files`; a path listed twice keeps its last entry.
    pub fn new(files: Vec<PersistedFile>) -> (r: CachedFiles)
        ensures
            r.entries() == map_of_list(crate::persist::file_views(files@)),
    {
        CachedFiles { records: records_from_files(files) }
    }

    /// Takes the entry for `path` out of the cache, and hands it back where it is at
    /// least as recent as `current_mtime_ms`, the file's modification time now: such
    /// an entry stands for the file without parsing it again. Where the time now is
    /// unknown (`None`), the file counts as newer and no entry is handed back.
    pub fn take_if_fresh(&mut self, path: &str, current_mtime_ms: Option<u64>) -> (r: Option<
        PersistedFile,
    >)
        ensures
            final(self).entries() == old(self).entries().remove(path@),
            r matches Some(f) ==> {
                &&& f@.path == path@
                &&& old(self).entries().contains_key(path@)
                &&& old(self).entries()[path@] == entry_of(f@)
            },
            r is Some == fresh(old(self).entries(), path@, current_mtime_ms),
            r is Some <==> (old(self).entries().contains_key(path@)
                && current_mtime_ms is Some && old(self).entries()[path@].mtime_ms
                >= current_mtime_ms->0),
    {
        proof {
            use_type_invariant(&*self);
        }
        let key = chars_of(path);
        let mut records: Vec<FileRecord> = Vec::new();
        std::mem::swap(&mut records, &mut self.records);
        let taken = remove_record(&mut records, key.as_slice());
        self.records = records;
        match (taken, current_mtime_ms) {
            (Some(rec), Some(now)) => {
                if rec.mtime_ms >= now {
                    let FileRecord { path, key: _, mtime_ms, symbols } = rec;
                    Some(PersistedFile { path, mtime_ms, symbols })
                } else {
                    None
                }
            },
            _ => None,
        }
    }
}

/// Whether the cached entry for `path` may stand for the file, whose modification time
/// is `now` where known: there is one, the time is known, and the entry is at least
/// as recent.
pub open spec fn fresh(entries: Map<Seq<char>, FileEntry>, path: Seq<char>, now: Option<u64>) -> bool {
    entries.contains_key(path) && now is Some && entries[path].mtime_ms >= now->0
}

/// A cached entry stands for a file exactly when the file's modification time is known
/// and the entry is at least as recent: with an unknown time never, and whatever
/// symbols the entry holds, an entry older than the file never does.
pub proof fn law_fresh_exactly_when_not_older(
    entries: Map<Seq<char>, FileEntry>,
    path: Seq<char>,
    now: u64,
)
    ensures
        !fresh(entries, path, None),
        fresh(entries, path, Some(now)) <==> (entries.contains_key(path)
            && entries[path].mtime_ms >= now),
        entries.contains_key(path) && entries[path].mtime_ms < now ==> !fresh(
            entries,
            path,
            Some(now),
        ),
{
}

/// Whether an entry is fresh depends only on modification times: two caches with the
/// same paths and the same times agree on it, whatever symbols their entries hold.
pub proof fn law_freshness_ignores_symbols(
    a: Map<Seq<char>, FileEntry>,
    b: Map<Seq<char>, FileEntry>,
    path: Seq<char>,
    now: Option<u64>,
)
    requires
        a.dom() == b.dom(),
        forall|k: Seq<char>| #[trigger] a.contains_key(k) ==> a[k].mtime_ms == b[k].mtime_ms,
    ensures
        fresh(a, path, now) == fresh(b, path, now),
{
}

/// One file of a reconcile: the cached entry for `key` goes into `store` where it is
/// fresh, and the result says so; otherwise the store is left as it is and the caller
/// reads the file and records it with `record_source`.
pub fn reconcile_file(
    cache: &mut CachedFiles,
    store: &mut IndexStore,
    key: String,
    current_mtime_ms: Option<u64>,
) -> (reused: bool)
    ensures
        final(cache).entries() == old(cache).entries().remove(key@),
        reused == fresh(old(cache).entries(), key@, current_mtime_ms),
        reused <==> (old(cache).entries().contains_key(key@) && current_mtime_ms is Some
            && old(cache).entries()[key@].mtime_ms >= current_mtime_ms->0),
        final(store)@.root == old(store)@.root,
        reused ==> paths_sorted(final(store)@.files),
        reused ==> file_map(final(store)@.files) == file_map(old(store)@.files).insert(
            key@,
            old(cache).entries()[key@],
        ),
        !reused ==> final(store)@ == old(store)@,
{
    match cache.take_if_fresh(key.as_str(), current_mtime_ms) {
        Some(entry) => {
            let PersistedFile { path: _, mtime_ms, symbols } = entry;
            store.replace_file(key, mtime_ms, symbols);
            true
        },
        None => {
            false
        },
    }
}

/// The cache to reconcile a project against: the loaded snapshot's entries where there
/// is one and it was taken of the same root, else `None`, and the project is indexed
/// from scratch.
pub fn plan_reconcile(loaded: Option<PersistedIndex>, canon_root: &str) -> (r: Option<CachedFiles>)
    ensures
        r matches Some(c) ==> loaded matches Some(l) && l.root@ == canon_root@ && c.entries()
            == map_of_list(l@.files),
        r is None ==> !(loaded matches Some(l) && l.root@ == canon_root@),
{
    match loaded {
        Some(l) => {
            if str_eq(l.root.as_str(), canon_root) {
                let PersistedIndex { version: _, root: _, files } = l;
                Some(CachedFiles::new(files))
            } else {
                None
            }
        },
        None => None,
    }
}

/// The modification time the index records for a file: 0 where it is unknown, so that
/// the next reconcile parses the file again.
pub open spec fn recorded_mtime(mtime_ms: Option<u64>) -> u64 {
    match mtime_ms {
        Some(t) => t,
        None => 0,
    }
}

/// The entry that reading a file gives the index: its recorded modification time and
/// the symbols of its text (none where tree-sitter gives no tree).
pub open spec fn read_entry(mtime_ms: Option<u64>, source: Seq<char>) -> FileEntry {
    FileEntry {
        mtime_ms: recorded_mtime(mtime_ms),
        symbols: if ts_parses(source) {
            typescript_symbols(source)
        } else {
            Seq::<SymbolView>::empty()
        },
    }
}

/// Records the file keyed `key`, read with text `source` and modification time
/// `mtime_ms` where known, in place of what was recorded for it.
pub fn record_source(store: &mut IndexStore, key: String, mtime_ms: Option<u64>, source: &str)
    ensures
        final(store)@.root == old(store)@.root,
        paths_sorted(final(store)@.files),
        file_map(final(store)@.files) == file_map(old(store)@.files).insert(
            key@,
            read_entry(mtime_ms, source@),
        ),
{
    let symbols = extract_symbols(source);
    proof {
        if !ts_parses(source@) {
            assert(crate::symbols::symbol_views(symbols@) =~= Seq::<SymbolView>::empty());
        }
    }
    let recorded: u64 = match mtime_ms {
        Some(t) => t,
        None => 0,
    };
    store.replace_file(key, recorded, symbols);
}

/// Brings the index up to date with a changed file at `path`, keyed `key`. A file the
/// index does not parse changes nothing. Where it could be read (`Some` with its
/// modification time where known, and its text) it is recorded anew; where it could not,
/// it is dropped.
pub fn apply_change(
    store: &mut IndexStore,
    path: &str,
    key: String,
    read: Option<(Option<u64>, String)>,
)
    ensures
        !indexable(path@) ==> final(store)@ == old(store)@,
        final(store)@.root == old(store)@.root,
        indexable(path@) ==> paths_sorted(final(store)@.files),
        indexable(path@) ==> match read {
            Some((mtime_ms, source)) => file_map(final(store)@.files) == file_map(
                old(store)@.files,
            ).insert(key@, read_entry(mtime_ms, source@)),
            None => file_map(final(store)@.files) == file_map(old(store)@.files).remove(key@),
        },
{
    if !is_indexable(path) {
        return;
    }
    match read {
        Some((mtime_ms, source)) => {
            record_source(store, key, mtime_ms, source.as_str());
        },
        None => {
            store.remove_file(key.as_str());
        },
    }
}

/// Calls `String::push`.
#[verifier::external_body]
fn push_char(s: &mut String, c: char)
    ensures
        final(s)@ == old(s)@.push(c),
{
    s.push(c);
}

/// The sixteen hexadecimal digits, lower case.
pub open spec fn hex_digits() -> Seq<char> {
    seq!['0', '1', '2', '3', '4', '5', '6', '7', '8', '9', 'a', 'b', 'c', 'd', 'e', 'f']
}

/// The last `n` hexadecimal digits of `x`, most significant first.
pub open spec fn hex_low(x: nat, n: nat) -> Seq<char>
    decreases n,
{
    if n == 0 {
        Seq::empty()
    } else {
        hex_low(x / 16, (n - 1) as nat).push(hex_digits()[(x % 16) as int])
    }
}

const HEX: [char; 16] = ['0', '1', '2', '3', '4', '5', '6', '7', '8', '9', 'a', 'b', 'c', 'd', 'e', 'f'];

fn hex_digits_of(x: u32, n: usize) -> (r: Vec<char>)
    ensures
        r@ == hex_low(x as nat, n as nat),
    decreases n,
{
    if n == 0 {
        Vec::new()
    } else {
        let mut r = hex_digits_of(x / 16, n - 1);
        proof {
            assert(HEX@ =~= hex_digits());
        }
        r.push(HEX[(x % 16) as usize]);
        r
    }
}

/// The last component of `path`, as `std::path::Path::file_name` gives it: `None`
/// where the path ends in `..` or has no components.
pub uninterp spec fn path_file_name(path: Seq<char>) -> Option<Seq<char>>;

/// Calls `std::path::Path::file_name` on `path`.
#[verifier::external_body]
fn file_name_of(path: &str) -> (r: Option<String>)
    ensures
        r matches Some(n) ==> path_file_name(path@) == Some(n@),
        r is None ==> path_file_name(path@) is None,
{
    std::path::Path::new(path).file_name().and_then(|n| n.to_str()).map(|n| n.to_string())
}

/// The name of the cache file for the project at `canon_root`: the root's last
/// component (`root` where it has none), a hyphen, the CRC-32 of the root path's UTF-8
/// bytes in eight lower-case hexadecimal digits, and `.kenidx`.
pub open spec fn cache_file_name_spec(canon_root: Seq<char>) -> Seq<char> {
    let name = match path_file_name(canon_root) {
        Some(n) => n,
        None => "root"@,
    };
    name + "-"@ + hex_low(crc32_of(vstd::utf8::encode_utf8(canon_root)) as nat, 8) + ".kenidx"@
}

/// The name of the cache file for the project whose canonical root path is
/// `canon_root`.
pub fn cache_file_name(canon_root: &str) -> (r: String)
    ensures
        r@ == cache_file_name_spec(canon_root@),
{
    let sum = crc32(canon_root.as_bytes());
    let digits = hex_digits_of(sum, 8);
    let mut name = match file_name_of(canon_root) {
        Some(n) => n,
        None => "root".to_owned(),
    };
    name.append("-");
    let ghost base = name@;
    let mut i: usize = 0;
    while i < digits.len()
        invariant
            i <= digits@.len(),
            name@ == base + digits@.take(i as int),
        decreases digits.len() - i,
    {
        push_char(&mut name, digits[i]);
        proof {
            assert(digits@.take(i + 1) =~= digits@.take(i as int).push(digits@[i as int]));
            assert(base + digits@.take(i + 1) =~= (base + digits@.take(i as int)).push(digits@[i as int]));
        }
        i = i + 1;
    }
    proof {
        assert(digits@.take(i as int) =~= digits@);
    }
    name.append(".kenidx");
    name
}

} // verus!
