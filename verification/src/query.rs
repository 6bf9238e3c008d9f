//! The queries over an index: which files a path filter selects, and the
//! symbol listing with its name, kind and file filters.
use vstd::prelude::*;
use crate::index::{
    glob_match_chars, glob_matches, kind_at_rank, kind_name, kind_rank, lemma_kind_rank, priority_of, symbol_priority, FileEntry, Index, Symbol,
    SymbolKind,
};
use crate::pagination::{page_of, paginate, Paginated, Pagination};
use crate::path::{
    components, display_chars, forward_slashes, rel_form, rel_form_chars, is_same_path, path_components, path_starts_with,
    same_path, starts_with_path, views,
};
use crate::sort::{
    key_order, key_value, lemma_is_sort_by, sort_items, sorted_by_key, KeyPart, Keyed, PartValue,
};
use crate::text::{chars_of, compare_chars, string_from, Cmp};

verus! {

broadcast use vstd::seq_lib::group_to_multiset_ensures;

/// Why a query refused its path filter.
pub enum QueryError {
    /// `cx: no indexed files under PATH`
    NoIndexedFilesUnder(String),
    /// `cx: unsupported file type: .EXT`
    UnsupportedFileType(String),
    /// `cx: file not in index: PATH`
    NotInIndex(String),
}

/// The mathematical value of a `QueryError`.
pub enum QueryErrorView {
    NoIndexedFilesUnder(Seq<char>),
    UnsupportedFileType(Seq<char>),
    NotInIndex(Seq<char>),
}

impl View for QueryError {
    type V = QueryErrorView;

    open spec fn view(&self) -> QueryErrorView {
        match self {
            QueryError::NoIndexedFilesUnder(p) => QueryErrorView::NoIndexedFilesUnder(p@),
            QueryError::UnsupportedFileType(e) => QueryErrorView::UnsupportedFileType(e@),
            QueryError::NotInIndex(p) => QueryErrorView::NotInIndex(p@),
        }
    }
}

/// A path filter, relative to the project root, with what the file system
/// says of it.
pub struct FileFilter {
    /// The filter path relative to the root (see `path::make_relative`).
    pub rel: String,
    /// The path names a directory.
    pub is_dir: bool,
    /// The path names an existing file of no supported language, with this
    /// extension (`(none)` when it has none).
    pub unsupported_ext: Option<String>,
}

/// The first entry whose path is the given path.
pub open spec fn first_same_path(es: Seq<FileEntry>, p: Seq<char>) -> Option<int> {
    if exists|k: int| 0 <= k < es.len() && same_path(#[trigger] es[k].path@, p) {
        Some(choose|k: int| 0 <= k < es.len() && same_path(#[trigger] es[k].path@, p)
            && forall|j: int| 0 <= j < k ==> !same_path(#[trigger] es[j].path@, p))
    } else {
        None
    }
}

/// The entries below a directory, in index order.
pub open spec fn entries_under(es: Seq<FileEntry>, dir: Seq<char>) -> Seq<usize>
    decreases es.len(),
{
    if es.len() == 0 {
        seq![]
    } else {
        let r = entries_under(es.drop_last(), dir);
        if path_starts_with(es.last().path@, dir) {
            r.push((es.len() - 1) as usize)
        } else {
            r
        }
    }
}

/// All entries, in index order.
pub open spec fn all_entries(n: nat) -> Seq<usize> {
    Seq::new(n, |i: int| i as usize)
}

/// The view of an optional string.
pub open spec fn opt_view(o: Option<String>) -> Option<Seq<char>> {
    match o {
        Some(s) => Some(s@),
        None => None,
    }
}

/// What a path filter selects, the path taken in its normalized form: the
/// entry with that path; else, for a directory, the entries below it, which
/// must not be none; else an error.
pub open spec fn filter_result(es: Seq<FileEntry>, rel: Seq<char>, is_dir: bool, unsupported_ext: Option<Seq<char>>)
    -> Result<Seq<usize>, QueryErrorView>
{
    let r = rel_form(rel);
    match first_same_path(es, r) {
        Some(k) => Ok(seq![k as usize]),
        None => if is_dir {
            let m = entries_under(es, r);
            if m.len() > 0 {
                Ok(m)
            } else {
                Err(QueryErrorView::NoIndexedFilesUnder(forward_slashes(r)))
            }
        } else {
            match unsupported_ext {
                Some(ext) => Err(QueryErrorView::UnsupportedFileType(ext)),
                None => Err(QueryErrorView::NotInIndex(forward_slashes(r))),
            }
        },
    }
}

/// Resolves a path filter to the index entries it selects.
pub fn resolve_file_filter(index: &Index, filter: &FileFilter) -> (r: Result<Vec<usize>, QueryError>)
    ensures
        match (r, filter_result(index.entries@, filter.rel@, filter.is_dir, opt_view(filter.unsupported_ext))) {
            (Ok(v), Ok(s)) => v@ == s,
            (Err(e), Err(s)) => e@ == s,
            _ => false,
        },
{
    let rel = rel_form_chars(chars_of(filter.rel.as_str()).as_slice());
    let es = &index.entries;
    let mut k: usize = 0;
    while k < es.len()
        invariant
            rel@ == rel_form(filter.rel@),
            es == &index.entries,
            k <= es@.len(),
            forall|j: int| 0 <= j < k ==> !same_path(#[trigger] es@[j].path@, rel@),
        decreases es.len() - k,
    {
        let p = chars_of(es[k].path.as_str());
        if is_same_path(p.as_slice(), rel.as_slice()) {
            let mut v: Vec<usize> = Vec::new();
            v.push(k);
            proof {
                let ghost c = choose|c: int| 0 <= c < es@.len() && same_path(#[trigger] es@[c].path@, rel@)
                    && forall|j: int| 0 <= j < c ==> !same_path(#[trigger] es@[j].path@, rel@);
                assert(0 <= k < es@.len() && same_path(es@[k as int].path@, rel@)
                    && forall|j: int| 0 <= j < k ==> !same_path(#[trigger] es@[j].path@, rel@));
                if c < k {
                } else if c > k {
                    assert(!same_path(es@[k as int].path@, rel@));
                }
                assert(first_same_path(es@, rel@) == Some(k as int));
                assert(v@ =~= seq![k]);
            }
            return Ok(v);
        }
        k = k + 1;
    }
    proof {
        assert(first_same_path(es@, rel@) is None);
    }
    if filter.is_dir {
        let mut m: Vec<usize> = Vec::new();
        let mut i: usize = 0;
        proof { assert(es@.take(0) =~= Seq::<FileEntry>::empty()); }
        while i < es.len()
            invariant
                rel@ == rel_form(filter.rel@),
                es == &index.entries,
                i <= es@.len(),
                m@ == entries_under(es@.take(i as int), rel@),
            decreases es.len() - i,
        {
            proof {
                assert(es@.take(i + 1).drop_last() =~= es@.take(i as int));
                assert(es@.take(i + 1).last() == es@[i as int]);
            }
            let p = chars_of(es[i].path.as_str());
            if starts_with_path(p.as_slice(), rel.as_slice()) {
                m.push(i);
            }
            i = i + 1;
        }
        proof { assert(es@.take(es@.len() as int) =~= es@); }
        if m.len() == 0 {
            let d = display_chars(rel.as_slice());
            Err(QueryError::NoIndexedFilesUnder(string_from(d.as_slice())))
        } else {
            Ok(m)
        }
    } else {
        match &filter.unsupported_ext {
            Some(ext) => Err(QueryError::UnsupportedFileType(string_from(chars_of(ext.as_str()).as_slice()))),
            None => {
                let d = display_chars(rel.as_slice());
                Err(QueryError::NotInIndex(string_from(d.as_slice())))
            },
        }
    }
}

/// The files a query searches: those of the filter, else all.
pub fn files_to_search(index: &Index, filter: Option<&FileFilter>) -> (r: Result<Vec<usize>, QueryError>)
    ensures
        match filter {
            Some(f) => match (r, filter_result(index.entries@, f.rel@, f.is_dir, opt_view(f.unsupported_ext))) {
                (Ok(v), Ok(s)) => v@ == s,
                (Err(e), Err(s)) => e@ == s,
                _ => false,
            },
            None => r matches Ok(v) && v@ == all_entries(index.entries@.len()),
        },
{
    match filter {
        Some(f) => resolve_file_filter(index, f),
        None => {
            let mut v: Vec<usize> = Vec::new();
            let mut i: usize = 0;
            while i < index.entries.len()
                invariant
                    i <= index.entries@.len(),
                    v@ == all_entries(i as nat),
                decreases index.entries.len() - i,
            {
                v.push(i);
                proof { assert(v@ =~= all_entries((i + 1) as nat)); }
                i = i + 1;
            }
            Ok(v)
        },
    }
}


/// Every listed entry exists.
pub open spec fn valid_files(es: Seq<FileEntry>, files: Seq<usize>) -> bool {
    forall|i: int| 0 <= i < files.len() ==> #[trigger] files[i] < es.len()
}

proof fn lemma_entries_under_valid(es: Seq<FileEntry>, dir: Seq<char>)
    ensures
        valid_files(es, entries_under(es, dir)),
    decreases es.len(),
{
    if es.len() > 0 {
        lemma_entries_under_valid(es.drop_last(), dir);
    }
}

/// The files a query searches, or why the filter was refused.
pub open spec fn search_files(es: Seq<FileEntry>, filter: Option<&FileFilter>) -> Result<Seq<usize>, QueryErrorView> {
    match filter {
        Some(f) => filter_result(es, f.rel@, f.is_dir, opt_view(f.unsupported_ext)),
        None => Ok(all_entries(es.len())),
    }
}

proof fn lemma_first_same_path(es: Seq<FileEntry>, p: Seq<char>)
    ensures
        first_same_path(es, p) matches Some(k) ==> {
            &&& 0 <= k < es.len()
            &&& same_path(es[k].path@, p)
            &&& forall|j: int| 0 <= j < k ==> !same_path(#[trigger] es[j].path@, p)
        },
        first_same_path(es, p) is None ==> forall|j: int| 0 <= j < es.len() ==> !same_path(#[trigger] es[j].path@, p),
{
    if exists|k: int| 0 <= k < es.len() && same_path(#[trigger] es[k].path@, p) {
        let w = choose|k: int| 0 <= k < es.len() && same_path(#[trigger] es[k].path@, p);
        lemma_least_same_path(es, p, w);
    }
}

proof fn lemma_least_same_path(es: Seq<FileEntry>, p: Seq<char>, w: int)
    requires
        0 <= w < es.len(),
        same_path(es[w].path@, p),
    ensures
        exists|k: int| 0 <= k < es.len() && same_path(#[trigger] es[k].path@, p)
            && forall|j: int| 0 <= j < k ==> !same_path(#[trigger] es[j].path@, p),
    decreases w,
{
    if exists|j: int| 0 <= j < w && same_path(#[trigger] es[j].path@, p) {
        let j = choose|j: int| 0 <= j < w && same_path(#[trigger] es[j].path@, p);
        lemma_least_same_path(es, p, j);
    } else {
        assert(forall|j: int| 0 <= j < w ==> !same_path(#[trigger] es[j].path@, p));
    }
}

proof fn lemma_search_files_valid(es: Seq<FileEntry>, filter: Option<&FileFilter>)
    ensures
        search_files(es, filter) matches Ok(files) ==> valid_files(es, files),
{
    match filter {
        Some(f) => {
            lemma_entries_under_valid(es, rel_form(f.rel@));
            lemma_first_same_path(es, rel_form(f.rel@));
        },
        None => {},
    }
}

/// The view of an optional string slice.
pub open spec fn opt_str_view(o: Option<&str>) -> Option<Seq<char>> {
    match o {
        Some(s) => Some(s@),
        None => None,
    }
}

/// A test on symbol names.
pub enum NameTest {
    Any,
    Glob(Seq<char>),
    Exact(Seq<char>),
}

/// The name test of an optional glob.
pub open spec fn glob_test(glob: Option<Seq<char>>) -> NameTest {
    match glob {
        Some(g) => NameTest::Glob(g),
        None => NameTest::Any,
    }
}

pub open spec fn name_passes(t: NameTest, n: Seq<char>) -> bool {
    match t {
        NameTest::Any => true,
        NameTest::Glob(g) => glob_matches(g, n),
        NameTest::Exact(e) => n == e,
    }
}

/// A symbol passes the name test and the kind filter.
pub open spec fn symbol_passes(s: Symbol, name: NameTest, kind: Option<SymbolKind>) -> bool {
    &&& name_passes(name, s.name@)
    &&& (kind matches Some(k) ==> s.kind == k)
}

/// An executable name test.
pub enum NameFilter {
    Any,
    Glob(Vec<char>),
    Exact(Vec<char>),
}

impl View for NameFilter {
    type V = NameTest;

    open spec fn view(&self) -> NameTest {
        match self {
            NameFilter::Any => NameTest::Any,
            NameFilter::Glob(g) => NameTest::Glob(g@),
            NameFilter::Exact(e) => NameTest::Exact(e@),
        }
    }
}

/// The passing symbols among the first `n` of entry `e`, as (entry, symbol).
pub open spec fn hits_in_file(es: Seq<FileEntry>, e: usize, n: nat, glob: NameTest, kind: Option<SymbolKind>)
    -> Seq<(usize, usize)>
    decreases n,
{
    if n == 0 {
        seq![]
    } else {
        let r = hits_in_file(es, e, (n - 1) as nat, glob, kind);
        if symbol_passes(es[e as int].data.symbols@[n - 1], glob, kind) {
            r.push((e, (n - 1) as usize))
        } else {
            r
        }
    }
}

/// The passing symbols of the given files, file by file.
pub open spec fn symbol_hits(es: Seq<FileEntry>, files: Seq<usize>, glob: NameTest, kind: Option<SymbolKind>)
    -> Seq<(usize, usize)>
    decreases files.len(),
{
    if files.len() == 0 {
        seq![]
    } else {
        let e = files.last();
        symbol_hits(es, files.drop_last(), glob, kind)
            + hits_in_file(es, e, es[e as int].data.symbols@.len(), glob, kind)
    }
}

/// The symbol a hit names.
pub open spec fn hit_symbol(es: Seq<FileEntry>, h: (usize, usize)) -> Symbol {
    es[h.0 as int].data.symbols@[h.1 as int]
}

/// Symbol listings are ordered by file path, then name; ties keep index order.
pub open spec fn symbol_key(es: Seq<FileEntry>) -> spec_fn((usize, usize)) -> Seq<PartValue> {
    |h: (usize, usize)| seq![
        PartValue::Comps(path_components(es[h.0 as int].path@)),
        PartValue::Text(hit_symbol(es, h).name@),
        PartValue::Up(h.0 as nat),
        PartValue::Up(h.1 as nat),
    ]
}

/// The hits of a symbol listing in the order it shows them.
pub open spec fn symbol_order(es: Seq<FileEntry>, files: Seq<usize>, glob: NameTest, kind: Option<SymbolKind>)
    -> Seq<(usize, usize)>
{
    symbol_hits(es, files, glob, kind).sort_by(key_order(symbol_key(es)))
}

/// One row of a symbol listing.
pub struct SymbolRow {
    /// The entry and the symbol within it that the row shows.
    pub entry: usize,
    pub symbol: usize,
    /// The file column, omitted for a single-file query.
    pub file: Option<String>,
    pub name: String,
    pub kind: SymbolKind,
    pub signature: String,
    pub byte_range: (usize, usize),
}

/// A row shows its symbol.
pub open spec fn symbol_row_shows(es: Seq<FileEntry>, r: SymbolRow, single_file: bool) -> bool {
    let sym = hit_symbol(es, (r.entry, r.symbol));
    &&& r.name@ == sym.name@
    &&& r.kind == sym.kind
    &&& r.signature@ == sym.signature@
    &&& r.byte_range == sym.byte_range
    &&& if single_file {
        r.file is None
    } else {
        r.file matches Some(f) && f@ == forward_slashes(es[r.entry as int].path@)
    }
}

proof fn lemma_symbol_key_injective(es: Seq<FileEntry>)
    ensures
        forall|a: (usize, usize), b: (usize, usize)| #[trigger] symbol_key(es)(a) == #[trigger] symbol_key(es)(b) ==> a == b,
{
    assert forall|a: (usize, usize), b: (usize, usize)| #[trigger] symbol_key(es)(a) == #[trigger] symbol_key(es)(b) implies a == b by {
        assert(symbol_key(es)(a)[2] == symbol_key(es)(b)[2]);
        assert(symbol_key(es)(a)[3] == symbol_key(es)(b)[3]);
    }
}

fn symbol_passes_exec(sym: &Symbol, name: &NameFilter, kind: Option<SymbolKind>) -> (r: bool)
    ensures
        r == symbol_passes(*sym, name@, kind),
{
    let name_ok = match name {
        NameFilter::Glob(g) => {
            let n = chars_of(sym.name.as_str());
            glob_match_chars(g.as_slice(), n.as_slice())
        },
        NameFilter::Exact(e) => {
            let n = chars_of(sym.name.as_str());
            compare_chars(n.as_slice(), e.as_slice()) == Cmp::Equal
        },
        NameFilter::Any => true,
    };
    let kind_ok = match kind {
        Some(k) => sym.kind == k,
        None => true,
    };
    name_ok && kind_ok
}

fn symbol_sort_key(index: &Index, e: usize, j: usize) -> (r: Vec<KeyPart>)
    requires
        e < index.entries@.len(),
        j < index.entries@[e as int].data.symbols@.len(),
    ensures
        key_value(r@) == symbol_key(index.entries@)((e, j)),
{
    let p = chars_of(index.entries[e].path.as_str());
    let comps = components(p.as_slice());
    let name = chars_of(index.entries[e].data.symbols[j].name.as_str());
    let mut r: Vec<KeyPart> = Vec::new();
    r.push(KeyPart::Comps(comps));
    r.push(KeyPart::Text(name));
    r.push(KeyPart::Up(e));
    r.push(KeyPart::Up(j));
    proof { assert(key_value(r@) =~= symbol_key(index.entries@)((e, j))); }
    r
}

/// The passing symbols of the given files.
pub(crate) fn collect_symbol_hits(index: &Index, files: &Vec<usize>, name: &NameFilter, kind: Option<SymbolKind>)
    -> (r: Vec<(usize, usize)>)
    requires
        valid_files(index.entries@, files@),
    ensures
        r@ == symbol_hits(index.entries@, files@, name@, kind),
{
    let ghost es = index.entries@;
    let ghost gv = name@;
    let mut r: Vec<(usize, usize)> = Vec::new();
    let mut i: usize = 0;
    proof { assert(files@.take(0) =~= Seq::<usize>::empty()); }
    while i < files.len()
        invariant
            es == index.entries@,
            gv == name@,
            valid_files(es, files@),
            i <= files@.len(),
            r@ == symbol_hits(es, files@.take(i as int), gv, kind),
        decreases files.len() - i,
    {
        let e = files[i];
        assert(e < es.len());
        let ghost before = r@;
        let syms = &index.entries[e].data.symbols;
        let mut j: usize = 0;
        while j < syms.len()
            invariant
                es == index.entries@,
                gv == name@,
                e < es.len(),
                syms == &es[e as int].data.symbols,
                j <= syms@.len(),
                r@ == before + hits_in_file(es, e, j as nat, gv, kind),
            decreases syms.len() - j,
        {
            if symbol_passes_exec(&syms[j], name, kind) {
                r.push((e, j));
                proof {
                    assert(r@ =~= (before + hits_in_file(es, e, j as nat, gv, kind)).push((e, j)));
                }
            }
            j = j + 1;
        }
        proof {
            assert(files@.take(i + 1).drop_last() =~= files@.take(i as int));
            assert(files@.take(i + 1).last() == e);
        }
        i = i + 1;
    }
    proof { assert(files@.take(files@.len() as int) =~= files@); }
    r
}

/// The hits with their symbol-listing keys.
fn symbol_keyed(index: &Index, hits: Vec<(usize, usize)>) -> (r: Vec<Keyed<(usize, usize)>>)
    requires
        forall|i: int| 0 <= i < hits@.len() ==> #[trigger] hit_ok(index.entries@, hits@[i]),
    ensures
        r@.map_values(|k: Keyed<(usize, usize)>| k.item) == hits@,
        forall|i: int| 0 <= i < r@.len() ==> key_value(#[trigger] r@[i].key@) == symbol_key(index.entries@)(r@[i].item),
{
    let mut r: Vec<Keyed<(usize, usize)>> = Vec::new();
    let mut i: usize = 0;
    while i < hits.len()
        invariant
            i <= hits@.len(),
            forall|k: int| 0 <= k < hits@.len() ==> #[trigger] hit_ok(index.entries@, hits@[k]),
            r@.map_values(|k: Keyed<(usize, usize)>| k.item) == hits@.take(i as int),
            forall|k: int| 0 <= k < r@.len() ==> key_value(#[trigger] r@[k].key@) == symbol_key(index.entries@)(r@[k].item),
        decreases hits.len() - i,
    {
        let (e, j) = hits[i];
        proof { assert(hit_ok(index.entries@, hits@[i as int])); }
        let key = symbol_sort_key(index, e, j);
        let ghost old_items = r@.map_values(|k: Keyed<(usize, usize)>| k.item);
        r.push(Keyed { key, item: (e, j) });
        proof {
            assert(hits@.take(i + 1) =~= hits@.take(i as int).push(hits@[i as int]));
            assert(r@.map_values(|k: Keyed<(usize, usize)>| k.item) =~= old_items.push((e, j)));
        }
        i = i + 1;
    }
    proof { assert(hits@.take(hits@.len() as int) =~= hits@); }
    r
}

fn clone_string(s: &String) -> (r: String)
    ensures
        r@ == s@,
{
    s.clone()
}

fn symbol_row(index: &Index, e: usize, j: usize, single_file: bool) -> (r: SymbolRow)
    requires
        e < index.entries@.len(),
        j < index.entries@[e as int].data.symbols@.len(),
    ensures
        r.entry == e,
        r.symbol == j,
        symbol_row_shows(index.entries@, r, single_file),
{
    let entry = &index.entries[e];
    let sym = &entry.data.symbols[j];
    let file = if single_file {
        None
    } else {
        let p = chars_of(entry.path.as_str());
        Some(string_from(display_chars(p.as_slice()).as_slice()))
    };
    SymbolRow {
        entry: e,
        symbol: j,
        file,
        name: clone_string(&sym.name),
        kind: sym.kind,
        signature: clone_string(&sym.signature),
        byte_range: sym.byte_range,
    }
}

/// The symbols query: the symbols of the selected files that pass the name
/// glob and the kind filter, ordered by file path then name, one page of
/// them. The file column is left out when a file filter selected a single
/// file. An empty listing (`total == 0`) means no matches.
pub fn symbols(
    index: &Index,
    filter: Option<&FileFilter>,
    name_glob: Option<&str>,
    kind_filter: Option<SymbolKind>,
    pg: &Pagination,
) -> (r: Result<Paginated<SymbolRow>, QueryError>)
    ensures
        match (r, search_files(index.entries@, filter)) {
            (Err(e), Err(s)) => e@ == s,
            (Ok(p), Ok(files)) => {
                let order = symbol_order(index.entries@, files, glob_test(opt_str_view(name_glob)), kind_filter);
                let single_file = filter is Some && files.len() == 1;
                &&& p.total == order.len()
                &&& p.offset == pg.offset
                &&& p.limit == pg.limit
                &&& p.items@.map_values(|row: SymbolRow| (row.entry, row.symbol))
                    == page_of(order, pg.offset as nat, pg.limit)
                &&& forall|i: int| 0 <= i < p.items@.len()
                    ==> symbol_row_shows(index.entries@, #[trigger] p.items@[i], single_file)
            },
            _ => false,
        },
{
    let files = match files_to_search(index, filter) {
        Ok(f) => f,
        Err(e) => return Err(e),
    };
    let ghost es = index.entries@;
    proof { lemma_search_files_valid(es, filter); }
    let glob = match name_glob {
        Some(g) => NameFilter::Glob(chars_of(g)),
        None => NameFilter::Any,
    };
    let ghost gv = glob_test(opt_str_view(name_glob));
    proof { assert(gv == glob@); }
    let hits = collect_symbol_hits(index, &files, &glob, kind_filter);
    let ghost ghits = hits@;
    proof { lemma_hits_valid(es, files@, gv, kind_filter); }
    let keyed = symbol_keyed(index, hits);
    let sorted = sort_items(keyed, Ghost(symbol_key(es)));
    proof {
        let hits = ghits;
        lemma_symbol_key_injective(es);
        lemma_is_sort_by(sorted@, hits, symbol_key(es));
        assert forall|i: int| 0 <= i < sorted@.len() implies #[trigger] hit_ok(es, sorted@[i]) by {
            assert(sorted@.to_multiset().count(sorted@[i]) > 0);
            assert(hits.contains(sorted@[i]));
        }
    }
    let single_file = filter.is_some() && files.len() == 1;
    let page = paginate(sorted, pg);
    let mut rows: Vec<SymbolRow> = Vec::new();
    let mut i: usize = 0;
    while i < page.items.len()
        invariant
            es == index.entries@,
            i <= page.items@.len(),
            forall|k: int| 0 <= k < page.items@.len() ==> #[trigger] hit_ok(es, page.items@[k]),
            rows@.map_values(|row: SymbolRow| (row.entry, row.symbol)) == page.items@.take(i as int),
            forall|k: int| 0 <= k < rows@.len() ==> symbol_row_shows(es, #[trigger] rows@[k], single_file),
        decreases page.items.len() - i,
    {
        let (e, j) = page.items[i];
        proof { assert(hit_ok(es, page.items@[i as int])); assert((e, j) == page.items@[i as int]); }
        let row = symbol_row(index, e, j, single_file);
        let ghost old_rows = rows@;
        rows.push(row);
        proof {
            assert(rows@ == old_rows.push(row));
            assert(page.items@.take(i + 1) =~= page.items@.take(i as int).push((e, j)));
            assert(rows@.map_values(|row: SymbolRow| (row.entry, row.symbol)) =~= page.items@.take(i + 1));
        }
        i = i + 1;
    }
    proof {
        assert(page.items@.take(page.items@.len() as int) =~= page.items@);
        assert(page.items@ == page_of(sorted@, pg.offset as nat, pg.limit));
    }
    Ok(Paginated { items: rows, total: page.total, offset: page.offset, limit: page.limit })
}

/// A hit names an existing symbol.
pub open spec fn hit_ok(es: Seq<FileEntry>, h: (usize, usize)) -> bool {
    h.0 < es.len() && h.1 < es[h.0 as int].data.symbols@.len()
}

proof fn lemma_hits_in_file_valid(es: Seq<FileEntry>, e: usize, n: nat, glob: NameTest, kind: Option<SymbolKind>)
    requires
        e < es.len(),
        n <= es[e as int].data.symbols@.len(),
    ensures
        forall|i: int| 0 <= i < hits_in_file(es, e, n, glob, kind).len()
            ==> #[trigger] hit_ok(es, hits_in_file(es, e, n, glob, kind)[i]),
    decreases n,
{
    if n > 0 {
        lemma_hits_in_file_valid(es, e, (n - 1) as nat, glob, kind);
        let r = hits_in_file(es, e, (n - 1) as nat, glob, kind);
        let x = (e, (n - 1) as usize);
        assert(hit_ok(es, x));
        assert forall|i: int| 0 <= i < r.push(x).len() implies #[trigger] hit_ok(es, r.push(x)[i]) by {
            if i < r.len() {
                assert(r.push(x)[i] == r[i]);
            }
        }
    }
}

pub(crate) proof fn lemma_hits_valid(es: Seq<FileEntry>, files: Seq<usize>, glob: NameTest, kind: Option<SymbolKind>)
    requires
        valid_files(es, files),
    ensures
        forall|i: int| 0 <= i < symbol_hits(es, files, glob, kind).len()
            ==> #[trigger] hit_ok(es, symbol_hits(es, files, glob, kind)[i]),
    decreases files.len(),
{
    if files.len() > 0 {
        let e = files.last();
        assert(e == files[files.len() - 1]);
        lemma_hits_valid(es, files.drop_last(), glob, kind);
        lemma_hits_in_file_valid(es, e, es[e as int].data.symbols@.len(), glob, kind);
        let a = symbol_hits(es, files.drop_last(), glob, kind);
        let b = hits_in_file(es, e, es[e as int].data.symbols@.len(), glob, kind);
        assert forall|i: int| 0 <= i < (a + b).len() implies #[trigger] hit_ok(es, (a + b)[i]) by {
            if i < a.len() {
                assert((a + b)[i] == a[i]);
            } else {
                assert((a + b)[i] == b[i - a.len()]);
            }
        }
    }
}


/// How many symbols of a kind the files hold.
pub open spec fn kind_count(es: Seq<FileEntry>, files: Seq<usize>, k: SymbolKind) -> nat {
    symbol_hits(es, files, NameTest::Any, Some(k)).len()
}

/// One row of the kind listing.
pub struct KindCount {
    pub kind: SymbolKind,
    pub count: usize,
}

/// The kinds present among the first `r` of the alphabetical order, with
/// their counts.
pub open spec fn present_kinds(es: Seq<FileEntry>, files: Seq<usize>, r: nat) -> Seq<KindCount>
    decreases r,
{
    if r == 0 {
        seq![]
    } else {
        let prev = present_kinds(es, files, (r - 1) as nat);
        let k = kind_at_rank((r - 1) as nat);
        if kind_count(es, files, k) > 0 {
            prev.push(KindCount { kind: k, count: kind_count(es, files, k) as usize })
        } else {
            prev
        }
    }
}

/// Kind rows are ordered by count, largest first, then by kind name.
pub open spec fn kind_key() -> spec_fn(KindCount) -> Seq<PartValue> {
    |c: KindCount| seq![PartValue::Down(c.count as nat), PartValue::Up(kind_rank(c.kind))]
}

/// The kind listing: every kind that occurs, with its count, in its order.
pub open spec fn kind_listing(es: Seq<FileEntry>, files: Seq<usize>) -> Seq<KindCount> {
    present_kinds(es, files, 12).sort_by(key_order(kind_key()))
}

proof fn lemma_hits_in_file_le(es: Seq<FileEntry>, e: usize, n: nat, k: SymbolKind)
    ensures
        hits_in_file(es, e, n, NameTest::Any, Some(k)).len() <= hits_in_file(es, e, n, NameTest::Any, None).len(),
    decreases n,
{
    if n > 0 {
        lemma_hits_in_file_le(es, e, (n - 1) as nat, k);
    }
}

proof fn lemma_hits_in_file_mono(es: Seq<FileEntry>, e: usize, a: nat, b: nat)
    requires
        a <= b,
    ensures
        hits_in_file(es, e, a, NameTest::Any, None).len() <= hits_in_file(es, e, b, NameTest::Any, None).len(),
    decreases b,
{
    if a < b {
        lemma_hits_in_file_mono(es, e, a, (b - 1) as nat);
    }
}

proof fn lemma_symbol_hits_le(es: Seq<FileEntry>, files: Seq<usize>, k: SymbolKind)
    ensures
        kind_count(es, files, k) <= symbol_hits(es, files, NameTest::Any, None).len(),
    decreases files.len(),
{
    if files.len() > 0 {
        lemma_symbol_hits_le(es, files.drop_last(), k);
        let e = files.last();
        lemma_hits_in_file_le(es, e, es[e as int].data.symbols@.len(), k);
    }
}

proof fn lemma_symbol_hits_prefix(es: Seq<FileEntry>, files: Seq<usize>, i: int)
    requires
        0 <= i <= files.len(),
    ensures
        symbol_hits(es, files.take(i), NameTest::Any, None).len() <= symbol_hits(es, files, NameTest::Any, None).len(),
    decreases files.len(),
{
    if i < files.len() {
        lemma_symbol_hits_prefix(es, files.drop_last(), i);
        assert(files.drop_last().take(i) =~= files.take(i));
    } else {
        assert(files.take(i) =~= files);
    }
}

proof fn lemma_kind_key_injective()
    ensures
        forall|a: KindCount, b: KindCount| #[trigger] kind_key()(a) == #[trigger] kind_key()(b) ==> a == b,
{
    assert forall|a: KindCount, b: KindCount| #[trigger] kind_key()(a) == #[trigger] kind_key()(b) implies a == b by {
        assert(kind_key()(a)[0] == kind_key()(b)[0]);
        assert(kind_key()(a)[1] == kind_key()(b)[1]);
        lemma_kind_rank(a.kind);
        lemma_kind_rank(b.kind);
    }
}

fn count_kinds(index: &Index, files: &Vec<usize>) -> (counts: Vec<usize>)
    requires
        valid_files(index.entries@, files@),
        symbol_hits(index.entries@, files@, NameTest::Any, None).len() < usize::MAX,
    ensures
        counts@.len() == 12,
        forall|k: SymbolKind| #[trigger] counts@[kind_rank(k) as int] == kind_count(index.entries@, files@, k),
{
    let ghost es = index.entries@;
    let mut counts: Vec<usize> = Vec::new();
    let mut r: usize = 0;
    while r < 12
        invariant
            r <= 12,
            counts@.len() == r,
            forall|q: int| 0 <= q < r ==> counts@[q] == 0,
        decreases 12 - r,
    {
        counts.push(0);
        r = r + 1;
    }
    let mut seen: usize = 0;
    let mut i: usize = 0;
    proof {
        assert(files@.take(0) =~= Seq::<usize>::empty());
        assert forall|k: SymbolKind| #[trigger] counts@[kind_rank(k) as int] == kind_count(es, files@.take(0), k) by {
            lemma_kind_rank(k);
        }
    }
    while i < files.len()
        invariant
            es == index.entries@,
            valid_files(es, files@),
            symbol_hits(es, files@, NameTest::Any, None).len() < usize::MAX,
            i <= files@.len(),
            counts@.len() == 12,
            seen == symbol_hits(es, files@.take(i as int), NameTest::Any, None).len(),
            forall|k: SymbolKind| #[trigger] counts@[kind_rank(k) as int] == kind_count(es, files@.take(i as int), k),
        decreases files.len() - i,
    {
        let e = files[i];
        assert(e < es.len());
        let syms = &index.entries[e].data.symbols;
        let ghost base_seen = seen as int;
        let ghost base = counts@;
        proof {
            assert forall|k: SymbolKind| #[trigger] base[kind_rank(k) as int] <= base_seen by {
                lemma_symbol_hits_le(es, files@.take(i as int), k);
            }
            lemma_symbol_hits_prefix(es, files@, i + 1);
            assert(files@.take(i + 1).drop_last() =~= files@.take(i as int));
            assert(files@.take(i + 1).last() == e);
        }
        let mut j: usize = 0;
        while j < syms.len()
            invariant
                es == index.entries@,
                e < es.len(),
                syms == &es[e as int].data.symbols,
                j <= syms@.len(),
                counts@.len() == 12,
                seen == base_seen + hits_in_file(es, e, j as nat, NameTest::Any, None).len(),
                base.len() == 12,
                forall|k: SymbolKind| #[trigger] base[kind_rank(k) as int] <= base_seen,
                base_seen + hits_in_file(es, e, syms@.len(), NameTest::Any, None).len() < usize::MAX,
                forall|k: SymbolKind| #[trigger] counts@[kind_rank(k) as int]
                    == base[kind_rank(k) as int] + hits_in_file(es, e, j as nat, NameTest::Any, Some(k)).len(),
            decreases syms.len() - j,
        {
            let kind = syms[j].kind;
            let rk = kind.rank();
            proof {
                lemma_kind_rank(kind);
                lemma_hits_in_file_mono(es, e, (j + 1) as nat, syms@.len());
                lemma_hits_in_file_le(es, e, j as nat, kind);
                assert(counts@[kind_rank(kind) as int] == base[kind_rank(kind) as int] + hits_in_file(es, e, j as nat, NameTest::Any, Some(kind)).len());
                assert(base[kind_rank(kind) as int] <= base_seen);
                assert(hits_in_file(es, e, (j + 1) as nat, NameTest::Any, None).len() == hits_in_file(es, e, j as nat, NameTest::Any, None).len() + 1);
            }
            let c = counts[rk as usize];
            counts.set(rk as usize, c + 1);
            seen = seen + 1;
            proof {
                assert forall|k: SymbolKind| #[trigger] counts@[kind_rank(k) as int]
                    == base[kind_rank(k) as int] + hits_in_file(es, e, (j + 1) as nat, NameTest::Any, Some(k)).len() by {
                    lemma_kind_rank(k);
                    if k != kind {
                        assert(kind_rank(k) != kind_rank(kind));
                    }
                }
            }
            j = j + 1;
        }
        i = i + 1;
    }
    proof { assert(files@.take(files@.len() as int) =~= files@); }
    counts
}

/// Lists the distinct symbol kinds of the selected files with their counts,
/// most frequent first, ties by kind name. An empty list means the files hold
/// no symbols.
pub fn kind_counts(index: &Index, filter: Option<&FileFilter>) -> (r: Result<Vec<KindCount>, QueryError>)
    requires
        search_files(index.entries@, filter) matches Ok(files)
            ==> symbol_hits(index.entries@, files, NameTest::Any, None).len() < usize::MAX,
    ensures
        match (r, search_files(index.entries@, filter)) {
            (Err(e), Err(s)) => e@ == s,
            (Ok(rows), Ok(files)) => rows@ == kind_listing(index.entries@, files),
            _ => false,
        },
{
    let files = match files_to_search(index, filter) {
        Ok(f) => f,
        Err(e) => return Err(e),
    };
    let ghost es = index.entries@;
    proof { lemma_search_files_valid(es, filter); }
    let counts = count_kinds(index, &files);
    proof {
        assert forall|k: SymbolKind| kind_count(es, files@, k) < usize::MAX by {
            lemma_symbol_hits_le(es, files@, k);
        }
    }
    let mut keyed: Vec<Keyed<KindCount>> = Vec::new();
    let mut r: u8 = 0;
    while r < 12
        invariant
            r <= 12,
            counts@.len() == 12,
            forall|k: SymbolKind| #[trigger] counts@[kind_rank(k) as int] == kind_count(es, files@, k),
            forall|k: SymbolKind| kind_count(es, files@, k) < usize::MAX,
            keyed@.map_values(|k: Keyed<KindCount>| k.item) == present_kinds(es, files@, r as nat),
            forall|i: int| 0 <= i < keyed@.len() ==> key_value(#[trigger] keyed@[i].key@) == kind_key()(keyed@[i].item),
        decreases 12 - r,
    {
        let kind = SymbolKind::at_rank(r);
        let c = counts[r as usize];
        proof { assert(counts@[kind_rank(kind) as int] == kind_count(es, files@, kind)); }
        if c > 0 {
            let mut key: Vec<KeyPart> = Vec::new();
            key.push(KeyPart::Down(c));
            key.push(KeyPart::Up(r as usize));
            let item = KindCount { kind, count: c };
            let ghost old_items = keyed@.map_values(|k: Keyed<KindCount>| k.item);
            keyed.push(Keyed { key, item });
            proof {
                assert(key_value(key@) =~= kind_key()(item));
                assert(keyed@.map_values(|k: Keyed<KindCount>| k.item) =~= old_items.push(item));
            }
        }
        r = r + 1;
    }
    let ghost present = present_kinds(es, files@, 12);
    let sorted = sort_items(keyed, Ghost(kind_key()));
    proof {
        lemma_kind_key_injective();
        lemma_is_sort_by(sorted@, present, kind_key());
    }
    Ok(sorted)
}

// ---- the kind listing counts every symbol once ----

/// The counts of kind rows added up.
pub open spec fn count_sum(rows: Seq<KindCount>) -> nat
    decreases rows.len(),
{
    if rows.len() == 0 { 0 } else { count_sum(rows.drop_last()) + rows.last().count as nat }
}

/// `f` added up over the first `r` kinds of the alphabetical order.
pub open spec fn kind_sum(f: spec_fn(SymbolKind) -> nat, r: nat) -> nat
    decreases r,
{
    if r == 0 { 0 } else { kind_sum(f, (r - 1) as nat) + f(kind_at_rank((r - 1) as nat)) }
}

proof fn lemma_kind_sum_split(f: spec_fn(SymbolKind) -> nat, g: spec_fn(SymbolKind) -> nat, h: spec_fn(SymbolKind) -> nat, r: nat)
    requires
        forall|k: SymbolKind| #[trigger] f(k) == g(k) + h(k),
    ensures
        kind_sum(f, r) == kind_sum(g, r) + kind_sum(h, r),
    decreases r,
{
    if r > 0 {
        lemma_kind_sum_split(f, g, h, (r - 1) as nat);
        assert(f(kind_at_rank((r - 1) as nat)) == g(kind_at_rank((r - 1) as nat)) + h(kind_at_rank((r - 1) as nat)));
    }
}

proof fn lemma_kind_sum_zero(f: spec_fn(SymbolKind) -> nat, r: nat)
    requires
        forall|k: SymbolKind| #[trigger] f(k) == 0,
    ensures
        kind_sum(f, r) == 0,
    decreases r,
{
    if r > 0 {
        lemma_kind_sum_zero(f, (r - 1) as nat);
        assert(f(kind_at_rank((r - 1) as nat)) == 0);
    }
}

/// Every kind stands once in the alphabetical order.
proof fn lemma_kind_sum_one(k0: SymbolKind)
    ensures
        kind_sum(|k: SymbolKind| if k == k0 { 1nat } else { 0nat }, 12) == 1,
{
    reveal_with_fuel(kind_sum, 13);
}

proof fn lemma_file_kind_sum(es: Seq<FileEntry>, e: usize, n: nat)
    requires
        e < es.len(),
        n <= es[e as int].data.symbols@.len(),
    ensures
        kind_sum(|k: SymbolKind| hits_in_file(es, e, n, NameTest::Any, Some(k)).len(), 12)
            == hits_in_file(es, e, n, NameTest::Any, None).len(),
    decreases n,
{
    let f = |k: SymbolKind| hits_in_file(es, e, n, NameTest::Any, Some(k)).len();
    if n == 0 {
        lemma_kind_sum_zero(f, 12);
    } else {
        let m = (n - 1) as nat;
        lemma_file_kind_sum(es, e, m);
        let g = |k: SymbolKind| hits_in_file(es, e, m, NameTest::Any, Some(k)).len();
        let k0 = es[e as int].data.symbols@[m as int].kind;
        let h = |k: SymbolKind| if k == k0 { 1nat } else { 0nat };
        assert forall|k: SymbolKind| #[trigger] f(k) == g(k) + h(k) by {}
        lemma_kind_sum_split(f, g, h, 12);
        lemma_kind_sum_one(k0);
    }
}

proof fn lemma_files_kind_sum(es: Seq<FileEntry>, files: Seq<usize>)
    requires
        valid_files(es, files),
    ensures
        kind_sum(|k: SymbolKind| kind_count(es, files, k), 12) == symbol_hits(es, files, NameTest::Any, None).len(),
    decreases files.len(),
{
    let f = |k: SymbolKind| kind_count(es, files, k);
    if files.len() == 0 {
        lemma_kind_sum_zero(f, 12);
    } else {
        let fs = files.drop_last();
        assert(valid_files(es, fs)) by {
            assert forall|i: int| 0 <= i < fs.len() implies #[trigger] fs[i] < es.len() by {
                assert(fs[i] == files[i]);
            }
        }
        lemma_files_kind_sum(es, fs);
        let e = files.last();
        assert(e == files[files.len() - 1]);
        let n = es[e as int].data.symbols@.len();
        lemma_file_kind_sum(es, e, n);
        let g = |k: SymbolKind| kind_count(es, fs, k);
        let h = |k: SymbolKind| hits_in_file(es, e, n, NameTest::Any, Some(k)).len();
        assert forall|k: SymbolKind| #[trigger] f(k) == g(k) + h(k) by {}
        lemma_kind_sum_split(f, g, h, 12);
    }
}

proof fn lemma_present_sum(es: Seq<FileEntry>, files: Seq<usize>, r: nat)
    requires
        forall|k: SymbolKind| kind_count(es, files, k) < usize::MAX,
    ensures
        count_sum(present_kinds(es, files, r)) == kind_sum(|k: SymbolKind| kind_count(es, files, k), r),
    decreases r,
{
    if r > 0 {
        lemma_present_sum(es, files, (r - 1) as nat);
        let prev = present_kinds(es, files, (r - 1) as nat);
        let k = kind_at_rank((r - 1) as nat);
        if kind_count(es, files, k) > 0 {
            let x = KindCount { kind: k, count: kind_count(es, files, k) as usize };
            assert(prev.push(x).drop_last() =~= prev);
        }
    }
}

proof fn lemma_count_sum_remove(b: Seq<KindCount>, k: int)
    requires
        0 <= k < b.len(),
    ensures
        count_sum(b) == count_sum(b.remove(k)) + b[k].count,
    decreases b.len(),
{
    if k == b.len() - 1 {
        assert(b.remove(k) =~= b.drop_last());
    } else {
        lemma_count_sum_remove(b.drop_last(), k);
        assert(b.remove(k).drop_last() =~= b.drop_last().remove(k));
        assert(b.remove(k).last() == b.last());
    }
}

proof fn lemma_count_sum_perm(a: Seq<KindCount>, b: Seq<KindCount>)
    requires
        a.to_multiset() == b.to_multiset(),
    ensures
        count_sum(a) == count_sum(b),
    decreases a.len(),
{
    if a.len() == 0 {
        assert(b.len() == b.to_multiset().len());
        assert(b.len() == 0);
    } else {
        let x = a.last();
        let a2 = a.drop_last();
        assert(a =~= a2.push(x));
        assert(a.to_multiset().count(x) > 0);
        assert(b.contains(x));
        let k = choose|k: int| 0 <= k < b.len() && b[k] == x;
        let b2 = b.remove(k);
        assert(b2.to_multiset() == b.to_multiset().remove(x));
        assert(a2.to_multiset() =~= a.to_multiset().remove(x));
        lemma_count_sum_perm(a2, b2);
        lemma_count_sum_remove(b, k);
    }
}

/// The kind listing counts every symbol of the selected files once: its
/// counts add up to the number of symbols those files hold.
pub proof fn lemma_kind_counts_total(es: Seq<FileEntry>, files: Seq<usize>)
    requires
        valid_files(es, files),
        symbol_hits(es, files, NameTest::Any, None).len() < usize::MAX,
    ensures
        count_sum(kind_listing(es, files)) == symbol_hits(es, files, NameTest::Any, None).len(),
{
    assert forall|k: SymbolKind| kind_count(es, files, k) < usize::MAX by {
        lemma_symbol_hits_le(es, files, k);
    }
    lemma_present_sum(es, files, 12);
    lemma_files_kind_sum(es, files);
    let present = present_kinds(es, files, 12);
    lemma_kind_key_injective();
    crate::sort::lemma_key_order_total(kind_key());
    present.lemma_sort_by_ensures(key_order(kind_key()));
    lemma_count_sum_perm(kind_listing(es, files), present);
}

// ---- a directory filter selects exactly the entries below the directory ----

proof fn lemma_entries_under_exact(es: Seq<FileEntry>, dir: Seq<char>)
    requires
        es.len() <= usize::MAX,
    ensures
        forall|i: int| 0 <= i < entries_under(es, dir).len() ==> {
            &&& #[trigger] entries_under(es, dir)[i] < es.len()
            &&& path_components(dir).is_prefix_of(path_components(es[entries_under(es, dir)[i] as int].path@))
        },
        forall|e: int| 0 <= e < es.len() && path_components(dir).is_prefix_of(path_components(#[trigger] es[e].path@))
            ==> entries_under(es, dir).contains(e as usize),
    decreases es.len(),
{
    if es.len() > 0 {
        let es2 = es.drop_last();
        lemma_entries_under_exact(es2, dir);
        let r = entries_under(es2, dir);
        let x = (es.len() - 1) as usize;
        let out = entries_under(es, dir);
        assert forall|i: int| 0 <= i < out.len() implies {
            &&& #[trigger] out[i] < es.len()
            &&& path_components(dir).is_prefix_of(path_components(es[out[i] as int].path@))
        } by {
            if i < r.len() {
                assert(out[i] == r[i]);
                assert(es2[r[i] as int] == es[r[i] as int]);
            } else {
                assert(out[i] == x);
            }
        }
        assert forall|e: int| 0 <= e < es.len() && path_components(dir).is_prefix_of(path_components(#[trigger] es[e].path@))
            implies out.contains(e as usize) by {
            if e < es.len() - 1 {
                assert(es2[e] == es[e]);
                assert(r.contains(e as usize));
                let k = choose|k: int| 0 <= k < r.len() && r[k] == e as usize;
                assert(out[k] == r[k]);
            } else {
                assert(es.last() == es[e]);
                assert(out[r.len() as int] == x);
            }
        }
    }
}

/// A directory filter selects only entries whose path components begin with
/// the directory's (whole components: `src` does not hold `src-tauri/...`),
/// and, unless the filter names an entry itself, it selects every such entry;
/// it is refused only when no entry lies below the directory.
pub proof fn lemma_dir_filter_selects_below(es: Seq<FileEntry>, rel: Seq<char>, ext: Option<Seq<char>>)
    requires
        es.len() <= usize::MAX,
    ensures
        ({
            let d = path_components(rel_form(rel));
            &&& filter_result(es, rel, true, ext) matches Ok(sel) ==> forall|i: int| 0 <= i < sel.len() ==> {
                &&& #[trigger] sel[i] < es.len()
                &&& d.is_prefix_of(path_components(es[sel[i] as int].path@))
            }
            &&& (forall|k: int| 0 <= k < es.len() ==> !same_path(#[trigger] es[k].path@, rel_form(rel))) ==> {
                &&& filter_result(es, rel, true, ext) matches Ok(sel) ==> forall|e: int|
                    0 <= e < es.len() && d.is_prefix_of(path_components(#[trigger] es[e].path@)) ==> sel.contains(e as usize)
                &&& filter_result(es, rel, true, ext) is Err ==> forall|e: int|
                    0 <= e < es.len() ==> !d.is_prefix_of(path_components(#[trigger] es[e].path@))
            }
        }),
{
    let r = rel_form(rel);
    let d = path_components(r);
    lemma_first_same_path(es, r);
    lemma_entries_under_exact(es, r);
    match first_same_path(es, r) {
        Some(k) => {
            let sel = seq![k as usize];
            assert(same_path(es[k].path@, r));
            assert(d.is_prefix_of(path_components(es[k].path@))) by {
                assert(path_components(es[k].path@).subrange(0, d.len() as int) =~= d);
            }
            assert forall|i: int| 0 <= i < sel.len() implies {
                &&& #[trigger] sel[i] < es.len()
                &&& d.is_prefix_of(path_components(es[sel[i] as int].path@))
            } by {
                assert(sel[i] == k as usize);
            }
        },
        None => {
            let m = entries_under(es, r);
            if m.len() == 0 {
                assert forall|e: int| 0 <= e < es.len() implies !d.is_prefix_of(path_components(#[trigger] es[e].path@)) by {
                    if d.is_prefix_of(path_components(es[e].path@)) {
                        assert(m.contains(e as usize));
                    }
                }
            }
        },
    }
}

} // verus!
