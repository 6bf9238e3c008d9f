//! The definition query: the symbols of a name, narrowed by the file or
//! directory they come from, types first; and the body each one shows.
use vstd::prelude::*;
use crate::index::{priority_of, symbol_priority, FileEntry, Index, SymbolKind};
use crate::lines::{line_at, read_body, utf8_lossy};
use crate::pagination::{page_of, paginate, Paginated, Pagination};
use crate::path::{
    rel_form, rel_form_chars,
    components, display_chars, forward_slashes, is_same_path, path_components, path_starts_with,
    same_path, split_chars, split_on, starts_with_path, views, lemma_split_on_nonempty, copy_chars,
};
use crate::query::{
    all_entries, collect_symbol_hits, files_to_search, hit_ok, hit_symbol, lemma_hits_valid,
    symbol_hits, valid_files, NameFilter, NameTest,
};
use crate::sort::{key_order, key_value, lemma_is_sort_by, sort_items, KeyPart, Keyed, PartValue};
use crate::text::{chars_of, join, join_chars, string_from};

verus! {

broadcast use vstd::seq_lib::group_to_multiset_ensures;

/// Where a definition should come from: a file, or a directory (relative to
/// the project root).
pub struct FromFilter {
    pub rel: String,
    pub is_dir: bool,
}

/// A hit lies in the file, or below the directory, of the filter.
pub open spec fn from_selects(es: Seq<FileEntry>, rel: Seq<char>, is_dir: bool) -> spec_fn((usize, usize)) -> bool {
    |h: (usize, usize)| if is_dir {
        path_starts_with(es[h.0 as int].path@, rel)
    } else {
        same_path(es[h.0 as int].path@, rel)
    }
}

/// The symbols named `name` (of the kind, if given) in all files; narrowed to
/// those the filter selects when it selects any.
pub open spec fn definition_candidates(
    es: Seq<FileEntry>,
    name: Seq<char>,
    kind: Option<SymbolKind>,
    from: Option<(Seq<char>, bool)>,
) -> Seq<(usize, usize)> {
    let hits = symbol_hits(es, all_entries(es.len()), NameTest::Exact(name), kind);
    match from {
        Some((rel, is_dir)) => {
            let narrowed = hits.filter(from_selects(es, rel_form(rel), is_dir));
            if narrowed.len() > 0 { narrowed } else { hits }
        },
        None => hits,
    }
}

/// Definitions are ordered by kind priority (types first), then by file path;
/// ties keep index order.
pub open spec fn definition_key(es: Seq<FileEntry>) -> spec_fn((usize, usize)) -> Seq<PartValue> {
    |h: (usize, usize)| seq![
        PartValue::Up(priority_of(hit_symbol(es, h).kind) as nat),
        PartValue::Comps(path_components(es[h.0 as int].path@)),
        PartValue::Up(h.0 as nat),
        PartValue::Up(h.1 as nat),
    ]
}

/// The definitions in the order they are shown.
pub open spec fn definition_order(
    es: Seq<FileEntry>,
    name: Seq<char>,
    kind: Option<SymbolKind>,
    from: Option<(Seq<char>, bool)>,
) -> Seq<(usize, usize)> {
    definition_candidates(es, name, kind, from).sort_by(key_order(definition_key(es)))
}

pub open spec fn from_view(from: Option<&FromFilter>) -> Option<(Seq<char>, bool)> {
    match from {
        Some(f) => Some((f.rel@, f.is_dir)),
        None => None,
    }
}

proof fn lemma_definition_key_injective(es: Seq<FileEntry>)
    ensures
        forall|a: (usize, usize), b: (usize, usize)| #[trigger] definition_key(es)(a) == #[trigger] definition_key(es)(b) ==> a == b,
{
    assert forall|a: (usize, usize), b: (usize, usize)| #[trigger] definition_key(es)(a) == #[trigger] definition_key(es)(b) implies a == b by {
        assert(definition_key(es)(a)[2] == definition_key(es)(b)[2]);
        assert(definition_key(es)(a)[3] == definition_key(es)(b)[3]);
    }
}

fn from_selects_exec(index: &Index, h: (usize, usize), rel: &Vec<char>, is_dir: bool) -> (r: bool)
    requires
        h.0 < index.entries@.len(),
    ensures
        r == from_selects(index.entries@, rel@, is_dir)(h),
{
    let p = chars_of(index.entries[h.0].path.as_str());
    if is_dir {
        starts_with_path(p.as_slice(), rel.as_slice())
    } else {
        is_same_path(p.as_slice(), rel.as_slice())
    }
}

fn definition_keyed(index: &Index, hits: Vec<(usize, usize)>) -> (r: Vec<Keyed<(usize, usize)>>)
    requires
        forall|i: int| 0 <= i < hits@.len() ==> #[trigger] hit_ok(index.entries@, hits@[i]),
    ensures
        r@.map_values(|k: Keyed<(usize, usize)>| k.item) == hits@,
        forall|i: int| 0 <= i < r@.len() ==> key_value(#[trigger] r@[i].key@) == definition_key(index.entries@)(r@[i].item),
{
    let mut r: Vec<Keyed<(usize, usize)>> = Vec::new();
    let mut i: usize = 0;
    while i < hits.len()
        invariant
            i <= hits@.len(),
            forall|k: int| 0 <= k < hits@.len() ==> #[trigger] hit_ok(index.entries@, hits@[k]),
            r@.map_values(|k: Keyed<(usize, usize)>| k.item) == hits@.take(i as int),
            forall|k: int| 0 <= k < r@.len() ==> key_value(#[trigger] r@[k].key@) == definition_key(index.entries@)(r@[k].item),
        decreases hits.len() - i,
    {
        let (e, j) = hits[i];
        proof { assert(hit_ok(index.entries@, hits@[i as int])); }
        let p = chars_of(index.entries[e].path.as_str());
        let mut key: Vec<KeyPart> = Vec::new();
        key.push(KeyPart::Up(symbol_priority(index.entries[e].data.symbols[j].kind) as usize));
        key.push(KeyPart::Comps(components(p.as_slice())));
        key.push(KeyPart::Up(e));
        key.push(KeyPart::Up(j));
        proof { assert(key_value(key@) =~= definition_key(index.entries@)((e, j))); }
        let ghost old_items = r@.map_values(|k: Keyed<(usize, usize)>| k.item);
        r.push(Keyed { key, item: (e, j) });
        proof {
            assert(hits@.take(i + 1) =~= hits@.take(i as int).push(hits@[i as int]));
            assert(r@.map_values(|k: Keyed<(usize, usize)>| k.item) =~= old_items.push((e, j)));
        }
        i = i + 1;
    }
    proof { assert(hits@.take(hits@.len() as int) =~= hits@); }
    r
}

/// The definition query: the symbols named `name` (of the kind, if given),
/// narrowed to the `from` file or directory when that leaves any, ordered
/// types first then by file path, one page of them. An empty page with
/// `total == 0` means no matches. Bodies are read afterwards, for the page
/// only.
pub fn definition(
    index: &Index,
    name: &str,
    from: Option<&FromFilter>,
    kind_filter: Option<SymbolKind>,
    pg: &Pagination,
) -> (r: Paginated<(usize, usize)>)
    ensures
        r.total == definition_order(index.entries@, name@, kind_filter, from_view(from)).len(),
        r.items@ == page_of(definition_order(index.entries@, name@, kind_filter, from_view(from)), pg.offset as nat, pg.limit),
        r.offset == pg.offset,
        r.limit == pg.limit,
        forall|i: int| 0 <= i < r.items@.len() ==> #[trigger] hit_ok(index.entries@, r.items@[i]),
{
    let ghost es = index.entries@;
    let files = match files_to_search(index, None) {
        Ok(f) => f,
        Err(_) => Vec::new(),
    };
    proof { assert(valid_files(es, files@)); }
    let test = NameFilter::Exact(chars_of(name));
    let hits = collect_symbol_hits(index, &files, &test, kind_filter);
    proof { lemma_hits_valid(es, files@, test@, kind_filter); }
    let ghost all_hits = hits@;
    let chosen = match from {
        Some(f) => {
            let rel = rel_form_chars(chars_of(f.rel.as_str()).as_slice());
            let ghost pred = from_selects(es, rel@, f.is_dir);
            proof { assert(rel@ == rel_form(f.rel@)); }
            let mut narrowed: Vec<(usize, usize)> = Vec::new();
            let mut i: usize = 0;
            proof { assert(hits@.take(0) =~= Seq::<(usize, usize)>::empty()); reveal(Seq::filter); }
            while i < hits.len()
                invariant
                    es == index.entries@,
                    i <= hits@.len(),
                    forall|k: int| 0 <= k < hits@.len() ==> #[trigger] hit_ok(es, hits@[k]),
                    pred == from_selects(es, rel@, f.is_dir),
                    narrowed@ == hits@.take(i as int).filter(pred),
                    forall|k: int| 0 <= k < narrowed@.len() ==> #[trigger] hit_ok(es, narrowed@[k]),
                decreases hits.len() - i,
            {
                let h = hits[i];
                proof {
                    assert(hit_ok(es, hits@[i as int]));
                    assert(hits@.take(i + 1) =~= hits@.take(i as int).push(h));
                    hits@.take(i as int).lemma_filter_push(h, pred);
                }
                if from_selects_exec(index, h, &rel, f.is_dir) {
                    let ghost old_n = narrowed@;
                    narrowed.push(h);
                    proof {
                        assert forall|k: int| 0 <= k < narrowed@.len() implies #[trigger] hit_ok(es, narrowed@[k]) by {
                            if k < old_n.len() { assert(narrowed@[k] == old_n[k]); }
                        }
                    }
                }
                i = i + 1;
            }
            proof { assert(hits@.take(hits@.len() as int) =~= hits@); }
            if narrowed.len() > 0 {
                narrowed
            } else {
                hits
            }
        },
        None => hits,
    };
    let ghost cand = chosen@;
    proof {
        assert(cand == definition_candidates(es, name@, kind_filter, from_view(from)));
        assert(forall|k: int| 0 <= k < cand.len() ==> #[trigger] hit_ok(es, cand[k]));
    }
    let keyed = definition_keyed(index, chosen);
    let sorted = sort_items(keyed, Ghost(definition_key(es)));
    proof {
        lemma_definition_key_injective(es);
        lemma_is_sort_by(sorted@, cand, definition_key(es));
        assert forall|i: int| 0 <= i < sorted@.len() implies #[trigger] hit_ok(es, sorted@[i]) by {
            assert(sorted@.to_multiset().count(sorted@[i]) > 0);
            assert(cand.contains(sorted@[i]));
        }
    }
    let page = paginate(sorted, pg);
    proof {
        assert forall|i: int| 0 <= i < page.items@.len() implies #[trigger] hit_ok(es, page.items@[i]) by {
            let s = sorted@;
            let st = crate::pagination::page_start(s.len(), pg.offset as nat);
            assert(page.items@[i] == s[st + i]);
        }
    }
    page
}

/// A line without the `\r` of a `\r\n` ending.
pub open spec fn strip_cr(l: Seq<char>) -> Seq<char> {
    if l.len() > 0 && l.last() == '\r' { l.drop_last() } else { l }
}

/// The lines of a text as `str::lines` gives them: split at `\n`, a `\r`
/// before the `\n` dropped, and no empty last line after a final newline.
pub open spec fn text_lines(s: Seq<char>) -> Seq<Seq<char>> {
    let parts = split_on(s, '\n');
    let n = parts.len();
    let head = parts.take(n - 1).map_values(|l: Seq<char>| strip_cr(l));
    if parts[n - 1].len() == 0 { head } else { head.push(parts[n - 1]) }
}

/// The lines of a text.
pub fn lines_of(s: &[char]) -> (r: Vec<Vec<char>>)
    ensures
        views(r@) == text_lines(s@),
{
    let parts = split_chars(s, '\n');
    proof { lemma_split_on_nonempty(s@, '\n'); }
    let ghost pv = views(parts@);
    let n = parts.len();
    let mut r: Vec<Vec<char>> = Vec::new();
    let mut i: usize = 0;
    while i + 1 < n
        invariant
            n == parts@.len(),
            n >= 1,
            pv == views(parts@),
            i <= n - 1,
            views(r@) == pv.take(i as int).map_values(|l: Seq<char>| strip_cr(l)),
        decreases n - i,
    {
        let part = parts[i].as_slice();
        let len = part.len();
        let line = if len > 0 && part[len - 1] == '\r' {
            let mut l: Vec<char> = Vec::new();
            let mut k: usize = 0;
            while k + 1 < len
                invariant
                    len == part@.len(),
                    len > 0,
                    k <= len - 1,
                    l@ == part@.take(k as int),
                decreases len - k,
            {
                l.push(part[k]);
                proof { assert(part@.take(k + 1) =~= part@.take(k as int).push(part@[k as int])); }
                k = k + 1;
            }
            proof { assert(l@ =~= part@.drop_last()); }
            l
        } else {
            copy_chars(part)
        };
        let ghost old_r = views(r@);
        r.push(line);
        proof {
            assert(pv[i as int] == part@);
            assert(views(r@) =~= old_r.push(strip_cr(pv[i as int])));
            assert(pv.take(i + 1).map_values(|l: Seq<char>| strip_cr(l))
                =~= pv.take(i as int).map_values(|l: Seq<char>| strip_cr(l)).push(strip_cr(pv[i as int])));
        }
        i = i + 1;
    }
    let last = parts[n - 1].as_slice();
    proof { assert(pv[n - 1] == last@); }
    if last.len() > 0 {
        let ghost old_r = views(r@);
        r.push(copy_chars(last));
        proof { assert(views(r@) =~= old_r.push(pv[n - 1])); }
    }
    r
}

/// The body a definition shows: at most `max_lines` lines, joined by `\n`;
/// a body within the limit is shown as it is.
pub open spec fn shown_body(body: Seq<char>, max_lines: nat) -> Seq<char> {
    let lines = text_lines(body);
    if lines.len() > max_lines {
        join(lines.take(max_lines as int), seq!['\n'])
    } else {
        body
    }
}

/// A definition as shown.
pub struct DefinitionResult {
    pub file: String,
    pub line: usize,
    /// `Some(true)` when the body was cut to the line limit.
    pub truncated: Option<bool>,
    /// The body's full line count, when it was cut.
    pub lines: Option<usize>,
    pub body: String,
}

/// The text and first line of a symbol's body: empty and 0 when the source
/// could not be read or is shorter than the range.
pub open spec fn body_of(source: Option<Seq<u8>>, range: (usize, usize)) -> (Seq<char>, nat) {
    match source {
        Some(src) => if range.1 <= src.len() {
            (utf8_lossy(src.subrange(range.0 as int, range.1 as int)), line_at(src, range.0 as nat))
        } else {
            (seq![], 0)
        },
        None => (seq![], 0),
    }
}

pub open spec fn opt_bytes(source: Option<&[u8]>) -> Option<Seq<u8>> {
    match source {
        Some(s) => Some(s@),
        None => None,
    }
}

/// What a definition shows of a body that starts on `line`: the body cut to
/// `max_lines` lines, with the full line count when it was cut.
pub fn shown_definition(path: &str, body: String, line: usize, max_lines: usize) -> (r: DefinitionResult)
    ensures
        ({
            let n = text_lines(body@).len();
            &&& r.file@ == forward_slashes(path@)
            &&& r.line == line
            &&& r.truncated == if n > max_lines { Some(true) } else { None }
            &&& r.lines == if n > max_lines { Some(n as usize) } else { None }
            &&& r.body@ == shown_body(body@, max_lines as nat)
        }),
{
    let chars = chars_of(body.as_str());
    let lines = lines_of(chars.as_slice());
    let n = lines.len();
    let truncated = n > max_lines;
    let shown = if truncated {
        let mut lines = lines;
        lines.truncate(max_lines);
        let mut sep: Vec<char> = Vec::new();
        sep.push('\n');
        proof { assert(sep@ =~= seq!['\n']); }
        let j = join_chars(&lines, sep.as_slice());
        string_from(j.as_slice())
    } else {
        body
    };
    proof {
        if truncated {
            assert(views(lines@).take(max_lines as int) =~= views(lines@.take(max_lines as int)));
        }
    }
    let p = chars_of(path);
    DefinitionResult {
        file: string_from(display_chars(p.as_slice()).as_slice()),
        line,
        truncated: if truncated { Some(true) } else { None },
        lines: if truncated { Some(n) } else { None },
        body: shown,
    }
}

/// Builds what a definition shows from the source of its file (`None` when
/// the file could not be read): the body of the byte range and its first
/// line, empty and 0 when the range runs past the end of the source.
pub fn definition_result(path: &str, source: Option<&[u8]>, byte_range: (usize, usize), max_lines: usize)
    -> (r: DefinitionResult)
    requires
        source matches Some(s) ==> s@.len() < usize::MAX && (byte_range.1 <= s@.len() ==> byte_range.0 <= byte_range.1),
    ensures
        ({
            let (body, line) = body_of(opt_bytes(source), byte_range);
            let n = text_lines(body).len();
            &&& r.file@ == forward_slashes(path@)
            &&& r.line == line
            &&& r.truncated == if n > max_lines { Some(true) } else { None }
            &&& r.lines == if n > max_lines { Some(n as usize) } else { None }
            &&& r.body@ == shown_body(body, max_lines as nat)
        }),
        // valid UTF-8 decodes to exactly the characters it encodes
        source matches Some(s) ==> (byte_range.1 <= s@.len()
            && vstd::utf8::valid_utf8(s@.subrange(byte_range.0 as int, byte_range.1 as int))
            ==> body_of(opt_bytes(source), byte_range).0 == vstd::utf8::decode_utf8(s@.subrange(byte_range.0 as int, byte_range.1 as int))),
{
    let (body, line) = match source {
        Some(src) => match read_body(src, byte_range) {
            Some((b, l)) => (b, l),
            None => (String::new(), 0),
        },
        None => (String::new(), 0),
    };
    shown_definition(path, body, line, max_lines)
}

/// Narrowing by `--from` only ever drops definitions: every definition shown
/// with the filter is shown without it, and when the filter selects any
/// definition, all that it shows lie in the filter's file or directory.
pub proof fn lemma_from_narrows(
    es: Seq<FileEntry>,
    name: Seq<char>,
    kind: Option<SymbolKind>,
    rel: Seq<char>,
    is_dir: bool,
)
    ensures
        ({
            let all = definition_order(es, name, kind, None);
            let nar = definition_order(es, name, kind, Some((rel, is_dir)));
            let sel = from_selects(es, rel_form(rel), is_dir);
            &&& nar.len() <= all.len()
            &&& forall|h: (usize, usize)| nar.contains(h) ==> all.contains(h)
            &&& (exists|h: (usize, usize)| all.contains(h) && sel(h))
                ==> forall|h: (usize, usize)| #[trigger] nar.contains(h) ==> sel(h)
        }),
{
    let hits = symbol_hits(es, all_entries(es.len()), NameTest::Exact(name), kind);
    let sel = from_selects(es, rel_form(rel), is_dir);
    let leq = key_order(definition_key(es));
    lemma_definition_key_injective(es);
    crate::sort::lemma_key_order_total(definition_key(es));
    let narrowed = hits.filter(sel);
    let cand = definition_candidates(es, name, kind, Some((rel, is_dir)));
    hits.lemma_sort_by_ensures(leq);
    cand.lemma_sort_by_ensures(leq);
    let all = definition_order(es, name, kind, None);
    let nar = definition_order(es, name, kind, Some((rel, is_dir)));
    assert(all.len() == hits.len()) by {
        assert(all.to_multiset().len() == hits.to_multiset().len());
    }
    assert(nar.len() == cand.len()) by {
        assert(nar.to_multiset().len() == cand.to_multiset().len());
    }
    hits.lemma_filter_len(sel);
    assert forall|h: (usize, usize)| nar.contains(h) implies all.contains(h) by {
        assert(nar.to_multiset().count(h) > 0);
        assert(cand.contains(h));
        if narrowed.len() > 0 {
            hits.lemma_filter_contains_rev(sel, h);
        }
        assert(hits.to_multiset().count(h) > 0);
    }
    if exists|h: (usize, usize)| all.contains(h) && sel(h) {
        let h0 = choose|h: (usize, usize)| all.contains(h) && sel(h);
        assert(all.to_multiset().count(h0) > 0);
        assert(hits.contains(h0));
        let k = choose|k: int| 0 <= k < hits.len() && hits[k] == h0;
        hits.lemma_filter_contains(sel, k);
        assert(narrowed.len() > 0);
        assert forall|h: (usize, usize)| #[trigger] nar.contains(h) implies sel(h) by {
            assert(nar.to_multiset().count(h) > 0);
            assert(narrowed.contains(h));
            let j = choose|j: int| 0 <= j < narrowed.len() && narrowed[j] == h;
            hits.lemma_filter_pred(sel, j);
        }
    }
}

proof fn lemma_from_keeps_selected(
    es: Seq<FileEntry>,
    name: Seq<char>,
    kind: Option<SymbolKind>,
    rel: Seq<char>,
    is_dir: bool,
)
    ensures
        ({
            let all = definition_order(es, name, kind, None);
            let nar = definition_order(es, name, kind, Some((rel, is_dir)));
            let sel = from_selects(es, rel_form(rel), is_dir);
            forall|h: (usize, usize)| all.contains(h) && #[trigger] sel(h) ==> nar.contains(h)
        }),
{
    let hits = symbol_hits(es, all_entries(es.len()), NameTest::Exact(name), kind);
    let sel = from_selects(es, rel_form(rel), is_dir);
    let leq = key_order(definition_key(es));
    lemma_definition_key_injective(es);
    crate::sort::lemma_key_order_total(definition_key(es));
    let narrowed = hits.filter(sel);
    let cand = definition_candidates(es, name, kind, Some((rel, is_dir)));
    hits.lemma_sort_by_ensures(leq);
    cand.lemma_sort_by_ensures(leq);
    let all = definition_order(es, name, kind, None);
    let nar = definition_order(es, name, kind, Some((rel, is_dir)));
    assert forall|h: (usize, usize)| all.contains(h) && #[trigger] sel(h) implies nar.contains(h) by {
        assert(all.to_multiset().count(h) > 0);
        assert(hits.contains(h));
        let k = choose|k: int| 0 <= k < hits.len() && hits[k] == h;
        hits.lemma_filter_contains(sel, k);
        assert(narrowed.len() > 0);
        assert(cand.contains(h));
        assert(cand.to_multiset().count(h) > 0);
        assert(nar.to_multiset().count(h) > 0);
    }
}

/// `--from DIR`: when any definition lies below the directory (its path's
/// components begin with the directory's, whole components), the
/// definitions shown are exactly those below it: `--from src` leaves out
/// `src-tauri/...`.
pub proof fn lemma_from_directory(es: Seq<FileEntry>, name: Seq<char>, kind: Option<SymbolKind>, rel: Seq<char>)
    ensures
        ({
            let all = definition_order(es, name, kind, None);
            let nar = definition_order(es, name, kind, Some((rel, true)));
            let d = path_components(rel_form(rel));
            (exists|h: (usize, usize)| all.contains(h) && d.is_prefix_of(path_components(#[trigger] es[h.0 as int].path@)))
                ==> {
                    &&& forall|h: (usize, usize)| #[trigger] nar.contains(h) ==> d.is_prefix_of(path_components(es[h.0 as int].path@))
                    &&& forall|h: (usize, usize)| all.contains(h) && d.is_prefix_of(path_components(#[trigger] es[h.0 as int].path@))
                        ==> nar.contains(h)
                }
        }),
{
    let all = definition_order(es, name, kind, None);
    let nar = definition_order(es, name, kind, Some((rel, true)));
    let d = path_components(rel_form(rel));
    let sel = from_selects(es, rel_form(rel), true);
    lemma_from_narrows(es, name, kind, rel, true);
    lemma_from_keeps_selected(es, name, kind, rel, true);
    if exists|h: (usize, usize)| all.contains(h) && d.is_prefix_of(path_components(#[trigger] es[h.0 as int].path@)) {
        let h0 = choose|h: (usize, usize)| all.contains(h) && d.is_prefix_of(path_components(#[trigger] es[h.0 as int].path@));
        assert(sel(h0));
        assert forall|h: (usize, usize)| #[trigger] nar.contains(h) implies d.is_prefix_of(path_components(es[h.0 as int].path@)) by {
            assert(sel(h));
        }
        assert forall|h: (usize, usize)| all.contains(h) && d.is_prefix_of(path_components(#[trigger] es[h.0 as int].path@))
            implies nar.contains(h) by {
            assert(sel(h));
        }
    }
}

/// `--from FILE`: when any definition lies in the file (the same path
/// components), the definitions shown are exactly those in it.
pub proof fn lemma_from_file(es: Seq<FileEntry>, name: Seq<char>, kind: Option<SymbolKind>, rel: Seq<char>)
    ensures
        ({
            let all = definition_order(es, name, kind, None);
            let nar = definition_order(es, name, kind, Some((rel, false)));
            let d = path_components(rel_form(rel));
            (exists|h: (usize, usize)| all.contains(h) && path_components(#[trigger] es[h.0 as int].path@) == d)
                ==> {
                    &&& forall|h: (usize, usize)| #[trigger] nar.contains(h) ==> path_components(es[h.0 as int].path@) == d
                    &&& forall|h: (usize, usize)| all.contains(h) && path_components(#[trigger] es[h.0 as int].path@) == d
                        ==> nar.contains(h)
                }
        }),
{
    let all = definition_order(es, name, kind, None);
    let nar = definition_order(es, name, kind, Some((rel, false)));
    let d = path_components(rel_form(rel));
    let sel = from_selects(es, rel_form(rel), false);
    lemma_from_narrows(es, name, kind, rel, false);
    lemma_from_keeps_selected(es, name, kind, rel, false);
    if exists|h: (usize, usize)| all.contains(h) && path_components(#[trigger] es[h.0 as int].path@) == d {
        let h0 = choose|h: (usize, usize)| all.contains(h) && path_components(#[trigger] es[h.0 as int].path@) == d;
        assert(sel(h0));
        assert forall|h: (usize, usize)| #[trigger] nar.contains(h) implies path_components(es[h.0 as int].path@) == d by {
            assert(sel(h));
        }
        assert forall|h: (usize, usize)| all.contains(h) && path_components(#[trigger] es[h.0 as int].path@) == d
            implies nar.contains(h) by {
            assert(sel(h));
        }
    }
}

} // verus!
