//! The directory overview: the files directly in a directory with their
//! leading symbols, and each subdirectory with its file and symbol counts.
use vstd::prelude::*;
use crate::index::{kind_name, priority_of, symbol_priority, FileData, FileEntry, Index, Symbol, SymbolKind};
use crate::pagination::{page_of, paginate, Paginated, Pagination};
use crate::path::{
    child_place, rel_form, rel_form_chars, components, copy_chars, cur_comp, display_chars, forward_slashes,
    is_test_chars, place_chars, is_test_path, path_components, path_starts_with,
    starts_with_path, views,
};
use crate::query::{all_entries, QueryError, QueryErrorView};
use crate::sort::{key_le, key_order, key_value, lemma_is_sort_by, sort_items, KeyPart, Keyed, PartValue};
use crate::text::{chars_of, compare_chars, decimal, join, join_chars, lex_le, lex_lt, push_all, push_decimal, push_str, string_from, Cmp};

verus! {

broadcast use vstd::seq_lib::group_to_multiset_ensures;

/// The most symbols listed per file.
pub const DIR_OVERVIEW_MAX_SYMBOLS: usize = 10;

/// The directory an overview covers, in normalized form; `.` (or nothing)
/// stands for the whole project.
pub open spec fn overview_dir(dir: Seq<char>) -> Seq<char> {
    rel_form(dir)
}

/// An entry is covered: it lies below the directory (any entry, for the
/// whole project) and is not a test file when tests are left out.
pub open spec fn covered(es: Seq<FileEntry>, dir: Seq<char>, no_tests: bool, e: int) -> bool {
    &&& (dir.len() == 0 || path_starts_with(es[e].path@, dir))
    &&& (!no_tests || !is_test_path(es[e].path@))
}

/// The covered entries, in index order.
pub open spec fn covered_entries(es: Seq<FileEntry>, dir: Seq<char>, no_tests: bool) -> Seq<usize>
    decreases es.len(),
{
    if es.len() == 0 {
        seq![]
    } else {
        let r = covered_entries(es.drop_last(), dir, no_tests);
        if covered(es, dir, no_tests, es.len() - 1) { r.push((es.len() - 1) as usize) } else { r }
    }
}

/// The symbols of a file that an overview lists (all, or the non-tests), in
/// file order.
pub open spec fn listed_symbols(syms: Seq<Symbol>, no_tests: bool) -> Seq<usize>
    decreases syms.len(),
{
    if syms.len() == 0 {
        seq![]
    } else {
        let r = listed_symbols(syms.drop_last(), no_tests);
        if !no_tests || !syms.last().is_test { r.push((syms.len() - 1) as usize) } else { r }
    }
}

/// Listed symbols are ordered by kind priority, then name; ties keep file
/// order.
pub open spec fn listed_key(syms: Seq<Symbol>) -> spec_fn(usize) -> Seq<PartValue> {
    |j: usize| seq![
        PartValue::Up(priority_of(syms[j as int].kind) as nat),
        PartValue::Text(syms[j as int].name@),
        PartValue::Up(j as nat),
    ]
}

/// The listed symbols of a file in listing order.
pub open spec fn listed_order(syms: Seq<Symbol>, no_tests: bool) -> Seq<usize> {
    listed_symbols(syms, no_tests).sort_by(key_order(listed_key(syms)))
}

/// The symbols of all entries, counted.
pub open spec fn symbol_total(es: Seq<FileEntry>) -> nat
    decreases es.len(),
{
    if es.len() == 0 { 0 } else { symbol_total(es.drop_last()) + es.last().data.symbols@.len() }
}

/// The symbols of the given entries, counted.
pub open spec fn symbols_in(es: Seq<FileEntry>, files: Seq<usize>) -> nat
    decreases files.len(),
{
    if files.len() == 0 { 0 } else { symbols_in(es, files.drop_last()) + es[files.last() as int].data.symbols@.len() }
}

proof fn lemma_listed_valid(syms: Seq<Symbol>, no_tests: bool)
    ensures
        listed_symbols(syms, no_tests).len() <= syms.len(),
        forall|i: int| 0 <= i < listed_symbols(syms, no_tests).len() ==> #[trigger] listed_symbols(syms, no_tests)[i] < syms.len(),
        !no_tests ==> listed_symbols(syms, no_tests).len() == syms.len(),
    decreases syms.len(),
{
    if syms.len() > 0 {
        lemma_listed_valid(syms.drop_last(), no_tests);
    }
}

proof fn lemma_covered_valid(es: Seq<FileEntry>, dir: Seq<char>, no_tests: bool)
    requires
        es.len() <= usize::MAX,
    ensures
        forall|i: int| 0 <= i < covered_entries(es, dir, no_tests).len() ==> {
            &&& #[trigger] covered_entries(es, dir, no_tests)[i] < es.len()
            &&& covered(es, dir, no_tests, covered_entries(es, dir, no_tests)[i] as int)
        },
        forall|i: int, j: int| 0 <= i < j < covered_entries(es, dir, no_tests).len()
            ==> covered_entries(es, dir, no_tests)[i] < covered_entries(es, dir, no_tests)[j],
    decreases es.len(),
{
    if es.len() > 0 {
        lemma_covered_valid(es.drop_last(), dir, no_tests);
        let r = covered_entries(es.drop_last(), dir, no_tests);
        assert forall|i: int| 0 <= i < r.len() implies covered(es, dir, no_tests, #[trigger] r[i] as int) by {
            assert(covered(es.drop_last(), dir, no_tests, r[i] as int));
            assert(es.drop_last()[r[i] as int] == es[r[i] as int]);
        }
        if covered(es, dir, no_tests, es.len() - 1) {
            let x = (es.len() - 1) as usize;
            let r2 = r.push(x);
            assert(covered_entries(es, dir, no_tests) == r2);
            assert forall|i: int, j: int| 0 <= i < j < r2.len() implies r2[i] < r2[j] by {
                if j == r.len() {
                    assert(r2[i] == r[i]);
                } else {
                    assert(r2[i] == r[i]);
                    assert(r2[j] == r[j]);
                }
            }
            assert forall|i: int| 0 <= i < r2.len() implies #[trigger] r2[i] < es.len() && covered(es, dir, no_tests, r2[i] as int) by {
                if i < r.len() {
                    assert(r2[i] == r[i]);
                }
            }
        }
    }
}

proof fn lemma_symbols_in_prefix(es: Seq<FileEntry>, files: Seq<usize>, i: int)
    requires
        0 <= i <= files.len(),
    ensures
        symbols_in(es, files.take(i)) <= symbols_in(es, files),
    decreases files.len(),
{
    if i < files.len() {
        lemma_symbols_in_prefix(es, files.drop_last(), i);
        assert(files.drop_last().take(i) =~= files.take(i));
    } else {
        assert(files.take(i) =~= files);
    }
}

proof fn lemma_symbols_in_shorter(es: Seq<FileEntry>, files: Seq<usize>)
    requires
        es.len() > 0,
        forall|i: int| 0 <= i < files.len() ==> #[trigger] files[i] < es.len() - 1,
    ensures
        symbols_in(es, files) == symbols_in(es.drop_last(), files),
    decreases files.len(),
{
    if files.len() > 0 {
        lemma_symbols_in_shorter(es, files.drop_last());
        assert(files[files.len() - 1] < es.len() - 1);
    }
}

proof fn lemma_covered_symbols_le(es: Seq<FileEntry>, dir: Seq<char>, no_tests: bool)
    requires
        es.len() <= usize::MAX,
    ensures
        symbols_in(es, covered_entries(es, dir, no_tests)) <= symbol_total(es),
    decreases es.len(),
{
    if es.len() > 0 {
        let es2 = es.drop_last();
        lemma_covered_symbols_le(es2, dir, no_tests);
        lemma_covered_valid(es2, dir, no_tests);
        let r = covered_entries(es2, dir, no_tests);
        lemma_symbols_in_shorter(es, r);
        assert(symbol_total(es) == symbol_total(es2) + es.last().data.symbols@.len());
        if covered(es, dir, no_tests, es.len() - 1) {
            let x = (es.len() - 1) as usize;
            let r2 = r.push(x);
            assert(covered_entries(es, dir, no_tests) == r2);
            assert(r2.drop_last() =~= r);
            assert(r2.last() == x);
            assert(symbols_in(es, r2) == symbols_in(es, r) + es[x as int].data.symbols@.len());
        } else {
            assert(covered_entries(es, dir, no_tests) == r);
        }
    }
}

/// Gathers the covered entries.
fn covered_exec(index: &Index, dir: &Vec<char>, no_tests: bool) -> (r: Vec<usize>)
    ensures
        r@ == covered_entries(index.entries@, dir@, no_tests),
{
    let es = &index.entries;
    let mut r: Vec<usize> = Vec::new();
    let mut i: usize = 0;
    proof { assert(es@.take(0) =~= Seq::<FileEntry>::empty()); }
    while i < es.len()
        invariant
            es == &index.entries,
            i <= es@.len(),
            r@ == covered_entries(es@.take(i as int), dir@, no_tests),
        decreases es.len() - i,
    {
        proof {
            assert(es@.take(i + 1).drop_last() =~= es@.take(i as int));
            assert(es@.take(i + 1)[i as int] == es@[i as int]);
        }
        let p = chars_of(es[i].path.as_str());
        let under = dir.len() == 0 || starts_with_path(p.as_slice(), dir.as_slice());
        let keep = under && (!no_tests || !is_test_chars(p.as_slice()));
        if keep {
            r.push(i);
        }
        i = i + 1;
    }
    proof { assert(es@.take(es@.len() as int) =~= es@); }
    r
}

/// The listed symbols of a file in listing order.
fn listed_exec(syms: &Vec<Symbol>, no_tests: bool) -> (r: Vec<usize>)
    ensures
        r@ == listed_order(syms@, no_tests),
        r@.len() == listed_symbols(syms@, no_tests).len(),
        forall|i: int| 0 <= i < r@.len() ==> #[trigger] r@[i] < syms@.len(),
{
    let mut cand: Vec<usize> = Vec::new();
    let mut j: usize = 0;
    proof { assert(syms@.take(0) =~= Seq::<Symbol>::empty()); }
    while j < syms.len()
        invariant
            j <= syms@.len(),
            cand@ == listed_symbols(syms@.take(j as int), no_tests),
        decreases syms.len() - j,
    {
        proof {
            assert(syms@.take(j + 1).drop_last() =~= syms@.take(j as int));
            assert(syms@.take(j + 1).last() == syms@[j as int]);
        }
        if !no_tests || !syms[j].is_test {
            cand.push(j);
        }
        j = j + 1;
    }
    proof {
        assert(syms@.take(syms@.len() as int) =~= syms@);
        lemma_listed_valid(syms@, no_tests);
    }
    let ghost cv = cand@;
    let mut keyed: Vec<Keyed<usize>> = Vec::new();
    let mut i: usize = 0;
    while i < cand.len()
        invariant
            cv == cand@,
            cv == listed_symbols(syms@, no_tests),
            forall|k: int| 0 <= k < cv.len() ==> #[trigger] cv[k] < syms@.len(),
            i <= cv.len(),
            keyed@.map_values(|k: Keyed<usize>| k.item) == cv.take(i as int),
            forall|k: int| 0 <= k < keyed@.len() ==> key_value(#[trigger] keyed@[k].key@) == listed_key(syms@)(keyed@[k].item),
        decreases cand.len() - i,
    {
        let s = cand[i];
        proof { assert(cv[i as int] < syms@.len()); }
        let mut key: Vec<KeyPart> = Vec::new();
        key.push(KeyPart::Up(symbol_priority(syms[s].kind) as usize));
        key.push(KeyPart::Text(chars_of(syms[s].name.as_str())));
        key.push(KeyPart::Up(s));
        proof { assert(key_value(key@) =~= listed_key(syms@)(s)); }
        let ghost old_items = keyed@.map_values(|k: Keyed<usize>| k.item);
        keyed.push(Keyed { key, item: s });
        proof {
            assert(keyed@.map_values(|k: Keyed<usize>| k.item) =~= old_items.push(s));
            assert(cv.take(i + 1) =~= cv.take(i as int).push(s));
        }
        i = i + 1;
    }
    proof { assert(cv.take(cv.len() as int) =~= cv); }
    let r = sort_items(keyed, Ghost(listed_key(syms@)));
    proof {
        assert forall|a: usize, b: usize| #[trigger] listed_key(syms@)(a) == #[trigger] listed_key(syms@)(b) implies a == b by {
            assert(listed_key(syms@)(a)[2] == listed_key(syms@)(b)[2]);
        }
        lemma_is_sort_by(r@, cv, listed_key(syms@));
        assert(r@.len() == r@.to_multiset().len());
        assert(cv.len() == cv.to_multiset().len());
        assert forall|i: int| 0 <= i < r@.len() implies #[trigger] r@[i] < syms@.len() by {
            assert(r@.to_multiset().count(r@[i]) > 0);
            assert(cv.contains(r@[i]));
        }
    }
    r
}


/// The subdirectory that an entry lies in below the directory: the first
/// component below the directory when more components follow it.
pub open spec fn subdir_of(es: Seq<FileEntry>, dir: Seq<char>, e: usize) -> Option<Seq<char>> {
    match child_place(es[e as int].path@, dir) {
        Some((true, c)) => Some(c),
        _ => None,
    }
}

/// An entry lies directly in the directory: one component below it.
pub open spec fn is_direct_file(es: Seq<FileEntry>, dir: Seq<char>, e: usize) -> bool {
    child_place(es[e as int].path@, dir) matches Some((false, _))
}

/// How many symbols an overview counts for an entry.
pub open spec fn listed_count(es: Seq<FileEntry>, e: usize, no_tests: bool) -> nat {
    listed_symbols(es[e as int].data.symbols@, no_tests).len()
}

/// How many of the files lie in the subdirectory `name`.
pub open spec fn subdir_files(es: Seq<FileEntry>, files: Seq<usize>, dir: Seq<char>, name: Seq<char>) -> nat
    decreases files.len(),
{
    if files.len() == 0 {
        0
    } else {
        subdir_files(es, files.drop_last(), dir, name)
            + if subdir_of(es, dir, files.last()) == Some(name) { 1nat } else { 0nat }
    }
}

/// How many symbols the files in the subdirectory `name` hold.
pub open spec fn subdir_symbols(es: Seq<FileEntry>, files: Seq<usize>, dir: Seq<char>, no_tests: bool, name: Seq<char>) -> nat
    decreases files.len(),
{
    if files.len() == 0 {
        0
    } else {
        subdir_symbols(es, files.drop_last(), dir, no_tests, name)
            + if subdir_of(es, dir, files.last()) == Some(name) { listed_count(es, files.last(), no_tests) } else { 0nat }
    }
}

/// The subdirectories that the files lie in.
pub open spec fn subdir_names(es: Seq<FileEntry>, files: Seq<usize>, dir: Seq<char>) -> Set<Seq<char>> {
    Set::new(|n: Seq<char>| exists|i: int| 0 <= i < files.len() && subdir_of(es, dir, #[trigger] files[i]) == Some(n))
}

/// Strictly increasing in text order.
pub open spec fn strictly_sorted(s: Seq<Seq<char>>) -> bool {
    forall|i: int, j: int| 0 <= i < j < s.len() ==> lex_lt(#[trigger] s[i], #[trigger] s[j])
}

/// The subdirectories in name order.
pub open spec fn subdir_list(es: Seq<FileEntry>, files: Seq<usize>, dir: Seq<char>) -> Seq<Seq<char>> {
    choose|s: Seq<Seq<char>>| strictly_sorted(s) && s.to_set() == subdir_names(es, files, dir)
}

/// Two strictly increasing lists of the same elements are the same list.
pub proof fn lemma_strictly_sorted_unique(a: Seq<Seq<char>>, b: Seq<Seq<char>>)
    requires
        strictly_sorted(a),
        strictly_sorted(b),
        a.to_set() == b.to_set(),
    ensures
        a == b,
    decreases a.len() + b.len(),
{
    if a.len() == 0 {
        if b.len() > 0 {
            assert(b.to_set().contains(b[0]));
        }
        assert(b =~= a);
    } else if b.len() == 0 {
        assert(a.to_set().contains(a[0]));
    } else {
        assert(a.to_set().contains(a[0]));
        assert(b.contains(a[0]));
        let k = choose|k: int| 0 <= k < b.len() && b[k] == a[0];
        assert(b.to_set().contains(b[0]));
        assert(a.contains(b[0]));
        let m = choose|m: int| 0 <= m < a.len() && a[m] == b[0];
        if k > 0 && m > 0 {
            assert(lex_lt(b[0], b[k]));
            assert(lex_lt(a[0], a[m]));
            crate::text::lemma_lex_antisym(a[0], b[0]);
        } else if k > 0 {
            assert(lex_lt(b[0], b[k]));
        } else if m > 0 {
            assert(lex_lt(a[0], a[m]));
        }
        assert(a[0] == b[0]);
        let a2 = a.drop_first();
        let b2 = b.drop_first();
        assert forall|x: Seq<char>| a2.to_set().contains(x) == b2.to_set().contains(x) by {
            if a2.contains(x) {
                let i = choose|i: int| 0 <= i < a2.len() && a2[i] == x;
                assert(a[i + 1] == x);
                assert(lex_lt(a[0], x));
                assert(a.to_set().contains(x));
                assert(b.contains(x));
                let j = choose|j: int| 0 <= j < b.len() && b[j] == x;
                assert(j != 0);
                assert(b2[j - 1] == x);
            }
            if b2.contains(x) {
                let i = choose|i: int| 0 <= i < b2.len() && b2[i] == x;
                assert(b[i + 1] == x);
                assert(lex_lt(b[0], x));
                assert(b.to_set().contains(x));
                assert(a.contains(x));
                let j = choose|j: int| 0 <= j < a.len() && a[j] == x;
                assert(j != 0);
                assert(a2[j - 1] == x);
            }
        }
        assert(a2.to_set() =~= b2.to_set());
        assert forall|i: int, j: int| 0 <= i < j < a2.len() implies lex_lt(#[trigger] a2[i], #[trigger] a2[j]) by {
            assert(a2[i] == a[i + 1]);
            assert(a2[j] == a[j + 1]);
        }
        assert forall|i: int, j: int| 0 <= i < j < b2.len() implies lex_lt(#[trigger] b2[i], #[trigger] b2[j]) by {
            assert(b2[i] == b[i + 1]);
            assert(b2[j] == b[j + 1]);
        }
        lemma_strictly_sorted_unique(a2, b2);
        assert(a =~= seq![a[0]] + a2);
        assert(b =~= seq![b[0]] + b2);
    }
}

/// A subdirectory and what it holds.
pub struct SubdirCount {
    pub name: Vec<char>,
    pub files: usize,
    pub symbols: usize,
}

proof fn lemma_subdir_symbols_le(es: Seq<FileEntry>, files: Seq<usize>, dir: Seq<char>, no_tests: bool, name: Seq<char>)
    ensures
        subdir_symbols(es, files, dir, no_tests, name) <= symbols_in(es, files),
        subdir_files(es, files, dir, name) <= files.len(),
    decreases files.len(),
{
    if files.len() > 0 {
        lemma_subdir_symbols_le(es, files.drop_last(), dir, no_tests, name);
        lemma_listed_valid(es[files.last() as int].data.symbols@, no_tests);
    }
}

/// Where an entry goes: directly in the directory (`Some(true)`), in a
/// subdirectory (`Some(false)`, with its name), or nowhere (`None`).
fn place_of(index: &Index, e: usize, dir: &Vec<char>) -> (r: Option<(bool, Vec<char>)>)
    requires
        e < index.entries@.len(),
    ensures
        match r {
            Some((true, _)) => is_direct_file(index.entries@, dir@, e),
            Some((false, c)) => subdir_of(index.entries@, dir@, e) == Some(c@),
            None => !is_direct_file(index.entries@, dir@, e) && subdir_of(index.entries@, dir@, e) is None,
        },
{
    let p = chars_of(index.entries[e].path.as_str());
    match place_chars(p.as_slice(), dir.as_slice()) {
        Some((nested, c)) => Some((!nested, c)),
        None => None,
    }
}

fn count_listed(syms: &Vec<Symbol>, no_tests: bool) -> (r: usize)
    ensures
        r == listed_symbols(syms@, no_tests).len(),
{
    let mut n: usize = 0;
    let mut j: usize = 0;
    proof { assert(syms@.take(0) =~= Seq::<Symbol>::empty()); }
    while j < syms.len()
        invariant
            j <= syms@.len(),
            n == listed_symbols(syms@.take(j as int), no_tests).len(),
            n <= j,
        decreases syms.len() - j,
    {
        proof {
            assert(syms@.take(j + 1).drop_last() =~= syms@.take(j as int));
            assert(syms@.take(j + 1).last() == syms@[j as int]);
        }
        if !no_tests || !syms[j].is_test {
            n = n + 1;
        }
        j = j + 1;
    }
    proof { assert(syms@.take(syms@.len() as int) =~= syms@); }
    n
}


/// Each gathered subdirectory has the counts of the files.
pub open spec fn counts_match(es: Seq<FileEntry>, acc: Seq<SubdirCount>, files: Seq<usize>, dir: Seq<char>, no_tests: bool) -> bool {
    forall|k: int| 0 <= k < acc.len() ==> {
        &&& #[trigger] acc[k].files == subdir_files(es, files, dir, acc[k].name@)
        &&& acc[k].symbols == subdir_symbols(es, files, dir, no_tests, acc[k].name@)
    }
}

pub open spec fn acc_names(acc: Seq<SubdirCount>) -> Seq<Seq<char>> {
    acc.map_values(|c: SubdirCount| c.name@)
}

proof fn lemma_absent_counts_zero(es: Seq<FileEntry>, files: Seq<usize>, dir: Seq<char>, no_tests: bool, n: Seq<char>)
    requires
        !subdir_names(es, files, dir).contains(n),
    ensures
        subdir_files(es, files, dir, n) == 0,
        subdir_symbols(es, files, dir, no_tests, n) == 0,
    decreases files.len(),
{
    if files.len() > 0 {
        let f2 = files.drop_last();
        assert(!subdir_names(es, f2, dir).contains(n)) by {
            if subdir_names(es, f2, dir).contains(n) {
                let i = choose|i: int| 0 <= i < f2.len() && subdir_of(es, dir, #[trigger] f2[i]) == Some(n);
                assert(files[i] == f2[i]);
            }
        }
        lemma_absent_counts_zero(es, f2, dir, no_tests, n);
        assert(subdir_of(es, dir, files.last()) != Some(n)) by {
            if subdir_of(es, dir, files.last()) == Some(n) {
                assert(files[files.len() - 1] == files.last());
            }
        }
    }
}

proof fn lemma_names_step(es: Seq<FileEntry>, files: Seq<usize>, dir: Seq<char>, i: int, n: Seq<char>)
    requires
        0 <= i < files.len(),
    ensures
        subdir_names(es, files.take(i + 1), dir).contains(n)
            <==> (subdir_names(es, files.take(i), dir).contains(n) || subdir_of(es, dir, files[i]) == Some(n)),
{
    let a = files.take(i);
    let b = files.take(i + 1);
    if subdir_names(es, b, dir).contains(n) {
        let k = choose|k: int| 0 <= k < b.len() && subdir_of(es, dir, #[trigger] b[k]) == Some(n);
        if k < i {
            assert(a[k] == b[k]);
        }
    }
    if subdir_names(es, a, dir).contains(n) {
        let k = choose|k: int| 0 <= k < a.len() && subdir_of(es, dir, #[trigger] a[k]) == Some(n);
        assert(b[k] == a[k]);
    }
    if subdir_of(es, dir, files[i]) == Some(n) {
        assert(b[i] == files[i]);
    }
}

proof fn lemma_counts_found(
    es: Seq<FileEntry>, old_acc: Seq<SubdirCount>, new_acc: Seq<SubdirCount>, pre: Seq<usize>, post: Seq<usize>,
    f: usize, dir: Seq<char>, no_tests: bool, k: int, c: Seq<char>,
)
    requires
        counts_match(es, old_acc, pre, dir, no_tests),
        post == pre.push(f),
        subdir_of(es, dir, f) == Some(c),
        0 <= k < old_acc.len(),
        old_acc[k].name@ == c,
        new_acc.len() == old_acc.len(),
        forall|q: int| 0 <= q < old_acc.len() && q != k ==> new_acc[q] == old_acc[q],
        forall|q: int| 0 <= q < old_acc.len() && q != k ==> old_acc[q].name@ != c,
        new_acc[k].name@ == c,
        new_acc[k].files == old_acc[k].files + 1,
        new_acc[k].symbols == old_acc[k].symbols + listed_count(es, f, no_tests),
    ensures
        counts_match(es, new_acc, post, dir, no_tests),
{
    assert(post.drop_last() =~= pre);
    assert forall|q: int| 0 <= q < new_acc.len() implies
        #[trigger] new_acc[q].files == subdir_files(es, post, dir, new_acc[q].name@)
        && new_acc[q].symbols == subdir_symbols(es, post, dir, no_tests, new_acc[q].name@) by {
        assert(old_acc[q].files == subdir_files(es, pre, dir, old_acc[q].name@));
    }
}

proof fn lemma_counts_new(
    es: Seq<FileEntry>, old_acc: Seq<SubdirCount>, new_acc: Seq<SubdirCount>, pre: Seq<usize>, post: Seq<usize>,
    f: usize, dir: Seq<char>, no_tests: bool, c: Seq<char>,
)
    requires
        counts_match(es, old_acc, pre, dir, no_tests),
        post == pre.push(f),
        subdir_of(es, dir, f) == Some(c),
        !subdir_names(es, pre, dir).contains(c),
        new_acc.len() == old_acc.len() + 1,
        forall|q: int| 0 <= q < old_acc.len() ==> new_acc[q] == old_acc[q],
        forall|q: int| 0 <= q < old_acc.len() ==> old_acc[q].name@ != c,
        new_acc.last().name@ == c,
        new_acc.last().files == 1,
        new_acc.last().symbols == listed_count(es, f, no_tests),
    ensures
        counts_match(es, new_acc, post, dir, no_tests),
{
    assert(post.drop_last() =~= pre);
    lemma_absent_counts_zero(es, pre, dir, no_tests, c);
    assert forall|q: int| 0 <= q < new_acc.len() implies
        #[trigger] new_acc[q].files == subdir_files(es, post, dir, new_acc[q].name@)
        && new_acc[q].symbols == subdir_symbols(es, post, dir, no_tests, new_acc[q].name@) by {
        if q < old_acc.len() {
            assert(old_acc[q].files == subdir_files(es, pre, dir, old_acc[q].name@));
        }
    }
}

proof fn lemma_counts_none(
    es: Seq<FileEntry>, acc: Seq<SubdirCount>, pre: Seq<usize>, post: Seq<usize>,
    f: usize, dir: Seq<char>, no_tests: bool,
)
    requires
        counts_match(es, acc, pre, dir, no_tests),
        post == pre.push(f),
        subdir_of(es, dir, f) is None,
    ensures
        counts_match(es, acc, post, dir, no_tests),
{
    assert(post.drop_last() =~= pre);
    assert forall|q: int| 0 <= q < acc.len() implies
        #[trigger] acc[q].files == subdir_files(es, post, dir, acc[q].name@)
        && acc[q].symbols == subdir_symbols(es, post, dir, no_tests, acc[q].name@) by {
        assert(acc[q].files == subdir_files(es, pre, dir, acc[q].name@));
    }
}

/// Gathers the subdirectories of the files with their file and symbol counts,
/// in name order.
fn gather_subdirs(index: &Index, files: &Vec<usize>, dir: &Vec<char>, no_tests: bool) -> (r: Vec<SubdirCount>)
    requires
        forall|i: int| 0 <= i < files@.len() ==> #[trigger] files@[i] < index.entries@.len(),
        symbols_in(index.entries@, files@) < usize::MAX,
    ensures
        acc_names(r@) == subdir_list(index.entries@, files@, dir@),
        forall|k: int| 0 <= k < r@.len() ==> {
            &&& #[trigger] r@[k].files == subdir_files(index.entries@, files@, dir@, r@[k].name@)
            &&& r@[k].symbols == subdir_symbols(index.entries@, files@, dir@, no_tests, r@[k].name@)
        },
{
    let ghost es = index.entries@;
    let mut acc: Vec<SubdirCount> = Vec::new();
    let mut i: usize = 0;
    proof {
        assert(files@.take(0) =~= Seq::<usize>::empty());
        assert forall|n: Seq<char>| !subdir_names(es, files@.take(0), dir@).contains(n) by {}
    }
    while i < files.len()
        invariant
            es == index.entries@,
            forall|q: int| 0 <= q < files@.len() ==> #[trigger] files@[q] < es.len(),
            symbols_in(es, files@) < usize::MAX,
            i <= files@.len(),
            forall|a: int, b: int| 0 <= a < b < acc@.len() ==> acc@[a].name@ != acc@[b].name@,
            forall|n: Seq<char>| acc_names(acc@).contains(n) <==> #[trigger] subdir_names(es, files@.take(i as int), dir@).contains(n),
            counts_match(es, acc@, files@.take(i as int), dir@, no_tests),
        decreases files.len() - i,
    {
        let f = files[i];
        proof {
            assert(f < es.len());
            lemma_symbols_in_prefix(es, files@, i + 1);
            assert(files@.take(i + 1).drop_last() =~= files@.take(i as int));
            assert(files@.take(i + 1).last() == f);
        }
        let ghost pre = files@.take(i as int);
        let ghost post = files@.take(i + 1);
        proof { assert(post =~= pre.push(f)); }
        let ghost old_acc = acc@;
        proof { assert(counts_match(es, old_acc, pre, dir@, no_tests)); }
        let cnt = count_listed(&index.entries[f].data.symbols, no_tests);
        proof {
            lemma_listed_valid(es[f as int].data.symbols@, no_tests);
            assert(cnt == listed_count(es, f, no_tests));
        }
        match place_of(index, f, dir) {
            Some((false, c)) => {
                let mut k: usize = 0;
                let mut found = false;
                while k < acc.len() && !found
                    invariant
                        acc@ == old_acc,
                        k <= acc@.len(),
                        found ==> k < acc@.len() && acc@[k as int].name@ == c@,
                        forall|q: int| 0 <= q < k ==> acc@[q].name@ != c@,
                    decreases acc.len() - k + (if found { 0int } else { 1int }),
                {
                    if compare_chars(acc[k].name.as_slice(), c.as_slice()) == Cmp::Equal {
                        found = true;
                    } else {
                        k = k + 1;
                    }
                }
                if found {
                    let old = &acc[k];
                    proof {
                        lemma_subdir_symbols_le(es, pre, dir@, no_tests, c@);
                        assert(symbols_in(es, post) == symbols_in(es, pre) + es[f as int].data.symbols@.len());
                    }
                    let updated = SubdirCount { name: copy_chars(old.name.as_slice()), files: old.files + 1, symbols: old.symbols + cnt };
                    acc.set(k, updated);
                    proof {
                        assert forall|n: Seq<char>| acc_names(acc@).contains(n) <==> #[trigger] subdir_names(es, post, dir@).contains(n) by {
                            lemma_names_step(es, files@, dir@, i as int, n);
                            if acc_names(acc@).contains(n) {
                                let q = choose|q: int| 0 <= q < acc_names(acc@).len() && acc_names(acc@)[q] == n;
                                assert(acc_names(old_acc)[q] == n);
                            }
                            if acc_names(old_acc).contains(n) {
                                let q = choose|q: int| 0 <= q < acc_names(old_acc).len() && acc_names(old_acc)[q] == n;
                                assert(acc_names(acc@)[q] == n);
                            }
                            if n == c@ {
                                assert(acc_names(acc@)[k as int] == n);
                            }
                        }
                        lemma_counts_found(es, old_acc, acc@, pre, post, f, dir@, no_tests, k as int, c@);
                        assert(counts_match(es, acc@, post, dir@, no_tests));
                        assert forall|a: int, b: int| 0 <= a < b < acc@.len() implies acc@[a].name@ != acc@[b].name@ by {
                            assert(old_acc[a].name@ != old_acc[b].name@);
                        }
                    }
                } else {
                    proof {
                        assert(!subdir_names(es, pre, dir@).contains(c@)) by {
                            if subdir_names(es, pre, dir@).contains(c@) {
                                assert(acc_names(old_acc).contains(c@));
                                let q = choose|q: int| 0 <= q < acc_names(old_acc).len() && acc_names(old_acc)[q] == c@;
                                assert(old_acc[q].name@ == c@);
                            }
                        }
                        lemma_absent_counts_zero(es, pre, dir@, no_tests, c@);
                        assert(symbols_in(es, post) == symbols_in(es, pre) + es[f as int].data.symbols@.len());
                    }
                    let ghost cv = c@;
                    acc.push(SubdirCount { name: c, files: 1, symbols: cnt });
                    proof {
                        assert(acc_names(acc@) =~= acc_names(old_acc).push(cv));
                        assert forall|n: Seq<char>| acc_names(acc@).contains(n) <==> #[trigger] subdir_names(es, post, dir@).contains(n) by {
                            lemma_names_step(es, files@, dir@, i as int, n);
                            if acc_names(acc@).contains(n) && n != cv {
                                let q = choose|q: int| 0 <= q < acc_names(acc@).len() && acc_names(acc@)[q] == n;
                                assert(acc_names(old_acc)[q] == n);
                            }
                            if acc_names(old_acc).contains(n) {
                                let q = choose|q: int| 0 <= q < acc_names(old_acc).len() && acc_names(old_acc)[q] == n;
                                assert(acc_names(acc@)[q] == n);
                            }
                            if n == cv {
                                assert(acc_names(acc@)[old_acc.len() as int] == n);
                            }
                        }
                        lemma_counts_new(es, old_acc, acc@, pre, post, f, dir@, no_tests, cv);
                        assert(counts_match(es, acc@, post, dir@, no_tests));
                        assert forall|a: int, b: int| 0 <= a < b < acc@.len() implies acc@[a].name@ != acc@[b].name@ by {
                            if b < old_acc.len() {
                                assert(old_acc[a].name@ != old_acc[b].name@);
                            } else {
                                assert(acc@[a] == old_acc[a]);
                            }
                        }
                    }
                }
            },
            _ => {
                proof {
                    assert(subdir_of(es, dir@, f) is None);
                    lemma_counts_none(es, acc@, pre, post, f, dir@, no_tests);
                    assert(counts_match(es, acc@, post, dir@, no_tests));
                    assert forall|n: Seq<char>| acc_names(acc@).contains(n) <==> #[trigger] subdir_names(es, post, dir@).contains(n) by {
                        lemma_names_step(es, files@, dir@, i as int, n);
                    }
                }
            },
        }
        i = i + 1;
    }
    proof { assert(files@.take(files@.len() as int) =~= files@); }
    let r = sort_subdirs(acc, Ghost(subdir_names(es, files@, dir@)));
    proof {
        let c = subdir_list(es, files@, dir@);
        assert(strictly_sorted(c) && c.to_set() == subdir_names(es, files@, dir@));
        lemma_strictly_sorted_unique(acc_names(r@), c);
        assert forall|k: int| 0 <= k < r@.len() implies {
            &&& #[trigger] r@[k].files == subdir_files(es, files@, dir@, r@[k].name@)
            &&& r@[k].symbols == subdir_symbols(es, files@, dir@, no_tests, r@[k].name@)
        } by {
            assert(has_count(acc@, r@[k]));
            let q = choose|q: int| 0 <= q < acc@.len() && #[trigger] acc@[q].name@ == r@[k].name@
                && acc@[q].files == r@[k].files && acc@[q].symbols == r@[k].symbols;
        }
    }
    r
}

/// A subdirectory count is one of the gathered ones.
pub open spec fn has_count(acc: Seq<SubdirCount>, c: SubdirCount) -> bool {
    exists|q: int| 0 <= q < acc.len() && #[trigger] acc[q].name@ == c.name@ && acc[q].files == c.files && acc[q].symbols == c.symbols
}

pub open spec fn acc_key(acc: Seq<SubdirCount>) -> spec_fn(usize) -> Seq<PartValue> {
    |p: usize| seq![PartValue::Text(acc[p as int].name@), PartValue::Up(p as nat)]
}

/// Orders subdirectory counts by name.
fn sort_subdirs(acc: Vec<SubdirCount>, Ghost(names): Ghost<Set<Seq<char>>>) -> (r: Vec<SubdirCount>)
    requires
        forall|a: int, b: int| 0 <= a < b < acc@.len() ==> acc@[a].name@ != acc@[b].name@,
        forall|n: Seq<char>| acc_names(acc@).contains(n) <==> #[trigger] names.contains(n),
    ensures
        strictly_sorted(acc_names(r@)),
        acc_names(r@).to_set() == names,
        forall|k: int| 0 <= k < r@.len() ==> has_count(acc@, #[trigger] r@[k]),
{
    let n = acc.len();
    let mut keyed: Vec<Keyed<usize>> = Vec::new();
    let mut p: usize = 0;
    while p < n
        invariant
            n == acc@.len(),
            p <= n,
            keyed@.map_values(|k: Keyed<usize>| k.item) == all_entries(p as nat),
            forall|i: int| 0 <= i < keyed@.len() ==> key_value(#[trigger] keyed@[i].key@) == acc_key(acc@)(keyed@[i].item),
        decreases n - p,
    {
        let mut key: Vec<KeyPart> = Vec::new();
        key.push(KeyPart::Text(copy_chars(acc[p].name.as_slice())));
        key.push(KeyPart::Up(p));
        proof { assert(key_value(key@) =~= acc_key(acc@)(p)); }
        let ghost old_items = keyed@.map_values(|k: Keyed<usize>| k.item);
        keyed.push(Keyed { key, item: p });
        proof {
            assert(keyed@.map_values(|k: Keyed<usize>| k.item) =~= old_items.push(p));
            assert(all_entries((p + 1) as nat) =~= all_entries(p as nat).push(p));
        }
        p = p + 1;
    }
    let order = sort_items(keyed, Ghost(acc_key(acc@)));
    proof {
        assert(order@.len() == order@.to_multiset().len());
        assert(all_entries(n as nat).len() == all_entries(n as nat).to_multiset().len());
        assert forall|i: int| 0 <= i < order@.len() implies #[trigger] order@[i] < n by {
            assert(order@.to_multiset().count(order@[i]) > 0);
            assert(all_entries(n as nat).contains(order@[i]));
        }
        assert forall|q: int| 0 <= q < n implies #[trigger] order@.contains(q as usize) by {
            assert(all_entries(n as nat)[q] == q as usize);
            assert(all_entries(n as nat).to_multiset().count(q as usize) > 0);
        }
    }
    let mut r: Vec<SubdirCount> = Vec::new();
    let mut i: usize = 0;
    while i < n
        invariant
            n == acc@.len(),
            order@.len() == n,
            forall|k: int| 0 <= k < order@.len() ==> #[trigger] order@[k] < n,
            crate::sort::sorted_by_key(order@, acc_key(acc@)),
            i <= n,
            r@.len() == i,
            forall|k: int| 0 <= k < i ==> #[trigger] r@[k].name@ == acc@[order@[k] as int].name@
                && r@[k].files == acc@[order@[k] as int].files && r@[k].symbols == acc@[order@[k] as int].symbols,
        decreases n - i,
    {
        let q = order[i];
        proof { assert(order@[i as int] < n); }
        let c = SubdirCount { name: copy_chars(acc[q].name.as_slice()), files: acc[q].files, symbols: acc[q].symbols };
        r.push(c);
        i = i + 1;
    }
    proof {
        assert forall|a: int, b: int| 0 <= a < b < acc_names(r@).len() implies lex_lt(#[trigger] acc_names(r@)[a], #[trigger] acc_names(r@)[b]) by {
            let pa = order@[a];
            let pb = order@[b];
            assert(key_le(acc_key(acc@)(pa), acc_key(acc@)(pb)));
            assert(acc_key(acc@)(pa)[0] == PartValue::Text(acc@[pa as int].name@));
            assert(pa != pb) by {
                crate::sort::lemma_permutation_no_duplicates(order@, all_entries(n as nat));
            }
            assert(acc@[pa as int].name@ != acc@[pb as int].name@);
        }
        assert forall|x: Seq<char>| acc_names(r@).to_set().contains(x) == names.contains(x) by {
            if acc_names(r@).contains(x) {
                let k = choose|k: int| 0 <= k < acc_names(r@).len() && acc_names(r@)[k] == x;
                assert(acc_names(acc@)[order@[k] as int] == x);
            }
            if names.contains(x) {
                assert(acc_names(acc@).contains(x));
                let q = choose|q: int| 0 <= q < acc_names(acc@).len() && acc_names(acc@)[q] == x;
                assert(order@.contains(q as usize));
                let k = choose|k: int| 0 <= k < order@.len() && order@[k] == q as usize;
                assert(acc_names(r@)[k] == x);
            }
        }
        assert(acc_names(r@).to_set() =~= names);
        assert forall|k: int| 0 <= k < r@.len() implies has_count(acc@, #[trigger] r@[k]) by {
            let q = order@[k] as int;
            assert(0 <= k < n);
            assert(r@[k].name@ == acc@[order@[k] as int].name@);
            assert(0 <= q < acc@.len());
            assert(acc@[q].name@ == r@[k].name@);
            assert(acc@[q].files == r@[k].files);
            assert(acc@[q].symbols == r@[k].symbols);
        }
    }
    r
}


/// The covered entries that lie directly in the directory.
pub open spec fn direct_entries(es: Seq<FileEntry>, files: Seq<usize>, dir: Seq<char>) -> Seq<usize>
    decreases files.len(),
{
    if files.len() == 0 {
        seq![]
    } else {
        let r = direct_entries(es, files.drop_last(), dir);
        if is_direct_file(es, dir, files.last()) { r.push(files.last()) } else { r }
    }
}

/// Files are ordered by path.
pub open spec fn file_key(es: Seq<FileEntry>) -> spec_fn(usize) -> Seq<PartValue> {
    |e: usize| seq![PartValue::Comps(path_components(es[e as int].path@)), PartValue::Up(e as nat)]
}

/// The files directly in the directory, in path order.
pub open spec fn direct_order(es: Seq<FileEntry>, files: Seq<usize>, dir: Seq<char>) -> Seq<usize> {
    direct_entries(es, files, dir).sort_by(key_order(file_key(es)))
}

proof fn lemma_direct_valid(es: Seq<FileEntry>, files: Seq<usize>, dir: Seq<char>)
    requires
        forall|i: int| 0 <= i < files.len() ==> #[trigger] files[i] < es.len(),
    ensures
        forall|i: int| 0 <= i < direct_entries(es, files, dir).len() ==> #[trigger] direct_entries(es, files, dir)[i] < es.len(),
    decreases files.len(),
{
    if files.len() > 0 {
        let f2 = files.drop_last();
        assert forall|i: int| 0 <= i < f2.len() implies #[trigger] f2[i] < es.len() by {
            assert(f2[i] == files[i]);
        }
        lemma_direct_valid(es, f2, dir);
        assert(files[files.len() - 1] < es.len());
        let r = direct_entries(es, f2, dir);
        if is_direct_file(es, dir, files.last()) {
            assert forall|i: int| 0 <= i < r.push(files.last()).len() implies #[trigger] r.push(files.last())[i] < es.len() by {
                if i < r.len() { assert(r.push(files.last())[i] == r[i]); }
            }
        }
    }
}

fn direct_files_exec(index: &Index, files: &Vec<usize>, dir: &Vec<char>) -> (r: Vec<usize>)
    requires
        forall|i: int| 0 <= i < files@.len() ==> #[trigger] files@[i] < index.entries@.len(),
    ensures
        r@ == direct_order(index.entries@, files@, dir@),
        forall|i: int| 0 <= i < r@.len() ==> #[trigger] r@[i] < index.entries@.len(),
{
    let ghost es = index.entries@;
    let mut keyed: Vec<Keyed<usize>> = Vec::new();
    let mut i: usize = 0;
    proof { assert(files@.take(0) =~= Seq::<usize>::empty()); }
    while i < files.len()
        invariant
            es == index.entries@,
            forall|q: int| 0 <= q < files@.len() ==> #[trigger] files@[q] < es.len(),
            i <= files@.len(),
            keyed@.map_values(|k: Keyed<usize>| k.item) == direct_entries(es, files@.take(i as int), dir@),
            forall|k: int| 0 <= k < keyed@.len() ==> key_value(#[trigger] keyed@[k].key@) == file_key(es)(keyed@[k].item),
        decreases files.len() - i,
    {
        let f = files[i];
        proof {
            assert(f < es.len());
            assert(files@.take(i + 1).drop_last() =~= files@.take(i as int));
            assert(files@.take(i + 1).last() == f);
        }
        match place_of(index, f, dir) {
            Some((true, _)) => {
                let p = chars_of(index.entries[f].path.as_str());
                let mut key: Vec<KeyPart> = Vec::new();
                key.push(KeyPart::Comps(components(p.as_slice())));
                key.push(KeyPart::Up(f));
                proof { assert(key_value(key@) =~= file_key(es)(f)); }
                let ghost old_items = keyed@.map_values(|k: Keyed<usize>| k.item);
                keyed.push(Keyed { key, item: f });
                proof { assert(keyed@.map_values(|k: Keyed<usize>| k.item) =~= old_items.push(f)); }
            },
            _ => {},
        }
        i = i + 1;
    }
    proof {
        assert(files@.take(files@.len() as int) =~= files@);
        lemma_direct_valid(es, files@, dir@);
    }
    let ghost d = direct_entries(es, files@, dir@);
    let r = sort_items(keyed, Ghost(file_key(es)));
    proof {
        assert forall|a: usize, b: usize| #[trigger] file_key(es)(a) == #[trigger] file_key(es)(b) implies a == b by {
            assert(file_key(es)(a)[1] == file_key(es)(b)[1]);
        }
        lemma_is_sort_by(r@, d, file_key(es));
        assert forall|i: int| 0 <= i < r@.len() implies #[trigger] r@[i] < es.len() by {
            assert(r@.to_multiset().count(r@[i]) > 0);
            assert(d.contains(r@[i]));
        }
    }
    r
}

/// The first occurrence of each element, in order.
pub open spec fn dedup_first(s: Seq<Seq<char>>) -> Seq<Seq<char>>
    decreases s.len(),
{
    if s.len() == 0 {
        seq![]
    } else {
        let r = dedup_first(s.drop_last());
        if s.drop_last().contains(s.last()) { r } else { r.push(s.last()) }
    }
}

proof fn lemma_dedup_first_contains(s: Seq<Seq<char>>)
    ensures
        forall|x: Seq<char>| dedup_first(s).contains(x) <==> s.contains(x),
    decreases s.len(),
{
    if s.len() > 0 {
        let s2 = s.drop_last();
        lemma_dedup_first_contains(s2);
        assert forall|x: Seq<char>| dedup_first(s).contains(x) <==> s.contains(x) by {
            if s2.contains(x) {
                let i = choose|i: int| 0 <= i < s2.len() && s2[i] == x;
                assert(s[i] == x);
            }
            if s.contains(x) {
                let i = choose|i: int| 0 <= i < s.len() && s[i] == x;
                if i < s.len() - 1 {
                    assert(s2[i] == x);
                }
            }
            let r = dedup_first(s2);
            if !s2.contains(s.last()) {
                assert(r.push(s.last())[r.len() as int] == s.last());
                if r.contains(x) {
                    let i = choose|i: int| 0 <= i < r.len() && r[i] == x;
                    assert(r.push(s.last())[i] == x);
                }
                if r.push(s.last()).contains(x) {
                    let i = choose|i: int| 0 <= i < r.len() + 1 && r.push(s.last())[i] == x;
                    if i < r.len() {
                        assert(r[i] == x);
                    }
                }
            }
        }
    }
}

/// A row of the default directory overview.
pub struct OverviewRow {
    pub file: String,
    pub symbols: String,
}

pub struct OverviewRowView {
    pub file: Seq<char>,
    pub symbols: Seq<char>,
}

impl View for OverviewRow {
    type V = OverviewRowView;

    open spec fn view(&self) -> OverviewRowView {
        OverviewRowView { file: self.file@, symbols: self.symbols@ }
    }
}

/// How a subdirectory is shown: below the directory, with a trailing `/`.
pub open spec fn subdir_label(dir: Seq<char>, name: Seq<char>) -> Seq<char> {
    if dir.len() == 0 {
        name + seq!['/']
    } else {
        forward_slashes(dir) + seq!['/'] + name + seq!['/']
    }
}

/// `(N files, M symbols)`.
pub open spec fn counts_text(files: nat, symbols: nat) -> Seq<char> {
    seq!['('] + decimal(files) + " files, "@ + decimal(symbols) + " symbols)"@
}

pub open spec fn comma() -> Seq<char> {
    seq![',', ' ']
}

/// The names a file's overview row shows: those of its first listed symbols,
/// each once.
pub open spec fn shown_names(syms: Seq<Symbol>, no_tests: bool) -> Seq<Seq<char>> {
    let listed = listed_order(syms, no_tests);
    let first = listed.take(if listed.len() <= 10 { listed.len() as int } else { 10 });
    dedup_first(first.map_values(|j: usize| syms[j as int].name@))
}

/// The symbols column of a file's overview row: the shown names joined by
/// `, `, and `, ... (+K more)` when names were left out.
pub open spec fn symbols_text(syms: Seq<Symbol>, no_tests: bool) -> Seq<char> {
    let total = listed_symbols(syms, no_tests).len();
    let names = shown_names(syms, no_tests);
    let suffix = if total > names.len() {
        ", ... (+"@ + decimal((total - names.len()) as nat) + " more)"@
    } else {
        seq![]
    };
    join(names, comma()) + suffix
}

/// The default overview rows of the given files; files without listed
/// symbols give none.
pub open spec fn brief_file_rows(es: Seq<FileEntry>, files: Seq<usize>, no_tests: bool) -> Seq<OverviewRowView>
    decreases files.len(),
{
    if files.len() == 0 {
        seq![]
    } else {
        let r = brief_file_rows(es, files.drop_last(), no_tests);
        let e = files.last();
        let syms = es[e as int].data.symbols@;
        if listed_symbols(syms, no_tests).len() == 0 {
            r
        } else {
            r.push(OverviewRowView { file: forward_slashes(es[e as int].path@), symbols: symbols_text(syms, no_tests) })
        }
    }
}

/// The subdirectory rows of an overview, in name order.
pub open spec fn brief_subdir_rows(es: Seq<FileEntry>, files: Seq<usize>, dir: Seq<char>, no_tests: bool) -> Seq<OverviewRowView> {
    subdir_list(es, files, dir).map_values(|n: Seq<char>| OverviewRowView {
        file: subdir_label(dir, n),
        symbols: counts_text(subdir_files(es, files, dir, n), subdir_symbols(es, files, dir, no_tests, n)),
    })
}

fn counts_text_exec(files: usize, symbols: usize) -> (r: Vec<char>)
    ensures
        r@ == counts_text(files as nat, symbols as nat),
{
    let mut out: Vec<char> = Vec::new();
    out.push('(');
    push_decimal(&mut out, files);
    push_str(&mut out, " files, ");
    push_decimal(&mut out, symbols);
    push_str(&mut out, " symbols)");
    proof { assert(out@ =~= counts_text(files as nat, symbols as nat)); }
    out
}

fn subdir_label_exec(dir: &Vec<char>, name: &Vec<char>) -> (r: Vec<char>)
    ensures
        r@ == subdir_label(dir@, name@),
{
    let mut out: Vec<char> = Vec::new();
    if dir.len() == 0 {
        push_all(&mut out, name.as_slice());
        out.push('/');
        proof { assert(out@ =~= subdir_label(dir@, name@)); }
    } else {
        let d = display_chars(dir.as_slice());
        push_all(&mut out, d.as_slice());
        out.push('/');
        push_all(&mut out, name.as_slice());
        out.push('/');
        proof { assert(out@ =~= subdir_label(dir@, name@)); }
    }
    out
}

fn comma_exec() -> (r: Vec<char>)
    ensures
        r@ == comma(),
{
    let mut r: Vec<char> = Vec::new();
    r.push(',');
    r.push(' ');
    proof { assert(r@ =~= comma()); }
    r
}

/// The symbols column of a file's overview row.
fn symbols_text_exec(syms: &Vec<Symbol>, no_tests: bool) -> (r: Vec<char>)
    ensures
        r@ == symbols_text(syms@, no_tests),
{
    let listed = listed_exec(syms, no_tests);
    let total = listed.len();
    let take = if total <= 10 { total } else { 10 };
    let ghost first = listed@.take(take as int).map_values(|j: usize| syms@[j as int].name@);
    let mut names: Vec<Vec<char>> = Vec::new();
    let mut i: usize = 0;
    proof { assert(first.take(0) =~= Seq::<Seq<char>>::empty()); }
    while i < take
        invariant
            take <= listed@.len(),
            forall|k: int| 0 <= k < listed@.len() ==> #[trigger] listed@[k] < syms@.len(),
            first == listed@.take(take as int).map_values(|j: usize| syms@[j as int].name@),
            i <= take,
            views(names@) == dedup_first(first.take(i as int)),
        decreases take - i,
    {
        let j = listed[i];
        proof {
            assert(listed@[i as int] < syms@.len());
            assert(first[i as int] == syms@[j as int].name@);
            assert(first.take(i + 1).drop_last() =~= first.take(i as int));
            assert(first.take(i + 1).last() == first[i as int]);
            lemma_dedup_first_contains(first.take(i as int));
        }
        let n = chars_of(syms[j].name.as_str());
        let mut seen = false;
        let mut k: usize = 0;
        while k < names.len() && !seen
            invariant
                k <= names@.len(),
                seen ==> views(names@).contains(n@),
                !seen ==> forall|q: int| 0 <= q < k ==> names@[q]@ != n@,
            decreases names@.len() - k + (if seen { 0int } else { 1int }),
        {
            if compare_chars(names[k].as_slice(), n.as_slice()) == Cmp::Equal {
                seen = true;
                proof { assert(views(names@)[k as int] == n@); }
            } else {
                k = k + 1;
            }
        }
        proof {
            if !seen {
                assert forall|q: int| 0 <= q < views(names@).len() implies views(names@)[q] != n@ by {
                    assert(views(names@)[q] == names@[q]@);
                }
            }
        }
        if !seen {
            let ghost old_v = views(names@);
            names.push(n);
            proof { assert(views(names@) =~= old_v.push(first[i as int])); }
        }
        i = i + 1;
    }
    proof {
        assert(first.take(take as int) =~= first);
    }
    let sep = comma_exec();
    let mut out = join_chars(&names, sep.as_slice());
    proof { assert(views(names@) == names@.map_values(|p: Vec<char>| p@)); }
    let shown = names.len();
    if total > shown {
        let ghost base = out@;
        push_str(&mut out, ", ... (+");
        push_decimal(&mut out, total - shown);
        push_str(&mut out, " more)");
        proof {
            assert(out@ =~= base + (", ... (+"@ + decimal((total - shown) as nat) + " more)"@));
        }
    } else {
        proof { assert(out@ =~= out@ + Seq::<char>::empty()); }
    }
    out
}


/// A row of the full directory overview. `symbol` names the entry and symbol
/// whose line range the row shows; rows without one show no range.
pub struct OverviewFullRow {
    pub file: String,
    pub name: String,
    pub kind: String,
    pub signature: String,
    pub symbol: Option<(usize, usize)>,
}

pub struct OverviewFullRowView {
    pub file: Seq<char>,
    pub name: Seq<char>,
    pub kind: Seq<char>,
    pub signature: Seq<char>,
    pub symbol: Option<(usize, usize)>,
}

impl View for OverviewFullRow {
    type V = OverviewFullRowView;

    open spec fn view(&self) -> OverviewFullRowView {
        OverviewFullRowView {
            file: self.file@,
            name: self.name@,
            kind: self.kind@,
            signature: self.signature@,
            symbol: self.symbol,
        }
    }
}

/// The subdirectory rows of a full overview, in name order.
pub open spec fn full_subdir_rows(es: Seq<FileEntry>, files: Seq<usize>, dir: Seq<char>, no_tests: bool) -> Seq<OverviewFullRowView> {
    subdir_list(es, files, dir).map_values(|n: Seq<char>| OverviewFullRowView {
        file: subdir_label(dir, n),
        name: counts_text(subdir_files(es, files, dir, n), subdir_symbols(es, files, dir, no_tests, n)),
        kind: seq![],
        signature: seq![],
        symbol: None,
    })
}

/// The full overview rows of one file: its first ten listed symbols, and a
/// `... (+K more)` row when there are more.
pub open spec fn full_rows_of_file(es: Seq<FileEntry>, e: usize, no_tests: bool) -> Seq<OverviewFullRowView> {
    let syms = es[e as int].data.symbols@;
    let path = forward_slashes(es[e as int].path@);
    let listed = listed_order(syms, no_tests);
    let total = listed.len();
    let first = listed.take(if total <= 10 { total as int } else { 10 });
    let rows = first.map_values(|j: usize| OverviewFullRowView {
        file: path,
        name: syms[j as int].name@,
        kind: kind_name(syms[j as int].kind),
        signature: syms[j as int].signature@,
        symbol: Some((e, j)),
    });
    if total > 10 {
        rows.push(OverviewFullRowView {
            file: path,
            name: "... (+"@ + decimal((total - 10) as nat) + " more)"@,
            kind: seq![],
            signature: seq![],
            symbol: None,
        })
    } else {
        rows
    }
}

pub open spec fn full_file_rows(es: Seq<FileEntry>, files: Seq<usize>, no_tests: bool) -> Seq<OverviewFullRowView>
    decreases files.len(),
{
    if files.len() == 0 {
        seq![]
    } else {
        full_file_rows(es, files.drop_last(), no_tests) + full_rows_of_file(es, files.last(), no_tests)
    }
}

pub open spec fn full_views(s: Seq<OverviewFullRow>) -> Seq<OverviewFullRowView> {
    s.map_values(|r: OverviewFullRow| r@)
}

pub open spec fn brief_views(s: Seq<OverviewRow>) -> Seq<OverviewRowView> {
    s.map_values(|r: OverviewRow| r@)
}

fn empty_string() -> (r: String)
    ensures
        r@ == Seq::<char>::empty(),
{
    String::new()
}

fn full_rows_exec(index: &Index, e: usize, no_tests: bool, rows: &mut Vec<OverviewFullRow>)
    requires
        e < index.entries@.len(),
    ensures
        full_views(final(rows)@) == full_views(old(rows)@) + full_rows_of_file(index.entries@, e, no_tests),
{
    let ghost es = index.entries@;
    let syms = &index.entries[e].data.symbols;
    let listed = listed_exec(syms, no_tests);
    let total = listed.len();
    let take = if total <= 10 { total } else { 10 };
    let pc = chars_of(index.entries[e].path.as_str());
    let path = display_chars(pc.as_slice());
    let ghost spec_rows = full_rows_of_file(es, e, no_tests);
    let ghost first_rows = listed@.take(take as int).map_values(|j: usize| OverviewFullRowView {
        file: forward_slashes(es[e as int].path@),
        name: syms@[j as int].name@,
        kind: kind_name(syms@[j as int].kind),
        signature: syms@[j as int].signature@,
        symbol: Some((e, j)),
    });
    let ghost base = full_views(rows@);
    let mut i: usize = 0;
    while i < take
        invariant
            es == index.entries@,
            e < es.len(),
            syms == &es[e as int].data.symbols,
            take <= listed@.len(),
            forall|k: int| 0 <= k < listed@.len() ==> #[trigger] listed@[k] < syms@.len(),
            path@ == forward_slashes(es[e as int].path@),
            first_rows == listed@.take(take as int).map_values(|j: usize| OverviewFullRowView {
                file: forward_slashes(es[e as int].path@),
                name: syms@[j as int].name@,
                kind: kind_name(syms@[j as int].kind),
                signature: syms@[j as int].signature@,
                symbol: Some((e, j)),
            }),
            i <= take,
            full_views(rows@) == base + first_rows.take(i as int),
        decreases take - i,
    {
        let j = listed[i];
        proof { assert(listed@[i as int] < syms@.len()); }
        let sym = &syms[j];
        let row = OverviewFullRow {
            file: string_from(path.as_slice()),
            name: string_from(chars_of(sym.name.as_str()).as_slice()),
            kind: string_from(chars_of(sym.kind.as_str()).as_slice()),
            signature: string_from(chars_of(sym.signature.as_str()).as_slice()),
            symbol: Some((e, j)),
        };
        let ghost old_v = full_views(rows@);
        rows.push(row);
        proof {
            assert(row@ == first_rows[i as int]);
            assert(full_views(rows@) =~= old_v.push(row@));
            assert(first_rows.take(i + 1) =~= first_rows.take(i as int).push(first_rows[i as int]));
        }
        i = i + 1;
    }
    proof { assert(first_rows.take(take as int) =~= first_rows); }
    if total > 10 {
        let mut name: Vec<char> = Vec::new();
        push_str(&mut name, "... (+");
        push_decimal(&mut name, total - 10);
        push_str(&mut name, " more)");
        let row = OverviewFullRow {
            file: string_from(path.as_slice()),
            name: string_from(name.as_slice()),
            kind: empty_string(),
            signature: empty_string(),
            symbol: None,
        };
        let ghost old_v = full_views(rows@);
        rows.push(row);
        proof {
            assert(name@ =~= "... (+"@ + decimal((total - 10) as nat) + " more)"@);
            assert(full_views(rows@) =~= old_v.push(row@));
            assert(full_views(rows@) =~= base + spec_rows);
        }
    } else {
        proof { assert(full_views(rows@) =~= base + spec_rows); }
    }
}

/// The views of gathered subdirectory counts agree with the files.
pub open spec fn subdirs_ok(es: Seq<FileEntry>, subdirs: Seq<SubdirCount>, files: Seq<usize>, dir: Seq<char>, no_tests: bool) -> bool {
    &&& acc_names(subdirs) == subdir_list(es, files, dir)
    &&& counts_match(es, subdirs, files, dir, no_tests)
}

fn full_subdir_rows_exec(
    index: &Index, subdirs: &Vec<SubdirCount>, files: &Vec<usize>, d: &Vec<char>, no_tests: bool,
) -> (rows: Vec<OverviewFullRow>)
    requires
        subdirs_ok(index.entries@, subdirs@, files@, d@, no_tests),
    ensures
        full_views(rows@) == full_subdir_rows(index.entries@, files@, d@, no_tests),
{
    let ghost es = index.entries@;
    let ghost names = subdir_list(es, files@, d@);
    let ghost spec_rows = full_subdir_rows(es, files@, d@, no_tests);
    let mut rows: Vec<OverviewFullRow> = Vec::new();
    let mut i: usize = 0;
    while i < subdirs.len()
        invariant
            subdirs_ok(es, subdirs@, files@, d@, no_tests),
            names == subdir_list(es, files@, d@),
            spec_rows == full_subdir_rows(es, files@, d@, no_tests),
            i <= subdirs@.len(),
            full_views(rows@) == spec_rows.take(i as int),
        decreases subdirs.len() - i,
    {
        let sd = &subdirs[i];
        proof {
            assert(acc_names(subdirs@)[i as int] == sd.name@);
            assert(subdirs@[i as int].files == subdir_files(es, files@, d@, subdirs@[i as int].name@));
            assert(names.len() == subdirs@.len());
            assert(names[i as int] == sd.name@);
        }
        let label = subdir_label_exec(d, &sd.name);
        let counts = counts_text_exec(sd.files, sd.symbols);
        let row = OverviewFullRow {
            file: string_from(label.as_slice()),
            name: string_from(counts.as_slice()),
            kind: empty_string(),
            signature: empty_string(),
            symbol: None,
        };
        let ghost old_v = full_views(rows@);
        rows.push(row);
        proof {
            assert(spec_rows[i as int] == OverviewFullRowView {
                file: subdir_label(d@, names[i as int]),
                name: counts_text(subdir_files(es, files@, d@, names[i as int]), subdir_symbols(es, files@, d@, no_tests, names[i as int])),
                kind: seq![],
                signature: seq![],
                symbol: None,
            });
            assert(row@ == spec_rows[i as int]);
            assert(full_views(rows@) =~= old_v.push(row@));
            assert(spec_rows.take(i + 1) =~= spec_rows.take(i as int).push(row@));
        }
        i = i + 1;
    }
    proof { assert(spec_rows.take(subdirs@.len() as int) =~= spec_rows); }
    rows
}

fn brief_subdir_rows_exec(
    index: &Index, subdirs: &Vec<SubdirCount>, files: &Vec<usize>, d: &Vec<char>, no_tests: bool,
) -> (rows: Vec<OverviewRow>)
    requires
        subdirs_ok(index.entries@, subdirs@, files@, d@, no_tests),
    ensures
        brief_views(rows@) == brief_subdir_rows(index.entries@, files@, d@, no_tests),
{
    let ghost es = index.entries@;
    let ghost names = subdir_list(es, files@, d@);
    let ghost spec_rows = brief_subdir_rows(es, files@, d@, no_tests);
    let mut rows: Vec<OverviewRow> = Vec::new();
    let mut i: usize = 0;
    while i < subdirs.len()
        invariant
            subdirs_ok(es, subdirs@, files@, d@, no_tests),
            names == subdir_list(es, files@, d@),
            spec_rows == brief_subdir_rows(es, files@, d@, no_tests),
            i <= subdirs@.len(),
            brief_views(rows@) == spec_rows.take(i as int),
        decreases subdirs.len() - i,
    {
        let sd = &subdirs[i];
        proof {
            assert(acc_names(subdirs@)[i as int] == sd.name@);
            assert(subdirs@[i as int].files == subdir_files(es, files@, d@, subdirs@[i as int].name@));
            assert(names.len() == subdirs@.len());
            assert(names[i as int] == sd.name@);
        }
        let label = subdir_label_exec(d, &sd.name);
        let counts = counts_text_exec(sd.files, sd.symbols);
        let row = OverviewRow { file: string_from(label.as_slice()), symbols: string_from(counts.as_slice()) };
        let ghost old_v = brief_views(rows@);
        rows.push(row);
        proof {
            assert(spec_rows[i as int] == OverviewRowView {
                file: subdir_label(d@, names[i as int]),
                symbols: counts_text(subdir_files(es, files@, d@, names[i as int]), subdir_symbols(es, files@, d@, no_tests, names[i as int])),
            });
            assert(row@ == spec_rows[i as int]);
            assert(brief_views(rows@) =~= old_v.push(row@));
            assert(spec_rows.take(i + 1) =~= spec_rows.take(i as int).push(row@));
        }
        i = i + 1;
    }
    proof { assert(spec_rows.take(subdirs@.len() as int) =~= spec_rows); }
    rows
}

/// What a directory overview shows.
pub enum Overview {
    Brief(Paginated<OverviewRow>),
    Full(Paginated<OverviewFullRow>),
}

/// The directory overview: subdirectories first, in name order, each with its
/// file and symbol counts; then the files directly in the directory, in path
/// order, each with its first listed symbols (priority, then name). With
/// `full`, one row per listed symbol instead. `no_tests` leaves out test
/// files and test symbols. One page of the rows; an error when the directory
/// covers no indexed file.
pub fn dir_overview(index: &Index, dir: &str, full: bool, no_tests: bool, pg: &Pagination)
    -> (r: Result<Overview, QueryError>)
    requires
        symbol_total(index.entries@) < usize::MAX,
    ensures
        ({
            let es = index.entries@;
            let d = overview_dir(dir@);
            let files = covered_entries(es, d, no_tests);
            let direct = direct_order(es, files, d);
            if files.len() == 0 {
                r matches Err(e) && e@ == QueryErrorView::NoIndexedFilesUnder(forward_slashes(d))
            } else if full {
                r matches Ok(Overview::Full(p)) && {
                    let rows = full_subdir_rows(es, files, d, no_tests) + full_file_rows(es, direct, no_tests);
                    &&& full_views(p.items@) == page_of(rows, pg.offset as nat, pg.limit)
                    &&& p.total == rows.len()
                    &&& p.offset == pg.offset
                    &&& p.limit == pg.limit
                }
            } else {
                r matches Ok(Overview::Brief(p)) && {
                    let rows = brief_subdir_rows(es, files, d, no_tests) + brief_file_rows(es, direct, no_tests);
                    &&& brief_views(p.items@) == page_of(rows, pg.offset as nat, pg.limit)
                    &&& p.total == rows.len()
                    &&& p.offset == pg.offset
                    &&& p.limit == pg.limit
                }
            }
        }),
{
    let ghost es = index.entries@;
    let n_entries = index.entries.len();
    proof { assert(es.len() == n_entries); }
    let raw = chars_of(dir);
    let d: Vec<char> = rel_form_chars(raw.as_slice());
    proof { assert(d@ == overview_dir(dir@)); }
    let files = covered_exec(index, &d, no_tests);
    proof {
        lemma_covered_valid(es, d@, no_tests);
        lemma_covered_symbols_le(es, d@, no_tests);
    }
    if files.len() == 0 {
        let shown = display_chars(d.as_slice());
        return Err(QueryError::NoIndexedFilesUnder(string_from(shown.as_slice())));
    }
    let subdirs = gather_subdirs(index, &files, &d, no_tests);
    let direct = direct_files_exec(index, &files, &d);
    if full {
        let mut rows = full_subdir_rows_exec(index, &subdirs, &files, &d, no_tests);
        let ghost sub_rows = full_views(rows@);
        let mut k: usize = 0;
        proof { assert(direct@.take(0) =~= Seq::<usize>::empty()); assert(sub_rows + full_file_rows(es, direct@.take(0), no_tests) =~= sub_rows); }
        while k < direct.len()
            invariant
                es == index.entries@,
                forall|q: int| 0 <= q < direct@.len() ==> #[trigger] direct@[q] < es.len(),
                k <= direct@.len(),
                full_views(rows@) == sub_rows + full_file_rows(es, direct@.take(k as int), no_tests),
            decreases direct.len() - k,
        {
            let e = direct[k];
            proof {
                assert(direct@[k as int] < es.len());
                assert(direct@.take(k + 1).drop_last() =~= direct@.take(k as int));
                assert(direct@.take(k + 1).last() == e);
            }
            full_rows_exec(index, e, no_tests, &mut rows);
            k = k + 1;
        }
        proof { assert(direct@.take(direct@.len() as int) =~= direct@); }
        let ghost all = rows@;
        let page = paginate(rows, pg);
        proof { assert(full_views(page.items@) =~= page_of(full_views(all), pg.offset as nat, pg.limit)); }
        Ok(Overview::Full(page))
    } else {
        let mut rows = brief_subdir_rows_exec(index, &subdirs, &files, &d, no_tests);
        let ghost sub_rows = brief_views(rows@);
        let mut k: usize = 0;
        proof { assert(direct@.take(0) =~= Seq::<usize>::empty()); assert(sub_rows + brief_file_rows(es, direct@.take(0), no_tests) =~= sub_rows); }
        while k < direct.len()
            invariant
                es == index.entries@,
                forall|q: int| 0 <= q < direct@.len() ==> #[trigger] direct@[q] < es.len(),
                k <= direct@.len(),
                brief_views(rows@) == sub_rows + brief_file_rows(es, direct@.take(k as int), no_tests),
            decreases direct.len() - k,
        {
            let e = direct[k];
            proof {
                assert(direct@[k as int] < es.len());
                assert(direct@.take(k + 1).drop_last() =~= direct@.take(k as int));
                assert(direct@.take(k + 1).last() == e);
            }
            let syms = &index.entries[e].data.symbols;
            let listed_n = count_listed(syms, no_tests);
            if listed_n > 0 {
                let pc = chars_of(index.entries[e].path.as_str());
                let path = display_chars(pc.as_slice());
                let text = symbols_text_exec(syms, no_tests);
                let row = OverviewRow { file: string_from(path.as_slice()), symbols: string_from(text.as_slice()) };
                let ghost old_v = brief_views(rows@);
                rows.push(row);
                proof { assert(brief_views(rows@) =~= old_v.push(row@)); }
            }
            k = k + 1;
        }
        proof { assert(direct@.take(direct@.len() as int) =~= direct@); }
        let ghost all = rows@;
        let page = paginate(rows, pg);
        proof { assert(brief_views(page.items@) =~= page_of(brief_views(all), pg.offset as nat, pg.limit)); }
        Ok(Overview::Brief(page))
    }
}

/// The entries that are not test files.
pub open spec fn not_test_entry(es: Seq<FileEntry>) -> spec_fn(usize) -> bool {
    |e: usize| !is_test_path(es[e as int].path@)
}

proof fn lemma_covered_no_tests_aux(es: Seq<FileEntry>, es_all: Seq<FileEntry>, dir: Seq<char>)
    requires
        es.len() <= es_all.len(),
        es_all.len() <= usize::MAX,
        forall|e: int| 0 <= e < es.len() ==> #[trigger] es[e] == es_all[e],
    ensures
        covered_entries(es, dir, true) == covered_entries(es, dir, false).filter(not_test_entry(es_all)),
    decreases es.len(),
{
    let pred = not_test_entry(es_all);
    if es.len() == 0 {
        reveal(Seq::filter);
        assert(Seq::<usize>::empty().filter(pred) =~= Seq::<usize>::empty());
    } else {
        let es2 = es.drop_last();
        assert forall|e: int| 0 <= e < es2.len() implies #[trigger] es2[e] == es_all[e] by {
            assert(es2[e] == es[e]);
        }
        lemma_covered_no_tests_aux(es2, es_all, dir);
        let x = (es.len() - 1) as usize;
        let base = covered_entries(es2, dir, false);
        base.lemma_filter_push(x, pred);
        assert(es[x as int] == es_all[x as int]);
    }
}

/// Leaving tests out of an overview drops exactly the test files from the
/// files it covers, and by default it covers test files too.
pub proof fn lemma_overview_no_tests(es: Seq<FileEntry>, dir: Seq<char>)
    requires
        es.len() <= usize::MAX,
    ensures
        covered_entries(es, dir, true) == covered_entries(es, dir, false).filter(not_test_entry(es)),
        forall|e: int| 0 <= e < es.len() ==> (covered(es, dir, false, e) <==> (dir.len() == 0 || path_starts_with(#[trigger] es[e].path@, dir))),
{
    lemma_covered_no_tests_aux(es, es, dir);
}

/// Leaving tests out of a file's listing drops exactly its test symbols; by
/// default every symbol is listed.
pub proof fn lemma_listing_no_tests(syms: Seq<Symbol>)
    requires
        syms.len() <= usize::MAX,
    ensures
        listed_symbols(syms, false) == all_entries(syms.len()),
        listed_symbols(syms, true) == listed_symbols(syms, false).filter(|j: usize| !syms[j as int].is_test),
    decreases syms.len(),
{
    let pred = |j: usize| !syms[j as int].is_test;
    if syms.len() == 0 {
        reveal(Seq::filter);
        assert(all_entries(0) =~= Seq::<usize>::empty());
        assert(Seq::<usize>::empty().filter(pred) =~= Seq::<usize>::empty());
    } else {
        let s2 = syms.drop_last();
        lemma_listing_no_tests(s2);
        let x = (syms.len() - 1) as usize;
        assert(all_entries(syms.len()) =~= all_entries(s2.len()).push(x));
        let pred2 = |j: usize| !s2[j as int].is_test;
        let l2 = listed_symbols(s2, false);
        assert(l2.filter(pred2) =~= l2.filter(pred)) by {
            assert forall|j: usize| #[trigger] l2.contains(j) implies pred2(j) == pred(j) by {
                let k = choose|k: int| 0 <= k < l2.len() && l2[k] == j;
                assert(s2[j as int] == syms[j as int]);
            }
            lemma_filter_congruent(l2, pred2, pred);
        }
        l2.lemma_filter_push(x, pred);
        assert(x as int == syms.len() - 1);
    }
}

proof fn lemma_filter_congruent<A>(s: Seq<A>, p: spec_fn(A) -> bool, q: spec_fn(A) -> bool)
    requires
        forall|x: A| #[trigger] s.contains(x) ==> p(x) == q(x),
    ensures
        s.filter(p) == s.filter(q),
    decreases s.len(),
{
    if s.len() > 0 {
        let s2 = s.drop_last();
        assert forall|x: A| #[trigger] s2.contains(x) implies p(x) == q(x) by {
            let k = choose|k: int| 0 <= k < s2.len() && s2[k] == x;
            assert(s2[k] == s[k]);
            assert(s.contains(x));
        }
        lemma_filter_congruent(s2, p, q);
        assert(s =~= s2.push(s.last()));
        s2.lemma_filter_push(s.last(), p);
        s2.lemma_filter_push(s.last(), q);
        assert(s.contains(s[s.len() - 1]));
    } else {
        reveal(Seq::filter);
    }
}

// ---- every covered file is counted once ----

/// The entries whose path is the directory itself: neither in it nor below
/// one of its subdirectories.
pub open spec fn unplaced(es: Seq<FileEntry>, files: Seq<usize>, dir: Seq<char>) -> nat
    decreases files.len(),
{
    if files.len() == 0 {
        0
    } else {
        unplaced(es, files.drop_last(), dir)
            + if child_place(es[files.last() as int].path@, dir) is None { 1nat } else { 0nat }
    }
}

/// The entries that lie below some subdirectory.
pub open spec fn in_subdirs(es: Seq<FileEntry>, files: Seq<usize>, dir: Seq<char>) -> nat
    decreases files.len(),
{
    if files.len() == 0 {
        0
    } else {
        in_subdirs(es, files.drop_last(), dir) + if subdir_of(es, dir, files.last()) is Some { 1nat } else { 0nat }
    }
}

/// The file counts of the given subdirectories, added up.
pub open spec fn subdir_files_sum(es: Seq<FileEntry>, files: Seq<usize>, dir: Seq<char>, names: Seq<Seq<char>>) -> nat
    decreases names.len(),
{
    if names.len() == 0 {
        0
    } else {
        subdir_files_sum(es, files, dir, names.drop_last()) + subdir_files(es, files, dir, names.last())
    }
}

/// How many of the names are `m`.
pub open spec fn occurrences(names: Seq<Seq<char>>, m: Seq<char>) -> nat
    decreases names.len(),
{
    if names.len() == 0 {
        0
    } else {
        occurrences(names.drop_last(), m) + if names.last() == m { 1nat } else { 0nat }
    }
}

proof fn lemma_lex_lt_trans(a: Seq<char>, b: Seq<char>, c: Seq<char>)
    requires
        lex_lt(a, b),
        lex_lt(b, c),
    ensures
        lex_lt(a, c),
{
    crate::text::lemma_lex_trans(a, b, c);
    if a == c {
        crate::text::lemma_lex_antisym(a, b);
    }
}

proof fn lemma_sorted_insert(l: Seq<Seq<char>>, x: Seq<char>)
    requires
        strictly_sorted(l),
        !l.contains(x),
    ensures
        exists|l2: Seq<Seq<char>>| strictly_sorted(l2) && l2.to_set() == l.to_set().insert(x),
    decreases l.len(),
{
    if l.len() == 0 {
        let l2 = seq![x];
        assert(l2.to_set() =~= l.to_set().insert(x)) by {
            assert forall|y: Seq<char>| l2.to_set().contains(y) == l.to_set().insert(x).contains(y) by {
                if y == x { assert(l2[0] == x); }
            }
        }
        assert(strictly_sorted(l2));
    } else {
        let last = l.last();
        let init = l.drop_last();
        assert(last == l[l.len() - 1]);
        assert(strictly_sorted(init)) by {
            assert forall|i: int, j: int| 0 <= i < j < init.len() implies lex_lt(#[trigger] init[i], #[trigger] init[j]) by {
                assert(init[i] == l[i] && init[j] == l[j]);
            }
        }
        assert(l =~= init.push(last));
        assert(x != last);
        crate::text::lemma_lex_total(last, x);
        if lex_le(last, x) {
            let l2 = l.push(x);
            assert forall|i: int, j: int| 0 <= i < j < l2.len() implies lex_lt(#[trigger] l2[i], #[trigger] l2[j]) by {
                if j == l.len() {
                    assert(l2[i] == l[i]);
                    if i < l.len() - 1 {
                        assert(lex_lt(l[i], last));
                        lemma_lex_lt_trans(l[i], last, x);
                    }
                } else {
                    assert(l2[i] == l[i] && l2[j] == l[j]);
                }
            }
            assert(l2.to_set() =~= l.to_set().insert(x)) by {
                assert forall|y: Seq<char>| l2.to_set().contains(y) == l.to_set().insert(x).contains(y) by {
                    if l2.contains(y) {
                        let k = choose|k: int| 0 <= k < l2.len() && l2[k] == y;
                        if k < l.len() { assert(l[k] == y); }
                    }
                    if l.contains(y) {
                        let k = choose|k: int| 0 <= k < l.len() && l[k] == y;
                        assert(l2[k] == y);
                    }
                    if y == x { assert(l2[l.len() as int] == x); }
                }
            }
        } else {
            assert(!init.contains(x)) by {
                if init.contains(x) {
                    let k = choose|k: int| 0 <= k < init.len() && init[k] == x;
                    assert(l[k] == x);
                }
            }
            lemma_sorted_insert(init, x);
            let l1 = choose|l1: Seq<Seq<char>>| strictly_sorted(l1) && l1.to_set() == init.to_set().insert(x);
            let l2 = l1.push(last);
            assert forall|i: int, j: int| 0 <= i < j < l2.len() implies lex_lt(#[trigger] l2[i], #[trigger] l2[j]) by {
                if j == l1.len() {
                    assert(l2[i] == l1[i]);
                    assert(l1.to_set().contains(l1[i]));
                    if l1[i] != x {
                        assert(init.contains(l1[i]));
                        let k = choose|k: int| 0 <= k < init.len() && init[k] == l1[i];
                        assert(l[k] == l1[i]);
                    }
                } else {
                    assert(l2[i] == l1[i] && l2[j] == l1[j]);
                }
            }
            assert(l2.to_set() =~= l.to_set().insert(x)) by {
                assert forall|y: Seq<char>| l2.to_set().contains(y) == l.to_set().insert(x).contains(y) by {
                    if l2.contains(y) {
                        let k = choose|k: int| 0 <= k < l2.len() && l2[k] == y;
                        if k < l1.len() {
                            assert(l1[k] == y);
                            assert(l1.to_set().contains(y));
                            if y != x {
                                assert(init.contains(y));
                                let q = choose|q: int| 0 <= q < init.len() && init[q] == y;
                                assert(l[q] == y);
                            }
                        } else {
                            assert(y == last);
                            assert(l[l.len() - 1] == y);
                        }
                    }
                    if l.contains(y) {
                        let k = choose|k: int| 0 <= k < l.len() && l[k] == y;
                        if k < l.len() - 1 {
                            assert(init[k] == y);
                            assert(init.to_set().insert(x).contains(y));
                            assert(l1.contains(y));
                            let q = choose|q: int| 0 <= q < l1.len() && l1[q] == y;
                            assert(l2[q] == y);
                        } else {
                            assert(l2[l1.len() as int] == y);
                        }
                    }
                    if y == x {
                        assert(l1.to_set().contains(x));
                        let q = choose|q: int| 0 <= q < l1.len() && l1[q] == x;
                        assert(l2[q] == x);
                    }
                }
            }
        }
    }
}

/// The subdirectories of any files can be listed in name order.
proof fn lemma_subdir_list_exists(es: Seq<FileEntry>, files: Seq<usize>, dir: Seq<char>)
    ensures
        strictly_sorted(subdir_list(es, files, dir)),
        subdir_list(es, files, dir).to_set() == subdir_names(es, files, dir),
    decreases files.len(),
{
    if files.len() == 0 {
        let l = Seq::<Seq<char>>::empty();
        assert(l.to_set() =~= subdir_names(es, files, dir));
        assert(strictly_sorted(l));
    } else {
        let n = files.len() - 1;
        let f2 = files.drop_last();
        lemma_subdir_list_exists(es, f2, dir);
        let l = subdir_list(es, f2, dir);
        assert(files.take(n) =~= f2);
        assert(files.take(n + 1) =~= files);
        assert forall|m: Seq<char>| #[trigger] subdir_names(es, files, dir).contains(m)
            <==> (subdir_names(es, f2, dir).contains(m) || subdir_of(es, dir, files[n]) == Some(m)) by {
            lemma_names_step(es, files, dir, n, m);
        }
        match subdir_of(es, dir, files[n]) {
            Some(m) => {
                if l.contains(m) {
                    assert(l.to_set() =~= subdir_names(es, files, dir)) by {
                        assert(l.to_set().contains(m));
                    }
                } else {
                    lemma_sorted_insert(l, m);
                    let l2 = choose|l2: Seq<Seq<char>>| strictly_sorted(l2) && l2.to_set() == l.to_set().insert(m);
                    assert(l2.to_set() =~= subdir_names(es, files, dir));
                }
            },
            None => {
                assert(l.to_set() =~= subdir_names(es, files, dir));
            },
        }
    }
}

proof fn lemma_occurrences_one(names: Seq<Seq<char>>, m: Seq<char>)
    requires
        strictly_sorted(names),
    ensures
        occurrences(names, m) == if names.contains(m) { 1nat } else { 0nat },
    decreases names.len(),
{
    if names.len() > 0 {
        let init = names.drop_last();
        assert(strictly_sorted(init)) by {
            assert forall|i: int, j: int| 0 <= i < j < init.len() implies lex_lt(#[trigger] init[i], #[trigger] init[j]) by {
                assert(init[i] == names[i] && init[j] == names[j]);
            }
        }
        lemma_occurrences_one(init, m);
        if init.contains(m) {
            let k = choose|k: int| 0 <= k < init.len() && init[k] == m;
            assert(names[k] == m);
            assert(lex_lt(names[k], names[names.len() - 1]));
            assert(names.contains(m));
        }
        if names.contains(m) && !init.contains(m) {
            let k = choose|k: int| 0 <= k < names.len() && names[k] == m;
            if k < names.len() - 1 {
                assert(init[k] == m);
            }
        }
        if names.last() == m {
            assert(names[names.len() - 1] == m);
        }
    }
}

proof fn lemma_files_sum_step(es: Seq<FileEntry>, files: Seq<usize>, dir: Seq<char>, names: Seq<Seq<char>>)
    requires
        files.len() > 0,
    ensures
        subdir_files_sum(es, files, dir, names) == subdir_files_sum(es, files.drop_last(), dir, names)
            + match subdir_of(es, dir, files.last()) {
                Some(m) => occurrences(names, m),
                None => 0nat,
            },
    decreases names.len(),
{
    if names.len() > 0 {
        lemma_files_sum_step(es, files, dir, names.drop_last());
    }
}

proof fn lemma_files_sum(es: Seq<FileEntry>, files: Seq<usize>, dir: Seq<char>, names: Seq<Seq<char>>)
    requires
        strictly_sorted(names),
        forall|m: Seq<char>| #[trigger] subdir_names(es, files, dir).contains(m) ==> names.contains(m),
    ensures
        subdir_files_sum(es, files, dir, names) == in_subdirs(es, files, dir),
    decreases files.len(),
{
    if files.len() == 0 {
        lemma_files_sum_zero(es, files, dir, names);
    } else {
        let n = files.len() - 1;
        let f2 = files.drop_last();
        assert(files.take(n) =~= f2);
        assert(files.take(n + 1) =~= files);
        assert forall|m: Seq<char>| #[trigger] subdir_names(es, f2, dir).contains(m) implies names.contains(m) by {
            lemma_names_step(es, files, dir, n, m);
        }
        lemma_files_sum(es, f2, dir, names);
        lemma_files_sum_step(es, files, dir, names);
        match subdir_of(es, dir, files.last()) {
            Some(m) => {
                assert(files.last() == files[n]);
                lemma_names_step(es, files, dir, n, m);
                assert(names.contains(m));
                lemma_occurrences_one(names, m);
            },
            None => {},
        }
    }
}

proof fn lemma_files_sum_zero(es: Seq<FileEntry>, files: Seq<usize>, dir: Seq<char>, names: Seq<Seq<char>>)
    requires
        files.len() == 0,
    ensures
        subdir_files_sum(es, files, dir, names) == 0,
    decreases names.len(),
{
    if names.len() > 0 {
        lemma_files_sum_zero(es, files, dir, names.drop_last());
    }
}

proof fn lemma_partition(es: Seq<FileEntry>, files: Seq<usize>, dir: Seq<char>)
    ensures
        files.len() == direct_entries(es, files, dir).len() + in_subdirs(es, files, dir) + unplaced(es, files, dir),
    decreases files.len(),
{
    if files.len() > 0 {
        lemma_partition(es, files.drop_last(), dir);
    }
}

/// Every file an overview covers is counted once: as a file directly in the
/// directory, in the file count of exactly one subdirectory row, or, when its
/// path is the directory itself, nowhere.
pub proof fn lemma_overview_counts_each_file(es: Seq<FileEntry>, files: Seq<usize>, dir: Seq<char>)
    ensures
        files.len() == direct_entries(es, files, dir).len()
            + subdir_files_sum(es, files, dir, subdir_list(es, files, dir))
            + unplaced(es, files, dir),
{
    lemma_subdir_list_exists(es, files, dir);
    let l = subdir_list(es, files, dir);
    assert forall|m: Seq<char>| #[trigger] subdir_names(es, files, dir).contains(m) implies l.contains(m) by {
        assert(l.to_set().contains(m));
    }
    lemma_files_sum(es, files, dir, l);
    lemma_partition(es, files, dir);
}

// ---- the order of a file's listing ----

/// The kinds listed first: types.
pub open spec fn is_type_kind(k: SymbolKind) -> bool {
    k == SymbolKind::Struct || k == SymbolKind::Enum || k == SymbolKind::Trait
        || k == SymbolKind::Interface || k == SymbolKind::Class
}

proof fn lemma_listed_key_order(syms: Seq<Symbol>, a: usize, b: usize)
    requires
        key_le(listed_key(syms)(a), listed_key(syms)(b)),
    ensures
        priority_of(syms[a as int].kind) <= priority_of(syms[b as int].kind),
        priority_of(syms[a as int].kind) == priority_of(syms[b as int].kind)
            ==> lex_le(syms[a as int].name@, syms[b as int].name@),
{
    let ka = listed_key(syms)(a);
    let kb = listed_key(syms)(b);
    if ka[0] == kb[0] {
        let a1 = ka.drop_first();
        let b1 = kb.drop_first();
        assert(a1[0] == PartValue::Text(syms[a as int].name@));
        assert(b1[0] == PartValue::Text(syms[b as int].name@));
        assert(key_le(a1, b1));
        if a1[0] == b1[0] {
            crate::text::lemma_lex_total(syms[a as int].name@, syms[a as int].name@);
        }
    }
}

/// A file's listing in an overview comes types first (struct, enum, trait,
/// interface, class), fields last, and by name among symbols of the same
/// priority; it lists every listed symbol once.
pub proof fn lemma_listing_order(syms: Seq<Symbol>, no_tests: bool)
    ensures
        ({
            let l = listed_order(syms, no_tests);
            &&& l.to_multiset() == listed_symbols(syms, no_tests).to_multiset()
            &&& forall|i: int, j: int| 0 <= i < j < l.len() ==> {
                &&& priority_of(syms[l[i] as int].kind) <= priority_of(#[trigger] syms[l[j] as int].kind)
                &&& (is_type_kind(syms[l[j] as int].kind) ==> is_type_kind(#[trigger] syms[l[i] as int].kind))
                &&& (syms[l[i] as int].kind == SymbolKind::Field ==> syms[l[j] as int].kind == SymbolKind::Field)
                &&& (priority_of(syms[l[i] as int].kind) == priority_of(syms[l[j] as int].kind)
                    ==> lex_le(syms[l[i] as int].name@, syms[l[j] as int].name@))
            }
        }),
{
    let leq = key_order(listed_key(syms));
    assert forall|a: usize, b: usize| #[trigger] listed_key(syms)(a) == #[trigger] listed_key(syms)(b) implies a == b by {
        assert(listed_key(syms)(a)[2] == listed_key(syms)(b)[2]);
    }
    crate::sort::lemma_key_order_total(listed_key(syms));
    let ls = listed_symbols(syms, no_tests);
    ls.lemma_sort_by_ensures(leq);
    let l = listed_order(syms, no_tests);
    assert forall|i: int, j: int| 0 <= i < j < l.len() implies {
        &&& priority_of(syms[l[i] as int].kind) <= priority_of(#[trigger] syms[l[j] as int].kind)
        &&& (is_type_kind(syms[l[j] as int].kind) ==> is_type_kind(#[trigger] syms[l[i] as int].kind))
        &&& (syms[l[i] as int].kind == SymbolKind::Field ==> syms[l[j] as int].kind == SymbolKind::Field)
        &&& (priority_of(syms[l[i] as int].kind) == priority_of(syms[l[j] as int].kind)
            ==> lex_le(syms[l[i] as int].name@, syms[l[j] as int].name@))
    } by {
        assert(leq(l[i], l[j]));
        lemma_listed_key_order(syms, l[i], l[j]);
    }
}

} // verus!
