//! The references query: which files may mention a name, the rows that the
//! reference sites of one file give, and the final ordering, deduplication
//! and per-file summary of those rows.
use vstd::prelude::*;
use crate::definition::{lines_of, text_lines};
use crate::index::Symbol;
use crate::path::{display_chars, forward_slashes, views, copy_chars};
use crate::pagination::{page_of, paginate, Paginated, Pagination};
use crate::query::all_entries;
use crate::sort::{
    key_le, key_order, key_value, lemma_is_sort_by, lemma_map_multiset, lemma_sorted_unique, sort_items,
    sorted_by_key, KeyPart, Keyed, PartValue,
};
use crate::text::{
    chars_of, compare_chars, decimal, join, join_chars, lemma_lex_antisym, lemma_lex_total, lemma_lex_trans,
    lex_le, lex_lt, push_decimal, string_from, Cmp,
};
use vstd::relations::{sorted_by, total_ordering};
use vstd::string::StringSliceAdditionalSpecFns;

verus! {

broadcast use vstd::seq_lib::group_to_multiset_ensures;

/// `needle` occurs in `haystack` at offset `i`.
pub open spec fn occurs_at(haystack: Seq<u8>, needle: Seq<u8>, i: int) -> bool {
    0 <= i && i + needle.len() <= haystack.len() && haystack.subrange(i, i + needle.len()) == needle
}

/// The first occurrence of `needle` in `haystack`, by
/// `memchr::memmem::find`. The contract claims `None` exactly when the needle
/// occurs nowhere, and otherwise an offset where it occurs with no earlier
/// occurrence (an empty needle occurs at 0).
#[verifier::external_body]
fn memmem_find(haystack: &[u8], needle: &[u8]) -> (r: Option<usize>)
    ensures
        r is None ==> forall|i: int| !occurs_at(haystack@, needle@, i),
        r matches Some(i) ==> occurs_at(haystack@, needle@, i as int)
            && forall|j: int| 0 <= j < i ==> !occurs_at(haystack@, needle@, j),
{
    memchr::memmem::find(haystack, needle)
}

/// Whether a source file may reference `name`: its UTF-8 bytes occur in it.
pub fn may_reference(source: &[u8], name: &str) -> (r: bool)
    ensures
        r == exists|i: int| occurs_at(source@, name.spec_bytes(), i),
{
    let needle = name.as_bytes();
    match memmem_find(source, needle) {
        Some(i) => {
            proof { assert(occurs_at(source@, name.spec_bytes(), i as int)); }
            true
        },
        None => false,
    }
}

/// Decodes UTF-8 with `std::str::from_utf8`. The contract claims `Some`
/// exactly for valid UTF-8 input, holding the characters it encodes.
#[verifier::external_body]
fn utf8_str(b: &[u8]) -> (r: Option<&str>)
    ensures
        r is Some <==> vstd::utf8::valid_utf8(b@),
        r matches Some(s) ==> s@ == vstd::utf8::decode_utf8(b@),
{
    std::str::from_utf8(b).ok()
}

/// The characters that `char::is_whitespace` accepts (Unicode White_Space).
pub open spec fn is_white(c: char) -> bool {
    let u = c as u32;
    ||| 0x9 <= u <= 0xD
    ||| u == 0x20
    ||| u == 0x85
    ||| u == 0xA0
    ||| u == 0x1680
    ||| 0x2000 <= u <= 0x200A
    ||| u == 0x2028
    ||| u == 0x2029
    ||| u == 0x202F
    ||| u == 0x205F
    ||| u == 0x3000
}

fn is_white_exec(c: char) -> (r: bool)
    ensures
        r == is_white(c),
{
    let u = c as u32;
    (0x9 <= u && u <= 0xD) || u == 0x20 || u == 0x85 || u == 0xA0 || u == 0x1680
        || (0x2000 <= u && u <= 0x200A) || u == 0x2028 || u == 0x2029 || u == 0x202F
        || u == 0x205F || u == 0x3000
}

pub open spec fn trim_start(s: Seq<char>) -> Seq<char>
    decreases s.len(),
{
    if s.len() > 0 && is_white(s[0]) { trim_start(s.drop_first()) } else { s }
}

pub open spec fn trim_end(s: Seq<char>) -> Seq<char>
    decreases s.len(),
{
    if s.len() > 0 && is_white(s.last()) { trim_end(s.drop_last()) } else { s }
}

/// `str::trim`: without leading and trailing whitespace.
pub open spec fn trimmed(s: Seq<char>) -> Seq<char> {
    trim_end(trim_start(s))
}

proof fn lemma_trim_start_skip(s: Seq<char>, a: int)
    requires
        0 <= a <= s.len(),
        forall|k: int| 0 <= k < a ==> is_white(#[trigger] s[k]),
        a == s.len() || !is_white(s[a]),
    ensures
        trim_start(s) == s.skip(a),
    decreases a,
{
    if a > 0 {
        lemma_trim_start_skip(s.drop_first(), a - 1);
        assert(s.drop_first().skip(a - 1) =~= s.skip(a));
    } else {
        assert(s.skip(0) =~= s);
    }
}

proof fn lemma_trim_end_take(s: Seq<char>, b: int)
    requires
        0 <= b <= s.len(),
        forall|k: int| b <= k < s.len() ==> is_white(#[trigger] s[k]),
        b == 0 || !is_white(s[b - 1]),
    ensures
        trim_end(s) == s.take(b),
    decreases s.len() - b,
{
    if b < s.len() {
        lemma_trim_end_take(s.drop_last(), b);
        assert(s.drop_last().take(b) =~= s.take(b));
    } else {
        assert(s.take(b) =~= s);
    }
}

/// Trims whitespace from both ends.
pub fn trim_chars(s: &[char]) -> (r: Vec<char>)
    ensures
        r@ == trimmed(s@),
{
    let n = s.len();
    let mut a: usize = 0;
    while a < n && is_white_exec(s[a])
        invariant
            a <= n,
            n == s@.len(),
            forall|k: int| 0 <= k < a ==> is_white(#[trigger] s@[k]),
        decreases n - a,
    {
        a = a + 1;
    }
    let mut b: usize = n;
    while b > a && is_white_exec(s[b - 1])
        invariant
            a <= b <= n,
            n == s@.len(),
            forall|k: int| b <= k < n ==> is_white(#[trigger] s@[k]),
        decreases b,
    {
        b = b - 1;
    }
    proof {
        lemma_trim_start_skip(s@, a as int);
        let t = s@.skip(a as int);
        assert forall|k: int| (b - a) <= k < t.len() implies is_white(#[trigger] t[k]) by {
            assert(t[k] == s@[a + k]);
        }
        if b > a {
            assert(t[b - a - 1] == s@[b - 1]);
        }
        lemma_trim_end_take(t, (b - a) as int);
    }
    let mut r: Vec<char> = Vec::new();
    let mut i: usize = a;
    while i < b
        invariant
            a <= i <= b,
            b <= s@.len(),
            r@ == s@.subrange(a as int, i as int),
        decreases b - i,
    {
        r.push(s[i]);
        proof { assert(s@.subrange(a as int, i + 1) =~= s@.subrange(a as int, i as int).push(s@[i as int])); }
        i = i + 1;
    }
    proof { assert(s@.subrange(a as int, b as int) =~= s@.skip(a as int).take((b - a) as int)); }
    r
}

/// The symbol range holds the offset.
pub open spec fn encloses(s: Symbol, off: nat) -> bool {
    s.byte_range.0 <= off < s.byte_range.1
}

pub open spec fn range_width(s: Symbol) -> int {
    s.byte_range.1 - s.byte_range.0
}

/// Symbol `i` is the tightest symbol around the offset: it holds it, no
/// symbol that holds it is narrower, and earlier ones that hold it are wider.
pub open spec fn is_tightest(syms: Seq<Symbol>, off: nat, i: int) -> bool {
    &&& 0 <= i < syms.len()
    &&& encloses(syms[i], off)
    &&& forall|j: int| 0 <= j < syms.len() && encloses(#[trigger] syms[j], off) ==> range_width(syms[i]) <= range_width(syms[j])
    &&& forall|j: int| 0 <= j < i && encloses(#[trigger] syms[j], off) ==> range_width(syms[j]) > range_width(syms[i])
}

/// The tightest enclosing symbol, if any holds the offset.
pub open spec fn tightest(syms: Seq<Symbol>, off: nat) -> Option<int> {
    if exists|i: int| is_tightest(syms, off, i) {
        Some(choose|i: int| is_tightest(syms, off, i))
    } else {
        None
    }
}

proof fn lemma_tightest_unique(syms: Seq<Symbol>, off: nat, i: int, j: int)
    requires
        is_tightest(syms, off, i),
        is_tightest(syms, off, j),
    ensures
        i == j,
{
    if i < j {
        assert(range_width(syms[i]) > range_width(syms[j]));
    } else if j < i {
        assert(range_width(syms[j]) > range_width(syms[i]));
    }
}

/// Finds the enclosing symbol for a byte offset: the one with the smallest
/// range, the first such one on a tie.
pub fn find_enclosing_symbol(symbols: &[Symbol], byte_offset: usize) -> (r: Option<&str>)
    ensures
        match tightest(symbols@, byte_offset as nat) {
            Some(i) => r matches Some(n) && n@ == symbols@[i].name@,
            None => r is None,
        },
{
    let mut best: Option<usize> = None;
    let mut i: usize = 0;
    while i < symbols.len()
        invariant
            i <= symbols@.len(),
            match best {
                Some(b) => is_tightest(symbols@.take(i as int), byte_offset as nat, b as int),
                None => forall|j: int| 0 <= j < i ==> !encloses(#[trigger] symbols@[j], byte_offset as nat),
            },
        decreases symbols.len() - i,
    {
        let s = &symbols[i];
        let ghost pre = symbols@.take(i as int);
        let ghost cur = symbols@.take(i + 1);
        proof { assert(cur =~= pre.push(symbols@[i as int])); }
        if s.byte_range.0 <= byte_offset && byte_offset < s.byte_range.1 {
            match best {
                None => {
                    best = Some(i);
                    proof {
                        assert forall|j: int| 0 <= j < cur.len() && encloses(#[trigger] cur[j], byte_offset as nat)
                            implies range_width(cur[i as int]) <= range_width(cur[j]) by {
                            if j < i { assert(cur[j] == symbols@[j]); }
                        }
                        assert forall|j: int| 0 <= j < i && encloses(#[trigger] cur[j], byte_offset as nat)
                            implies range_width(cur[j]) > range_width(cur[i as int]) by {
                            assert(cur[j] == symbols@[j]);
                        }
                    }
                },
                Some(b) => {
                    let w = s.byte_range.1 - s.byte_range.0;
                    let bs = &symbols[b];
                    proof { assert(pre[b as int] == symbols@[b as int]); }
                    let bw = bs.byte_range.1 - bs.byte_range.0;
                    if w < bw {
                        best = Some(i);
                        proof {
                            assert forall|j: int| 0 <= j < cur.len() && encloses(#[trigger] cur[j], byte_offset as nat)
                                implies range_width(cur[i as int]) <= range_width(cur[j]) by {
                                if j < i { assert(cur[j] == pre[j]); }
                            }
                            assert forall|j: int| 0 <= j < i && encloses(#[trigger] cur[j], byte_offset as nat)
                                implies range_width(cur[j]) > range_width(cur[i as int]) by {
                                assert(cur[j] == pre[j]);
                            }
                        }
                    } else {
                        proof {
                            assert forall|j: int| 0 <= j < cur.len() && encloses(#[trigger] cur[j], byte_offset as nat)
                                implies range_width(cur[b as int]) <= range_width(cur[j]) by {
                                if j < i { assert(cur[j] == pre[j]); }
                            }
                            assert forall|j: int| 0 <= j < b && encloses(#[trigger] cur[j], byte_offset as nat)
                                implies range_width(cur[j]) > range_width(cur[b as int]) by {
                                assert(cur[j] == pre[j]);
                            }
                        }
                    }
                },
            }
        } else {
            proof {
                match best {
                    Some(b) => {
                        assert forall|j: int| 0 <= j < cur.len() && encloses(#[trigger] cur[j], byte_offset as nat)
                            implies range_width(cur[b as int]) <= range_width(cur[j]) by {
                            if j < i { assert(cur[j] == pre[j]); }
                        }
                        assert forall|j: int| 0 <= j < b && encloses(#[trigger] cur[j], byte_offset as nat)
                            implies range_width(cur[j]) > range_width(cur[b as int]) by {
                            assert(cur[j] == pre[j]);
                        }
                    },
                    None => {},
                }
            }
        }
        i = i + 1;
    }
    proof { assert(symbols@.take(symbols@.len() as int) =~= symbols@); }
    match best {
        Some(b) => {
            proof {
                assert(is_tightest(symbols@, byte_offset as nat, b as int));
                let c = choose|c: int| is_tightest(symbols@, byte_offset as nat, c);
                lemma_tightest_unique(symbols@, byte_offset as nat, b as int, c);
            }
            Some(symbols[b].name.as_str())
        },
        None => {
            proof {
                if exists|c: int| is_tightest(symbols@, byte_offset as nat, c) {
                    let c = choose|c: int| is_tightest(symbols@, byte_offset as nat, c);
                    assert(encloses(symbols@[c], byte_offset as nat));
                }
            }
            None
        },
    }
}


/// A reference site reported by the grammar search: its 1-based line and its
/// byte offset.
pub struct RefSite {
    pub line: usize,
    pub byte_offset: usize,
}

/// One reference, as shown with `--context`.
pub struct ReferenceRow {
    pub file: String,
    pub line: usize,
    /// The name of the tightest symbol around the reference.
    pub caller: Option<String>,
    /// The trimmed source line.
    pub context: String,
}

/// The mathematical value of a `ReferenceRow`.
pub struct ReferenceRowView {
    pub file: Seq<char>,
    pub line: nat,
    pub caller: Option<Seq<char>>,
    pub context: Seq<char>,
}

impl View for ReferenceRow {
    type V = ReferenceRowView;

    open spec fn view(&self) -> ReferenceRowView {
        ReferenceRowView {
            file: self.file@,
            line: self.line as nat,
            caller: match self.caller {
                Some(c) => Some(c@),
                None => None,
            },
            context: self.context@,
        }
    }
}

/// The lines of a source file: none unless it is valid UTF-8.
pub open spec fn source_lines(src: Seq<u8>) -> Seq<Seq<char>> {
    if vstd::utf8::valid_utf8(src) {
        text_lines(vstd::utf8::decode_utf8(src))
    } else {
        seq![]
    }
}

/// The trimmed text of a 1-based line; empty past the end.
pub open spec fn context_of(lines: Seq<Seq<char>>, line: nat) -> Seq<char> {
    if 1 <= line && line - 1 < lines.len() {
        trimmed(lines[line - 1])
    } else {
        seq![]
    }
}

/// The row a reference site of a file gives.
pub open spec fn site_row(path: Seq<char>, src: Seq<u8>, syms: Seq<Symbol>, site: RefSite) -> ReferenceRowView {
    ReferenceRowView {
        file: forward_slashes(path),
        line: site.line as nat,
        caller: match tightest(syms, site.byte_offset as nat) {
            Some(i) => Some(syms[i].name@),
            None => None,
        },
        context: context_of(source_lines(src), site.line as nat),
    }
}

/// The rows that the reference sites of one file give, in site order.
pub fn reference_rows(path: &str, source: &[u8], symbols: &[Symbol], sites: &[RefSite]) -> (r: Vec<ReferenceRow>)
    ensures
        r@.len() == sites@.len(),
        forall|i: int| 0 <= i < r@.len() ==> #[trigger] r@[i]@ == site_row(path@, source@, symbols@, sites@[i]),
{
    let lines: Vec<Vec<char>> = match utf8_str(source) {
        Some(text) => {
            let t = chars_of(text);
            lines_of(t.as_slice())
        },
        None => Vec::new(),
    };
    proof {
        if !vstd::utf8::valid_utf8(source@) {
            assert(views(lines@) =~= Seq::<Seq<char>>::empty());
        }
    }
    let p = chars_of(path);
    let file = display_chars(p.as_slice());
    let mut r: Vec<ReferenceRow> = Vec::new();
    let mut i: usize = 0;
    while i < sites.len()
        invariant
            i <= sites@.len(),
            r@.len() == i,
            views(lines@) == source_lines(source@),
            file@ == forward_slashes(path@),
            forall|k: int| 0 <= k < i ==> #[trigger] r@[k]@ == site_row(path@, source@, symbols@, sites@[k]),
        decreases sites.len() - i,
    {
        let site = &sites[i];
        let context = if site.line >= 1 && site.line - 1 < lines.len() {
            proof { assert(views(lines@)[site.line - 1] == lines@[site.line - 1]@); }
            trim_chars(lines[site.line - 1].as_slice())
        } else {
            Vec::new()
        };
        let caller = match find_enclosing_symbol(symbols, site.byte_offset) {
            Some(n) => Some(string_from(chars_of(n).as_slice())),
            None => None,
        };
        let row = ReferenceRow {
            file: string_from(file.as_slice()),
            line: site.line,
            caller,
            context: string_from(context.as_slice()),
        };
        proof {
            assert(context@ == context_of(source_lines(source@), site.line as nat));
            assert(row@ == site_row(path@, source@, symbols@, sites@[i as int]));
        }
        r.push(row);
        i = i + 1;
    }
    r
}


/// The views of a list of rows.
pub open spec fn row_views(rows: Seq<ReferenceRow>) -> Seq<ReferenceRowView> {
    rows.map_values(|r: ReferenceRow| r@)
}

/// References are ordered by file, then line; ties keep their order.
pub open spec fn ref_key(rows: Seq<ReferenceRowView>) -> spec_fn(usize) -> Seq<PartValue> {
    |p: usize| seq![PartValue::Text(rows[p as int].file), PartValue::Up(rows[p as int].line), PartValue::Up(p as nat)]
}

/// The rows in reference order.
pub open spec fn ordered_rows(rows: Seq<ReferenceRowView>) -> Seq<ReferenceRowView> {
    all_entries(rows.len()).sort_by(key_order(ref_key(rows))).map_values(|p: usize| rows[p as int])
}

/// Two rows name the same line of the same file.
pub open spec fn same_site(a: ReferenceRowView, b: ReferenceRowView) -> bool {
    a.file == b.file && a.line == b.line
}

/// Consecutive rows of the same site reduced to the first of them.
pub open spec fn dedup_sites(s: Seq<ReferenceRowView>) -> Seq<ReferenceRowView>
    decreases s.len(),
{
    if s.len() <= 1 {
        s
    } else {
        let r = dedup_sites(s.drop_last());
        if same_site(s.last(), s[s.len() - 2]) { r } else { r.push(s.last()) }
    }
}

fn clone_str(s: &String) -> (r: String)
    ensures
        r@ == s@,
{
    s.clone()
}

fn clone_row(r: &ReferenceRow) -> (c: ReferenceRow)
    ensures
        c@ == r@,
{
    ReferenceRow {
        file: clone_str(&r.file),
        line: r.line,
        caller: match &r.caller {
            Some(n) => Some(clone_str(n)),
            None => None,
        },
        context: clone_str(&r.context),
    }
}

proof fn lemma_ref_key_injective(rows: Seq<ReferenceRowView>)
    ensures
        forall|a: usize, b: usize| #[trigger] ref_key(rows)(a) == #[trigger] ref_key(rows)(b) ==> a == b,
{
    assert forall|a: usize, b: usize| #[trigger] ref_key(rows)(a) == #[trigger] ref_key(rows)(b) implies a == b by {
        assert(ref_key(rows)(a)[2] == ref_key(rows)(b)[2]);
    }
}

/// Orders the rows by file and line and drops repeated sites, keeping the
/// first row of each.
pub fn order_and_dedup(rows: &Vec<ReferenceRow>) -> (r: Vec<ReferenceRow>)
    ensures
        row_views(r@) == dedup_sites(ordered_rows(row_views(rows@))),
{
    let ghost rv = row_views(rows@);
    let n = rows.len();
    let mut keyed: Vec<Keyed<usize>> = Vec::new();
    let mut p: usize = 0;
    while p < n
        invariant
            n == rows@.len(),
            rv == row_views(rows@),
            p <= n,
            keyed@.map_values(|k: Keyed<usize>| k.item) == all_entries(p as nat),
            forall|i: int| 0 <= i < keyed@.len() ==> key_value(#[trigger] keyed@[i].key@) == ref_key(rv)(keyed@[i].item),
        decreases n - p,
    {
        let mut key: Vec<KeyPart> = Vec::new();
        key.push(KeyPart::Text(chars_of(rows[p].file.as_str())));
        key.push(KeyPart::Up(rows[p].line));
        key.push(KeyPart::Up(p));
        proof {
            assert(rv[p as int] == rows@[p as int]@);
            assert(key_value(key@) =~= ref_key(rv)(p));
        }
        let ghost old_items = keyed@.map_values(|k: Keyed<usize>| k.item);
        keyed.push(Keyed { key, item: p });
        proof {
            assert(keyed@.map_values(|k: Keyed<usize>| k.item) =~= old_items.push(p));
            assert(all_entries((p + 1) as nat) =~= all_entries(p as nat).push(p));
        }
        p = p + 1;
    }
    let order = sort_items(keyed, Ghost(ref_key(rv)));
    proof {
        lemma_ref_key_injective(rv);
        lemma_is_sort_by(order@, all_entries(n as nat), ref_key(rv));
        assert(order@.len() == order@.to_multiset().len());
        assert(all_entries(n as nat).len() == all_entries(n as nat).to_multiset().len());
        assert forall|i: int| 0 <= i < order@.len() implies #[trigger] order@[i] < n by {
            assert(order@.to_multiset().count(order@[i]) > 0);
            assert(all_entries(n as nat).contains(order@[i]));
        }
    }
    let ghost ordered = ordered_rows(rv);
    let mut out: Vec<ReferenceRow> = Vec::new();
    let mut i: usize = 0;
    while i < order.len()
        invariant
            n == rows@.len(),
            rv == row_views(rows@),
            order@.len() == n,
            forall|k: int| 0 <= k < order@.len() ==> #[trigger] order@[k] < n,
            ordered == order@.map_values(|p: usize| rv[p as int]),
            i <= n,
            row_views(out@) == dedup_sites(ordered.take(i as int)),
        decreases n - i,
    {
        let pi = order[i];
        proof {
            assert(order@[i as int] < n);
            assert(ordered[i as int] == rows@[pi as int]@);
            assert(ordered.take(i + 1).drop_last() =~= ordered.take(i as int));
            assert(ordered.take(i + 1).last() == ordered[i as int]);
        }
        let keep = if i == 0 {
            true
        } else {
            let pj = order[i - 1];
            proof {
                assert(order@[i - 1] < n);
                assert(ordered[i - 1] == rows@[pj as int]@);
                assert(ordered.take(i + 1)[i - 1] == ordered[i - 1]);
            }
            !(compare_chars(chars_of(rows[pi].file.as_str()).as_slice(), chars_of(rows[pj].file.as_str()).as_slice())
                == Cmp::Equal && rows[pi].line == rows[pj].line)
        };
        if keep {
            let ghost old_v = row_views(out@);
            out.push(clone_row(&rows[pi]));
            proof {
                assert(row_views(out@) =~= old_v.push(ordered[i as int]));
                if i == 0 {
                    assert(ordered.take(1) =~= seq![ordered[0]]);
                    assert(old_v =~= Seq::<ReferenceRowView>::empty());
                }
            }
        }
        i = i + 1;
    }
    proof { assert(ordered.take(n as int) =~= ordered); }
    out
}


/// The text order as a relation.
pub open spec fn text_order() -> spec_fn(Seq<char>, Seq<char>) -> bool {
    |a: Seq<char>, b: Seq<char>| lex_le(a, b)
}

proof fn lemma_text_order_total()
    ensures
        total_ordering(text_order()),
{
    let leq = text_order();
    assert forall|x: Seq<char>| #[trigger] leq(x, x) by { lemma_lex_total(x, x); }
    assert forall|x: Seq<char>, y: Seq<char>| #[trigger] leq(x, y) && #[trigger] leq(y, x) implies x == y by {
        lemma_lex_antisym(x, y);
    }
    assert forall|x: Seq<char>, y: Seq<char>, z: Seq<char>| #[trigger] leq(x, y) && #[trigger] leq(y, z) implies leq(x, z) by {
        lemma_lex_trans(x, y, z);
    }
    assert forall|x: Seq<char>, y: Seq<char>| #[trigger] leq(x, y) || #[trigger] leq(y, x) by {
        lemma_lex_total(x, y);
    }
}

/// Consecutive equal texts reduced to one.
pub open spec fn dedup_equal(s: Seq<Seq<char>>) -> Seq<Seq<char>>
    decreases s.len(),
{
    if s.len() <= 1 {
        s
    } else {
        let r = dedup_equal(s.drop_last());
        if s.last() == s[s.len() - 2] { r } else { r.push(s.last()) }
    }
}

/// The distinct texts in text order.
pub open spec fn distinct_sorted(names: Seq<Seq<char>>) -> Seq<Seq<char>> {
    dedup_equal(names.sort_by(text_order()))
}

pub open spec fn name_key(names: Seq<Seq<char>>) -> spec_fn(usize) -> Seq<PartValue> {
    |p: usize| seq![PartValue::Text(names[p as int]), PartValue::Up(p as nat)]
}

/// The distinct texts of a list, sorted.
pub fn sorted_distinct(names: &Vec<Vec<char>>) -> (r: Vec<Vec<char>>)
    ensures
        views(r@) == distinct_sorted(views(names@)),
{
    let ghost nv = views(names@);
    let n = names.len();
    let mut keyed: Vec<Keyed<usize>> = Vec::new();
    let mut p: usize = 0;
    while p < n
        invariant
            n == names@.len(),
            nv == views(names@),
            p <= n,
            keyed@.map_values(|k: Keyed<usize>| k.item) == all_entries(p as nat),
            forall|i: int| 0 <= i < keyed@.len() ==> key_value(#[trigger] keyed@[i].key@) == name_key(nv)(keyed@[i].item),
        decreases n - p,
    {
        let mut key: Vec<KeyPart> = Vec::new();
        key.push(KeyPart::Text(copy_chars(names[p].as_slice())));
        key.push(KeyPart::Up(p));
        proof {
            assert(nv[p as int] == names@[p as int]@);
            assert(key_value(key@) =~= name_key(nv)(p));
        }
        let ghost old_items = keyed@.map_values(|k: Keyed<usize>| k.item);
        keyed.push(Keyed { key, item: p });
        proof {
            assert(keyed@.map_values(|k: Keyed<usize>| k.item) =~= old_items.push(p));
            assert(all_entries((p + 1) as nat) =~= all_entries(p as nat).push(p));
        }
        p = p + 1;
    }
    let order = sort_items(keyed, Ghost(name_key(nv)));
    let ghost f = |p: usize| nv[p as int];
    let ghost mapped = order@.map_values(f);
    proof {
        assert(order@.len() == order@.to_multiset().len());
        assert(all_entries(n as nat).len() == all_entries(n as nat).to_multiset().len());
        assert forall|i: int| 0 <= i < order@.len() implies #[trigger] order@[i] < n by {
            assert(order@.to_multiset().count(order@[i]) > 0);
            assert(all_entries(n as nat).contains(order@[i]));
        }
        lemma_map_multiset(order@, all_entries(n as nat), f);
        assert(all_entries(n as nat).map_values(f) =~= nv);
        let leq = text_order();
        lemma_text_order_total();
        assert forall|i: int, j: int| 0 <= i < j < mapped.len() implies #[trigger] leq(mapped[i], mapped[j]) by {
            let a = order@[i];
            let b = order@[j];
            assert(key_le(name_key(nv)(a), name_key(nv)(b)));
            assert(name_key(nv)(a)[0] == PartValue::Text(nv[a as int]));
            assert(name_key(nv)(b)[0] == PartValue::Text(nv[b as int]));
            lemma_lex_total(nv[a as int], nv[a as int]);
        }
        nv.lemma_sort_by_ensures(leq);
        lemma_sorted_unique(mapped, nv.sort_by(leq), leq);
    }
    let mut out: Vec<Vec<char>> = Vec::new();
    let mut i: usize = 0;
    while i < n
        invariant
            n == names@.len(),
            nv == views(names@),
            order@.len() == n,
            forall|k: int| 0 <= k < order@.len() ==> #[trigger] order@[k] < n,
            mapped == order@.map_values(f),
            f == (|p: usize| nv[p as int]),
            i <= n,
            views(out@) == dedup_equal(mapped.take(i as int)),
        decreases n - i,
    {
        let pi = order[i];
        proof {
            assert(order@[i as int] < n);
            assert(mapped[i as int] == names@[pi as int]@);
            assert(mapped.take(i + 1).drop_last() =~= mapped.take(i as int));
            assert(mapped.take(i + 1).last() == mapped[i as int]);
        }
        let keep = if i == 0 {
            true
        } else {
            let pj = order[i - 1];
            proof {
                assert(order@[i - 1] < n);
                assert(mapped[i - 1] == names@[pj as int]@);
                assert(mapped.take(i + 1)[i - 1] == mapped[i - 1]);
            }
            compare_chars(names[pi].as_slice(), names[pj].as_slice()) != Cmp::Equal
        };
        if keep {
            let ghost old_v = views(out@);
            out.push(copy_chars(names[pi].as_slice()));
            proof {
                assert(views(out@) =~= old_v.push(mapped[i as int]));
                if i == 0 {
                    assert(mapped.take(1) =~= seq![mapped[0]]);
                    assert(old_v =~= Seq::<Seq<char>>::empty());
                }
            }
        }
        i = i + 1;
    }
    proof { assert(mapped.take(n as int) =~= mapped); }
    out
}

/// The references of one file, gathered.
pub struct FileGroup {
    pub file: Seq<char>,
    pub lines: Seq<nat>,
    pub callers: Seq<Seq<char>>,
}

pub open spec fn caller_names(r: ReferenceRowView) -> Seq<Seq<char>> {
    match r.caller {
        Some(c) => seq![c],
        None => seq![],
    }
}

/// Runs of rows of the same file, gathered in order.
pub open spec fn file_groups(rows: Seq<ReferenceRowView>) -> Seq<FileGroup>
    decreases rows.len(),
{
    if rows.len() == 0 {
        seq![]
    } else {
        let g = file_groups(rows.drop_last());
        let r = rows.last();
        if g.len() > 0 && g.last().file == r.file {
            g.update(g.len() - 1, FileGroup {
                file: r.file,
                lines: g.last().lines.push(r.line),
                callers: g.last().callers + caller_names(r),
            })
        } else {
            g.push(FileGroup { file: r.file, lines: seq![r.line], callers: caller_names(r) })
        }
    }
}

proof fn lemma_file_groups_nonempty(rows: Seq<ReferenceRowView>)
    ensures
        rows.len() > 0 <==> file_groups(rows).len() > 0,
    decreases rows.len(),
{
    if rows.len() > 0 {
        lemma_file_groups_nonempty(rows.drop_last());
    }
}

/// One row of the default references output: a file, its reference lines,
/// how many there are, and the symbols they occur in.
pub struct ReferenceSummary {
    pub file: String,
    pub lines: String,
    pub refs: usize,
    pub callers: String,
}

pub struct ReferenceSummaryView {
    pub file: Seq<char>,
    pub lines: Seq<char>,
    pub refs: nat,
    pub callers: Seq<char>,
}

impl View for ReferenceSummary {
    type V = ReferenceSummaryView;

    open spec fn view(&self) -> ReferenceSummaryView {
        ReferenceSummaryView { file: self.file@, lines: self.lines@, refs: self.refs as nat, callers: self.callers@ }
    }
}

pub open spec fn comma_sep() -> Seq<char> {
    seq![',', ' ']
}

/// The summary row of a file group: lines joined by `, `, the number of
/// references, and the distinct caller names in order joined by `, `.
pub open spec fn summary_of(g: FileGroup) -> ReferenceSummaryView {
    ReferenceSummaryView {
        file: g.file,
        lines: join(g.lines.map_values(|l: nat| decimal(l)), comma_sep()),
        refs: g.lines.len(),
        callers: join(distinct_sorted(g.callers), comma_sep()),
    }
}

pub open spec fn nat_views(v: Seq<usize>) -> Seq<nat> {
    v.map_values(|x: usize| x as nat)
}

fn comma_sep_exec() -> (r: Vec<char>)
    ensures
        r@ == comma_sep(),
{
    let mut r: Vec<char> = Vec::new();
    r.push(',');
    r.push(' ');
    proof { assert(r@ =~= comma_sep()); }
    r
}

fn finish_group(file: &Vec<char>, lines: &Vec<usize>, callers: &Vec<Vec<char>>) -> (r: ReferenceSummary)
    ensures
        r@ == summary_of(FileGroup { file: file@, lines: nat_views(lines@), callers: views(callers@) }),
{
    let mut texts: Vec<Vec<char>> = Vec::new();
    let mut i: usize = 0;
    while i < lines.len()
        invariant
            i <= lines@.len(),
            views(texts@) == nat_views(lines@).take(i as int).map_values(|l: nat| decimal(l)),
        decreases lines.len() - i,
    {
        let mut t: Vec<char> = Vec::new();
        push_decimal(&mut t, lines[i]);
        let ghost old_t = views(texts@);
        texts.push(t);
        proof {
            assert(views(texts@) =~= old_t.push(decimal(lines@[i as int] as nat)));
            assert(nat_views(lines@).take(i + 1).map_values(|l: nat| decimal(l))
                =~= nat_views(lines@).take(i as int).map_values(|l: nat| decimal(l)).push(decimal(lines@[i as int] as nat)));
        }
        i = i + 1;
    }
    proof { assert(nat_views(lines@).take(lines@.len() as int) =~= nat_views(lines@)); }
    let sep = comma_sep_exec();
    let line_text = join_chars(&texts, sep.as_slice());
    let names = sorted_distinct(callers);
    let caller_text = join_chars(&names, sep.as_slice());
    proof {
        assert(views(texts@) == texts@.map_values(|p: Vec<char>| p@));
        assert(views(names@) == names@.map_values(|p: Vec<char>| p@));
    }
    ReferenceSummary {
        file: string_from(file.as_slice()),
        lines: string_from(line_text.as_slice()),
        refs: lines.len(),
        callers: string_from(caller_text.as_slice()),
    }
}

/// The view of a list of summaries.
pub open spec fn summary_views(s: Seq<ReferenceSummary>) -> Seq<ReferenceSummaryView> {
    s.map_values(|r: ReferenceSummary| r@)
}

/// Gathers rows into one summary row per run of rows of the same file.
fn summarize(rows: &Vec<ReferenceRow>) -> (r: Vec<ReferenceSummary>)
    ensures
        summary_views(r@) == file_groups(row_views(rows@)).map_values(|g: FileGroup| summary_of(g)),
{
    let ghost rv = row_views(rows@);
    let mut out: Vec<ReferenceSummary> = Vec::new();
    let mut cur_file: Vec<char> = Vec::new();
    let mut cur_lines: Vec<usize> = Vec::new();
    let mut cur_callers: Vec<Vec<char>> = Vec::new();
    let mut i: usize = 0;
    proof { assert(rv.take(0) =~= Seq::<ReferenceRowView>::empty()); }
    while i < rows.len()
        invariant
            rv == row_views(rows@),
            i <= rows@.len(),
            i == 0 ==> out@.len() == 0,
            i > 0 ==> {
                let g = file_groups(rv.take(i as int));
                &&& g.len() > 0
                &&& summary_views(out@) == g.drop_last().map_values(|g: FileGroup| summary_of(g))
                &&& g.last() == FileGroup { file: cur_file@, lines: nat_views(cur_lines@), callers: views(cur_callers@) }
            },
        decreases rows.len() - i,
    {
        let row = &rows[i];
        let ghost rvi = rv[i as int];
        proof {
            assert(rvi == row@);
            assert(rv.take(i + 1).drop_last() =~= rv.take(i as int));
            assert(rv.take(i + 1).last() == rvi);
            lemma_file_groups_nonempty(rv.take(i as int));
            lemma_file_groups_nonempty(rv.take(i + 1));
        }
        let ghost g0 = file_groups(rv.take(i as int));
        let ghost g1 = file_groups(rv.take(i + 1));
        let f = chars_of(row.file.as_str());
        let same = i > 0 && compare_chars(f.as_slice(), cur_file.as_slice()) == Cmp::Equal;
        if same {
            cur_lines.push(row.line);
            match &row.caller {
                Some(c) => {
                    cur_callers.push(chars_of(c.as_str()));
                },
                None => {},
            }
            proof {
                assert(nat_views(cur_lines@) =~= g0.last().lines.push(rvi.line));
                assert(views(cur_callers@) =~= g0.last().callers + caller_names(rvi));
                assert(g1 =~= g0.update(g0.len() - 1, g1.last()));
                assert(g1.drop_last() =~= g0.drop_last());
            }
        } else {
            if i > 0 {
                let s = finish_group(&cur_file, &cur_lines, &cur_callers);
                let ghost old_out = summary_views(out@);
                out.push(s);
                proof {
                    assert(summary_views(out@) =~= old_out.push(summary_of(g0.last())));
                    assert(g0.drop_last().push(g0.last()) =~= g0);
                }
            }
            cur_file = f;
            cur_lines = Vec::new();
            cur_lines.push(row.line);
            cur_callers = Vec::new();
            match &row.caller {
                Some(c) => {
                    cur_callers.push(chars_of(c.as_str()));
                },
                None => {},
            }
            proof {
                assert(nat_views(cur_lines@) =~= seq![rvi.line]);
                assert(views(cur_callers@) =~= caller_names(rvi));
                assert(g1 =~= g0.push(g1.last()));
                assert(g1.drop_last() =~= g0);
                if i == 0 {
                    assert(g0 =~= Seq::<FileGroup>::empty());
                    assert(summary_views(out@) =~= g0.map_values(|g: FileGroup| summary_of(g)));
                }
            }
        }
        i = i + 1;
    }
    proof { assert(rv.take(rows@.len() as int) =~= rv); }
    if rows.len() > 0 {
        let s = finish_group(&cur_file, &cur_lines, &cur_callers);
        let ghost g = file_groups(rv);
        let ghost old_out = summary_views(out@);
        out.push(s);
        proof {
            assert(summary_views(out@) =~= old_out.push(summary_of(g.last())));
            assert(g.drop_last().push(g.last()) =~= g);
        }
    } else {
        proof {
            assert(file_groups(rv) =~= Seq::<FileGroup>::empty());
            assert(summary_views(out@) =~= Seq::<ReferenceSummaryView>::empty());
        }
    }
    out
}

/// The references output: exact rows (`--context`) or one summary row per
/// file.
pub enum ReferencesOutput {
    Rows(Paginated<ReferenceRow>),
    Summary(Paginated<ReferenceSummary>),
}

/// The references query over the rows of all searched files: rows ordered by
/// file and line with repeated sites dropped, then either those rows or one
/// summary row per file, one page of them. No rows means no matches.
pub fn references(rows: &Vec<ReferenceRow>, context: bool, pg: &Pagination) -> (r: ReferencesOutput)
    ensures
        ({
            let sites = dedup_sites(ordered_rows(row_views(rows@)));
            if context {
                r matches ReferencesOutput::Rows(p) && {
                    &&& row_views(p.items@) == page_of(sites, pg.offset as nat, pg.limit)
                    &&& p.total == sites.len()
                    &&& p.offset == pg.offset
                    &&& p.limit == pg.limit
                }
            } else {
                r matches ReferencesOutput::Summary(p) && {
                    let groups = file_groups(sites).map_values(|g: FileGroup| summary_of(g));
                    &&& summary_views(p.items@) == page_of(groups, pg.offset as nat, pg.limit)
                    &&& p.total == groups.len()
                    &&& p.offset == pg.offset
                    &&& p.limit == pg.limit
                }
            }
        }),
{
    let deduped = order_and_dedup(rows);
    if context {
        let ghost all = deduped@;
        let p = paginate(deduped, pg);
        proof {
            assert(row_views(p.items@) =~= page_of(row_views(all), pg.offset as nat, pg.limit));
        }
        ReferencesOutput::Rows(p)
    } else {
        let summary = summarize(&deduped);
        let ghost all = summary@;
        let p = paginate(summary, pg);
        proof {
            assert(summary_views(p.items@) =~= page_of(summary_views(all), pg.offset as nat, pg.limit));
        }
        ReferencesOutput::Summary(p)
    }
}

// ---- laws of the references output ----

/// Reference order of two rows: by file text, then by line.
pub open spec fn site_le(a: ReferenceRowView, b: ReferenceRowView) -> bool {
    ||| (a.file != b.file && lex_le(a.file, b.file))
    ||| (a.file == b.file && a.line <= b.line)
}

/// `a` comes strictly before `b`: ordered, and not the same site.
pub open spec fn site_lt(a: ReferenceRowView, b: ReferenceRowView) -> bool {
    site_le(a, b) && !same_site(a, b)
}

proof fn lemma_ref_key_site(rows: Seq<ReferenceRowView>, p: usize, q: usize)
    requires
        key_le(ref_key(rows)(p), ref_key(rows)(q)),
    ensures
        site_le(rows[p as int], rows[q as int]),
{
    let a = ref_key(rows)(p);
    let b = ref_key(rows)(q);
    if a[0] == b[0] {
        let a1 = a.drop_first();
        let b1 = b.drop_first();
        assert(a1[0] == PartValue::Up(rows[p as int].line));
        assert(b1[0] == PartValue::Up(rows[q as int].line));
        assert(key_le(a1, b1));
        if a1[0] == b1[0] {
            assert(rows[p as int].line == rows[q as int].line);
        }
    }
}

/// The rows in reference order are ordered by file, then line.
proof fn lemma_ordered_rows_sorted(rows: Seq<ReferenceRowView>)
    ensures
        forall|i: int, j: int| 0 <= i < j < ordered_rows(rows).len()
            ==> site_le(#[trigger] ordered_rows(rows)[i], #[trigger] ordered_rows(rows)[j]),
{
    let leq = key_order(ref_key(rows));
    lemma_ref_key_injective(rows);
    crate::sort::lemma_key_order_total(ref_key(rows));
    let idx = all_entries(rows.len()).sort_by(leq);
    all_entries(rows.len()).lemma_sort_by_ensures(leq);
    let o = ordered_rows(rows);
    assert forall|i: int, j: int| 0 <= i < j < o.len() implies site_le(#[trigger] o[i], #[trigger] o[j]) by {
        assert(leq(idx[i], idx[j]));
        lemma_ref_key_site(rows, idx[i], idx[j]);
    }
}

proof fn lemma_site_between(x: ReferenceRowView, m: ReferenceRowView, l: ReferenceRowView)
    requires
        site_le(x, m),
        site_le(m, l),
        same_site(x, l),
    ensures
        same_site(m, l),
{
    if m.file != x.file {
        lemma_lex_antisym(x.file, m.file);
    }
}

/// Every row that deduplication keeps is a row of the input.
proof fn lemma_dedup_from(s: Seq<ReferenceRowView>)
    ensures
        forall|i: int| 0 <= i < dedup_sites(s).len() ==> s.contains(#[trigger] dedup_sites(s)[i]),
    decreases s.len(),
{
    if s.len() > 1 {
        let s2 = s.drop_last();
        lemma_dedup_from(s2);
        let r = dedup_sites(s2);
        let d = dedup_sites(s);
        assert forall|i: int| 0 <= i < d.len() implies s.contains(#[trigger] d[i]) by {
            if i < r.len() {
                assert(d[i] == r[i]);
                assert(s2.contains(r[i]));
                let k = choose|k: int| 0 <= k < s2.len() && s2[k] == r[i];
                assert(s2[k] == s[k]);
            } else {
                assert(d[i] == s[s.len() - 1]);
            }
        }
    } else {
        let d = dedup_sites(s);
        assert forall|i: int| 0 <= i < d.len() implies s.contains(#[trigger] d[i]) by {
            assert(d[i] == s[i]);
        }
    }
}

/// Deduplication of a list ordered by site leaves the sites strictly
/// increasing.
proof fn lemma_dedup_strict(s: Seq<ReferenceRowView>)
    requires
        forall|i: int, j: int| 0 <= i < j < s.len() ==> site_le(#[trigger] s[i], #[trigger] s[j]),
    ensures
        forall|i: int, j: int| 0 <= i < j < dedup_sites(s).len()
            ==> site_lt(#[trigger] dedup_sites(s)[i], #[trigger] dedup_sites(s)[j]),
    decreases s.len(),
{
    if s.len() > 1 {
        let s2 = s.drop_last();
        assert forall|i: int, j: int| 0 <= i < j < s2.len() implies site_le(#[trigger] s2[i], #[trigger] s2[j]) by {
            assert(s2[i] == s[i] && s2[j] == s[j]);
        }
        lemma_dedup_strict(s2);
        lemma_dedup_from(s2);
        let r = dedup_sites(s2);
        let d = dedup_sites(s);
        let l = s.last();
        let m = s[s.len() - 2];
        if !same_site(l, m) {
            assert(d == r.push(l));
            assert forall|i: int, j: int| 0 <= i < j < d.len() implies site_lt(#[trigger] d[i], #[trigger] d[j]) by {
                if j == d.len() - 1 {
                    assert(d[i] == r[i]);
                    assert(s2.contains(r[i]));
                    let k = choose|k: int| 0 <= k < s2.len() && s2[k] == r[i];
                    assert(s2[k] == s[k]);
                    assert(d[j] == l);
                    assert(site_le(s[k], l));
                    if k < s.len() - 2 {
                        assert(site_le(s[k], m));
                    }
                    assert(site_le(m, l));
                    if same_site(s[k], l) {
                        if k < s.len() - 2 {
                            lemma_site_between(s[k], m, l);
                        }
                    }
                } else {
                    assert(d[i] == r[i] && d[j] == r[j]);
                }
            }
        }
    }
}

/// The `--context` rows come in reference order, each site once: for any two
/// of them the first lies strictly before the second (by file, then line).
pub proof fn lemma_context_rows_strictly_ordered(rows: Seq<ReferenceRowView>)
    ensures
        forall|i: int, j: int| 0 <= i < j < dedup_sites(ordered_rows(rows)).len()
            ==> site_lt(#[trigger] dedup_sites(ordered_rows(rows))[i], #[trigger] dedup_sites(ordered_rows(rows))[j]),
{
    lemma_ordered_rows_sorted(rows);
    lemma_dedup_strict(ordered_rows(rows));
}

/// The number of references that summary rows count together.
pub open spec fn refs_total(s: Seq<ReferenceSummaryView>) -> nat
    decreases s.len(),
{
    if s.len() == 0 { 0 } else { refs_total(s.drop_last()) + s.last().refs }
}

proof fn lemma_file_groups_facts(rows: Seq<ReferenceRowView>)
    requires
        forall|i: int, j: int| 0 <= i < j < rows.len() ==> site_le(#[trigger] rows[i], #[trigger] rows[j]),
    ensures
        refs_total(file_groups(rows).map_values(|g: FileGroup| summary_of(g))) == rows.len(),
        rows.len() > 0 ==> file_groups(rows).last().file == rows.last().file,
        forall|i: int, j: int| 0 <= i < j < file_groups(rows).len()
            ==> lex_lt(#[trigger] file_groups(rows)[i].file, #[trigger] file_groups(rows)[j].file),
    decreases rows.len(),
{
    let sf = |g: FileGroup| summary_of(g);
    if rows.len() == 0 {
        assert(file_groups(rows).map_values(sf) =~= Seq::<ReferenceSummaryView>::empty());
    } else {
        let r2 = rows.drop_last();
        assert forall|i: int, j: int| 0 <= i < j < r2.len() implies site_le(#[trigger] r2[i], #[trigger] r2[j]) by {
            assert(r2[i] == rows[i] && r2[j] == rows[j]);
        }
        lemma_file_groups_facts(r2);
        lemma_file_groups_nonempty(r2);
        let g = file_groups(r2);
        let r = rows.last();
        let out = file_groups(rows);
        let m = g.map_values(sf);
        if g.len() > 0 && g.last().file == r.file {
            let x = FileGroup { file: r.file, lines: g.last().lines.push(r.line), callers: g.last().callers + caller_names(r) };
            assert(out == g.update(g.len() - 1, x));
            assert(out.map_values(sf).drop_last() =~= m.drop_last());
            assert(m.drop_last().push(m.last()) =~= m);
            assert(refs_total(m) == refs_total(m.drop_last()) + m.last().refs);
            assert forall|i: int, j: int| 0 <= i < j < out.len() implies lex_lt(#[trigger] out[i].file, #[trigger] out[j].file) by {
                assert(out[i].file == g[i].file);
                assert(out[j].file == g[j].file);
            }
        } else {
            let x = FileGroup { file: r.file, lines: seq![r.line], callers: caller_names(r) };
            assert(out == g.push(x));
            assert(out.map_values(sf) =~= m.push(summary_of(x)));
            assert((m.push(summary_of(x))).drop_last() =~= m);
            if g.len() > 0 {
                let pl = r2.last();
                assert(pl == rows[rows.len() - 2]);
                assert(site_le(pl, r));
                assert(g.last().file == pl.file);
                assert(lex_lt(pl.file, r.file));
                assert forall|i: int, j: int| 0 <= i < j < out.len() implies lex_lt(#[trigger] out[i].file, #[trigger] out[j].file) by {
                    if j == out.len() - 1 {
                        assert(out[i] == g[i]);
                        if i < g.len() - 1 {
                            assert(lex_lt(g[i].file, g[g.len() - 1].file));
                            lemma_lex_trans(g[i].file, pl.file, r.file);
                            if g[i].file == r.file {
                                lemma_lex_antisym(pl.file, r.file);
                            }
                        }
                    } else {
                        assert(out[i] == g[i] && out[j] == g[j]);
                    }
                }
            }
        }
    }
}

/// The default references output has one summary row per file, and the rows
/// together count every reference site once.
pub proof fn lemma_summary_one_row_per_file(rows: Seq<ReferenceRowView>)
    ensures
        ({
            let sites = dedup_sites(ordered_rows(rows));
            let sums = file_groups(sites).map_values(|g: FileGroup| summary_of(g));
            &&& forall|i: int, j: int| 0 <= i < j < sums.len() ==> #[trigger] sums[i].file != #[trigger] sums[j].file
            &&& refs_total(sums) == sites.len()
        }),
{
    let sites = dedup_sites(ordered_rows(rows));
    lemma_context_rows_strictly_ordered(rows);
    lemma_file_groups_facts(sites);
    let gs = file_groups(sites);
    let sums = gs.map_values(|g: FileGroup| summary_of(g));
    assert forall|i: int, j: int| 0 <= i < j < sums.len() implies #[trigger] sums[i].file != #[trigger] sums[j].file by {
        assert(sums[i].file == gs[i].file);
        assert(sums[j].file == gs[j].file);
        assert(lex_lt(gs[i].file, gs[j].file));
    }
}

} // verus!
