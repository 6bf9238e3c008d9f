//! The data that queries read: symbols with their kinds, the files that hold
//! them, and the project index; plus the ordering of symbol kinds and the
//! glob patterns that filter symbol names.
use vstd::prelude::*;
use crate::path::{same_path, is_same_path};
use crate::text::chars_of;

verus! {

/// The kind of an indexed symbol.
#[derive(Clone, Copy, Debug, PartialEq, Eq, Structural)]
pub enum SymbolKind {
    Struct,
    Enum,
    Trait,
    Interface,
    Class,
    Fn,
    Const,
    Type,
    Module,
    Event,
    Heading,
    Field,
}

/// The name a kind is shown by.
pub open spec fn kind_name(k: SymbolKind) -> Seq<char> {
    match k {
        SymbolKind::Struct => "struct"@,
        SymbolKind::Enum => "enum"@,
        SymbolKind::Trait => "trait"@,
        SymbolKind::Interface => "interface"@,
        SymbolKind::Class => "class"@,
        SymbolKind::Fn => "fn"@,
        SymbolKind::Const => "const"@,
        SymbolKind::Type => "type"@,
        SymbolKind::Module => "module"@,
        SymbolKind::Event => "event"@,
        SymbolKind::Heading => "heading"@,
        SymbolKind::Field => "field"@,
    }
}

/// Priority of a kind in listings: types first, then callables and other
/// items, then fields.
pub open spec fn priority_of(k: SymbolKind) -> u8 {
    match k {
        SymbolKind::Struct | SymbolKind::Enum | SymbolKind::Trait | SymbolKind::Interface
        | SymbolKind::Class => 0,
        SymbolKind::Fn | SymbolKind::Const | SymbolKind::Type | SymbolKind::Module
        | SymbolKind::Event | SymbolKind::Heading => 1,
        SymbolKind::Field => 2,
    }
}

/// Position of a kind's name in alphabetical order.
pub open spec fn kind_rank(k: SymbolKind) -> nat {
    match k {
        SymbolKind::Class => 0,
        SymbolKind::Const => 1,
        SymbolKind::Enum => 2,
        SymbolKind::Event => 3,
        SymbolKind::Field => 4,
        SymbolKind::Fn => 5,
        SymbolKind::Heading => 6,
        SymbolKind::Interface => 7,
        SymbolKind::Module => 8,
        SymbolKind::Struct => 9,
        SymbolKind::Trait => 10,
        SymbolKind::Type => 11,
    }
}

/// The kind at a position of the alphabetical order.
pub open spec fn kind_at_rank(r: nat) -> SymbolKind {
    if r == 0 { SymbolKind::Class }
    else if r == 1 { SymbolKind::Const }
    else if r == 2 { SymbolKind::Enum }
    else if r == 3 { SymbolKind::Event }
    else if r == 4 { SymbolKind::Field }
    else if r == 5 { SymbolKind::Fn }
    else if r == 6 { SymbolKind::Heading }
    else if r == 7 { SymbolKind::Interface }
    else if r == 8 { SymbolKind::Module }
    else if r == 9 { SymbolKind::Struct }
    else if r == 10 { SymbolKind::Trait }
    else { SymbolKind::Type }
}

pub proof fn lemma_kind_rank(k: SymbolKind)
    ensures
        kind_rank(k) < 12,
        kind_at_rank(kind_rank(k)) == k,
{
}

impl SymbolKind {
    /// The kind at a position of the alphabetical order.
    pub fn at_rank(r: u8) -> (k: SymbolKind)
        requires
            r < 12,
        ensures
            k == kind_at_rank(r as nat),
            kind_rank(k) == r,
    {
        if r == 0 { SymbolKind::Class }
        else if r == 1 { SymbolKind::Const }
        else if r == 2 { SymbolKind::Enum }
        else if r == 3 { SymbolKind::Event }
        else if r == 4 { SymbolKind::Field }
        else if r == 5 { SymbolKind::Fn }
        else if r == 6 { SymbolKind::Heading }
        else if r == 7 { SymbolKind::Interface }
        else if r == 8 { SymbolKind::Module }
        else if r == 9 { SymbolKind::Struct }
        else if r == 10 { SymbolKind::Trait }
        else { SymbolKind::Type }
    }

    /// The name this kind is shown by.
    pub fn as_str(&self) -> (r: &'static str)
        ensures
            r@ == kind_name(*self),
    {
        match self {
            SymbolKind::Struct => "struct",
            SymbolKind::Enum => "enum",
            SymbolKind::Trait => "trait",
            SymbolKind::Interface => "interface",
            SymbolKind::Class => "class",
            SymbolKind::Fn => "fn",
            SymbolKind::Const => "const",
            SymbolKind::Type => "type",
            SymbolKind::Module => "module",
            SymbolKind::Event => "event",
            SymbolKind::Heading => "heading",
            SymbolKind::Field => "field",
        }
    }

    /// The kind shown by the given name, if any.
    pub fn from_name(s: &str) -> (r: Option<SymbolKind>)
        ensures
            r matches Some(k) ==> kind_name(k) == s@,
            r is None ==> forall|k: SymbolKind| kind_name(k) != s@,
    {
        let all = [
            SymbolKind::Struct, SymbolKind::Enum, SymbolKind::Trait, SymbolKind::Interface,
            SymbolKind::Class, SymbolKind::Fn, SymbolKind::Const, SymbolKind::Type,
            SymbolKind::Module, SymbolKind::Event, SymbolKind::Heading, SymbolKind::Field,
        ];
        let v = chars_of(s);
        let mut i: usize = 0;
        while i < 12
            invariant
                0 <= i <= 12,
                v@ == s@,
                all@ == seq![
                    SymbolKind::Struct, SymbolKind::Enum, SymbolKind::Trait, SymbolKind::Interface,
                    SymbolKind::Class, SymbolKind::Fn, SymbolKind::Const, SymbolKind::Type,
                    SymbolKind::Module, SymbolKind::Event, SymbolKind::Heading, SymbolKind::Field,
                ],
                forall|j: int| 0 <= j < i ==> kind_name(#[trigger] all@[j]) != s@,
            decreases 12 - i,
        {
            let k = all[i];
            if crate::text::eq_str(v.as_slice(), k.as_str()) {
                return Some(k);
            }
            i = i + 1;
        }
        proof {
            assert forall|k: SymbolKind| kind_name(k) != s@ by {
                let j: int = match k {
                    SymbolKind::Struct => 0,
                    SymbolKind::Enum => 1,
                    SymbolKind::Trait => 2,
                    SymbolKind::Interface => 3,
                    SymbolKind::Class => 4,
                    SymbolKind::Fn => 5,
                    SymbolKind::Const => 6,
                    SymbolKind::Type => 7,
                    SymbolKind::Module => 8,
                    SymbolKind::Event => 9,
                    SymbolKind::Heading => 10,
                    SymbolKind::Field => 11,
                };
                assert(all@[j] == k);
            }
        }
        None
    }

    /// Position of this kind's name in alphabetical order.
    pub fn rank(&self) -> (r: u8)
        ensures
            r == kind_rank(*self),
    {
        match self {
            SymbolKind::Class => 0,
            SymbolKind::Const => 1,
            SymbolKind::Enum => 2,
            SymbolKind::Event => 3,
            SymbolKind::Field => 4,
            SymbolKind::Fn => 5,
            SymbolKind::Heading => 6,
            SymbolKind::Interface => 7,
            SymbolKind::Module => 8,
            SymbolKind::Struct => 9,
            SymbolKind::Trait => 10,
            SymbolKind::Type => 11,
        }
    }
}

/// Priority for symbol kinds in listings: lower is shown first.
pub fn symbol_priority(kind: SymbolKind) -> (r: u8)
    ensures
        r == priority_of(kind),
{
    match kind {
        SymbolKind::Struct | SymbolKind::Enum | SymbolKind::Trait | SymbolKind::Interface
        | SymbolKind::Class => 0,
        SymbolKind::Fn | SymbolKind::Const | SymbolKind::Type | SymbolKind::Module
        | SymbolKind::Event | SymbolKind::Heading => 1,
        SymbolKind::Field => 2,
    }
}

/// Types come before callables and other items, and those before fields.
pub proof fn lemma_priority_order(t: SymbolKind, c: SymbolKind)
    requires
        t == SymbolKind::Struct || t == SymbolKind::Enum || t == SymbolKind::Trait
            || t == SymbolKind::Interface || t == SymbolKind::Class,
        c != SymbolKind::Field,
        !(c == SymbolKind::Struct || c == SymbolKind::Enum || c == SymbolKind::Trait
            || c == SymbolKind::Interface || c == SymbolKind::Class),
    ensures
        priority_of(t) < priority_of(c),
        priority_of(c) < priority_of(SymbolKind::Field),
{
}

/// An indexed symbol.
pub struct Symbol {
    pub name: String,
    pub kind: SymbolKind,
    pub signature: String,
    /// Start and end byte offsets in the file.
    pub byte_range: (usize, usize),
    /// Whether the symbol is itself a test.
    pub is_test: bool,
}

/// What the index holds for one file.
pub struct FileData {
    pub symbols: Vec<Symbol>,
    /// The file's language, as the grammar set names it.
    pub language: String,
}

/// One indexed file, by its path relative to the project root.
pub struct FileEntry {
    pub path: String,
    pub data: FileData,
}

/// The project index: the root and the indexed files.
pub struct Index {
    pub root: String,
    pub entries: Vec<FileEntry>,
}

/// No two entries name the same path.
pub open spec fn distinct_paths(es: Seq<FileEntry>) -> bool {
    forall|i: int, j: int| 0 <= i < j < es.len() ==> !same_path(#[trigger] es[i].path@, #[trigger] es[j].path@)
}

impl Index {
    /// An index with no files.
    pub fn new(root: String) -> (r: Index)
        ensures
            r.root == root,
            r.entries@.len() == 0,
    {
        Index { root, entries: Vec::new() }
    }

    /// Adds a file, replacing the data of an entry with the same path.
    pub fn insert(&mut self, path: String, data: FileData)
        requires
            distinct_paths(old(self).entries@),
        ensures
            distinct_paths(final(self).entries@),
            final(self).root == old(self).root,
            (exists|k: int| 0 <= k < old(self).entries@.len() && same_path(#[trigger] old(self).entries@[k].path@, path@))
                ==> exists|k: int| 0 <= k < old(self).entries@.len()
                    && same_path(#[trigger] old(self).entries@[k].path@, path@)
                    && final(self).entries@ == old(self).entries@.update(k, (FileEntry { path, data })),
            !(exists|k: int| 0 <= k < old(self).entries@.len() && same_path(#[trigger] old(self).entries@[k].path@, path@))
                ==> final(self).entries@ == old(self).entries@.push((FileEntry { path, data })),
    {
        let p = chars_of(path.as_str());
        let mut i: usize = 0;
        while i < self.entries.len()
            invariant
                p@ == path@,
                i <= self.entries@.len(),
                self.entries@ == old(self).entries@,
                self.root == old(self).root,
                distinct_paths(self.entries@),
                forall|j: int| 0 <= j < i ==> !same_path(#[trigger] self.entries@[j].path@, path@),
            decreases self.entries.len() - i,
        {
            let q = chars_of(self.entries[i].path.as_str());
            if is_same_path(q.as_slice(), p.as_slice()) {
                let ghost before = self.entries@;
                let removed = self.entries.remove(i);
                self.entries.insert(i, FileEntry { path, data });
                proof {
                    assert(self.entries@ =~= before.update(i as int, self.entries@[i as int]));
                    assert forall|a: int, b: int| 0 <= a < b < self.entries@.len() implies
                        !same_path(#[trigger] self.entries@[a].path@, #[trigger] self.entries@[b].path@) by {
                        if a == i {
                            assert(!same_path(before[a].path@, before[b].path@));
                        } else if b == i {
                            assert(!same_path(before[a].path@, before[b].path@));
                        }
                    }
                    assert(self.entries@[i as int].path@ == path@);
                    assert forall|k: int| 0 <= k < before.len() && !same_path(#[trigger] before[k].path@, path@)
                        implies self.entries@.contains(before[k]) by {
                        assert(k != i);
                        assert(self.entries@[k] == before[k]);
                    }
                    assert forall|k: int| 0 <= k < self.entries@.len() && !same_path(#[trigger] self.entries@[k].path@, path@)
                        implies before.contains(self.entries@[k]) by {
                        assert(k != i);
                        assert(self.entries@[k] == before[k]);
                    }
                }
                return;
            }
            i = i + 1;
        }
        let ghost before = self.entries@;
        self.entries.push(FileEntry { path, data });
        proof {
            let n = before.len() as int;
            assert(self.entries@[n].path@ == path@);
            assert forall|a: int, b: int| 0 <= a < b < self.entries@.len() implies
                !same_path(#[trigger] self.entries@[a].path@, #[trigger] self.entries@[b].path@) by {
                if b == n {
                    assert(self.entries@[a] == before[a]);
                }
            }
            assert forall|k: int| 0 <= k < before.len() && !same_path(#[trigger] before[k].path@, path@)
                implies self.entries@.contains(before[k]) by {
                assert(self.entries@[k] == before[k]);
            }
            assert forall|k: int| 0 <= k < self.entries@.len() && !same_path(#[trigger] self.entries@[k].path@, path@)
                implies before.contains(self.entries@[k]) by {
                assert(self.entries@[k] == before[k]);
            }
        }
    }
}

/// Glob matching of a whole name: `*` matches any run of characters, `?` any
/// one character, every other character itself.
pub open spec fn glob_matches(p: Seq<char>, s: Seq<char>) -> bool
    decreases p.len() + s.len(),
{
    if p.len() == 0 {
        s.len() == 0
    } else if p[0] == '*' {
        glob_matches(p.drop_first(), s) || (s.len() > 0 && glob_matches(p, s.drop_first()))
    } else if s.len() == 0 {
        false
    } else if p[0] == '?' || p[0] == s[0] {
        glob_matches(p.drop_first(), s.drop_first())
    } else {
        false
    }
}

/// Whether `name` matches the glob `pattern`.
pub fn glob_match(pattern: &str, name: &str) -> (r: bool)
    ensures
        r == glob_matches(pattern@, name@),
{
    let p = chars_of(pattern);
    let s = chars_of(name);
    glob_match_chars(p.as_slice(), s.as_slice())
}

pub fn glob_match_chars(p: &[char], s: &[char]) -> (r: bool)
    ensures
        r == glob_matches(p@, s@),
{
    let m = p.len();
    let n = s.len();
    // next[j] == glob_matches(p.skip(i + 1), s.skip(j)) for the row below
    let mut next: Vec<bool> = Vec::new();
    let mut j: usize = 0;
    while j < n
        invariant
            j <= n,
            n == s@.len(),
            m == p@.len(),
            next@.len() == j,
            forall|k: int| 0 <= k < j ==> next@[k] == glob_matches(p@.skip(m as int), s@.skip(k)),
        decreases n + 1 - j,
    {
        proof {
            assert(p@.skip(m as int).len() == 0);
        }
        next.push(false);
        j = j + 1;
    }
    proof { assert(p@.skip(m as int).len() == 0); assert(s@.skip(n as int).len() == 0); }
    next.push(true);
    let mut i: usize = m;
    while i > 0
        invariant
            i <= m,
            n == s@.len(),
            m == p@.len(),
            next@.len() == n + 1,
            forall|k: int| 0 <= k <= n ==> next@[k] == glob_matches(p@.skip(i as int), s@.skip(k)),
        decreases i,
    {
        let pi = i - 1;
        let c = p[pi];
        let mut cur: Vec<bool> = Vec::new();
        let mut k: usize = 0;
        while k < n
            invariant
                k <= n,
                cur@.len() == k,
            decreases n - k,
        {
            cur.push(false);
            k = k + 1;
        }
        proof {
            let ps = p@.skip(pi as int);
            assert(ps.len() > 0);
            assert(ps[0] == c);
            assert(ps.drop_first() =~= p@.skip(i as int));
            assert(s@.skip(n as int).len() == 0);
        }
        cur.push(c == '*' && next[n]);
        let mut jj: usize = n;
        while jj > 0
            invariant
                jj <= n,
                pi + 1 == i,
                i <= m,
                n == s@.len(),
                m == p@.len(),
                c == p@[pi as int],
                next@.len() == n + 1,
                cur@.len() == n + 1,
                forall|k: int| 0 <= k <= n ==> next@[k] == glob_matches(p@.skip(i as int), s@.skip(k)),
                forall|k: int| jj <= k <= n ==> cur@[k] == glob_matches(p@.skip(pi as int), s@.skip(k)),
            decreases jj,
        {
            let j = jj - 1;
            proof {
                let ps = p@.skip(pi as int);
                let ss = s@.skip(j as int);
                assert(ps.len() > 0);
                assert(ps[0] == c);
                assert(ps.drop_first() =~= p@.skip(i as int));
                if j < n {
                    assert(ss[0] == s@[j as int]);
                    assert(ss.drop_first() =~= s@.skip(j + 1));
                }
            }
            let v = if c == '*' {
                next[j] || cur[j + 1]
            } else if c == '?' || c == s[j] {
                next[j + 1]
            } else {
                false
            };
            cur.set(j, v);
            jj = j;
        }
        next = cur;
        i = pi;
    }
    proof {
        assert(p@.skip(0) =~= p@);
        assert(s@.skip(0) =~= s@);
    }
    next[0]
}

/// The glob `*` matches every name.
pub proof fn lemma_glob_star_matches_all(s: Seq<char>)
    ensures
        glob_matches(seq!['*'], s),
    decreases s.len(),
{
    let p = seq!['*'];
    assert(p[0] == '*');
    assert(p.len() == 1);
    assert(p.drop_first() =~= Seq::<char>::empty());
    if s.len() > 0 {
        lemma_glob_star_matches_all(s.drop_first());
        assert(glob_matches(p, s.drop_first()));
    } else {
        assert(glob_matches(p.drop_first(), s));
    }
}

/// A glob without `*` or `?` matches exactly the name it spells.
pub proof fn lemma_glob_literal(p: Seq<char>, s: Seq<char>)
    requires
        forall|i: int| 0 <= i < p.len() ==> #[trigger] p[i] != '*' && p[i] != '?',
    ensures
        glob_matches(p, s) <==> s == p,
    decreases p.len(),
{
    if p.len() > 0 {
        let p2 = p.drop_first();
        assert forall|i: int| 0 <= i < p2.len() implies #[trigger] p2[i] != '*' && p2[i] != '?' by {
            assert(p2[i] == p[i + 1]);
        }
        assert(p[0] != '*' && p[0] != '?');
        if s.len() > 0 {
            lemma_glob_literal(p2, s.drop_first());
            if s.drop_first() == p2 && s[0] == p[0] {
                assert forall|i: int| 0 <= i < s.len() implies s[i] == p[i] by {
                    if i > 0 {
                        assert(s[i] == s.drop_first()[i - 1]);
                        assert(p[i] == p2[i - 1]);
                    }
                }
                assert(s =~= p);
            }
            if s == p {
                assert(s.drop_first() =~= p2);
            }
        }
    } else {
        if s.len() == 0 {
            assert(s =~= p);
        }
    }
}

} // verus!
