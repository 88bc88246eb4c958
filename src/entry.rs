use vstd::prelude::*;
use itertools::Itertools;
use crate::config::MAX_LEN;
use crate::text::{chars_of, string_from_chars};

verus! {

/// A catalog entry as the resolver sees it: its canonical name, its aliases
/// and whether it is indexed.
#[derive(Clone, Debug)]
pub struct Entry {
    pub name: String,
    pub aliases: Vec<String>,
    pub indexed: bool,
}

/// The texts of `v`.
pub open spec fn views(v: Seq<String>) -> Seq<Seq<char>> {
    v.map_values(|s: String| s@)
}

/// `parts` with `sep` between each two.
pub open spec fn joined(parts: Seq<Seq<char>>, sep: Seq<char>) -> Seq<char>
    decreases parts.len(),
{
    if parts.len() == 0 {
        Seq::empty()
    } else if parts.len() == 1 {
        parts[0]
    } else {
        joined(parts.drop_last(), sep) + sep + parts.last()
    }
}

/// Where `sep` first occurs in `s` at or after `k`.
pub open spec fn find_from(s: Seq<char>, sep: Seq<char>, k: int) -> Option<int>
    decreases s.len() + 1 - k,
{
    if k < 0 || k + sep.len() > s.len() {
        None
    } else if s.subrange(k, k + sep.len()) == sep {
        Some(k)
    } else {
        find_from(s, sep, k + 1)
    }
}

/// The pieces of `s` between the occurrences of `sep`, as `str::split` cuts them.
pub open spec fn split_on(s: Seq<char>, sep: Seq<char>) -> Seq<Seq<char>>
    decreases s.len(),
{
    match find_from(s, sep, 0) {
        Some(p) => if 0 <= p && p + sep.len() <= s.len() && sep.len() > 0 {
            seq![s.subrange(0, p)] + split_on(s.subrange(p + sep.len(), s.len() as int), sep)
        } else {
            seq![s]
        },
        None => seq![s],
    }
}

/// The suffix that marks an unindexed entry's file stem.
pub open spec fn noindex_suffix() -> Seq<char> {
    seq!['.', 'n', 'o', 'i', 'n', 'd', 'e', 'x']
}

/// `s` ends with the unindexed marker.
pub open spec fn has_noindex_suffix(s: Seq<char>) -> bool {
    s.len() >= 8 && s.subrange(s.len() - 8, s.len() as int) == noindex_suffix()
}

proof fn lemma_split_nonempty(s: Seq<char>, sep: Seq<char>)
    ensures
        split_on(s, sep).len() >= 1,
{
    match find_from(s, sep, 0) {
        Some(p) => {
            if 0 <= p && p + sep.len() <= s.len() && sep.len() > 0 {
                assert(split_on(s, sep)[0] == s.subrange(0, p));
            }
        },
        None => {},
    }
}

proof fn lemma_find_from_bounds(s: Seq<char>, sep: Seq<char>, k: int)
    ensures
        find_from(s, sep, k) matches Some(p) ==> k <= p && p + sep.len() <= s.len() && s.subrange(p, p + sep.len()) == sep,
    decreases s.len() + 1 - k,
{
    if !(k < 0 || k + sep.len() > s.len()) && s.subrange(k, k + sep.len()) != sep {
        lemma_find_from_bounds(s, sep, k + 1);
    }
}

/// Relies on itertools' `join`: the items' text with `sep` between each two.
#[verifier::external_body]
fn join_strings(parts: &Vec<String>, sep: &str) -> (r: String)
    ensures
        r@ == joined(views(parts@), sep@),
{
    parts.iter().join(sep)
}

/// `sep` occurs in `s` at `k`.
fn occurs_at(s: &Vec<char>, sep: &Vec<char>, k: usize) -> (r: bool)
    requires
        k + sep@.len() <= s@.len(),
    ensures
        r == (s@.subrange(k as int, k + sep@.len()) == sep@),
{
    let sl = s.len();
    let mut i: usize = 0;
    while i < sep.len()
        invariant
            sl == s@.len(),
            k + sep@.len() <= s@.len(),
            i <= sep@.len(),
            s@.subrange(k as int, k + i) == sep@.subrange(0, i as int),
        decreases sep@.len() - i,
    {
        assert(k + i < s@.len());
        if s[k + i] != sep[i] {
            assert(s@.subrange(k as int, k + sep@.len())[i as int] != sep@[i as int]);
            return false;
        }
        i += 1;
        assert(s@.subrange(k as int, k + i) =~= sep@.subrange(0, i as int));
    }
    assert(sep@.subrange(0, i as int) =~= sep@);
    true
}

/// Where `sep` first occurs in `s`.
fn find(s: &Vec<char>, sep: &Vec<char>) -> (r: Option<usize>)
    requires
        sep@.len() > 0,
    ensures
        r matches Some(p) ==> find_from(s@, sep@, 0) == Some(p as int),
        r is None ==> find_from(s@, sep@, 0) is None,
{
    if sep.len() > s.len() {
        return None;
    }
    let sl = s.len();
    let last = sl - sep.len();
    let mut k: usize = 0;
    while k <= last
        invariant
            sl == s@.len(),
            last + sep@.len() == s@.len(),
            sep@.len() > 0,
            k <= last + 1,
            find_from(s@, sep@, 0) == find_from(s@, sep@, k as int),
        decreases last + 1 - k,
    {
        if occurs_at(s, sep, k) {
            return Some(k);
        }
        k += 1;
    }
    None
}

fn sub_chars(s: &Vec<char>, from: usize, to: usize) -> (r: Vec<char>)
    requires
        from <= to <= s@.len(),
    ensures
        r@ == s@.subrange(from as int, to as int),
{
    let mut r: Vec<char> = Vec::new();
    let mut i = from;
    while i < to
        invariant
            from <= i <= to <= s@.len(),
            r@ == s@.subrange(from as int, i as int),
        decreases to - i,
    {
        r.push(s[i]);
        i += 1;
        assert(r@ =~= s@.subrange(from as int, i as int));
    }
    r
}

/// The pieces of `base` between the occurrences of the non-empty `sep`.
fn split_pieces(base: Vec<char>, sep: &Vec<char>) -> (parts: Vec<String>)
    requires
        sep@.len() > 0,
    ensures
        views(parts@) == split_on(base@, sep@),
{
        let ghost whole = base@;
        let mut parts: Vec<String> = Vec::new();
        let mut rest = base;
        loop
            invariant_except_break
                sep@.len() > 0,
                views(parts@) + split_on(rest@, sep@) == split_on(whole, sep@),
            ensures
                views(parts@) == split_on(whole, sep@),
            decreases rest@.len(),
        {
            let ghost before = parts@;
            let ghost r0 = rest@;
            match find(&rest, &sep) {
                Some(p) => {
                    proof {
                        lemma_find_from_bounds(rest@, sep@, 0);
                    }
                    let rl = rest.len();
                    assert(p + sep@.len() <= rl);
                    let piece = sub_chars(&rest, 0, p);
                    let tail = sub_chars(&rest, p + sep.len(), rest.len());
                    parts.push(string_from_chars(piece));
                    proof {
                        assert(views(parts@) =~= views(before).push(rest@.subrange(0, p as int)));
                        assert(split_on(rest@, sep@) == seq![rest@.subrange(0, p as int)] + split_on(tail@, sep@));
                        assert(views(parts@) + split_on(tail@, sep@) =~= views(before) + split_on(rest@, sep@));
                    }
                    rest = tail;
                },
                None => {
                    parts.push(string_from_chars(rest));
                    proof {
                        assert(split_on(r0, sep@) == seq![r0]);
                        assert(views(parts@) =~= views(before) + split_on(r0, sep@));
                    }
                    break;
                },
            }
        }
    parts
}

/// The name and aliases that `str::split_once` and `str::split` give for an
/// empty separator: an empty name, then an empty piece, each character, and
/// an empty piece.
pub open spec fn empty_separator_parts(s: Seq<char>) -> Seq<Seq<char>> {
    seq![Seq::<char>::empty(), Seq::<char>::empty()] + s.map_values(|ch: char| seq![ch]) + seq![Seq::<char>::empty()]
}

/// The parts of a file stem, name first, as the separator cuts them.
pub open spec fn stem_parts(s: Seq<char>, sep: Seq<char>) -> Seq<Seq<char>> {
    if sep.len() == 0 {
        empty_separator_parts(s)
    } else {
        split_on(s, sep)
    }
}

fn split_empty(base: &Vec<char>) -> (parts: Vec<String>)
    ensures
        views(parts@) == empty_separator_parts(base@),
{
    let mut parts: Vec<String> = Vec::new();
    parts.push(String::new());
    parts.push(String::new());
    let mut k: usize = 0;
    while k < base.len()
        invariant
            k <= base@.len(),
            views(parts@) == seq![Seq::<char>::empty(), Seq::<char>::empty()] + base@.subrange(0, k as int).map_values(|ch: char| seq![ch]),
        decreases base@.len() - k,
    {
        let ghost before = parts@;
        let mut one: Vec<char> = Vec::new();
        one.push(base[k]);
        let piece = string_from_chars(one);
        parts.push(piece);
        proof {
            assert(piece@ =~= seq![base@[k as int]]);
            assert(base@.subrange(0, k + 1).map_values(|ch: char| seq![ch]) =~= base@.subrange(0, k as int).map_values(|ch: char| seq![ch]).push(seq![base@[k as int]]));
            assert(views(parts@) =~= views(before).push(piece@));
        }
        k += 1;
    }
    let ghost before = parts@;
    let last = String::new();
    parts.push(last);
    proof {
        assert(base@.subrange(0, k as int) =~= base@);
        assert(views(parts@) =~= views(before).push(last@));
        assert(last@ =~= Seq::<char>::empty());
    }
    assert(views(parts@) =~= empty_separator_parts(base@));
    parts
}

impl Entry {
    /// Builds an entry from its parts.
    pub fn new(name: String, aliases: Vec<String>, indexed: bool) -> (e: Entry)
        ensures
            e.name == name,
            e.aliases == aliases,
            e.indexed == indexed,
    {
        Entry { name, aliases, indexed }
    }

    /// Whether the entry is indexed.
    pub fn is_indexed(&self) -> (r: bool)
        ensures
            r == self.indexed,
    {
        self.indexed
    }

    /// The aliases, then the name: every string the entry answers to.
    pub open spec fn strings(self) -> Seq<Seq<char>> {
        views(self.aliases@).push(self.name@)
    }

    /// The name, then the aliases: the parts of the file name.
    pub open spec fn file_parts(self) -> Seq<Seq<char>> {
        seq![self.name@] + views(self.aliases@)
    }

    /// Every string of the entry is short enough to score.
    pub open spec fn fits(self) -> bool {
        &&& self.name@.len() <= MAX_LEN
        &&& forall|k: int| 0 <= k < self.aliases@.len() ==> (#[trigger] self.aliases@[k])@.len() <= MAX_LEN
    }

    /// The entry that a file stem describes: the name and the aliases
    /// separated by `separator`, then `.noindex` if the entry is unindexed.
    pub fn from_file_stem(stem: &str, separator: &str) -> (e: Entry)
        ensures
            e.indexed == !has_noindex_suffix(stem@),
            e.file_parts() == stem_parts(
                if e.indexed { stem@ } else { stem@.subrange(0, stem@.len() - 8) },
                separator@,
            ),
    {
        let s = chars_of(stem);
        let marker = vec!['.', 'n', 'o', 'i', 'n', 'd', 'e', 'x'];
        assert(marker@ =~= noindex_suffix());
        let indexed = !(s.len() >= 8 && occurs_at(&s, &marker, s.len() - 8));
        let base = if indexed { s } else { sub_chars(&s, 0, s.len() - 8) };
        let ghost base_view = base@;
        let sep = chars_of(separator);
        let mut parts = if sep.len() == 0 { split_empty(&base) } else { split_pieces(base, &sep) };
        let ghost all = parts@;
        proof {
            lemma_split_nonempty(base_view, sep@);
            assert(views(all) == stem_parts(base_view, sep@));
        }
        let name = parts.remove(0);
        proof {
            assert(views(all) =~= seq![name@] + views(parts@));
        }
        Entry { name, aliases: parts, indexed }
    }

    /// The file stem: the name and the aliases, `separator` between each two.
    pub fn get_filestem(&self, separator: &str) -> (r: String)
        ensures
            r@ == joined(self.file_parts(), separator@),
    {
        let mut parts: Vec<String> = Vec::new();
        parts.push(self.name.clone());
        let mut k: usize = 0;
        while k < self.aliases.len()
            invariant
                k <= self.aliases@.len(),
                views(parts@) == seq![self.name@] + views(self.aliases@.subrange(0, k as int)),
            decreases self.aliases@.len() - k,
        {
            let ghost before = parts@;
            let a = self.aliases[k].clone();
            parts.push(a);
            proof {
                assert(views(parts@) =~= views(before).push(a@));
                assert(self.aliases@.subrange(0, k + 1) =~= self.aliases@.subrange(0, k as int).push(self.aliases@[k as int]));
                assert(views(self.aliases@.subrange(0, k + 1)) =~= views(self.aliases@.subrange(0, k as int)).push(self.aliases@[k as int]@));
            }
            k += 1;
            assert(views(parts@) =~= seq![self.name@] + views(self.aliases@.subrange(0, k as int)));
        }
        assert(self.aliases@.subrange(0, k as int) =~= self.aliases@);
        join_strings(&parts, separator)
    }

    /// The file extension: `.json`, or `.noindex.json` for an unindexed entry.
    pub fn get_extension(&self) -> (r: &'static str)
        ensures
            r@ == if self.indexed { ".json"@ } else { ".noindex.json"@ },
    {
        if self.indexed {
            ".json"
        } else {
            ".noindex.json"
        }
    }

    /// The file name: the stem, then the extension.
    pub fn get_filename(&self, separator: &str) -> (r: String)
        ensures
            r@ == joined(self.file_parts(), separator@) + if self.indexed { ".json"@ } else { ".noindex.json"@ },
    {
        let stem = self.get_filestem(separator);
        let mut v = chars_of(stem.as_str());
        let ext = chars_of(self.get_extension());
        let ghost v0 = v@;
        let mut i: usize = 0;
        while i < ext.len()
            invariant
                i <= ext@.len(),
                v@ == v0 + ext@.subrange(0, i as int),
            decreases ext@.len() - i,
        {
            v.push(ext[i]);
            i += 1;
            assert(v@ =~= v0 + ext@.subrange(0, i as int));
        }
        assert(ext@.subrange(0, ext@.len() as int) =~= ext@);
        string_from_chars(v)
    }

    /// Whether the entry already answers to `new_entry_name`, as its name or
    /// one of its aliases.
    pub fn is_new_entry_name_valid(&self, new_entry_name: &str) -> (r: bool)
        ensures
            r == self.strings().contains(new_entry_name@),
    {
        let target = new_entry_name.to_owned();
        let mut k: usize = 0;
        while k < self.aliases.len()
            invariant
                k <= self.aliases@.len(),
                target@ == new_entry_name@,
                forall|j: int| 0 <= j < k ==> (#[trigger] self.aliases@[j])@ != target@,
            decreases self.aliases@.len() - k,
        {
            if self.aliases[k] == target {
                assert(self.strings()[k as int] == new_entry_name@);
                return true;
            }
            k += 1;
        }
        let found = self.name == target;
        proof {
            let st = self.strings();
            assert(st[self.aliases@.len() as int] == self.name@);
            if !found {
                assert forall|j: int| 0 <= j < st.len() implies st[j] != new_entry_name@ by {
                    if j < self.aliases@.len() {
                        assert(st[j] == self.aliases@[j]@);
                    }
                }
            }
        }
        found
    }

    /// The name, then `"; "` and the first alias if there is one.
    pub fn print_name_and_first_alias(&self) -> (r: String)
        ensures
            r@ == if self.aliases@.len() == 0 {
                self.name@
            } else {
                self.name@ + seq![';', ' '] + self.aliases@[0]@
            },
    {
        if self.aliases.len() == 0 {
            return self.name.clone();
        }
        let mut v = chars_of(self.name.as_str());
        v.push(';');
        v.push(' ');
        let ghost v0 = v@;
        let first = chars_of(self.aliases[0].as_str());
        let mut i: usize = 0;
        while i < first.len()
            invariant
                i <= first@.len(),
                v@ == v0 + first@.subrange(0, i as int),
            decreases first@.len() - i,
        {
            v.push(first[i]);
            i += 1;
            assert(v@ =~= v0 + first@.subrange(0, i as int));
        }
        assert(first@.subrange(0, first@.len() as int) =~= first@);
        assert(v@ =~= self.name@ + seq![';', ' '] + self.aliases@[0]@);
        string_from_chars(v)
    }
}

} // verus!
