use vstd::prelude::*;
use vstd::std_specs::convert::FromSpecImpl;
use crate::text::{chars_of, string_of};

verus! {

/// The name of an HTTP header.
#[derive(Debug, Hash, PartialEq, Eq)]
pub struct HeaderName(pub String);

/// The value of a header: either text, or a bare flag with no value.
#[derive(Debug)]
pub enum HeaderVal {
    Value(String),
    Flag(),
}

/// A header as it is read from a request line.
#[derive(Debug)]
pub enum HeaderCollectionEntry {
    FlagEntry(HeaderName),
    ValueEntry(HeaderName, String),
}

/// A header value as a mathematical value: `None` for a flag.
pub open spec fn header_val_view(v: HeaderVal) -> Option<Seq<char>> {
    match v {
        HeaderVal::Value(x) => Some(x@),
        HeaderVal::Flag() => None,
    }
}

impl From<Option<String>> for HeaderVal {
    fn from(value: Option<String>) -> (r: Self) {
        match value {
            Option::None => Self::Flag(),
            Option::Some(x) => Self::Value(x),
        }
    }
}

impl FromSpecImpl<Option<String>> for HeaderVal {
    open spec fn obeys_from_spec() -> bool {
        true
    }

    open spec fn from_spec(value: Option<String>) -> Self {
        match value {
            Option::None => HeaderVal::Flag(),
            Option::Some(x) => HeaderVal::Value(x),
        }
    }
}

impl HeaderVal {
    /// The text of a value, or `None` for a flag.
    pub fn into(self) -> (r: Option<String>)
        ensures
            match self {
                HeaderVal::Flag() => r is None,
                HeaderVal::Value(x) => r == Some(x),
            },
    {
        match self {
            HeaderVal::Flag() => Option::None,
            HeaderVal::Value(x) => Option::Some(x),
        }
    }
}

impl From<HeaderName> for HeaderCollectionEntry {
    fn from(value: HeaderName) -> (r: Self) {
        HeaderCollectionEntry::FlagEntry(value)
    }
}

impl FromSpecImpl<HeaderName> for HeaderCollectionEntry {
    open spec fn obeys_from_spec() -> bool {
        true
    }

    open spec fn from_spec(value: HeaderName) -> Self {
        HeaderCollectionEntry::FlagEntry(value)
    }
}

impl HeaderCollectionEntry {
    pub fn new_flag(header_name: String) -> (r: Self)
        ensures
            r == HeaderCollectionEntry::FlagEntry(HeaderName(header_name)),
    {
        HeaderCollectionEntry::FlagEntry(HeaderName(header_name))
    }

    pub fn new_value(header_name: String, header_val: String) -> (r: Self)
        ensures
            r == HeaderCollectionEntry::ValueEntry(HeaderName(header_name), header_val),
    {
        HeaderCollectionEntry::ValueEntry(HeaderName(header_name), header_val)
    }

    /// An entry for a name and a value; a flag has no value to hold, so it is refused.
    pub fn from_name_and_val(pair: (HeaderName, HeaderVal)) -> (r: Self)
        requires
            pair.1 is Value,
        ensures
            r == HeaderCollectionEntry::ValueEntry(pair.0, pair.1->Value_0),
    {
        let (name, val) = pair;
        match val.into() {
            Some(x) => HeaderCollectionEntry::ValueEntry(name, x),
            None => vstd::pervasive::unreached(),
        }
    }

    /// The name and value that this entry puts in a collection.
    pub open spec fn view(self) -> (Seq<char>, Option<Seq<char>>) {
        match self {
            HeaderCollectionEntry::FlagEntry(n) => (n.0@, None),
            HeaderCollectionEntry::ValueEntry(n, v) => (n.0@, Some(v@)),
        }
    }
}

/// The headers of a message, each name at most once.
#[derive(Debug)]
pub struct HeaderCollection {
    entries: Vec<(HeaderName, HeaderVal)>,
}

/// The index of the entry named `k`, if any.
pub open spec fn has_name(entries: Seq<(HeaderName, HeaderVal)>, k: Seq<char>) -> bool {
    exists|i: int| 0 <= i < entries.len() && (#[trigger] entries[i]).0.0@ == k
}

/// What a list of (name, value) pairs holds once inserted one after the
/// other into an empty map, a later value replacing an earlier one.
pub open spec fn insert_all(
    m: Map<Seq<char>, Option<Seq<char>>>,
    pairs: Seq<(Seq<char>, Option<Seq<char>>)>,
) -> Map<Seq<char>, Option<Seq<char>>>
    decreases pairs.len(),
{
    if pairs.len() == 0 {
        m
    } else {
        insert_all(m, pairs.drop_last()).insert(pairs.last().0, pairs.last().1)
    }
}

/// No two of the entries have the same name.
pub open spec fn names_unique(entries: Seq<(HeaderName, HeaderVal)>) -> bool {
    forall|i: int, j: int|
        0 <= i < j < entries.len() ==> (#[trigger] entries[i]).0.0@ != (#[trigger] entries[j]).0.0@
}

/// The entries as a map from name to value (`None` for a flag): the value
/// of an entry with that name.
pub open spec fn entries_map(entries: Seq<(HeaderName, HeaderVal)>) -> Map<Seq<char>, Option<Seq<char>>> {
    Map::new(
        |k: Seq<char>| has_name(entries, k),
        |k: Seq<char>|
            header_val_view(
                entries[choose|i: int| 0 <= i < entries.len() && (#[trigger] entries[i]).0.0@ == k].1,
            ),
    )
}

/// In a well-formed collection, entry `i` is the one found under its own name.
proof fn lemma_unique_index(entries: Seq<(HeaderName, HeaderVal)>, i: int)
    requires
        names_unique(entries),
        0 <= i < entries.len(),
    ensures
        entries_map(entries).dom().contains(entries[i].0.0@),
        entries_map(entries)[entries[i].0.0@] == header_val_view(entries[i].1),
{
    let k = entries[i].0.0@;
    assert(has_name(entries, k));
    let c = choose|c: int| 0 <= c < entries.len() && (#[trigger] entries[c]).0.0@ == k;
    assert(c == i) by {
        if c < i {
            assert(entries[c].0.0@ != entries[i].0.0@);
        } else if c > i {
            assert(entries[i].0.0@ != entries[c].0.0@);
        }
    }
}

/// The map of unique entries has one key per entry.
proof fn lemma_entries_map_len(entries: Seq<(HeaderName, HeaderVal)>)
    requires
        names_unique(entries),
    ensures
        entries_map(entries).dom().finite(),
        entries_map(entries).dom().len() == entries.len(),
{
    let names = entries.map_values(|e: (HeaderName, HeaderVal)| e.0.0@);
    assert(names.no_duplicates()) by {
        assert forall|i: int, j: int| 0 <= i < names.len() && 0 <= j < names.len() && i != j
            implies names[i] != names[j] by {
            if i < j {
                assert(entries[i].0.0@ != entries[j].0.0@);
            } else {
                assert(entries[j].0.0@ != entries[i].0.0@);
            }
        }
    }
    names.unique_seq_to_set();
    assert(entries_map(entries).dom() =~= names.to_set()) by {
        assert forall|k: Seq<char>| entries_map(entries).dom().contains(k) <==> names.to_set().contains(k) by {
            if entries_map(entries).dom().contains(k) {
                let i = choose|i: int| 0 <= i < entries.len() && (#[trigger] entries[i]).0.0@ == k;
                assert(names[i] == k);
            }
            if names.to_set().contains(k) {
                let i = choose|i: int| 0 <= i < names.len() && names[i] == k;
                assert(entries[i].0.0@ == k);
            }
        }
    }
}

/// Stores `val` under `name` in the entries, replacing any value stored there before.
fn insert_entry(entries: &mut Vec<(HeaderName, HeaderVal)>, name: HeaderName, val: HeaderVal)
    requires
        names_unique(old(entries)@),
    ensures
        names_unique(final(entries)@),
        entries_map(final(entries)@) == entries_map(old(entries)@).insert(name.0@, header_val_view(val)),
{
    let ghost k = name.0@;
    let ghost v = header_val_view(val);
    let ghost old_view = entries_map(entries@);
    let mut i: usize = 0;
    while i < entries.len()
        invariant
            names_unique(entries@),
            entries_map(entries@) == old_view,
            k == name.0@,
            v == header_val_view(val),
            old_view == entries_map(old(entries)@),
            i <= entries@.len(),
            forall|j: int| 0 <= j < i ==> (#[trigger] entries@[j]).0.0@ != k,
        decreases entries@.len() - i,
    {
        if str_eq(entries[i].0.0.as_str(), name.0.as_str()) {
            let ghost before = entries@;
            entries.set(i, (name, val));
            proof {
                assert(entries@ == before.update(i as int, entries@[i as int]));
                assert(names_unique(entries@)) by {
                    assert forall|a: int, b: int| 0 <= a < b < entries@.len()
                        implies (#[trigger] entries@[a]).0.0@ != (#[trigger] entries@[b]).0.0@ by {
                        if a != i && b != i {
                            assert(before[a].0.0@ != before[b].0.0@);
                        } else if a == i {
                            assert(before[a].0.0@ != before[b].0.0@);
                        } else {
                            assert(before[a].0.0@ != before[b].0.0@);
                        }
                    }
                }
                lemma_unique_index(entries@, i as int);
                assert(entries_map(entries@) =~= old_view.insert(k, v)) by {
                    assert forall|key: Seq<char>| #[trigger] entries_map(entries@).dom().contains(key)
                        <==> old_view.insert(k, v).dom().contains(key) by {
                        if entries_map(entries@).dom().contains(key) {
                            let c = choose|c: int| 0 <= c < entries@.len() && (#[trigger] entries@[c]).0.0@ == key;
                            if c != i {
                                assert(before[c].0.0@ == key);
                            }
                        }
                        if old_view.dom().contains(key) && key != k {
                            let c = choose|c: int| 0 <= c < before.len() && (#[trigger] before[c]).0.0@ == key;
                            assert(c != i);
                            assert(entries@[c].0.0@ == key);
                        }
                    }
                    assert forall|key: Seq<char>| #[trigger] entries_map(entries@).dom().contains(key)
                        implies entries_map(entries@)[key] == old_view.insert(k, v)[key] by {
                        if key != k {
                            let c = choose|c: int| 0 <= c < entries@.len() && (#[trigger] entries@[c]).0.0@ == key;
                            assert(c != i);
                            assert(before[c].0.0@ == key);
                            lemma_unique_index(entries@, c);
                            let c0 = choose|c0: int| 0 <= c0 < before.len() && (#[trigger] before[c0]).0.0@ == key;
                            assert(c0 == c) by {
                                if c0 != c {
                                    if c0 < c {
                                        assert(before[c0].0.0@ != before[c].0.0@);
                                    } else {
                                        assert(before[c].0.0@ != before[c0].0.0@);
                                    }
                                }
                            }
                        }
                    }
                }
            }
            return;
        }
        i = i + 1;
    }
    let ghost before = entries@;
    entries.push((name, val));
    proof {
        assert(names_unique(entries@)) by {
            assert forall|a: int, b: int| 0 <= a < b < entries@.len()
                implies (#[trigger] entries@[a]).0.0@ != (#[trigger] entries@[b]).0.0@ by {
                if b < before.len() {
                    assert(before[a].0.0@ != before[b].0.0@);
                } else {
                    assert(before[a].0.0@ != k);
                }
            }
        }
        let last = (before.len()) as int;
        lemma_unique_index(entries@, last);
        assert(entries_map(entries@) =~= old_view.insert(k, v)) by {
            assert forall|key: Seq<char>| #[trigger] entries_map(entries@).dom().contains(key)
                <==> old_view.insert(k, v).dom().contains(key) by {
                if entries_map(entries@).dom().contains(key) && key != k {
                    let c = choose|c: int| 0 <= c < entries@.len() && (#[trigger] entries@[c]).0.0@ == key;
                    assert(c != last);
                    assert(before[c].0.0@ == key);
                }
                if old_view.dom().contains(key) {
                    let c = choose|c: int| 0 <= c < before.len() && (#[trigger] before[c]).0.0@ == key;
                    assert(entries@[c].0.0@ == key);
                }
            }
            assert forall|key: Seq<char>| #[trigger] entries_map(entries@).dom().contains(key)
                implies entries_map(entries@)[key] == old_view.insert(k, v)[key] by {
                if key != k {
                    let c = choose|c: int| 0 <= c < entries@.len() && (#[trigger] entries@[c]).0.0@ == key;
                    assert(c != last);
                    assert(before[c].0.0@ == key);
                    lemma_unique_index(entries@, c);
                    let c0 = choose|c0: int| 0 <= c0 < before.len() && (#[trigger] before[c0]).0.0@ == key;
                    assert(c0 == c) by {
                        if c0 != c {
                            if c0 < c {
                                assert(before[c0].0.0@ != before[c].0.0@);
                            } else {
                                assert(before[c].0.0@ != before[c0].0.0@);
                            }
                        }
                    }
                }
            }
        }
    }
}

impl HeaderCollection {
    /// No two entries have the same name.
    #[verifier::type_invariant]
    spec fn wf(&self) -> bool {
        names_unique(self.entries@)
    }

    /// The headers as a map from name to value (`None` for a flag).
    pub closed spec fn view(&self) -> Map<Seq<char>, Option<Seq<char>>> {
        entries_map(self.entries@)
    }

    pub fn new() -> (r: HeaderCollection)
        ensures
            r.view() == Map::<Seq<char>, Option<Seq<char>>>::empty(),
    {
        let r = HeaderCollection { entries: Vec::new() };
        assert(r.view() =~= Map::<Seq<char>, Option<Seq<char>>>::empty());
        r
    }

    /// A collection of the given flags, then the given values, inserted in
    /// that order (a later entry for a name replaces an earlier one).
    pub fn from_flags_and_values(
        bobo: (Vec<HeaderName>, Vec<(HeaderName, String)>),
    ) -> (r: HeaderCollection)
        ensures
            r.view() == insert_all(
                insert_all(Map::empty(), bobo.0@.map_values(|f: HeaderName| (f.0@, None::<Seq<char>>))),
                bobo.1@.map_values(|p: (HeaderName, String)| (p.0.0@, Some(p.1@))),
            ),
    {
        let (flags, values) = bobo;
        let ghost fpairs = flags@.map_values(|f: HeaderName| (f.0@, None::<Seq<char>>));
        let ghost vpairs = values@.map_values(|p: (HeaderName, String)| (p.0.0@, Some(p.1@)));
        let mut content = HeaderCollection::new();
        let mut i: usize = 0;
        while i < flags.len()
            invariant
                i <= flags@.len(),
                fpairs == flags@.map_values(|f: HeaderName| (f.0@, None::<Seq<char>>)),
                content.view() == insert_all(Map::empty(), fpairs.take(i as int)),
            decreases flags@.len() - i,
        {
            content.insert(HeaderName(flags[i].0.clone()), HeaderVal::Flag());
            assert(fpairs.take(i + 1).drop_last() =~= fpairs.take(i as int));
            i = i + 1;
        }
        assert(fpairs.take(flags@.len() as int) =~= fpairs);
        let ghost mid = content.view();
        let mut i: usize = 0;
        while i < values.len()
            invariant
                i <= values@.len(),
                vpairs == values@.map_values(|p: (HeaderName, String)| (p.0.0@, Some(p.1@))),
                content.view() == insert_all(mid, vpairs.take(i as int)),
            decreases values@.len() - i,
        {
            content.insert(HeaderName(values[i].0.0.clone()), HeaderVal::Value(values[i].1.clone()));
            assert(vpairs.take(i + 1).drop_last() =~= vpairs.take(i as int));
            i = i + 1;
        }
        assert(vpairs.take(values@.len() as int) =~= vpairs);
        content
    }

    /// A collection of the given entries, inserted in order (a later entry
    /// for a name replaces an earlier one).
    pub fn from_entries(value: Vec<HeaderCollectionEntry>) -> (r: HeaderCollection)
        ensures
            r.view() == insert_all(
                Map::empty(),
                value@.map_values(|e: HeaderCollectionEntry| e.view()),
            ),
    {
        let ghost pairs = value@.map_values(|e: HeaderCollectionEntry| e.view());
        let mut res = HeaderCollection::new();
        let mut i: usize = 0;
        while i < value.len()
            invariant
                i <= value@.len(),
                pairs == value@.map_values(|e: HeaderCollectionEntry| e.view()),
                res.view() == insert_all(Map::empty(), pairs.take(i as int)),
            decreases value@.len() - i,
        {
            match &value[i] {
                HeaderCollectionEntry::FlagEntry(header_name) => {
                    res.insert(HeaderName(header_name.0.clone()), HeaderVal::Flag());
                },
                HeaderCollectionEntry::ValueEntry(header_name, header_val) => {
                    res.insert(HeaderName(header_name.0.clone()), HeaderVal::Value(header_val.clone()));
                },
            }
            assert(pairs.take(i + 1).drop_last() =~= pairs.take(i as int));
            i = i + 1;
        }
        assert(pairs.take(value@.len() as int) =~= pairs);
        res
    }

    /// The number of distinct names.
    pub fn len(&self) -> (r: usize)
        ensures
            r == self.view().len(),
    {
        proof {
            use_type_invariant(self);
            lemma_entries_map_len(self.entries@);
        }
        self.entries.len()
    }

    /// The value stored under `name`, if any.
    pub fn get(&self, name: &str) -> (r: Option<&HeaderVal>)
        ensures
            r is Some <==> self.view().dom().contains(name@),
            r matches Some(v) ==> header_val_view(*v) == self.view()[name@],
    {
        proof {
            use_type_invariant(self);
        }
        let mut i: usize = 0;
        while i < self.entries.len()
            invariant
                names_unique(self.entries@),
                i <= self.entries@.len(),
                forall|j: int| 0 <= j < i ==> (#[trigger] self.entries@[j]).0.0@ != name@,
            decreases self.entries@.len() - i,
        {
            if str_eq(self.entries[i].0.0.as_str(), name) {
                let ghost k = name@;
                assert(self.entries@[i as int].0.0@ == k);
                let ghost c = choose|c: int| 0 <= c < self.entries@.len() && (#[trigger] self.entries@[c]).0.0@ == k;
                assert(c == i) by {
                    if c < i {
                        assert(self.entries@[c].0.0@ != self.entries@[i as int].0.0@);
                    } else if c > i {
                        assert(self.entries@[i as int].0.0@ != self.entries@[c].0.0@);
                    }
                }
                return Some(&self.entries[i].1);
            }
            i = i + 1;
        }
        None
    }

    /// Stores `val` under `name`, replacing any value stored there before.
    pub fn insert(&mut self, name: HeaderName, val: HeaderVal)
        ensures
            final(self).view() == old(self).view().insert(name.0@, header_val_view(val)),
    {
        proof {
            use_type_invariant(&*self);
        }
        let mut entries: Vec<(HeaderName, HeaderVal)> = Vec::new();
        std::mem::swap(&mut entries, &mut self.entries);
        insert_entry(&mut entries, name, val);
        self.entries = entries;
    }

}

/// Whether two strings hold the same characters.
fn str_eq(a: &str, b: &str) -> (r: bool)
    ensures
        r == (a@ == b@),
{
    let av = chars_of(a);
    let bv = chars_of(b);
    if av.len() != bv.len() {
        return false;
    }
    let mut i: usize = 0;
    while i < av.len()
        invariant
            av@ == a@,
            bv@ == b@,
            av@.len() == bv@.len(),
            i <= av@.len(),
            forall|j: int| 0 <= j < i ==> av@[j] == bv@[j],
        decreases av@.len() - i,
    {
        if av[i] != bv[i] {
            return false;
        }
        i = i + 1;
    }
    assert(a@ =~= b@);
    true
}

}

verus! {

/// Number of bytes that UTF-8 takes for `c` (as std's `char::len_utf8` documents).
pub open spec fn utf8_width(c: char) -> nat {
    if (c as u32) < 0x80 {
        1
    } else if (c as u32) < 0x800 {
        2
    } else if (c as u32) < 0x10000 {
        3
    } else {
        4
    }
}

/// Number of bytes that UTF-8 takes for `s`.
pub open spec fn utf8_len(s: Seq<char>) -> nat
    decreases s.len(),
{
    if s.len() == 0 {
        0
    } else {
        utf8_len(s.drop_last()) + utf8_width(s.last())
    }
}

/// `d` occurs in `s` starting at position `p`.
pub open spec fn occurs_at(s: Seq<char>, d: Seq<char>, p: int) -> bool {
    0 <= p && p + d.len() <= s.len() && s.subrange(p, p + d.len()) == d
}

/// The first position `>= p` and before the end of `s` at which `d` occurs,
/// or `s.len()` when there is none.
pub open spec fn match_pos(s: Seq<char>, d: Seq<char>, p: int) -> int
    decreases s.len() - p,
{
    if p >= s.len() {
        s.len() as int
    } else if occurs_at(s, d, p) {
        p
    } else {
        match_pos(s, d, p + 1)
    }
}

/// The first `k >= from` such that the first `k` characters of `d` take as
/// many bytes as `d` has characters, or -1 when there is none.
pub open spec fn byte_cut(d: Seq<char>, from: int) -> int
    decreases d.len() - from,
{
    if from < 0 || from > d.len() {
        -1
    } else if utf8_len(d.take(from)) == d.len() {
        from
    } else if from == d.len() {
        -1
    } else {
        byte_cut(d, from + 1)
    }
}

/// `split_once_string` would cut a character in two: after a match of `d` it
/// skips as many bytes as `d` has characters, and that is no character boundary.
pub open spec fn split_once_cuts_char(s: Seq<char>, d: Seq<char>) -> bool {
    match_pos(s, d, 0) < s.len() && byte_cut(d, 0) < 0
}

/// What `split_once_string` returns: the text before the first occurrence of
/// `d`, and the text that starts as many bytes after it as `d` has characters;
/// or `s` and nothing when `d` does not occur before the end of `s`.
pub open spec fn split_once_spec(s: Seq<char>, d: Seq<char>) -> (Seq<char>, Option<Seq<char>>) {
    let p = match_pos(s, d, 0);
    if p < s.len() {
        (s.take(p), Some(s.skip(p + byte_cut(d, 0))))
    } else {
        (s, None)
    }
}

/// Bytes that UTF-8 takes for `c`.
fn char_utf8_width(c: char) -> (w: usize)
    ensures
        w == utf8_width(c),
{
    let v = c as u32;
    if v < 0x80 {
        1
    } else if v < 0x800 {
        2
    } else if v < 0x10000 {
        3
    } else {
        4
    }
}

fn occurs_at_exec(s: &Vec<char>, d: &Vec<char>, p: usize) -> (r: bool)
    requires
        p < s@.len(),
    ensures
        r == occurs_at(s@, d@, p as int),
{
    if d.len() > s.len() - p {
        return false;
    }
    let mut j: usize = 0;
    while j < d.len()
        invariant
            p + d@.len() <= s@.len(),
            s@.len() <= usize::MAX,
            j <= d@.len(),
            forall|t: int| 0 <= t < j ==> s@[p + t] == d@[t],
        decreases d@.len() - j,
    {
        if s[p + j] != d[j] {
            assert(s@.subrange(p as int, p + d@.len())[j as int] != d@[j as int]);
            return false;
        }
        j = j + 1;
    }
    assert(s@.subrange(p as int, p + d@.len()) =~= d@);
    true
}

/// Splits `s` around the first occurrence of `delimiter`.
pub fn split_once_string<'a>(s: &'a str, delimiter: &'a str) -> (r: (&'a str, Option<&'a str>))
    requires
        !split_once_cuts_char(s@, delimiter@),
    ensures
        r.0@ == split_once_spec(s@, delimiter@).0,
        r.1 is Some == split_once_spec(s@, delimiter@).1 is Some,
        r.1 matches Some(rest) ==> rest@ == split_once_spec(s@, delimiter@).1->0,
{
    let sv = chars_of(s);
    let dv = chars_of(delimiter);
    let mut p: usize = 0;
    while p < sv.len()
        invariant
            sv@ == s@,
            dv@ == delimiter@,
            !split_once_cuts_char(s@, delimiter@),
            p <= sv@.len(),
            match_pos(s@, delimiter@, 0) == match_pos(s@, delimiter@, p as int),
        decreases sv@.len() - p,
    {
        if occurs_at_exec(&sv, &dv, p) {
            let k = first_byte_cut(&dv);
            let head = s.substring_char(0, p);
            let tail = s.substring_char(p + k, sv.len());
            return (head, Some(tail));
        }
        p = p + 1;
    }
    (s, None)
}

/// Where `byte_cut(d, 0)` lies, when it exists.
fn first_byte_cut(d: &Vec<char>) -> (k: usize)
    requires
        byte_cut(d@, 0) >= 0,
    ensures
        k == byte_cut(d@, 0),
        k <= d@.len(),
{
    let target = d.len();
    let mut k: usize = 0;
    let mut sum: usize = 0;
    proof {
        assert(d@.take(0) =~= Seq::<char>::empty());
    }
    loop
        invariant
            target == d@.len(),
            k <= d@.len(),
            sum == utf8_len(d@.take(k as int)),
            sum <= target,
            byte_cut(d@, 0) == byte_cut(d@, k as int),
            byte_cut(d@, 0) >= 0,
        decreases d@.len() - k,
    {
        if sum == target {
            return k;
        }
        assert(k < d@.len());
        let w = char_utf8_width(d[k]);
        assert(d@.take(k + 1).drop_last() =~= d@.take(k as int));
        if w > target - sum {
            proof {
                lemma_utf8_len_grows(d@, k as int + 1);
                assert(byte_cut(d@, k + 1) < 0);
            }
            assert(false);
            return k;
        }
        sum = sum + w;
        k = k + 1;
    }
}

proof fn lemma_utf8_len_grows(d: Seq<char>, from: int)
    requires
        0 <= from <= d.len(),
        utf8_len(d.take(from)) > d.len(),
    ensures
        byte_cut(d, from) < 0,
    decreases d.len() - from,
{
    if from < d.len() {
        assert(d.take(from + 1).drop_last() =~= d.take(from));
        lemma_utf8_len_grows(d, from + 1);
    }
}

}

verus! {

/// A request as read from the client.
#[derive(Debug)]
pub struct HttpReqBase {
    pub msg_type: String,
    pub command: String,
    pub path: String,
    pub headers: HeaderCollection,
    pub content: Option<String>,
}

/// A response to send back.
pub struct HttpRespBase {
    pub msg_type: String,
    pub return_code: u16,
    pub return_justification: String,
    pub headers: HeaderCollection,
    pub content: Option<String>,
}

/// Why a request could not be read.
#[derive(Debug)]
pub struct HttpParseError {
    pub what_happened: String,
}

impl HttpParseError {
    pub fn new(what_happened: String) -> (r: Self)
        ensures
            r.what_happened == what_happened,
    {
        HttpParseError { what_happened: what_happened }
    }

    /// The text that this error shows when displayed (the same for every error).
    pub fn display_text(&self) -> (r: String)
        ensures
            r@ == "fuck"@,
    {
        String::from_str("fuck")
    }
}

/// Appends the marker text `asdf`.
pub fn test_ra0(s: &mut String)
    ensures
        final(s)@ == old(s)@ + "asdf"@,
{
    s.append("asdf");
}

/// A line without the one carriage return that may end it.
pub open spec fn strip_cr(l: Seq<char>) -> Seq<char> {
    if l.len() > 0 && l.last() == '\r' {
        l.drop_last()
    } else {
        l
    }
}

/// The lines of `s[start..]`, reading on from `i`, where `s[start..i]` holds no
/// newline. A line ends at `\n` (and then loses one `\r` before it); the text
/// after the last `\n`, if any, is a last line as it stands.
pub open spec fn lines_scan(s: Seq<char>, start: int, i: int) -> Seq<Seq<char>>
    decreases s.len() - i,
{
    if i >= s.len() {
        if start < s.len() {
            seq![s.subrange(start, s.len() as int)]
        } else {
            Seq::empty()
        }
    } else if s[i] == '\n' {
        seq![strip_cr(s.subrange(start, i))] + lines_scan(s, i + 1, i + 1)
    } else {
        lines_scan(s, start, i + 1)
    }
}

/// The lines of `s`, as std's `str::lines` yields them.
pub open spec fn lines_of(s: Seq<char>) -> Seq<Seq<char>> {
    lines_scan(s, 0, 0)
}

/// The characters of each vector.
pub open spec fn vecs_view(v: Seq<Vec<char>>) -> Seq<Seq<char>> {
    v.map_values(|l: Vec<char>| l@)
}

/// The first position `>= i` in `l` holding a space, or `l.len()`.
pub open spec fn space_pos(l: Seq<char>, i: int) -> int
    decreases l.len() - i,
{
    if i >= l.len() {
        l.len() as int
    } else if l[i] == ' ' {
        i
    } else {
        space_pos(l, i + 1)
    }
}

/// A line split at its first space, as std's `split_once(' ')` does,
/// or the whole line and nothing when it holds no space.
pub open spec fn split_word(l: Seq<char>) -> (Seq<char>, Option<Seq<char>>) {
    let p = space_pos(l, 0);
    if p < l.len() {
        (l.take(p), Some(l.skip(p + 1)))
    } else {
        (l, None)
    }
}

/// The next word of what is left of the request line, and what is left after it.
pub open spec fn next_word(rest: Option<Seq<char>>) -> Option<(Seq<char>, Option<Seq<char>>)> {
    match rest {
        None => None,
        Some(r) => Some(split_word(r)),
    }
}

/// The command, path and message type of the first of the lines `ls`, or
/// `None` when it lacks one of them.
pub open spec fn request_line(ls: Seq<Seq<char>>) -> Option<(Seq<char>, Seq<char>, Seq<char>)> {
    let first = if ls.len() > 0 { Some(ls[0]) } else { None };
    match next_word(first) {
        None => None,
        Some((command, r1)) => match next_word(r1) {
            None => None,
            Some((path, r2)) => match next_word(r2) {
                None => None,
                Some((msg_type, _r3)) => Some((command, path, msg_type)),
            },
        },
    }
}

/// The first position `>= i` holding an empty line, or `ls.len()`.
pub open spec fn run_end(ls: Seq<Seq<char>>, i: int) -> int
    decreases ls.len() - i,
{
    if i >= ls.len() {
        ls.len() as int
    } else if ls[i].len() == 0 {
        i
    } else {
        run_end(ls, i + 1)
    }
}

/// The header lines: those after the first, up to the first empty line.
pub open spec fn header_lines(ls: Seq<Seq<char>>) -> Seq<Seq<char>> {
    ls.subrange(1, run_end(ls, 1))
}

/// Where the content lines start: after the empty line that ends the headers.
pub open spec fn content_start(ls: Seq<Seq<char>>) -> int {
    let h = run_end(ls, 1);
    if h < ls.len() { h + 1 } else { ls.len() as int }
}

/// The content lines: from `content_start` up to the next empty line.
pub open spec fn content_lines(ls: Seq<Seq<char>>) -> Seq<Seq<char>> {
    ls.subrange(content_start(ls), run_end(ls, content_start(ls)))
}

/// The lines one after the other, with nothing between them.
pub open spec fn concat_lines(ls: Seq<Seq<char>>) -> Seq<char>
    decreases ls.len(),
{
    if ls.len() == 0 {
        Seq::empty()
    } else {
        concat_lines(ls.drop_last()) + ls.last()
    }
}

/// The name and value that a header line gives: split at the first ": ".
pub open spec fn header_pair(l: Seq<char>) -> (Seq<char>, Option<Seq<char>>) {
    split_once_spec(l, seq![':', ' '])
}

/// The headers that the lines `ls` of a request give.
pub open spec fn headers_of(ls: Seq<Seq<char>>) -> Map<Seq<char>, Option<Seq<char>>> {
    insert_all(Map::empty(), header_lines(ls).map_values(|l: Seq<char>| header_pair(l)))
}

/// The content that the lines `ls` of a request give, `None` when it is empty.
pub open spec fn content_of(ls: Seq<Seq<char>>) -> Option<Seq<char>> {
    let c = concat_lines(content_lines(ls));
    if c.len() == 0 { None } else { Some(c) }
}

/// The lines of `chars`.
fn split_lines(chars: &Vec<char>) -> (r: Vec<Vec<char>>)
    ensures
        vecs_view(r@) == lines_of(chars@),
{
    let ghost s = chars@;
    let mut out: Vec<Vec<char>> = Vec::new();
    let mut cur: Vec<char> = Vec::new();
    let mut start: usize = 0;
    let mut i: usize = 0;
    while i < chars.len()
        invariant
            s == chars@,
            start <= i <= s.len(),
            cur@ == s.subrange(start as int, i as int),
            lines_of(s) == vecs_view(out@) + lines_scan(s, start as int, i as int),
        decreases s.len() - i,
    {
        let c = chars[i];
        if c == '\n' {
            let mut line = cur;
            if line.len() > 0 && line[line.len() - 1] == '\r' {
                line.pop();
            }
            assert(line@ == strip_cr(s.subrange(start as int, i as int)));
            let ghost before = out@;
            out.push(line);
            assert(vecs_view(out@) =~= vecs_view(before) + seq![strip_cr(s.subrange(start as int, i as int))]);
            cur = Vec::new();
            start = i + 1;
            i = i + 1;
        } else {
            cur.push(c);
            assert(cur@ =~= s.subrange(start as int, i + 1));
            i = i + 1;
        }
    }
    if start < chars.len() {
        let ghost before = out@;
        out.push(cur);
        assert(vecs_view(out@) =~= vecs_view(before) + seq![s.subrange(start as int, s.len() as int)]);
    } else {
        assert(vecs_view(out@) =~= lines_of(s));
    }
    out
}

/// The characters `v[from..to]`.
fn sub_vec(v: &Vec<char>, from: usize, to: usize) -> (r: Vec<char>)
    requires
        from <= to <= v@.len(),
    ensures
        r@ == v@.subrange(from as int, to as int),
{
    let mut r: Vec<char> = Vec::new();
    let mut i: usize = from;
    while i < to
        invariant
            from <= i <= to,
            to <= v@.len(),
            r@ == v@.subrange(from as int, i as int),
        decreases to - i,
    {
        r.push(v[i]);
        assert(r@ =~= v@.subrange(from as int, i + 1));
        i = i + 1;
    }
    r
}

/// The line split at its first space.
fn split_word_exec(l: &Vec<char>) -> (r: (Vec<char>, Option<Vec<char>>))
    ensures
        r.0@ == split_word(l@).0,
        r.1 is Some == split_word(l@).1 is Some,
        r.1 matches Some(rest) ==> rest@ == split_word(l@).1->0,
{
    let mut p: usize = 0;
    while p < l.len()
        invariant
            p <= l@.len(),
            space_pos(l@, 0) == space_pos(l@, p as int),
        decreases l@.len() - p,
    {
        if l[p] == ' ' {
            let head = sub_vec(l, 0, p);
            let tail = sub_vec(l, p + 1, l.len());
            assert(head@ =~= l@.take(p as int));
            assert(tail@ =~= l@.skip(p + 1));
            return (head, Some(tail));
        }
        p = p + 1;
    }
    let whole = sub_vec(l, 0, l.len());
    assert(whole@ =~= l@);
    (whole, None)
}

}

verus! {

/// The text of an optional string.
pub open spec fn opt_string_view(o: Option<String>) -> Option<Seq<char>> {
    match o {
        Some(x) => Some(x@),
        None => None,
    }
}

proof fn lemma_colon_space_cut()
    ensures
        byte_cut(seq![':', ' '], 0) == 2,
{
    let d = seq![':', ' '];
    assert(d.take(0) =~= Seq::<char>::empty());
    assert(d.take(1).drop_last() =~= d.take(0));
    assert(d.take(2).drop_last() =~= d.take(1));
    assert((':' as u32) == 58);
    assert((' ' as u32) == 32);
    assert(utf8_len(Seq::<char>::empty()) == 0);
    assert(d.take(1).last() == ':');
    assert(utf8_width(':') == 1);
    assert(utf8_len(d.take(1)) == 1);
    assert(d.take(2).last() == ' ');
    assert(utf8_width(' ') == 1);
    assert(utf8_len(d.take(2)) == 2);
    assert(byte_cut(d, 2) == 2);
    assert(byte_cut(d, 1) == 2);
}

impl HttpReqBase {
    /// Reads a request: a first line `command path msg_type`, then header lines
    /// up to an empty line, then content lines up to the next empty line.
    pub fn try_parse(s: &str) -> (r: Result<Self, HttpParseError>)
        ensures
            match request_line(lines_of(s@)) {
                None => r matches Err(e) && e.what_happened@ == "String is very empty"@,
                Some((command, path, msg_type)) => r matches Ok(req) && {
                    &&& req.command@ == command
                    &&& req.path@ == path
                    &&& req.msg_type@ == msg_type
                    &&& req.headers.view() == headers_of(lines_of(s@))
                    &&& opt_string_view(req.content) == content_of(lines_of(s@))
                },
            },
    {
        let chars = chars_of(s);
        let lines = split_lines(&chars);
        let ghost ls = lines_of(s@);
        assert(vecs_view(lines@) == ls);
        assert(lines@.len() == ls.len());
        if lines.len() == 0 {
            return Err(HttpParseError::new(String::from_str("String is very empty")));
        }
        assert(lines@[0]@ == ls[0]);
        let (command, r1) = split_word_exec(&lines[0]);
        let r1 = match r1 {
            Some(x) => x,
            None => {
                return Err(HttpParseError::new(String::from_str("String is very empty")));
            },
        };
        let (path, r2) = split_word_exec(&r1);
        let r2 = match r2 {
            Some(x) => x,
            None => {
                return Err(HttpParseError::new(String::from_str("String is very empty")));
            },
        };
        let (msg_type, _r3) = split_word_exec(&r2);
        let command = string_of(&command);
        let path = string_of(&path);
        let msg_type = string_of(&msg_type);

        let mut headers_vec: Vec<HeaderCollectionEntry> = Vec::new();
        let mut i: usize = 1;
        let ghost hl = header_lines(ls);
        let ghost delim = seq![':', ' '];
        proof {
            lemma_colon_space_cut();
            reveal_strlit(": ");
            assert(": "@ =~= delim);
        }
        while i < lines.len() && lines[i].len() > 0
            invariant
                vecs_view(lines@) == ls,
                lines@.len() == ls.len(),
                1 <= i <= ls.len(),
                run_end(ls, 1) == run_end(ls, i as int),
                hl == header_lines(ls),
                ": "@ == delim,
                delim == seq![':', ' '],
                byte_cut(delim, 0) == 2,
                headers_vec@.map_values(|e: HeaderCollectionEntry| e.view())
                    == ls.subrange(1, i as int).map_values(|l: Seq<char>| header_pair(l)),
            decreases ls.len() - i,
        {
            assert(lines@[i as int]@ == ls[i as int]);
            let line = string_of(&lines[i]);
            let (header_name, header_val) = split_once_string(line.as_str(), ": ");
            let entry = match header_val {
                None => HeaderCollectionEntry::FlagEntry(HeaderName(String::from_str(header_name))),
                Some(v) => HeaderCollectionEntry::ValueEntry(
                    HeaderName(String::from_str(header_name)),
                    String::from_str(v),
                ),
            };
            assert(entry.view() == header_pair(ls[i as int]));
            let ghost before = headers_vec@;
            headers_vec.push(entry);
            assert(headers_vec@.map_values(|e: HeaderCollectionEntry| e.view())
                =~= ls.subrange(1, i + 1).map_values(|l: Seq<char>| header_pair(l))) by {
                assert(headers_vec@ == before.push(entry));
                let a = headers_vec@.map_values(|e: HeaderCollectionEntry| e.view());
                let b = ls.subrange(1, i + 1).map_values(|l: Seq<char>| header_pair(l));
                let a0 = before.map_values(|e: HeaderCollectionEntry| e.view());
                let b0 = ls.subrange(1, i as int).map_values(|l: Seq<char>| header_pair(l));
                assert(a0.len() == b0.len());
                assert(a.len() == b.len());
                assert forall|j: int| 0 <= j < a.len() implies a[j] == b[j] by {
                    if j < before.len() {
                        assert(a0[j] == b0[j]);
                        assert(a[j] == a0[j]);
                        assert(b[j] == b0[j]);
                    }
                }
            }
            i = i + 1;
        }
        assert(run_end(ls, i as int) == i);
        assert(ls.subrange(1, i as int) == hl);
        let headers = HeaderCollection::from_entries(headers_vec);
        if i < lines.len() {
            i = i + 1;
        }
        let ghost c0 = i as int;
        assert(c0 == content_start(ls));
        let mut content_string: Vec<char> = Vec::new();
        while i < lines.len() && lines[i].len() > 0
            invariant
                vecs_view(lines@) == ls,
                lines@.len() == ls.len(),
                0 <= c0 <= i <= ls.len(),
                run_end(ls, c0) == run_end(ls, i as int),
                content_string@ == concat_lines(ls.subrange(c0, i as int)),
            decreases ls.len() - i,
        {
            assert(lines@[i as int]@ == ls[i as int]);
            let line = &lines[i];
            let mut j: usize = 0;
            let ghost before = content_string@;
            while j < line.len()
                invariant
                    j <= line@.len(),
                    content_string@ == before + line@.take(j as int),
                decreases line@.len() - j,
            {
                content_string.push(line[j]);
                assert(content_string@ =~= before + line@.take(j + 1));
                j = j + 1;
            }
            assert(line@.take(line@.len() as int) =~= line@);
            assert(ls.subrange(c0, i + 1).drop_last() =~= ls.subrange(c0, i as int));
            assert(ls.subrange(c0, i + 1).last() == ls[i as int]);
            i = i + 1;
        }
        assert(run_end(ls, i as int) == i);
        let content = if content_string.len() == 0 {
            None
        } else {
            Some(string_of(&content_string))
        };
        Ok(HttpReqBase { msg_type, command, path, headers, content })
    }
}

/// Reading a name right after storing a value under it gives that value, and
/// every other name keeps what it had.
pub proof fn lemma_get_after_insert(
    before: Map<Seq<char>, Option<Seq<char>>>,
    name: Seq<char>,
    val: Option<Seq<char>>,
    other: Seq<char>,
)
    requires
        other != name,
    ensures
        before.insert(name, val).dom().contains(name),
        before.insert(name, val)[name] == val,
        before.insert(name, val).dom().contains(other) == before.dom().contains(other),
        before.dom().contains(other) ==> before.insert(name, val)[other] == before[other],
{
}

/// When headers are collected from a list of entries, a name ends up with the
/// value of its last entry.
pub proof fn lemma_last_entry_wins(
    m: Map<Seq<char>, Option<Seq<char>>>,
    pairs: Seq<(Seq<char>, Option<Seq<char>>)>,
    i: int,
)
    requires
        0 <= i < pairs.len(),
        forall|j: int| i < j < pairs.len() ==> (#[trigger] pairs[j]).0 != pairs[i].0,
    ensures
        insert_all(m, pairs).dom().contains(pairs[i].0),
        insert_all(m, pairs)[pairs[i].0] == pairs[i].1,
    decreases pairs.len(),
{
    if i < pairs.len() - 1 {
        let last = pairs.last();
        assert(last == pairs[pairs.len() - 1]);
        let rest = pairs.drop_last();
        assert forall|j: int| i < j < rest.len() implies (#[trigger] rest[j]).0 != rest[i].0 by {
            assert(rest[j] == pairs[j]);
        }
        lemma_last_entry_wins(m, rest, i);
        assert(rest[i] == pairs[i]);
    }
}

proof fn lemma_space_pos(l: Seq<char>, i: int)
    requires
        0 <= i <= l.len(),
    ensures
        i <= space_pos(l, i) <= l.len(),
        forall|j: int| i <= j < space_pos(l, i) ==> l[j] != ' ',
        space_pos(l, i) < l.len() ==> l[space_pos(l, i)] == ' ',
    decreases l.len() - i,
{
    if i < l.len() && l[i] != ' ' {
        lemma_space_pos(l, i + 1);
    }
}

/// Splitting at the first space: the part before it holds no space, and the
/// parts joined around one space give the line back; with no space in the
/// line, the line is the one part.
pub proof fn lemma_split_word(l: Seq<char>)
    ensures
        !split_word(l).0.contains(' '),
        split_word(l).1 matches Some(t) ==> l == split_word(l).0 + seq![' '] + t,
        split_word(l).1 is None ==> split_word(l).0 == l,
{
    lemma_space_pos(l, 0);
    let p = space_pos(l, 0);
    if p < l.len() {
        assert(l =~= l.take(p) + seq![' '] + l.skip(p + 1));
    }
    let h = split_word(l).0;
    assert forall|j: int| 0 <= j < h.len() implies h[j] != ' ' by {
        assert(h[j] == l[j]);
    }
}

/// The request line is the command, a space, the path, a space and the
/// message type, followed by nothing or by a space and more text; the three
/// words hold no space.
pub proof fn lemma_request_line_words(ls: Seq<Seq<char>>)
    ensures
        request_line(ls) matches Some((c, p, t)) ==> {
            &&& ls.len() > 0
            &&& !c.contains(' ') && !p.contains(' ') && !t.contains(' ')
            &&& (ls[0] == c + seq![' '] + p + seq![' '] + t || exists|rest: Seq<char>|
                ls[0] == c + seq![' '] + p + seq![' '] + t + seq![' '] + rest)
        },
{
    if ls.len() > 0 {
        let l0 = ls[0];
        lemma_split_word(l0);
        if let Some(r1) = split_word(l0).1 {
            lemma_split_word(r1);
            if let Some(r2) = split_word(r1).1 {
                lemma_split_word(r2);
                let c = split_word(l0).0;
                let p = split_word(r1).0;
                let t = split_word(r2).0;
                if let Some(r3) = split_word(r2).1 {
                    assert(l0 =~= c + seq![' '] + p + seq![' '] + t + seq![' '] + r3);
                } else {
                    assert(l0 =~= c + seq![' '] + p + seq![' '] + t);
                }
            }
        }
    }
}

proof fn lemma_match_pos(s: Seq<char>, d: Seq<char>, p: int)
    requires
        0 <= p <= s.len(),
    ensures
        p <= match_pos(s, d, p) <= s.len(),
        forall|q: int| p <= q < match_pos(s, d, p) ==> !occurs_at(s, d, q),
        match_pos(s, d, p) < s.len() ==> occurs_at(s, d, match_pos(s, d, p)),
    decreases s.len() - p,
{
    if p < s.len() && !occurs_at(s, d, p) {
        lemma_match_pos(s, d, p + 1);
    }
}

proof fn lemma_byte_cut(d: Seq<char>, from: int)
    requires
        0 <= from,
    ensures
        byte_cut(d, from) >= 0 ==> from <= byte_cut(d, from) <= d.len() && utf8_len(d.take(byte_cut(d, from))) == d.len(),
    decreases d.len() - from,
{
    if from <= d.len() && utf8_len(d.take(from)) != d.len() && from < d.len() {
        lemma_byte_cut(d, from + 1);
    }
}

/// Splitting `s` at the first occurrence of `d`: the first part is all of
/// `s` before that occurrence, where `d` does not occur earlier; the second
/// part starts after the first `k` characters of the occurrence, where those
/// `k` characters take as many bytes as `d` has characters, so that the
/// first part, those characters and the second part give `s` back (for a
/// delimiter of single-byte characters, `k` is all of `d`). When `d` does not
/// occur, the first part is all of `s`.
pub proof fn lemma_split_once(s: Seq<char>, d: Seq<char>)
    requires
        !split_once_cuts_char(s, d),
    ensures
        split_once_spec(s, d).1 is None ==> {
            &&& split_once_spec(s, d).0 == s
            &&& forall|q: int| 0 <= q < s.len() ==> !occurs_at(s, d, q)
        },
        split_once_spec(s, d).1 matches Some(t) ==> {
            let h = split_once_spec(s, d).0;
            &&& occurs_at(s, d, h.len() as int)
            &&& forall|q: int| 0 <= q < h.len() ==> !occurs_at(s, d, q)
            &&& exists|k: int|
                0 <= k <= d.len() && utf8_len(d.take(k)) == d.len() && s == h + d.take(k) + t
        },
        (forall|i: int| 0 <= i < d.len() ==> (d[i] as u32) < 0x80) ==> byte_cut(d, 0) == d.len(),
{
    lemma_match_pos(s, d, 0);
    lemma_byte_cut(d, 0);
    let p = match_pos(s, d, 0);
    if p < s.len() {
        let k = byte_cut(d, 0);
        assert(s.subrange(p, p + d.len()) == d);
        assert(s =~= s.take(p) + d.take(k) + s.skip(p + k)) by {
            assert forall|i: int| p <= i < p + k implies s[i] == d.take(k)[i - p] by {
                assert(s.subrange(p, p + d.len())[i - p] == s[i]);
            }
        }
        assert(s.take(p).len() == p);
    }
    if forall|i: int| 0 <= i < d.len() ==> (d[i] as u32) < 0x80 {
        lemma_ascii_cut(d, 0);
    }
}

proof fn lemma_ascii_utf8_len(d: Seq<char>)
    requires
        forall|i: int| 0 <= i < d.len() ==> (d[i] as u32) < 0x80,
    ensures
        utf8_len(d) == d.len(),
    decreases d.len(),
{
    if d.len() > 0 {
        let r = d.drop_last();
        assert forall|i: int| 0 <= i < r.len() implies (r[i] as u32) < 0x80 by {
            assert(r[i] == d[i]);
        }
        lemma_ascii_utf8_len(r);
    }
}

proof fn lemma_ascii_cut(d: Seq<char>, from: int)
    requires
        0 <= from <= d.len(),
        forall|i: int| 0 <= i < d.len() ==> (d[i] as u32) < 0x80,
    ensures
        byte_cut(d, from) == d.len(),
    decreases d.len() - from,
{
    let t = d.take(from);
    assert forall|i: int| 0 <= i < t.len() implies (t[i] as u32) < 0x80 by {
        assert(t[i] == d[i]);
    }
    lemma_ascii_utf8_len(t);
    if from < d.len() {
        lemma_ascii_cut(d, from + 1);
    } else {
        assert(d.take(from) =~= d);
    }
}

proof fn lemma_lines_scan(s: Seq<char>, start: int, i: int)
    requires
        0 <= start <= i <= s.len(),
        forall|j: int| start <= j < i ==> s[j] != '\n',
    ensures
        forall|k: int| 0 <= k < lines_scan(s, start, i).len() ==> !(#[trigger] lines_scan(s, start, i)[k]).contains('\n'),
        (forall|j: int| i <= j < s.len() ==> s[j] != '\n') && start < s.len()
            ==> lines_scan(s, start, i) == seq![s.subrange(start, s.len() as int)],
    decreases s.len() - i,
{
    let ls = lines_scan(s, start, i);
    if i >= s.len() {
        if start < s.len() {
            let w = s.subrange(start, s.len() as int);
            assert forall|j: int| 0 <= j < w.len() implies w[j] != '\n' by {
                assert(w[j] == s[start + j]);
            }
            assert(!w.contains('\n'));
            assert(ls == seq![w]);
            assert forall|k: int| 0 <= k < ls.len() implies !(#[trigger] ls[k]).contains('\n') by {
                assert(ls[k] == w);
            }
        }
    } else if s[i] == '\n' {
        lemma_lines_scan(s, i + 1, i + 1);
        let l = strip_cr(s.subrange(start, i));
        assert forall|j: int| 0 <= j < l.len() implies l[j] != '\n' by {
            assert(l[j] == s.subrange(start, i)[j]);
            assert(s.subrange(start, i)[j] == s[start + j]);
        }
        assert(!l.contains('\n'));
        assert(ls == seq![l] + lines_scan(s, i + 1, i + 1));
        assert forall|k: int| 0 <= k < ls.len() implies !(#[trigger] ls[k]).contains('\n') by {
            if k > 0 {
                assert(ls[k] == lines_scan(s, i + 1, i + 1)[k - 1]);
            } else {
                assert(ls[0] == l);
            }
        }
    } else {
        lemma_lines_scan(s, start, i + 1);
        assert(ls == lines_scan(s, start, i + 1));
    }
}

/// No line holds a newline, and a non-empty text without a newline is one
/// line, the text itself.
pub proof fn lemma_lines_of(s: Seq<char>)
    ensures
        forall|k: int| 0 <= k < lines_of(s).len() ==> !(#[trigger] lines_of(s)[k]).contains('\n'),
        s.len() > 0 && !s.contains('\n') ==> lines_of(s) == seq![s],
{
    lemma_lines_scan(s, 0, 0);
    assert(s.subrange(0, s.len() as int) =~= s);
}

}
