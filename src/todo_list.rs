//! Items, the store that owns them, and search over it.
use vstd::prelude::*;

use itertools::{EitherOrBoth, Itertools};

use crate::fuzzy::{contains_id, is_subsequence, FuzzyIndex};
use crate::query::{SearchParams, SearchWord};

verus! {

/// The identity of an item: its position in the store.
#[derive(Debug, Clone, Copy, PartialEq, Eq, Structural, Hash)]
pub struct Index(pub u64);

impl Index {
    pub fn new(i: u64) -> (r: Index)
        ensures
            r.0 == i,
    {
        Index(i)
    }

    pub fn value(&self) -> (r: u64)
        ensures
            r == self.0,
    {
        self.0
    }
}

/// The words of `s`, as `str::split_whitespace` separates them.
pub uninterp spec fn whitespace_words(s: Seq<char>) -> Seq<Seq<char>>;

/// The character sequences that a list of strings holds.
pub open spec fn string_views(v: Seq<String>) -> Seq<Seq<char>> {
    v.map_values(|s: String| s@)
}

/// Relies on `str::split_whitespace`: the whitespace-separated words of `s`,
/// in order, each copied into a `String`.
#[verifier::external_body]
fn split_words(s: &str) -> (r: Vec<String>)
    ensures
        string_views(r@) == whitespace_words(s@),
{
    s.split_whitespace().map(|w| w.to_owned()).collect()
}

/// The free text of an item.
#[derive(Debug, Clone, PartialEq, Eq)]
pub struct Description(pub String);

impl Description {
    pub fn new(s: &str) -> (r: Description)
        ensures
            r.0@ == s@,
    {
        Description(s.to_owned())
    }

    pub fn value(&self) -> (r: &str)
        ensures
            r@ == self.0@,
    {
        self.0.as_str()
    }

    pub fn from_strings(ss: Vec<&str>) -> (r: Vec<Description>)
        ensures
            r@.len() == ss@.len(),
            forall|i: int| 0 <= i < ss@.len() ==> (#[trigger] r@[i]).0@ == ss@[i]@,
    {
        let mut r: Vec<Description> = Vec::new();
        for i in 0..ss.len()
            invariant
                r@.len() == i,
                forall|j: int| 0 <= j < i ==> (#[trigger] r@[j]).0@ == ss@[j]@,
        {
            r.push(Description::new(ss[i]));
        }
        r
    }

    /// The whitespace-separated words of the description, in order.
    pub fn get_words(&self) -> (r: Vec<String>)
        ensures
            string_views(r@) == whitespace_words(self.0@),
    {
        split_words(self.0.as_str())
    }
}

/// A short label attached to an item.
#[derive(Debug, Clone, PartialEq, Eq, Hash)]
pub struct Tag(pub String);

impl Tag {
    pub fn new(s: &str) -> (r: Tag)
        ensures
            r.0@ == s@,
    {
        Tag(s.to_owned())
    }

    pub fn value(&self) -> (r: &str)
        ensures
            r@ == self.0@,
    {
        self.0.as_str()
    }

    pub fn from_strings(ss: Vec<&str>) -> (r: Vec<Tag>)
        ensures
            r@.len() == ss@.len(),
            forall|i: int| 0 <= i < ss@.len() ==> (#[trigger] r@[i]).0@ == ss@[i]@,
    {
        let mut r: Vec<Tag> = Vec::new();
        for i in 0..ss.len()
            invariant
                r@.len() == i,
                forall|j: int| 0 <= j < i ==> (#[trigger] r@[j]).0@ == ss@[j]@,
        {
            r.push(Tag::new(ss[i]));
        }
        r
    }
}

/// The texts that a list of tags holds.
pub open spec fn tag_views(tags: Seq<Tag>) -> Seq<Seq<char>> {
    tags.map_values(|t: Tag| t.0@)
}

/// What an item holds, as plain values.
pub struct ItemModel {
    pub index: u64,
    pub description: Seq<char>,
    pub tags: Seq<Seq<char>>,
    pub done: bool,
}

#[derive(Debug, Clone, PartialEq, Eq)]
pub struct TodoItem {
    pub index: Index,
    pub description: Description,
    pub tags: Vec<Tag>,
    pub done: bool,
}

impl View for TodoItem {
    type V = ItemModel;

    open spec fn view(&self) -> ItemModel {
        ItemModel {
            index: self.index.0,
            description: self.description.0@,
            tags: tag_views(self.tags@),
            done: self.done,
        }
    }
}

impl TodoItem {
    pub fn new(index: Index, description: Description, tags: Vec<Tag>, done: bool) -> (r: TodoItem)
        ensures
            r.index == index,
            r.description == description,
            r.tags == tags,
            r.done == done,
    {
        TodoItem { index, description, tags, done }
    }

    /// A copy of the item.
    pub fn duplicate(&self) -> (r: TodoItem)
        ensures
            r@ == self@,
    {
        let mut tags: Vec<Tag> = Vec::new();
        for i in 0..self.tags.len()
            invariant
                tags@.len() == i,
                forall|j: int| 0 <= j < i ==> (#[trigger] tags@[j]).0@ == self.tags@[j].0@,
        {
            tags.push(Tag(self.tags[i].0.clone()));
        }
        assert(tag_views(tags@) =~= tag_views(self.tags@));
        TodoItem {
            index: self.index,
            description: Description(self.description.0.clone()),
            tags,
            done: self.done,
        }
    }
}

/// `q` is a subsequence of one of `tokens`.
pub open spec fn any_subsequence(q: Seq<char>, tokens: Seq<Seq<char>>) -> bool {
    exists|w: int| 0 <= w < tokens.len() && #[trigger] is_subsequence(q, tokens[w])
}

/// The fuzzy index over description words.
pub struct DescriptionMap(pub FuzzyIndex);

impl DescriptionMap {
    pub fn inner(&self) -> (r: &FuzzyIndex)
        ensures
            *r == self.0,
    {
        &self.0
    }

    /// Registers the word `s` under `idx`: from then on every subsequence
    /// of `s` finds `idx`.
    pub fn generate_subsequences_and_upsert(&mut self, idx: Index, s: String)
        ensures
            final(self).0@ == old(self).0@.push((idx.0, s@)),
    {
        self.0.insert(idx, s.as_str());
    }
}

/// The fuzzy index over tags.
pub struct TagMap(pub FuzzyIndex);

impl TagMap {
    pub fn inner(&self) -> (r: &FuzzyIndex)
        ensures
            *r == self.0,
    {
        &self.0
    }

    /// Registers the tag `s` under `idx`: from then on every subsequence
    /// of `s` finds `idx`.
    pub fn generate_subsequences_and_upsert(&mut self, idx: Index, s: String)
        ensures
            final(self).0@ == old(self).0@.push((idx.0, s@)),
    {
        self.0.insert(idx, s.as_str());
    }
}

/// The store: items in order of identity, and the two fuzzy indexes.
pub struct TodoList {
    top_index: Index,
    items: Vec<TodoItem>,
    desc_map: DescriptionMap,
    tag_map: TagMap,
    words: Ghost<Seq<Seq<Seq<char>>>>,
}

impl View for TodoList {
    type V = Seq<ItemModel>;

    /// The items, position `i` holding the item of identity `i`.
    closed spec fn view(&self) -> Seq<ItemModel> {
        self.items@.map_values(|it: TodoItem| it@)
    }
}

/// `index` names an item of `items` that is not done.
pub open spec fn is_active(items: Seq<ItemModel>, index: int) -> bool {
    0 <= index < items.len() && !items[index].done
}

impl TodoList {
    /// The words indexed for each item, by identity.
    pub closed spec fn indexed_words(&self) -> Seq<Seq<Seq<char>>> {
        self.words@
    }

    pub closed spec fn wf(&self) -> bool {
        &&& self.top_index.0 == self.items@.len()
        &&& self.words@.len() == self.items@.len()
        &&& forall|i: int| 0 <= i < self.items@.len() ==> (#[trigger] self.items@[i]).index.0 == i
        &&& self.desc_map.0.wf()
        &&& self.tag_map.0.wf()
        &&& forall|k: int|
            0 <= k < self.desc_map.0@.len() ==> (#[trigger] self.desc_map.0@[k]).0 < self.items@.len()
        &&& forall|k: int|
            0 <= k < self.tag_map.0@.len() ==> (#[trigger] self.tag_map.0@[k]).0 < self.items@.len()
        &&& forall|q: Seq<char>, id: u64| #[trigger]
            self.desc_map.0.matches(q, id) <==> (id < self.items@.len() && any_subsequence(
                q,
                self.words@[id as int],
            ))
        &&& forall|q: Seq<char>, id: u64| #[trigger]
            self.tag_map.0.matches(q, id) <==> (id < self.items@.len() && any_subsequence(
                q,
                tag_views(self.items@[id as int].tags@),
            ))
    }

    pub fn new() -> (r: TodoList)
        ensures
            r.wf(),
            r@ == Seq::<ItemModel>::empty(),
            r.indexed_words() == Seq::<Seq<Seq<char>>>::empty(),
    {
        let r = TodoList {
            top_index: Index::new(0),
            items: Vec::new(),
            desc_map: DescriptionMap(FuzzyIndex::new()),
            tag_map: TagMap(FuzzyIndex::new()),
            words: Ghost(Seq::empty()),
        };
        assert(r@ =~= Seq::<ItemModel>::empty());
        r
    }

    /// Adds an item with the next identity, indexing `words` as its
    /// description words and its tags as they are.
    pub fn push_words(&mut self, description: Description, words: Vec<String>, tags: Vec<Tag>) -> (r: TodoItem)
        requires
            old(self).wf(),
            old(self)@.len() < u64::MAX,
        ensures
            final(self).wf(),
            r@ == (ItemModel {
                index: old(self)@.len() as u64,
                description: description.0@,
                tags: tag_views(tags@),
                done: false,
            }),
            final(self)@ == old(self)@.push(r@),
            final(self).indexed_words() == old(self).indexed_words().push(string_views(words@)),
    {
        let id = self.top_index;
        let ghost n = self.items@.len();
        let ghost ws = string_views(words@);
        let ghost tv = tag_views(tags@);
        for j in 0..words.len()
            invariant
                self.top_index == id,
                id.0 == n,
                self.items@ == old(self).items@,
                self.tag_map == old(self).tag_map,
                self.words == old(self).words,
                ws == string_views(words@),
                n == self.items@.len(),
                self.words@.len() == n,
                self.desc_map.0.wf(),
                forall|k: int|
                    0 <= k < self.desc_map.0@.len() ==> (#[trigger] self.desc_map.0@[k]).0 <= n,
                forall|q: Seq<char>, i: u64| #[trigger]
                    self.desc_map.0.matches(q, i) <==> ((i < n && any_subsequence(q, self.words@[i as int]))
                        || (i == n && any_subsequence(q, ws.take(j as int)))),
        {
            let ghost before = self.desc_map.0;
            let w = words[j].clone();
            self.desc_map.generate_subsequences_and_upsert(id, w);
            proof {
                let after = self.desc_map.0;
                assert forall|q: Seq<char>, i: u64| #[trigger]
                    after.matches(q, i) <==> ((i < n && any_subsequence(q, self.words@[i as int]))
                        || (i == n && any_subsequence(q, ws.take(j + 1)))) by {
                    let len = before@.len() as int;
                    assert(after@[len] == (n as u64, ws[j as int]));
                    if after.matches(q, i) {
                        let k = choose|k: int| 0 <= k < after@.len() && after@[k].0 == i && #[trigger] is_subsequence(q, after@[k].1);
                        if k < len {
                            assert(after@[k] == before@[k]);
                            assert(before.matches_within(q, i, len));
                            assert(before.matches(q, i));
                            if i == n {
                                let w = choose|w: int| 0 <= w < j && #[trigger] is_subsequence(q, ws.take(j as int)[w]);
                                assert(ws.take(j + 1)[w] == ws.take(j as int)[w]);
                            }
                        } else {
                            assert(ws.take(j + 1)[j as int] == ws[j as int]);
                        }
                    }
                    if i < n && any_subsequence(q, self.words@[i as int]) {
                        assert(before.matches(q, i));
                        let k = choose|k: int| 0 <= k < before@.len() && before@[k].0 == i && #[trigger] is_subsequence(q, before@[k].1);
                        assert(after@[k] == before@[k]);
                        assert(after.matches_within(q, i, after@.len() as int));
                    }
                    if i == n && any_subsequence(q, ws.take(j + 1)) {
                        let w = choose|w: int| 0 <= w < j + 1 && #[trigger] is_subsequence(q, ws.take(j + 1)[w]);
                        if w < j {
                            assert(ws.take(j as int)[w] == ws.take(j + 1)[w]);
                            assert(before.matches(q, i));
                            let k = choose|k: int| 0 <= k < before@.len() && before@[k].0 == i && #[trigger] is_subsequence(q, before@[k].1);
                            assert(after@[k] == before@[k]);
                            assert(after.matches_within(q, i, after@.len() as int));
                        } else {
                            assert(is_subsequence(q, after@[len].1));
                            assert(after.matches_within(q, i, after@.len() as int));
                        }
                    }
                }
            }
        }
        assert(ws.take(words@.len() as int) =~= ws);
        let ghost tv = tag_views(tags@);
        for j in 0..tags.len()
            invariant
                self.top_index == id,
                id.0 == n,
                self.items@ == old(self).items@,
                self.words == old(self).words,
                tv == tag_views(tags@),
                n == self.items@.len(),
                self.words@.len() == n,
                self.tag_map.0.wf(),
                self.desc_map.0.wf(),
                forall|k: int|
                    0 <= k < self.tag_map.0@.len() ==> (#[trigger] self.tag_map.0@[k]).0 <= n,
                forall|k: int|
                    0 <= k < self.desc_map.0@.len() ==> (#[trigger] self.desc_map.0@[k]).0 <= n,
                forall|q: Seq<char>, i: u64| #[trigger]
                    self.desc_map.0.matches(q, i) <==> ((i < n && any_subsequence(q, self.words@[i as int]))
                        || (i == n && any_subsequence(q, ws))),
                forall|q: Seq<char>, i: u64| #[trigger]
                    self.tag_map.0.matches(q, i) <==> ((i < n && any_subsequence(q, tag_views(self.items@[i as int].tags@)))
                        || (i == n && any_subsequence(q, tv.take(j as int)))),
        {
            let ghost before = self.tag_map.0;
            let t = tags[j].0.clone();
            self.tag_map.generate_subsequences_and_upsert(id, t);
            proof {
                let after = self.tag_map.0;
                assert forall|q: Seq<char>, i: u64| #[trigger]
                    after.matches(q, i) <==> ((i < n && any_subsequence(q, tag_views(self.items@[i as int].tags@)))
                        || (i == n && any_subsequence(q, tv.take(j + 1)))) by {
                    let len = before@.len() as int;
                    assert(after@[len] == (n as u64, tv[j as int]));
                    if after.matches(q, i) {
                        let k = choose|k: int| 0 <= k < after@.len() && after@[k].0 == i && #[trigger] is_subsequence(q, after@[k].1);
                        if k < len {
                            assert(after@[k] == before@[k]);
                            assert(before.matches_within(q, i, len));
                            assert(before.matches(q, i));
                            if i == n {
                                let w = choose|w: int| 0 <= w < j && #[trigger] is_subsequence(q, tv.take(j as int)[w]);
                                assert(tv.take(j + 1)[w] == tv.take(j as int)[w]);
                            }
                        } else {
                            assert(tv.take(j + 1)[j as int] == tv[j as int]);
                        }
                    }
                    if i < n && any_subsequence(q, tag_views(self.items@[i as int].tags@)) {
                        assert(before.matches(q, i));
                        let k = choose|k: int| 0 <= k < before@.len() && before@[k].0 == i && #[trigger] is_subsequence(q, before@[k].1);
                        assert(after@[k] == before@[k]);
                        assert(after.matches_within(q, i, after@.len() as int));
                    }
                    if i == n && any_subsequence(q, tv.take(j + 1)) {
                        let w = choose|w: int| 0 <= w < j + 1 && #[trigger] is_subsequence(q, tv.take(j + 1)[w]);
                        if w < j {
                            assert(tv.take(j as int)[w] == tv.take(j + 1)[w]);
                            assert(before.matches(q, i));
                            let k = choose|k: int| 0 <= k < before@.len() && before@[k].0 == i && #[trigger] is_subsequence(q, before@[k].1);
                            assert(after@[k] == before@[k]);
                            assert(after.matches_within(q, i, after@.len() as int));
                        } else {
                            assert(is_subsequence(q, after@[len].1));
                            assert(after.matches_within(q, i, after@.len() as int));
                        }
                    }
                }
            }
        }
        assert(tv.take(tags@.len() as int) =~= tv);
        let item = TodoItem::new(id, description, tags, false);
        let r = item.duplicate();
        self.items.push(item);
        self.top_index = Index(id.0 + 1);
        self.words = Ghost(self.words@.push(ws));
        proof {
            assert(self@ =~= old(self)@.push(r@));
            assert forall|i: int| 0 <= i < self.items@.len() implies (#[trigger] self.items@[i]).index.0 == i by {
                if i < n {
                    assert(self.items@[i] == old(self).items@[i]);
                }
            }
            assert forall|q: Seq<char>, i: u64| #[trigger]
                self.tag_map.0.matches(q, i) <==> (i < self.items@.len() && any_subsequence(
                    q,
                    tag_views(self.items@[i as int].tags@),
                )) by {
                if i < n {
                    assert(self.items@[i as int] == old(self).items@[i as int]);
                }
            }
        }
        r
    }
}


/// The text of an optional word term.
pub open spec fn word_view(w: Option<SearchWord>) -> Option<Seq<char>> {
    match w {
        Some(w) => Some(w.0@),
        None => None,
    }
}

/// The text of an optional tag term.
pub open spec fn tag_view(t: Option<Tag>) -> Option<Seq<char>> {
    match t {
        Some(t) => Some(t.0@),
        None => None,
    }
}

/// The item of identity `id` is active and matches the word term through
/// one of its indexed words, or the tag term through one of its tags.
pub open spec fn pair_hit(
    items: Seq<ItemModel>,
    words: Seq<Seq<Seq<char>>>,
    w: Option<Seq<char>>,
    t: Option<Seq<char>>,
    id: int,
) -> bool {
    is_active(items, id) && ((w is Some && any_subsequence(w->0, words[id])) || (t is Some
        && any_subsequence(t->0, items[id].tags)))
}

/// The word term at position `k`, if the word list reaches that far.
pub open spec fn word_term(sw: Seq<SearchWord>, k: int) -> Option<Seq<char>> {
    if 0 <= k < sw.len() {
        Some(sw[k].0@)
    } else {
        None
    }
}

/// The tag term at position `k`, if the tag list reaches that far.
pub open spec fn tag_term(st: Seq<Tag>, k: int) -> Option<Seq<char>> {
    if 0 <= k < st.len() {
        Some(st[k].0@)
    } else {
        None
    }
}

/// The number of pair positions: the length of the longer list.
pub open spec fn positions(sw: Seq<SearchWord>, st: Seq<Tag>) -> nat {
    if sw.len() >= st.len() {
        sw.len()
    } else {
        st.len()
    }
}

/// At how many of the first `n` pair positions the item `id` is found.
pub open spec fn hits(
    items: Seq<ItemModel>,
    words: Seq<Seq<Seq<char>>>,
    sw: Seq<SearchWord>,
    st: Seq<Tag>,
    id: int,
    n: nat,
) -> nat
    decreases n,
{
    if n == 0 {
        0
    } else {
        hits(items, words, sw, st, id, (n - 1) as nat) + if pair_hit(
            items,
            words,
            word_term(sw, n - 1),
            tag_term(st, n - 1),
            id,
        ) {
            1nat
        } else {
            0nat
        }
    }
}

/// The items of identity `j` and above, highest identity first, each
/// repeated once for every pair position at which it is found.
pub open spec fn search_from(
    items: Seq<ItemModel>,
    words: Seq<Seq<Seq<char>>>,
    sw: Seq<SearchWord>,
    st: Seq<Tag>,
    j: int,
) -> Seq<ItemModel>
    decreases items.len() - j,
{
    if j < 0 || j >= items.len() {
        Seq::empty()
    } else {
        search_from(items, words, sw, st, j + 1) + Seq::new(
            hits(items, words, sw, st, j, positions(sw, st)),
            |_i: int| items[j],
        )
    }
}

/// What a search for the terms `sw` and `st` finds among `items`.
pub open spec fn search_result(
    items: Seq<ItemModel>,
    words: Seq<Seq<Seq<char>>>,
    sw: Seq<SearchWord>,
    st: Seq<Tag>,
) -> Seq<ItemModel> {
    search_from(items, words, sw, st, 0)
}

/// The items that a list of references points at.
pub open spec fn item_views(r: Seq<&TodoItem>) -> Seq<ItemModel> {
    r.map_values(|x: &TodoItem| x@)
}

/// `r` holds an item of identity `id`.
pub open spec fn contains_item(r: Seq<&TodoItem>, id: int) -> bool {
    exists|m: int| 0 <= m < r.len() && (#[trigger] r[m]).index.0 == id
}

/// The text of an optional borrowed word term.
pub open spec fn word_ref_view(w: Option<&SearchWord>) -> Option<Seq<char>> {
    match w {
        Some(w) => Some(w.0@),
        None => None,
    }
}

/// The text of an optional borrowed tag term.
pub open spec fn tag_ref_view(t: Option<&Tag>) -> Option<Seq<char>> {
    match t {
        Some(t) => Some(t.0@),
        None => None,
    }
}

/// Relies on itertools' `Itertools::zip_longest`: position `k` pairs the
/// `k`-th word with the `k`-th tag, the shorter list giving nothing past its
/// end, for as many positions as the longer list has.
#[verifier::external_body]
fn pair_terms<'a>(words: &'a Vec<SearchWord>, tags: &'a Vec<Tag>) -> (r: Vec<
    (Option<&'a SearchWord>, Option<&'a Tag>),
>)
    ensures
        r@.len() == positions(words@, tags@),
        forall|k: int|
            0 <= k < r@.len() ==> word_ref_view((#[trigger] r@[k]).0) == word_term(words@, k)
                && tag_ref_view(r@[k].1) == tag_term(tags@, k),
{
    words.iter().zip_longest(tags.iter()).map(|p| match p {
        EitherOrBoth::Both(w, t) => (Some(w), Some(t)),
        EitherOrBoth::Left(w) => (Some(w), None),
        EitherOrBoth::Right(t) => (None, Some(t)),
    }).collect()
}

/// Sets `marks[i]` for each identity `i` in `ids`.
fn mark_all(marks: &mut Vec<bool>, ids: &Vec<Index>)
    requires
        forall|m: int| 0 <= m < ids@.len() ==> (#[trigger] ids@[m]).0 < old(marks)@.len(),
    ensures
        final(marks)@.len() == old(marks)@.len(),
        forall|i: int|
            0 <= i < old(marks)@.len() ==> #[trigger] final(marks)@[i] == (old(marks)@[i]
                || contains_id(ids@, i)),
{
    let ghost m0 = marks@;
    let len = marks.len();
    for m in 0..ids.len()
        invariant
            marks@.len() == m0.len(),
            len == m0.len(),
            forall|m: int| 0 <= m < ids@.len() ==> (#[trigger] ids@[m]).0 < m0.len(),
            forall|i: int|
                0 <= i < m0.len() ==> #[trigger] marks@[i] == (m0[i] || contains_id(
                    ids@.take(m as int),
                    i,
                )),
    {
        assert(ids@[m as int].0 < m0.len());
        let i = ids[m].0 as usize;
        assert(i == ids@[m as int].0);
        marks.set(i, true);
        proof {
            assert forall|x: int| 0 <= x < m0.len() implies #[trigger] marks@[x] == (m0[x]
                || contains_id(ids@.take(m + 1), x)) by {
                let t0 = ids@.take(m as int);
                let t1 = ids@.take(m + 1);
                assert(t1[m as int] == ids@[m as int]);
                if contains_id(t0, x) {
                    let w = choose|w: int| 0 <= w < t0.len() && (#[trigger] t0[w]).0 == x;
                    assert(t1[w] == t0[w]);
                }
                if contains_id(t1, x) && x != i {
                    let w = choose|w: int| 0 <= w < t1.len() && (#[trigger] t1[w]).0 == x;
                    if w == m {
                        assert(ids@[m as int].0 == x);
                        assert(x == i);
                    }
                    assert(t0[w] == t1[w]);
                }
                if x == i {
                    assert(t1[m as int].0 == x);
                    assert(contains_id(t1, x));
                }
            }
        }
    }
    assert(ids@.take(ids@.len() as int) =~= ids@);
}

impl TodoList {
    /// Identities are storage positions.
    pub proof fn lemma_identity_is_position(&self)
        requires
            self.wf(),
        ensures
            forall|i: int| 0 <= i < self@.len() ==> (#[trigger] self@[i]).index == i,
    {
    }

    /// The number of items.
    pub fn len(&self) -> (r: usize)
        ensures
            r == self@.len(),
    {
        self.items.len()
    }

    /// The item of identity `idx` if it exists and is not done.
    pub fn get_not_done_item_by_index(&self, idx: &Index) -> (r: Option<&TodoItem>)
        requires
            self.wf(),
        ensures
            is_active(self@, idx.0 as int) ==> (r matches Some(item) && item@ == self@[idx.0 as int]),
            !is_active(self@, idx.0 as int) ==> r is None,
    {
        if idx.0 < self.items.len() as u64 {
            let item = &self.items[idx.0 as usize];
            if !item.done {
                Some(item)
            } else {
                None
            }
        } else {
            None
        }
    }

    /// The active items that match the word term through the description
    /// index or the tag term through the tag index, by increasing identity.
    pub fn search_word_and_tag(&self, w: Option<SearchWord>, t: Option<Tag>) -> (r: Vec<&TodoItem>)
        requires
            self.wf(),
        ensures
            forall|i: int, j: int|
                0 <= i < j < r@.len() ==> (#[trigger] r@[i]).index.0 < (#[trigger] r@[j]).index.0,
            forall|m: int|
                0 <= m < r@.len() ==> (#[trigger] r@[m]).index.0 < self@.len() && r@[m]@ == self@[r@[m].index.0 as int],
            forall|id: int|
                #[trigger] contains_item(r@, id) <==> pair_hit(
                    self@,
                    self.indexed_words(),
                    word_view(w),
                    tag_view(t),
                    id,
                ),
    {
        let n = self.items.len();
        let mut marks: Vec<bool> = Vec::new();
        for i in 0..n
            invariant
                marks@.len() == i,
                forall|j: int| 0 <= j < i ==> !(#[trigger] marks@[j]),
        {
            marks.push(false);
        }
        let ghost m0 = marks@;
        match &w {
            Some(w) => {
                let ids = self.desc_map.0.lookup(w.0.as_str());
                proof {
                    assert forall|m: int| 0 <= m < ids@.len() implies (#[trigger] ids@[m]).0 < marks@.len() by {
                        assert(contains_id(ids@, ids@[m].0 as int));
                        assert(self.desc_map.0.matches(w.0@, ids@[m].0));
                    }
                }
                mark_all(&mut marks, &ids);
            },
            None => {},
        }
        let ghost m1 = marks@;
        match &t {
            Some(t) => {
                let ids = self.tag_map.0.lookup(t.0.as_str());
                proof {
                    assert forall|m: int| 0 <= m < ids@.len() implies (#[trigger] ids@[m]).0 < marks@.len() by {
                        assert(contains_id(ids@, ids@[m].0 as int));
                        assert(self.tag_map.0.matches(t.0@, ids@[m].0));
                    }
                }
                mark_all(&mut marks, &ids);
            },
            None => {},
        }
        proof {
            assert forall|i: int| 0 <= i < n implies #[trigger] marks@[i] == ((w is Some
                && self.desc_map.0.matches(word_view(w)->0, i as u64)) || (t is Some
                && self.tag_map.0.matches(tag_view(t)->0, i as u64))) by {
                assert(m1[i] == (w is Some && self.desc_map.0.matches(word_view(w)->0, i as u64)));
            }
        }
        let mut r: Vec<&TodoItem> = Vec::new();
        for i in 0..n
            invariant
                n == self@.len(),
                self.wf(),
                marks@.len() == n,
                forall|i: int| 0 <= i < n ==> #[trigger] marks@[i] == ((w is Some
                    && self.desc_map.0.matches(word_view(w)->0, i as u64)) || (t is Some
                    && self.tag_map.0.matches(tag_view(t)->0, i as u64))),
                forall|a: int, b: int|
                    0 <= a < b < r@.len() ==> (#[trigger] r@[a]).index.0 < (#[trigger] r@[b]).index.0,
                forall|m: int|
                    0 <= m < r@.len() ==> (#[trigger] r@[m]).index.0 < i && r@[m]@ == self@[r@[m].index.0 as int],
                forall|id: int|
                    #[trigger] contains_item(r@, id) <==> (id < i && pair_hit(
                        self@,
                        self.indexed_words(),
                        word_view(w),
                        tag_view(t),
                        id,
                    )),
        {
            let ghost r0 = r@;
            if marks[i] {
                match self.get_not_done_item_by_index(&Index(i as u64)) {
                    Some(item) => {
                        r.push(item);
                    },
                    None => {},
                }
            }
            proof {
                self.lemma_identity_is_position();
                assert forall|id: int|
                    #[trigger] contains_item(r@, id) <==> (id < i + 1 && pair_hit(
                        self@,
                        self.indexed_words(),
                        word_view(w),
                        tag_view(t),
                        id,
                    )) by {
                    if contains_item(r0, id) {
                        let m = choose|m: int| 0 <= m < r0.len() && (#[trigger] r0[m]).index.0 == id;
                        assert(r@[m] == r0[m]);
                    }
                    if contains_item(r@, id) && !contains_item(r0, id) {
                        let m = choose|m: int| 0 <= m < r@.len() && (#[trigger] r@[m]).index.0 == id;
                        if m < r0.len() {
                            assert(r@[m] == r0[m]);
                        }
                    }
                    if id == i && pair_hit(self@, self.indexed_words(), word_view(w), tag_view(t), id) {
                        assert(r@[r@.len() - 1].index.0 == id);
                    }
                }
            }
        }
        r
    }

    /// Adds an item with the next identity; its description words and tags
    /// become searchable.
    pub fn push(&mut self, description: Description, tags: Vec<Tag>) -> (r: TodoItem)
        requires
            old(self).wf(),
            old(self)@.len() < u64::MAX,
        ensures
            final(self).wf(),
            r@ == (ItemModel {
                index: old(self)@.len() as u64,
                description: description.0@,
                tags: tag_views(tags@),
                done: false,
            }),
            final(self)@ == old(self)@.push(r@),
            final(self).indexed_words() == old(self).indexed_words().push(
                whitespace_words(description.0@),
            ),
    {
        let words = description.get_words();
        self.push_words(description, words, tags)
    }

    /// Marks the item of identity `idx` done. Absent when no item has that
    /// identity, and then nothing changes.
    pub fn done_with_index(&mut self, idx: Index) -> (r: Option<Index>)
        requires
            old(self).wf(),
        ensures
            final(self).wf(),
            final(self).indexed_words() == old(self).indexed_words(),
            idx.0 < old(self)@.len() ==> r == Some(idx) && final(self)@ == old(self)@.update(
                idx.0 as int,
                ItemModel { done: true, ..old(self)@[idx.0 as int] },
            ),
            idx.0 >= old(self)@.len() ==> r is None && final(self)@ == old(self)@,
    {
        if idx.0 < self.items.len() as u64 {
            let i = idx.0 as usize;
            self.items[i].done = true;
            proof {
                assert(self@ =~= old(self)@.update(
                    idx.0 as int,
                    ItemModel { done: true, ..old(self)@[idx.0 as int] },
                ));
                assert forall|j: int| 0 <= j < self.items@.len() implies (#[trigger] self.items@[j]).index.0 == j by {
                    if j != i {
                        assert(self.items@[j] == old(self).items@[j]);
                    }
                }
                assert forall|q: Seq<char>, id: u64| #[trigger]
                    self.tag_map.0.matches(q, id) <==> (id < self.items@.len() && any_subsequence(
                        q,
                        tag_views(self.items@[id as int].tags@),
                    )) by {
                    if id < self.items@.len() {
                        assert(self.items@[id as int].tags == old(self).items@[id as int].tags);
                    }
                }
            }
            Some(self.items[i].index)
        } else {
            None
        }
    }

    /// Runs one search: at each pair position the word term and the tag term
    /// select the union of what they match among active items; the items
    /// found at every position come out together, highest identity first,
    /// an item found at several positions once for each.
    pub fn search<'a>(&'a self, sp: SearchParams) -> (r: Vec<&'a TodoItem>)
        requires
            self.wf(),
        ensures
            item_views(r@) == search_result(self@, self.indexed_words(), sp.words@, sp.tags@),
    {
        let ghost items = self@;
        let ghost iw = self.indexed_words();
        let ghost sw = sp.words@;
        let ghost st = sp.tags@;
        let n = self.items.len();
        let mut counts: Vec<usize> = Vec::new();
        for i in 0..n
            invariant
                counts@.len() == i,
                forall|j: int| 0 <= j < i ==> (#[trigger] counts@[j]) == 0,
        {
            counts.push(0);
        }
        let pairs = pair_terms(&sp.words, &sp.tags);
        let np = pairs.len();
        for k in 0..np
            invariant
                np == pairs@.len(),
                self.wf(),
                items == self@,
                iw == self.indexed_words(),
                sw == sp.words@,
                st == sp.tags@,
                n == items.len(),
                counts@.len() == n,
                pairs@.len() == positions(sw, st),
                forall|k: int|
                    0 <= k < pairs@.len() ==> word_ref_view((#[trigger] pairs@[k]).0) == word_term(sw, k)
                        && tag_ref_view(pairs@[k].1) == tag_term(st, k),
                forall|j: int| 0 <= j < n ==> (#[trigger] counts@[j]) == hits(items, iw, sw, st, j, k as nat),
        {
            let w = match pairs[k].0 {
                Some(w) => Some(SearchWord(w.0.clone())),
                None => None,
            };
            let t = match pairs[k].1 {
                Some(t) => Some(Tag(t.0.clone())),
                None => None,
            };
            assert(word_view(w) == word_term(sw, k as int));
            assert(tag_view(t) == tag_term(st, k as int));
            let found = self.search_word_and_tag(w, t);
            let ghost c0 = counts@;
            for m in 0..found.len()
                invariant
                    n == items.len(),
                    items == self@,
                    counts@.len() == n,
                    c0.len() == n,
                    k < np,
                    forall|j: int| 0 <= j < n ==> (#[trigger] c0[j]) == hits(items, iw, sw, st, j, k as nat),
                    forall|a: int, b: int|
                        0 <= a < b < found@.len() ==> (#[trigger] found@[a]).index.0 < (#[trigger] found@[b]).index.0,
                    forall|x: int| 0 <= x < found@.len() ==> (#[trigger] found@[x]).index.0 < n,
                    forall|j: int|
                        0 <= j < n ==> (#[trigger] counts@[j]) == c0[j] + if contains_item(
                            found@.take(m as int),
                            j,
                        ) {
                            1int
                        } else {
                            0int
                        },
            {
                let id = found[m].index.0 as usize;
                proof {
                    lemma_hits_bounded(items, iw, sw, st, id as int, k as nat);
                    if contains_item(found@.take(m as int), id as int) {
                        let x = choose|x: int| 0 <= x < m && (#[trigger] found@.take(m as int)[x]).index.0 == id;
                        assert(found@[x].index.0 < found@[m as int].index.0);
                    }
                }
                let c = counts[id];
                counts.set(id, c + 1);
                proof {
                    let t0 = found@.take(m as int);
                    let t1 = found@.take(m + 1);
                    assert forall|j: int| 0 <= j < n implies (#[trigger] counts@[j]) == c0[j] + if contains_item(t1, j) {
                        1int
                    } else {
                        0int
                    } by {
                        assert(t1[m as int] == found@[m as int]);
                        if contains_item(t0, j) {
                            let x = choose|x: int| 0 <= x < t0.len() && (#[trigger] t0[x]).index.0 == j;
                            assert(t1[x] == t0[x]);
                        }
                        if contains_item(t1, j) && j != id {
                            let x = choose|x: int| 0 <= x < t1.len() && (#[trigger] t1[x]).index.0 == j;
                            assert(t0[x] == t1[x]);
                        }
                        if j == id {
                            assert(contains_item(t1, j));
                        }
                    }
                }
            }
            proof {
                assert(found@.take(found@.len() as int) =~= found@);
                assert forall|j: int| 0 <= j < n implies (#[trigger] counts@[j]) == hits(items, iw, sw, st, j, (k + 1) as nat) by {
                    assert(contains_item(found@, j) == pair_hit(items, iw, word_term(sw, k as int), tag_term(st, k as int), j));
                }
            }
        }
        let ghost total = positions(sw, st);
        let mut r: Vec<&'a TodoItem> = Vec::new();
        let mut j: usize = n;
        while j > 0
            invariant
                total == positions(sw, st),
                j <= n,
                n == items.len(),
                items == self@,
                counts@.len() == n,
                forall|x: int| 0 <= x < n ==> (#[trigger] counts@[x]) == hits(items, iw, sw, st, x, total),
                item_views(r@) == search_from(items, iw, sw, st, j as int),
            decreases j,
        {
            j = j - 1;
            let c = counts[j];
            let ghost base = r@;
            for x in 0..c
                invariant
                    total == positions(sw, st),
                    j < n,
                    n == items.len(),
                    items == self@,
                    item_views(base) == search_from(items, iw, sw, st, j + 1),
                    c == hits(items, iw, sw, st, j as int, total),
                    item_views(r@) == item_views(base) + Seq::new(x as nat, |_i: int| items[j as int]),
            {
                let ghost rb = r@;
                r.push(&self.items[j]);
                proof {
                    assert(self.items@[j as int]@ == items[j as int]);
                    assert(item_views(r@) =~= item_views(rb).push(items[j as int]));
                    assert(Seq::new((x + 1) as nat, |_i: int| items[j as int]) =~= Seq::new(x as nat, |_i: int| items[j as int]).push(items[j as int]));
                    assert(item_views(r@) =~= item_views(base) + Seq::new((x + 1) as nat, |_i: int| items[j as int]));
                }
            }
            assert(search_from(items, iw, sw, st, j as int) =~= search_from(items, iw, sw, st, j + 1) + Seq::new(c as nat, |_i: int| items[j as int]));
            assert(item_views(r@) =~= search_from(items, iw, sw, st, j as int));
        }
        r
    }
}

/// An item is found at no more positions than there are.
proof fn lemma_hits_bounded(
    items: Seq<ItemModel>,
    words: Seq<Seq<Seq<char>>>,
    sw: Seq<SearchWord>,
    st: Seq<Tag>,
    id: int,
    n: nat,
)
    ensures
        hits(items, words, sw, st, id, n) <= n,
    decreases n,
{
    if n > 0 {
        lemma_hits_bounded(items, words, sw, st, id, (n - 1) as nat);
    }
}

/// Marking an item done a second time leaves the items as the first time
/// did, with the item done.
pub proof fn lemma_done_idempotent(items: Seq<ItemModel>, i: int)
    requires
        0 <= i < items.len(),
    ensures
        ({
            let once = items.update(i, ItemModel { done: true, ..items[i] });
            &&& once.update(i, ItemModel { done: true, ..once[i] }) == once
            &&& once[i].done
        }),
{
    let once = items.update(i, ItemModel { done: true, ..items[i] });
    assert(once.update(i, ItemModel { done: true, ..once[i] }) =~= once);
}

/// How many items of `r` have identity `id`.
pub open spec fn occurrences(r: Seq<ItemModel>, id: int) -> nat
    decreases r.len(),
{
    if r.len() == 0 {
        0
    } else {
        occurrences(r.drop_last(), id) + if r.last().index == id {
            1nat
        } else {
            0nat
        }
    }
}

proof fn lemma_occurrences_add(a: Seq<ItemModel>, b: Seq<ItemModel>, id: int)
    ensures
        occurrences(a + b, id) == occurrences(a, id) + occurrences(b, id),
    decreases b.len(),
{
    if b.len() == 0 {
        assert(a + b =~= a);
    } else {
        assert((a + b).drop_last() =~= a + b.drop_last());
        lemma_occurrences_add(a, b.drop_last(), id);
    }
}

proof fn lemma_occurrences_repeat(c: nat, x: ItemModel, id: int)
    ensures
        occurrences(Seq::new(c, |_i: int| x), id) == if x.index == id {
            c
        } else {
            0
        },
    decreases c,
{
    if c > 0 {
        assert(Seq::new(c, |_i: int| x).drop_last() =~= Seq::new((c - 1) as nat, |_i: int| x));
        lemma_occurrences_repeat((c - 1) as nat, x, id);
    }
}

proof fn lemma_found_is_active(
    items: Seq<ItemModel>,
    words: Seq<Seq<Seq<char>>>,
    sw: Seq<SearchWord>,
    st: Seq<Tag>,
    id: int,
    n: nat,
)
    requires
        hits(items, words, sw, st, id, n) > 0,
    ensures
        is_active(items, id),
    decreases n,
{
    if n > 0 && hits(items, words, sw, st, id, (n - 1) as nat) > 0 {
        lemma_found_is_active(items, words, sw, st, id, (n - 1) as nat);
    }
}

proof fn lemma_search_from_shape(
    items: Seq<ItemModel>,
    words: Seq<Seq<Seq<char>>>,
    sw: Seq<SearchWord>,
    st: Seq<Tag>,
    j: int,
)
    requires
        0 <= j <= items.len(),
        forall|i: int| 0 <= i < items.len() ==> (#[trigger] items[i]).index == i,
    ensures
        ({
            let r = search_from(items, words, sw, st, j);
            &&& forall|m: int|
                0 <= m < r.len() ==> j <= (#[trigger] r[m]).index < items.len() && r[m]
                    == items[r[m].index as int] && !r[m].done
            &&& forall|a: int, b: int|
                0 <= a < b < r.len() ==> (#[trigger] r[a]).index >= (#[trigger] r[b]).index
            &&& forall|id: int|
                #[trigger] occurrences(r, id) == if j <= id < items.len() {
                    hits(items, words, sw, st, id, positions(sw, st))
                } else {
                    0
                }
        }),
    decreases items.len() - j,
{
    if j < items.len() {
        lemma_search_from_shape(items, words, sw, st, j + 1);
        let rest = search_from(items, words, sw, st, j + 1);
        let h = hits(items, words, sw, st, j, positions(sw, st));
        let block = Seq::new(h, |_i: int| items[j]);
        let r = search_from(items, words, sw, st, j);
        assert(r == rest + block);
        if h > 0 {
            lemma_found_is_active(items, words, sw, st, j, positions(sw, st));
        }
        assert forall|m: int| 0 <= m < r.len() implies j <= (#[trigger] r[m]).index < items.len()
            && r[m] == items[r[m].index as int] && !r[m].done by {
            if m >= rest.len() {
                assert(r[m] == block[m - rest.len()]);
            } else {
                assert(r[m] == rest[m]);
            }
        }
        assert forall|a: int, b: int| 0 <= a < b < r.len() implies (#[trigger] r[a]).index >= (
        #[trigger] r[b]).index by {
            if b >= rest.len() {
                assert(r[b] == block[b - rest.len()]);
                if a >= rest.len() {
                    assert(r[a] == block[a - rest.len()]);
                } else {
                    assert(r[a] == rest[a]);
                }
            } else {
                assert(r[a] == rest[a]);
                assert(r[b] == rest[b]);
            }
        }
        assert forall|id: int| #[trigger] occurrences(r, id) == if j <= id < items.len() {
            hits(items, words, sw, st, id, positions(sw, st))
        } else {
            0
        } by {
            lemma_occurrences_add(rest, block, id);
            lemma_occurrences_repeat(h, items[j], id);
            assert(occurrences(rest, id) == if j + 1 <= id < items.len() {
                hits(items, words, sw, st, id, positions(sw, st))
            } else {
                0
            });
        }
    } else {
        assert(search_from(items, words, sw, st, j) =~= Seq::<ItemModel>::empty());
    }
}

/// No item that is done is ever found by a search.
pub proof fn lemma_search_excludes_done(
    items: Seq<ItemModel>,
    words: Seq<Seq<Seq<char>>>,
    sw: Seq<SearchWord>,
    st: Seq<Tag>,
)
    requires
        forall|i: int| 0 <= i < items.len() ==> (#[trigger] items[i]).index == i,
    ensures
        forall|m: int|
            0 <= m < search_result(items, words, sw, st).len() ==> !(#[trigger] search_result(
                items,
                words,
                sw,
                st,
            )[m]).done,
{
    lemma_search_from_shape(items, words, sw, st, 0);
}

/// Search results come highest identity first, each an item of the store,
/// and hold every item once for each pair position at which its word term
/// or its tag term matches it.
pub proof fn lemma_search_order_and_multiplicity(
    items: Seq<ItemModel>,
    words: Seq<Seq<Seq<char>>>,
    sw: Seq<SearchWord>,
    st: Seq<Tag>,
)
    requires
        forall|i: int| 0 <= i < items.len() ==> (#[trigger] items[i]).index == i,
    ensures
        ({
            let r = search_result(items, words, sw, st);
            &&& forall|a: int, b: int|
                0 <= a < b < r.len() ==> (#[trigger] r[a]).index >= (#[trigger] r[b]).index
            &&& forall|m: int|
                0 <= m < r.len() ==> (#[trigger] r[m]) == items[r[m].index as int]
            &&& forall|id: int|
                0 <= id < items.len() ==> #[trigger] occurrences(r, id) == hits(
                    items,
                    words,
                    sw,
                    st,
                    id,
                    positions(sw, st),
                )
        }),
{
    lemma_search_from_shape(items, words, sw, st, 0);
}

} // verus!