//! The todo list itself: an ordered sequence of items with append,
//! completion-marking by identifier, and subsequence search.

use crate::matching::desc_matches;
use crate::matching::is_subsequence;
use crate::matching::split_words;
use crate::matching::split_ws;
use crate::matching::string_models;
use crate::matching::tags_match;
use crate::matching::word_matches;
use crate::text::tag_models;
use crate::text::word_models;
use crate::text::Description;
use crate::text::Index;
use crate::text::SearchWord;
use crate::text::Tag;
use vstd::prelude::*;

verus! {

/// The mathematical value of one todo item.
pub struct ItemModel {
    pub index: u64,
    pub description: Seq<char>,
    pub tags: Seq<Seq<char>>,
    pub done: bool,
}

/// The mathematical value of a todo list: its identifier counter and the
/// models of its items in storage order.
pub struct ListModel {
    pub top_index: u64,
    pub items: Seq<ItemModel>,
}

impl ListModel {
    /// The list invariant: items sit in assignment order, the item at
    /// position `i` carries identifier `i`, and the counter equals the item
    /// count, so identifiers are exactly `0, 1, 2, ...` and the next one to
    /// be handed out is fresh.
    pub open spec fn wf(self) -> bool {
        &&& self.top_index as int == self.items.len()
        &&& forall|i: int| 0 <= i < self.items.len() ==> #[trigger] self.items[i].index as int == i
    }
}

/// One todo entry: identifier, description, tags, completion flag.
#[derive(Debug)]
pub struct TodoItem {
    pub index: Index,
    pub description: Description,
    pub tags: Vec<Tag>,
    pub done: bool,
}

impl View for TodoItem {
    type V = ItemModel;

    open spec fn view(&self) -> ItemModel {
        ItemModel {
            index: self.index@,
            description: self.description@,
            tags: tag_models(self.tags@),
            done: self.done,
        }
    }
}

/// The models of a sequence of items, in order.
pub open spec fn item_models(items: Seq<TodoItem>) -> Seq<ItemModel> {
    items.map_values(|it: TodoItem| it@)
}

impl Clone for TodoItem {
    fn clone(&self) -> (r: Self)
        ensures
            r@ == self@,
    {
        let mut tags: Vec<Tag> = Vec::new();
        let mut i: usize = 0;
        while i < self.tags.len()
            invariant
                i <= self.tags@.len(),
                tags@.len() == i,
                forall|k: int| 0 <= k < i ==> tags@[k] == self.tags@[k],
            decreases self.tags@.len() - i,
        {
            tags.push(self.tags[i].clone());
            i = i + 1;
        }
        proof {
            assert(tags@ =~= self.tags@);
        }
        TodoItem {
            index: self.index,
            description: self.description.clone(),
            tags,
            done: self.done,
        }
    }
}

impl TodoItem {
    pub fn new(index: Index, description: Description, tags: Vec<Tag>, done: bool) -> (r: TodoItem)
        ensures
            r@ == (ItemModel {
                index: index@,
                description: description@,
                tags: tag_models(tags@),
                done,
            }),
    {
        TodoItem { index, description, tags, done }
    }
}

/// The criteria of one search: words matched against descriptions and tags
/// matched against item tags, each list optional.
pub struct SearchParams {
    pub words: Vec<SearchWord>,
    pub tags: Vec<Tag>,
}

/// The item that a push on a list with model `l` appends: it carries the
/// list's current counter as its identifier and starts out not done.
pub open spec fn pushed_item(l: ListModel, desc: Seq<char>, tags: Seq<Seq<char>>) -> ItemModel {
    ItemModel { index: l.top_index, description: desc, tags: tags, done: false }
}

/// The same item with its completion flag set.
pub open spec fn done_item(it: ItemModel) -> ItemModel {
    ItemModel { index: it.index, description: it.description, tags: it.tags, done: true }
}

/// What completing identifier `idx` does to the items of a well-formed list:
/// the item carrying `idx` sits at position `idx` if it exists, and its done
/// flag is set; an identifier never handed out leaves the list unchanged.
pub open spec fn complete_items(items: Seq<ItemModel>, idx: u64) -> Seq<ItemModel> {
    if (idx as int) < items.len() {
        items.update(idx as int, done_item(items[idx as int]))
    } else {
        items
    }
}

/// What completing identifier `idx` returns: the identifier itself when an
/// item carries it, absent otherwise.
pub open spec fn complete_result(items: Seq<ItemModel>, idx: u64) -> Option<u64> {
    if (idx as int) < items.len() {
        Some(idx)
    } else {
        None
    }
}

/// The model of an optional identifier.
pub open spec fn index_option_model(r: Option<Index>) -> Option<u64> {
    match r {
        Some(ix) => Some(ix@),
        None => None,
    }
}

/// Whether one item satisfies the search criteria: it is not done, and each
/// non-empty criterion matches (an empty word or tag list ignores that
/// criterion for the item filter).
pub open spec fn item_matches(it: ItemModel, words: Seq<Seq<char>>, tags: Seq<Seq<char>>) -> bool {
    &&& !it.done
    &&& (words.len() == 0 || desc_matches(it.description, words))
    &&& (tags.len() == 0 || tags_match(it.tags, tags))
}

/// The subsequence of `items` satisfying the criteria, in storage order.
pub open spec fn matching_items(
    items: Seq<ItemModel>,
    words: Seq<Seq<char>>,
    tags: Seq<Seq<char>>,
) -> Seq<ItemModel>
    decreases items.len(),
{
    if items.len() == 0 {
        Seq::empty()
    } else {
        let rest = matching_items(items.drop_last(), words, tags);
        if item_matches(items.last(), words, tags) {
            rest.push(items.last())
        } else {
            rest
        }
    }
}

/// What a search returns: nothing at all when both criteria are empty (a
/// query with no criteria deliberately matches nothing), else the matching
/// items in their original order.
pub open spec fn search_spec(
    items: Seq<ItemModel>,
    words: Seq<Seq<char>>,
    tags: Seq<Seq<char>>,
) -> Seq<ItemModel> {
    if words.len() == 0 && tags.len() == 0 {
        Seq::empty()
    } else {
        matching_items(items, words, tags)
    }
}

/// The in-memory todo list.
pub struct TodoList {
    pub top_index: Index,
    pub items: Vec<TodoItem>,
}

impl View for TodoList {
    type V = ListModel;

    open spec fn view(&self) -> ListModel {
        ListModel { top_index: self.top_index@, items: item_models(self.items@) }
    }
}

impl TodoList {
    /// The list invariant, stated of the model.
    pub open spec fn wf(self) -> bool {
        self@.wf()
    }

    pub fn new() -> (r: TodoList)
        ensures
            r.wf(),
            r@.top_index == 0,
            r@.items == Seq::<ItemModel>::empty(),
    {
        let r = TodoList { top_index: Index::new(0), items: Vec::new() };
        proof {
            assert(r@.items =~= Seq::<ItemModel>::empty());
        }
        r
    }

    /// Appends a new item carrying the current counter as its identifier,
    /// not done, and advances the counter by exactly one. The returned item
    /// equals the one now stored at the tail.
    pub fn push(&mut self, description: Description, tags: Vec<Tag>) -> (r: TodoItem)
        requires
            old(self).wf(),
            old(self)@.top_index < u64::MAX,
        ensures
            final(self).wf(),
            final(self)@.items == old(self)@.items.push(
                pushed_item(old(self)@, description@, tag_models(tags@)),
            ),
            final(self)@.top_index == old(self)@.top_index + 1,
            r@ == pushed_item(old(self)@, description@, tag_models(tags@)),
    {
        let item = TodoItem { index: self.top_index, description, tags, done: false };
        let r = item.clone();
        self.items.push(item);
        self.top_index.add_assign(1);
        proof {
            let prev = old(self)@;
            assert(self@.items =~= prev.items.push(pushed_item(prev, r@.description, r@.tags)));
            assert forall|i: int| 0 <= i < self@.items.len() implies #[trigger] self@.items[i].index
                as int == i by {
                if i < prev.items.len() {
                    assert(prev.items[i].index as int == i);
                }
            }
        }
        r
    }

    /// Looks the identifier up by binary search over the sorted items; when
    /// found, marks that item done (marking an already done item again is a
    /// silent no-op at the data level) and returns the identifier, else
    /// returns absent.
    pub fn done_with_index(&mut self, idx: Index) -> (r: Option<Index>)
        requires
            old(self).wf(),
        ensures
            final(self).wf(),
            final(self)@.items == complete_items(old(self)@.items, idx@),
            final(self)@.top_index == old(self)@.top_index,
            index_option_model(r) == complete_result(old(self)@.items, idx@),
            r is Some <==> exists|i: int|
                0 <= i < old(self)@.items.len() && #[trigger] old(self)@.items[i].index == idx@,
            r is Some ==> final(self)@.items[idx@ as int].done,
    {
        let len: usize = self.items.len();
        let mut lo: usize = 0;
        let mut hi: usize = len;
        while lo < hi
            invariant
                lo <= hi <= len,
                len == self.items@.len(),
                *self == *old(self),
                self.wf(),
                forall|i: int| 0 <= i < lo ==> #[trigger] self@.items[i].index != idx@,
                forall|i: int| hi <= i < len ==> #[trigger] self@.items[i].index != idx@,
            decreases hi - lo,
        {
            let mid: usize = lo + (hi - lo) / 2;
            let mid_index: u64 = self.items[mid].index.value();
            proof {
                assert(self@.items[mid as int].index as int == mid);
                assert(self@.items[mid as int] == self.items@[mid as int]@);
            }
            if mid_index == idx.value() {
                let mut it = self.items.remove(mid);
                it.done = true;
                self.items.insert(mid, it);
                proof {
                    let prev = old(self)@;
                    assert(idx@ as int == mid);
                    assert(self.items@ =~= old(self).items@.update(mid as int, it));
                    assert(it@ == done_item(prev.items[mid as int]));
                    assert(self@.items =~= complete_items(prev.items, idx@));
                    assert forall|i: int| 0 <= i < self@.items.len() implies #[trigger] self@
                        .items[i].index as int == i by {
                        assert(prev.items[i].index as int == i);
                    }
                }
                return Some(idx);
            } else if mid_index < idx.value() {
                proof {
                    assert forall|i: int| 0 <= i < mid + 1 implies #[trigger] self@.items[i].index
                        != idx@ by {
                        assert(self@.items[i].index as int == i);
                    }
                }
                lo = mid + 1;
            } else {
                proof {
                    assert forall|i: int| mid <= i < len implies #[trigger] self@.items[i].index
                        != idx@ by {
                        assert(self@.items[i].index as int == i);
                    }
                }
                hi = mid;
            }
        }
        proof {
            if idx@ < len as u64 {
                assert(self@.items[idx@ as int].index == idx@);
                assert(false);
            }
        }
        None
    }

    /// Scans `string` once with a cursor into `subseq`, advancing the cursor
    /// on each equal character: true iff `subseq` is a subsequence of
    /// `string`.
    pub fn subsequence(string: &str, subseq: &str) -> (r: bool)
        ensures
            r == is_subsequence(string@, subseq@),
    {
        let n: usize = string.unicode_len();
        let m: usize = subseq.unicode_len();
        let mut i: usize = 0;
        let mut j: usize = 0;
        proof {
            assert(string@.skip(0) =~= string@);
            assert(subseq@.skip(0) =~= subseq@);
        }
        while i < n && j < m
            invariant
                i <= n,
                j <= m,
                n == string@.len(),
                m == subseq@.len(),
                is_subsequence(string@, subseq@) == is_subsequence(
                    string@.skip(i as int),
                    subseq@.skip(j as int),
                ),
            decreases n - i,
        {
            let sc = string.get_char(i);
            let tc = subseq.get_char(j);
            proof {
                let ss = string@.skip(i as int);
                let tt = subseq@.skip(j as int);
                assert(ss[0] == string@[i as int]);
                assert(tt[0] == subseq@[j as int]);
                assert(ss.skip(1) =~= string@.skip(i + 1));
                assert(tt.skip(1) =~= subseq@.skip(j + 1));
            }
            if sc == tc {
                j = j + 1;
            }
            i = i + 1;
        }
        proof {
            if j == m {
                assert(subseq@.skip(j as int) =~= Seq::<char>::empty());
            } else {
                assert(string@.skip(i as int) =~= Seq::<char>::empty());
            }
        }
        j == m
    }

    /// True iff every search word is a subsequence of at least one
    /// whitespace-delimited word of the description.
    pub fn match_desc(description: &Description, search_words: &Vec<SearchWord>) -> (r: bool)
        ensures
            r == desc_matches(description@, word_models(search_words@)),
    {
        let words = split_words(description.value());
        let ghost dwords = split_ws(description@);
        let mut k: usize = 0;
        while k < search_words.len()
            invariant
                k <= search_words@.len(),
                string_models(words@) == dwords,
                dwords == split_ws(description@),
                forall|kk: int|
                    0 <= kk < k ==> word_matches(dwords, #[trigger] word_models(search_words@)[kk]),
            decreases search_words@.len() - k,
        {
            let sw = &search_words[k];
            let mut m: usize = 0;
            let mut found = false;
            while m < words.len() && !found
                invariant
                    m <= words@.len(),
                    string_models(words@) == dwords,
                    found ==> word_matches(dwords, sw@),
                    !found ==> forall|mm: int|
                        0 <= mm < m ==> !is_subsequence(#[trigger] dwords[mm], sw@),
                decreases words@.len() - m,
            {
                if Self::subsequence(words[m].as_str(), sw.value()) {
                    found = true;
                    proof {
                        assert(dwords[m as int] == words@[m as int]@);
                        assert(word_matches(dwords, sw@));
                    }
                }
                m = m + 1;
            }
            if !found {
                proof {
                    assert(!word_matches(dwords, sw@));
                    assert(word_models(search_words@)[k as int] == sw@);
                    assert(!desc_matches(description@, word_models(search_words@))) by {
                        assert(!word_matches(
                            split_ws(description@),
                            word_models(search_words@)[k as int],
                        ));
                    }
                }
                return false;
            }
            k = k + 1;
        }
        true
    }

    /// True iff every search tag is a subsequence of at least one of the
    /// item's tags (whole tag strings, not split into words).
    pub fn match_tags(tags: &Vec<Tag>, search_tags: &Vec<Tag>) -> (r: bool)
        ensures
            r == tags_match(tag_models(tags@), tag_models(search_tags@)),
    {
        let ghost itags = tag_models(tags@);
        let mut k: usize = 0;
        while k < search_tags.len()
            invariant
                k <= search_tags@.len(),
                itags == tag_models(tags@),
                forall|kk: int|
                    0 <= kk < k ==> word_matches(itags, #[trigger] tag_models(search_tags@)[kk]),
            decreases search_tags@.len() - k,
        {
            let st = &search_tags[k];
            let mut m: usize = 0;
            let mut found = false;
            while m < tags.len() && !found
                invariant
                    m <= tags@.len(),
                    itags == tag_models(tags@),
                    found ==> word_matches(itags, st@),
                    !found ==> forall|mm: int|
                        0 <= mm < m ==> !is_subsequence(#[trigger] itags[mm], st@),
                decreases tags@.len() - m,
            {
                if Self::subsequence(tags[m].value(), st.value()) {
                    found = true;
                    proof {
                        assert(itags[m as int] == tags@[m as int]@);
                        assert(word_matches(itags, st@));
                    }
                }
                m = m + 1;
            }
            if !found {
                proof {
                    assert(!word_matches(itags, st@));
                    assert(tag_models(search_tags@)[k as int] == st@);
                    assert(!tags_match(itags, tag_models(search_tags@))) by {
                        assert(!word_matches(itags, tag_models(search_tags@)[k as int]));
                    }
                }
                return false;
            }
            k = k + 1;
        }
        true
    }

    /// Filters the stored items by the search criteria: a query with no
    /// criteria returns nothing, any other query returns the incomplete
    /// items matching every given word and tag, in their original
    /// ascending-identifier order.
    pub fn search(&self, sp: SearchParams) -> (r: Vec<TodoItem>)
        ensures
            item_models(r@) == search_spec(
                self@.items,
                word_models(sp.words@),
                tag_models(sp.tags@),
            ),
            sp.words@.len() == 0 && sp.tags@.len() == 0 ==> r@.len() == 0,
    {
        let ghost w = word_models(sp.words@);
        let ghost t = tag_models(sp.tags@);
        let ignore_desc = sp.words.is_empty();
        let ignore_tags = sp.tags.is_empty();
        if ignore_desc && ignore_tags {
            let r: Vec<TodoItem> = Vec::new();
            proof {
                assert(item_models(r@) =~= Seq::<ItemModel>::empty());
            }
            return r;
        }
        let mut r: Vec<TodoItem> = Vec::new();
        let mut i: usize = 0;
        proof {
            assert(item_models(self.items@).take(0) =~= Seq::<ItemModel>::empty());
            assert(item_models(r@) =~= Seq::<ItemModel>::empty());
        }
        while i < self.items.len()
            invariant
                i <= self.items@.len(),
                w == word_models(sp.words@),
                t == tag_models(sp.tags@),
                !(w.len() == 0 && t.len() == 0),
                ignore_desc == (w.len() == 0),
                ignore_tags == (t.len() == 0),
                item_models(r@) == matching_items(item_models(self.items@).take(i as int), w, t),
            decreases self.items@.len() - i,
        {
            let it = &self.items[i];
            let keep = !it.done && (ignore_desc || Self::match_desc(&it.description, &sp.words))
                && (ignore_tags || Self::match_tags(&it.tags, &sp.tags));
            let ghost prev = r@;
            if keep {
                r.push(it.clone());
            }
            proof {
                let models = item_models(self.items@);
                assert(models.take(i + 1).drop_last() =~= models.take(i as int));
                assert(models.take(i + 1).last() == models[i as int]);
                assert(models[i as int] == self.items@[i as int]@);
                assert(it@ == models[i as int]);
                assert(keep == item_matches(models[i as int], w, t));
                if keep {
                    assert(item_models(r@) =~= item_models(prev).push(self.items@[i as int]@));
                }
            }
            i = i + 1;
        }
        proof {
            assert(item_models(self.items@).take(self.items@.len() as int) =~= item_models(
                self.items@,
            ));
        }
        r
    }
}

/// In a well-formed list the identifiers are exactly `0, 1, 2, ...` in
/// storage order: strictly increasing, starting at 0, with step 1. Since
/// every push appends `pushed_item` and keeps the list well formed, the
/// identifiers returned by any sequence of pushes are exactly this sequence.
pub proof fn lemma_identifiers_strictly_increasing(l: ListModel)
    requires
        l.wf(),
    ensures
        forall|i: int| 0 <= i < l.items.len() ==> #[trigger] l.items[i].index as int == i,
        forall|i: int, j: int|
            0 <= i < j < l.items.len() ==> l.items[i].index < l.items[j].index,
{
    assert forall|i: int, j: int|
        0 <= i < j < l.items.len() implies l.items[i].index < l.items[j].index by {
        assert(l.items[i].index as int == i);
        assert(l.items[j].index as int == j);
    }
}

/// A push on a well-formed list hands out the identifier one past the last:
/// it equals the item count and is strictly greater than every identifier
/// already stored.
pub proof fn lemma_push_identifier_fresh(l: ListModel, desc: Seq<char>, tags: Seq<Seq<char>>)
    requires
        l.wf(),
    ensures
        pushed_item(l, desc, tags).index as int == l.items.len(),
        forall|i: int|
            0 <= i < l.items.len() ==> #[trigger] l.items[i].index < pushed_item(
                l,
                desc,
                tags,
            ).index,
{
    assert forall|i: int|
        0 <= i < l.items.len() implies #[trigger] l.items[i].index < pushed_item(
        l,
        desc,
        tags,
    ).index by {
        assert(l.items[i].index as int == i);
    }
}

/// Completing the same identifier twice returns the same result both times
/// and leaves the same items behind as completing it once: after the first
/// call the item's done flag is already true, so the second write changes
/// nothing.
pub proof fn lemma_complete_idempotent(items: Seq<ItemModel>, idx: u64)
    ensures
        complete_items(complete_items(items, idx), idx) == complete_items(items, idx),
        complete_result(complete_items(items, idx), idx) == complete_result(items, idx),
        (idx as int) < items.len() ==> complete_items(items, idx)[idx as int].done,
{
    if (idx as int) < items.len() {
        assert(complete_items(complete_items(items, idx), idx) =~= complete_items(items, idx));
    }
}

} // verus!
