use todolist::Description;
use todolist::Index;
use todolist::SearchParams;
use todolist::SearchWord;
use todolist::Tag;
use todolist::TodoList;

#[test]
fn push_identifiers_increase_from_zero() {
    let mut tl = TodoList::new();
    let first = tl.push(Description::new("one"), vec![]);
    assert_eq!(first.index.value(), 0);
    let second = tl.push(Description::new("two"), vec![]);
    assert_eq!(second.index.value(), 1);
    let third = tl.push(Description::new("three"), vec![]);
    assert_eq!(third.index.value(), 2);
    assert_eq!(tl.top_index.value(), 3);
}

#[test]
fn complete_unknown_identifier_is_absent() {
    let mut tl = TodoList::new();
    assert!(tl.done_with_index(Index::new(0)).is_none());
    tl.push(Description::new("only"), vec![]);
    assert!(tl.done_with_index(Index::new(1)).is_none());
    assert!(tl.done_with_index(Index::new(7)).is_none());
}

#[test]
fn complete_known_identifier_sets_done() {
    let mut tl = TodoList::new();
    tl.push(Description::new("task"), vec![]);
    assert!(!tl.items[0].done);
    let r = tl.done_with_index(Index::new(0));
    assert!(r.is_some_and(|idx| idx.value() == 0));
    assert!(tl.items[0].done);
}

#[test]
fn complete_twice_is_idempotent() {
    let mut tl = TodoList::new();
    tl.push(Description::new("task"), vec![]);
    tl.push(Description::new("other"), vec![]);
    let first = tl.done_with_index(Index::new(1));
    let second = tl.done_with_index(Index::new(1));
    assert!(first.is_some_and(|idx| idx.value() == 1));
    assert!(second.is_some_and(|idx| idx.value() == 1));
    assert!(tl.items[1].done);
}

#[test]
fn empty_criteria_match_nothing() {
    let mut tl = TodoList::new();
    let empty_on_empty = tl.search(SearchParams {
        words: vec![],
        tags: vec![],
    });
    assert_eq!(empty_on_empty.len(), 0);
    tl.push(Description::new("goal item1"), vec![Tag::new("bbq")]);
    tl.push(Description::new("goal item2"), vec![]);
    let empty_on_full = tl.search(SearchParams {
        words: vec![],
        tags: vec![],
    });
    assert_eq!(empty_on_full.len(), 0);
}

#[test]
fn subsequence_examples() {
    assert!(TodoList::subsequence("goal", "gal"));
    assert!(!TodoList::subsequence("goal", "log"));
    assert!(TodoList::subsequence("goal", ""));
    assert!(TodoList::subsequence("", ""));
    assert!(!TodoList::subsequence("", "a"));
    assert!(TodoList::subsequence("abcdef", "ace"));
    assert!(!TodoList::subsequence("abc", "abcd"));
    assert!(!TodoList::subsequence("Goal", "goal"));
}

#[test]
fn match_desc_examples() {
    let desc = Description::new("goal item1");
    assert!(TodoList::match_desc(&desc, &vec![SearchWord::new("tm")]));
    assert!(TodoList::match_desc(&desc, &vec![SearchWord::new("gal")]));
    assert!(TodoList::match_desc(
        &desc,
        &vec![SearchWord::new("gal"), SearchWord::new("tm")]
    ));
    assert!(!TodoList::match_desc(
        &desc,
        &vec![SearchWord::new("gal"), SearchWord::new("zz")]
    ));
    assert!(!TodoList::match_desc(&desc, &vec![SearchWord::new("goalitem")]));
    assert!(TodoList::match_desc(&desc, &vec![]));
}

#[test]
fn match_tags_examples() {
    let tags = vec![Tag::new("bbq"), Tag::new("summer")];
    assert!(TodoList::match_tags(&tags, &vec![Tag::new("sm")]));
    assert!(TodoList::match_tags(&tags, &vec![Tag::new("bb"), Tag::new("mer")]));
    assert!(!TodoList::match_tags(&tags, &vec![Tag::new("winter")]));
    assert!(TodoList::match_tags(&tags, &vec![]));
    assert!(!TodoList::match_tags(&vec![], &vec![Tag::new("bb")]));
}

#[test]
fn end_to_end_scenario() {
    let mut tl = TodoList::new();
    tl.push(
        Description::new("goal item1"),
        Tag::from_strings(vec!["bbq", "summer"]),
    );
    tl.push(Description::new("goal item2"), Tag::from_strings(vec!["winter"]));

    let by_word = tl.search(SearchParams {
        words: vec![SearchWord::new("tm")],
        tags: vec![],
    });
    assert_eq!(by_word.len(), 2);
    assert_eq!(by_word[0].index.value(), 0);
    assert_eq!(by_word[1].index.value(), 1);

    let by_tag = tl.search(SearchParams {
        words: vec![],
        tags: vec![Tag::new("winter")],
    });
    assert_eq!(by_tag.len(), 1);
    assert_eq!(by_tag[0].index.value(), 1);
    assert_eq!(by_tag[0].description.value(), "goal item2");

    assert!(tl.done_with_index(Index::new(0)).is_some());
    assert!(tl.done_with_index(Index::new(1)).is_some());
    let after_done = tl.search(SearchParams {
        words: vec![SearchWord::new("tem")],
        tags: vec![],
    });
    assert_eq!(after_done.len(), 0);

    tl.push(Description::new("goal item3"), vec![]);
    assert_eq!(tl.items.len(), 3);
}

#[test]
fn value_types_round_trip() {
    assert_eq!(Description::new("write spec").value(), "write spec");
    assert_eq!(Tag::new("garden").value(), "garden");
    assert_eq!(SearchWord::new("gar").value(), "gar");
    let tags = Tag::from_strings(vec!["a", "b", "c"]);
    assert_eq!(tags.len(), 3);
    assert_eq!(tags[0].value(), "a");
    assert_eq!(tags[2].value(), "c");
}

#[test]
fn index_add_assign_by_one() {
    let mut idx = Index::new(42);
    idx.add_assign(1);
    assert_eq!(idx.value(), 43);
    idx.add_assign(0);
    assert_eq!(idx.value(), 43);
}

#[test]
fn search_keeps_item_order_and_skips_done() {
    let mut tl = TodoList::new();
    tl.push(Description::new("alpha task"), vec![Tag::new("work")]);
    tl.push(Description::new("beta task"), vec![Tag::new("work")]);
    tl.push(Description::new("gamma task"), vec![Tag::new("home")]);
    tl.done_with_index(Index::new(1));
    let found = tl.search(SearchParams {
        words: vec![SearchWord::new("task")],
        tags: vec![],
    });
    assert_eq!(found.len(), 2);
    assert_eq!(found[0].index.value(), 0);
    assert_eq!(found[1].index.value(), 2);
    assert!(!found[0].done);
    assert!(!found[1].done);
}

#[test]
fn description_with_repeated_whitespace() {
    let desc = Description::new("  spaced \t words\nhere ");
    assert!(TodoList::match_desc(&desc, &vec![SearchWord::new("wrds")]));
    assert!(TodoList::match_desc(&desc, &vec![SearchWord::new("here")]));
    assert!(!TodoList::match_desc(&desc, &vec![SearchWord::new("spacedwords")]));
}

#[test]
fn unicode_whitespace_splits_words() {
    // Form feed, no-break space and ideographic space all delimit words, as
    // str::split_whitespace does, so no search word may match across them.
    let form_feed = Description::new("a\u{000C}b");
    assert!(!TodoList::match_desc(&form_feed, &vec![SearchWord::new("ab")]));
    assert!(TodoList::match_desc(&form_feed, &vec![SearchWord::new("a"), SearchWord::new("b")]));
    let nbsp = Description::new("goal\u{00A0}item1");
    assert!(!TodoList::match_desc(&nbsp, &vec![SearchWord::new("goalitem")]));
    assert!(TodoList::match_desc(&nbsp, &vec![SearchWord::new("tm")]));
    let ideographic = Description::new("wide\u{3000}gap");
    assert!(!TodoList::match_desc(&ideographic, &vec![SearchWord::new("widegap")]));
    assert!(TodoList::match_desc(&ideographic, &vec![SearchWord::new("gap")]));
}

#[test]
fn duplicate_tags_are_kept() {
    let mut tl = TodoList::new();
    let item = tl.push(
        Description::new("twice tagged"),
        vec![Tag::new("dup"), Tag::new("dup")],
    );
    assert_eq!(item.tags.len(), 2);
    let found = tl.search(SearchParams {
        words: vec![],
        tags: vec![Tag::new("dup")],
    });
    assert_eq!(found.len(), 1);
}
