use todolist::Description;
use todolist::Index;
use todolist::SearchParams;
use todolist::SearchWord;
use todolist::Tag;
use todolist::TodoList;

fn tags1() -> Vec<Tag> {
    vec![Tag::new("bbq"), Tag::new("summer")]
}

fn tags2() -> Vec<Tag> {
    vec![Tag::new("winter")]
}

fn tl_with_two_items() -> TodoList {
    let mut tl = TodoList::new();
    tl.push(Description::new("goal item1"), tags1());
    tl.push(Description::new("goal item2"), tags2());
    tl
}

#[test]
fn index_impl_tests() {
    let idx = Index::new(42);
    assert_eq!(idx.value(), 42);
}

#[test]
fn tl_top_index() {
    assert_eq!(tl_with_two_items().top_index.value(), 2);
}

#[test]
fn tl_search_words1() {
    let tl = tl_with_two_items();
    let tl1_found = tl.search(SearchParams {
        words: vec![SearchWord::new("tm")],
        tags: vec![],
    });
    assert_eq!(tl1_found.len(), 2);
}

#[test]
fn tl_search_words2() {
    let tl = tl_with_two_items();
    let tl2_found = tl.search(SearchParams {
        words: vec![SearchWord::new("gal")],
        tags: vec![],
    });
    assert_eq!(tl2_found.len(), 2);
}

#[test]
fn tl_search_words3() {
    let tl = tl_with_two_items();
    let tl3_found = tl.search(SearchParams {
        words: vec![SearchWord::new("item3")],
        tags: vec![Tag::new("bb")],
    });
    assert_eq!(tl3_found.len(), 0);
}

#[test]
fn tl_search_tags() {
    let tl = tl_with_two_items();
    let tl_found = tl.search(SearchParams {
        words: vec![],
        tags: vec![Tag::new("winter")],
    });
    assert_eq!(tl_found.len(), 1);
}

#[test]
fn tl_search_words_and_tags() {
    let tl = tl_with_two_items();
    let tl_found = tl.search(SearchParams {
        words: vec![SearchWord::new("tem")],
        tags: vec![Tag::new("summer")],
    });
    assert_eq!(tl_found.len(), 1);
}

#[test]
fn tl_done() {
    let mut tl = tl_with_two_items();
    assert!(tl
        .done_with_index(Index::new(1))
        .is_some_and(|idx| idx.value() == 1));
    assert!(tl
        .done_with_index(Index::new(0))
        .is_some_and(|idx| idx.value() == 0));
    assert_eq!(
        tl.search(SearchParams {
            words: vec![SearchWord::new("tem")],
            tags: vec![],
        })
        .len(),
        0
    );
    tl.push(Description::new("goal item3"), vec![]);
    assert_eq!(tl.items.len(), 3);
}
