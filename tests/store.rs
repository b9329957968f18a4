use todo_swamp::fuzzy::{chars_of, is_subsequence_of, FuzzyIndex};
use todo_swamp::query::{run_query, Query, QueryError, QueryResult, SearchParams, SearchWord};
use todo_swamp::todo_list::{Description, Index, Tag, TodoItem, TodoList};

fn params(words: &[&str], tags: &[&str]) -> SearchParams {
    SearchParams {
        words: words.iter().map(|w| SearchWord(w.to_string())).collect(),
        tags: Tag::from_strings(tags.to_vec()),
    }
}

fn ids(found: &[&TodoItem]) -> Vec<u64> {
    found.iter().map(|i| i.index.value()).collect()
}

fn scenario_a() -> (TodoList, TodoItem, TodoItem) {
    let mut tl = TodoList::new();
    let a = tl.push(Description::new("hello world"), Tag::from_strings(vec!["tag1", "tag2"]));
    let b = tl.push(Description::new("goodbye"), Tag::from_strings(vec!["tag3"]));
    (tl, a, b)
}

#[test]
fn scenario_a_add_and_word_search() {
    let (tl, a, b) = scenario_a();
    assert_eq!(a.index, Index::new(0));
    assert_eq!(b.index, Index::new(1));
    assert_eq!(a.description.value(), "hello world");
    assert_eq!(a.tags, vec![Tag::new("tag1"), Tag::new("tag2")]);
    assert!(!a.done);
    let found = tl.search(params(&["hlo"], &[]));
    assert_eq!(found.len(), 1);
    assert_eq!(*found[0], a);
}

#[test]
fn scenario_b_tag_search() {
    let (tl, a, _) = scenario_a();
    let found = tl.search(params(&[], &["tag1"]));
    assert_eq!(found.len(), 1);
    assert_eq!(*found[0], a);
}

#[test]
fn scenario_c_union_and_repeats() {
    let (tl, a, b) = scenario_a();
    let found = tl.search(params(&["hlo", "good"], &["tag3"]));
    assert_eq!(ids(&found), vec![1, 1, 0]);
    assert_eq!(*found[0], b);
    assert_eq!(*found[1], b);
    assert_eq!(*found[2], a);
}

#[test]
fn scenario_d_done_items_are_filtered() {
    let (mut tl, _, _) = scenario_a();
    assert_eq!(tl.search(params(&["hlo", "good"], &["tag3"])).len(), 3);
    assert_eq!(tl.done_with_index(Index::new(1)), Some(Index::new(1)));
    let found = tl.search(params(&["good"], &[]));
    assert!(found.is_empty());
}

#[test]
fn identities_follow_insertion_order() {
    let mut tl = TodoList::new();
    for k in 0..20u64 {
        let item = tl.push(Description::new("x"), vec![]);
        assert_eq!(item.index.value(), k);
    }
}

#[test]
fn done_twice_succeeds_and_unknown_identity_fails() {
    let (mut tl, _, _) = scenario_a();
    assert_eq!(tl.done_with_index(Index::new(0)), Some(Index::new(0)));
    assert_eq!(tl.done_with_index(Index::new(0)), Some(Index::new(0)));
    assert!(tl.get_not_done_item_by_index(&Index::new(0)).is_none());
    assert_eq!(tl.done_with_index(Index::new(2)), None);
    assert_eq!(tl.done_with_index(Index::new(u64::MAX)), None);
    let item = tl.get_not_done_item_by_index(&Index::new(1)).unwrap();
    assert_eq!(item.description.value(), "goodbye");
    assert!(tl.get_not_done_item_by_index(&Index::new(2)).is_none());
}

#[test]
fn done_item_never_found() {
    let (mut tl, _, b) = scenario_a();
    tl.done_with_index(Index::new(0));
    let found = tl.search(params(&["", "hello", "world"], &["", "tag1", "tag2"]));
    assert_eq!(ids(&found), vec![1]);
    assert_eq!(*found[0], b);
}

#[test]
fn empty_terms_find_nothing() {
    let (tl, _, _) = scenario_a();
    assert!(tl.search(params(&[], &[])).is_empty());
    assert!(tl.search(params(&["zzz"], &["nope"])).is_empty());
}

#[test]
fn empty_term_matches_everything() {
    let (tl, _, _) = scenario_a();
    assert_eq!(ids(&tl.search(params(&[""], &[]))), vec![1, 0]);
    assert_eq!(ids(&tl.search(params(&[], &[""]))), vec![1, 0]);
}

#[test]
fn whole_token_matches_and_order_matters() {
    let (tl, _, _) = scenario_a();
    assert_eq!(ids(&tl.search(params(&["hello"], &[]))), vec![0]);
    assert_eq!(ids(&tl.search(params(&["world"], &[]))), vec![0]);
    assert_eq!(ids(&tl.search(params(&["olleh"], &[]))), Vec::<u64>::new());
    // the query must fit inside one word, not across two
    assert_eq!(ids(&tl.search(params(&["helloworld"], &[]))), Vec::<u64>::new());
    assert_eq!(ids(&tl.search(params(&["tg3"], &[]))), Vec::<u64>::new());
    assert_eq!(ids(&tl.search(params(&[], &["tg3"]))), vec![1]);
}

#[test]
fn longer_tag_list_searches_tags_alone() {
    let (tl, _, _) = scenario_a();
    let found = tl.search(params(&["hlo"], &["tag", "tag3", "t2"]));
    // position 0: word "hlo" {0} with tag "tag" {0,1}; position 1: {1}; position 2: {0}
    assert_eq!(ids(&found), vec![1, 1, 0, 0]);
}

#[test]
fn search_word_and_tag_is_a_union() {
    let (tl, _, _) = scenario_a();
    let both = tl.search_word_and_tag(Some(SearchWord("hlo".to_string())), Some(Tag::new("tag3")));
    assert_eq!(ids(&both), vec![0, 1]);
    let word = tl.search_word_and_tag(Some(SearchWord("bye".to_string())), None);
    assert_eq!(ids(&word), vec![1]);
    let tag = tl.search_word_and_tag(None, Some(Tag::new("2")));
    assert_eq!(ids(&tag), vec![0]);
    assert!(tl.search_word_and_tag(None, None).is_empty());
}

#[test]
fn words_are_split_on_whitespace() {
    let d = Description::new("  buy\tsome  milk\n");
    assert_eq!(d.get_words(), vec!["buy".to_string(), "some".to_string(), "milk".to_string()]);
    assert!(Description::new("   ").get_words().is_empty());
    let mut tl = TodoList::new();
    tl.push(d, vec![]);
    assert_eq!(ids(&tl.search(params(&["sme"], &[]))), vec![0]);
    assert_eq!(ids(&tl.search(params(&["ym"], &[]))), Vec::<u64>::new());
}

#[test]
fn subsequence_test_on_chars() {
    let s = chars_of("hello");
    assert!(is_subsequence_of(&chars_of(""), &s));
    assert!(is_subsequence_of(&chars_of("hello"), &s));
    assert!(is_subsequence_of(&chars_of("hlo"), &s));
    assert!(is_subsequence_of(&chars_of("ll"), &s));
    assert!(!is_subsequence_of(&chars_of("lll"), &s));
    assert!(!is_subsequence_of(&chars_of("oh"), &s));
    assert!(!is_subsequence_of(&chars_of("a"), &chars_of("")));
    assert_eq!(chars_of("héllo"), vec!['h', 'é', 'l', 'l', 'o']);
}

#[test]
fn fuzzy_index_lookup() {
    let mut ix = FuzzyIndex::new();
    ix.insert(Index::new(0), "hello");
    ix.insert(Index::new(0), "world");
    ix.insert(Index::new(2), "word");
    ix.insert(Index::new(5), "low");
    assert_eq!(ix.lookup("o"), vec![Index::new(0), Index::new(2), Index::new(5)]);
    assert_eq!(ix.lookup("wo"), vec![Index::new(0), Index::new(2)]);
    assert_eq!(ix.lookup("ow"), vec![Index::new(5)]);
    assert_eq!(ix.lookup("wrd"), vec![Index::new(0), Index::new(2)]);
    assert_eq!(ix.lookup("lo"), vec![Index::new(0), Index::new(5)]);
    assert_eq!(ix.lookup("q"), Vec::<Index>::new());
}

#[test]
fn constructors_and_accessors() {
    assert_eq!(Index::new(7).value(), 7);
    assert_eq!(Description::new("a b").value(), "a b");
    assert_eq!(Tag::new("t").value(), "t");
    let ds = Description::from_strings(vec!["x", "y z"]);
    assert_eq!(ds, vec![Description::new("x"), Description::new("y z")]);
    let ts = Tag::from_strings(vec!["p", "q"]);
    assert_eq!(ts, vec![Tag::new("p"), Tag::new("q")]);
    let item = TodoItem::new(Index::new(3), Description::new("d"), ts.clone(), true);
    assert_eq!(item.index, Index::new(3));
    assert!(item.done);
    assert_eq!(item.duplicate(), item);
}

#[test]
fn run_query_dispatches() {
    let mut tl = TodoList::new();
    match run_query(Query::Add(Description::new("hello world"), Tag::from_strings(vec!["tag1"])), &mut tl) {
        Ok(QueryResult::Added(item)) => assert_eq!(item.index, Index::new(0)),
        _ => panic!("add failed"),
    }
    assert!(matches!(run_query(Query::Done(Index::new(0)), &mut tl), Ok(QueryResult::Done)));
    assert!(matches!(run_query(Query::Done(Index::new(0)), &mut tl), Ok(QueryResult::Done)));
    assert!(matches!(run_query(Query::Done(Index::new(9)), &mut tl), Err(QueryError::NotFound)));
    match run_query(Query::Search(params(&["hlo"], &[])), &mut tl) {
        Ok(QueryResult::Found(found)) => assert!(found.is_empty()),
        _ => panic!("search failed"),
    }
}
