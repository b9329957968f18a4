//! Requests to the store and what it answers.
use vstd::prelude::*;

use crate::todo_list::{
    item_views, search_result, tag_views, whitespace_words, Description, Index, ItemModel, Tag,
    TodoItem, TodoList,
};

verus! {

/// A word search term.
#[derive(Debug, Clone, PartialEq, Eq)]
pub struct SearchWord(pub String);

/// Word terms and tag terms, paired by position.
#[derive(Debug, Clone, PartialEq, Eq)]
pub struct SearchParams {
    pub words: Vec<SearchWord>,
    pub tags: Vec<Tag>,
}

/// A request to the store.
pub enum Query {
    Add(Description, Vec<Tag>),
    Done(Index),
    Search(SearchParams),
}

/// What the store answers to a request that succeeded.
pub enum QueryResult<'a> {
    Added(TodoItem),
    Done,
    Found(Vec<&'a TodoItem>),
}

/// Why a request failed.
#[derive(Debug, Clone, Copy, PartialEq, Eq, Structural)]
pub enum QueryError {
    /// No item has the identity that the request names.
    NotFound,
}

/// Carries out one request on the store.
pub fn run_query<'a>(q: Query, tl: &'a mut TodoList) -> (r: Result<QueryResult<'a>, QueryError>)
    requires
        old(tl).wf(),
        q is Add ==> old(tl)@.len() < u64::MAX,
    ensures
        final(tl).wf(),
        match q {
            Query::Add(description, tags) => {
                &&& r matches Ok(QueryResult::Added(item))
                &&& item@ == (ItemModel {
                    index: old(tl)@.len() as u64,
                    description: description.0@,
                    tags: tag_views(tags@),
                    done: false,
                })
                &&& final(tl)@ == old(tl)@.push(item@)
                &&& final(tl).indexed_words() == old(tl).indexed_words().push(
                    whitespace_words(description.0@),
                )
            },
            Query::Done(idx) => {
                &&& final(tl).indexed_words() == old(tl).indexed_words()
                &&& idx.0 < old(tl)@.len() ==> (r matches Ok(QueryResult::Done))
                &&& idx.0 < old(tl)@.len() ==> final(tl)@ == old(tl)@.update(
                    idx.0 as int,
                    ItemModel { done: true, ..old(tl)@[idx.0 as int] },
                )
                &&& idx.0 >= old(tl)@.len() ==> r == Err::<QueryResult<'a>, QueryError>(
                    QueryError::NotFound,
                ) && final(tl)@ == old(tl)@
            },
            Query::Search(sp) => {
                &&& final(tl)@ == old(tl)@
                &&& final(tl).indexed_words() == old(tl).indexed_words()
                &&& r matches Ok(QueryResult::Found(found))
                &&& item_views(found@) == search_result(
                    old(tl)@,
                    old(tl).indexed_words(),
                    sp.words@,
                    sp.tags@,
                )
            },
        },
{
    match q {
        Query::Add(description, tags) => Ok(QueryResult::Added(tl.push(description, tags))),
        Query::Done(idx) => match tl.done_with_index(idx) {
            None => Err(QueryError::NotFound),
            Some(_) => Ok(QueryResult::Done),
        },
        Query::Search(params) => {
            let shared: &'a TodoList = tl;
            Ok(QueryResult::Found(shared.search(params)))
        },
    }
}

} // verus!