//! Queries over the index, as a tree: a term of a field, or a combination of
//! queries, each with the way in which it has to occur.

use vstd::prelude::*;
use crate::bitmap::{bitmap_members, bitmap_new};
use crate::index::Index;

verus! {

/// Asks for the documents that hold one term in one field.
pub struct TermQuery {
    pub field: String,
    pub term: String,
}

/// How a clause of a boolean query has to occur in a document.
#[derive(Clone, Copy, Debug, PartialEq, Eq, Structural)]
pub enum Occur {
    Filter,
    Must,
    MustNot,
    Should,
}

/// A query as a tree.
pub enum Query {
    Term(TermQuery),
    Boolean(BooleanQuery),
}

/// One query of a boolean query, with the way in which it has to occur.
pub struct BooleanClause {
    pub query: Query,
    pub occur: Occur,
}

/// Combines queries; of those that should occur, at least
/// `min_should_match` have to.
pub struct BooleanQuery {
    pub clauses: Vec<BooleanClause>,
    pub min_should_match: u16,
}

impl TermQuery {
    /// The documents that the query selects. Queries are not evaluated yet:
    /// no document is selected.
    pub fn execute(&self, index: &Index) -> (matches: roaring::RoaringBitmap)
        ensures
            bitmap_members(matches) == Set::<u32>::empty(),
    {
        bitmap_new()
    }
}

impl Query {
    /// The documents that the query selects. Queries are not evaluated yet:
    /// no document is selected.
    pub fn execute(&self, index: &Index) -> (matches: roaring::RoaringBitmap)
        ensures
            bitmap_members(matches) == Set::<u32>::empty(),
    {
        match self {
            Query::Term(query) => query.execute(index),
            Query::Boolean(query) => query.execute(index),
        }
    }
}

impl BooleanQuery {
    /// A boolean query without clauses.
    pub fn new(min_should_match: u16) -> (query: BooleanQuery)
        ensures
            query.clauses@.len() == 0,
            query.min_should_match == min_should_match,
    {
        BooleanQuery { clauses: Vec::new(), min_should_match }
    }

    /// The documents that the query selects. Queries are not evaluated yet:
    /// no document is selected.
    pub fn execute(&self, index: &Index) -> (matches: roaring::RoaringBitmap)
        ensures
            bitmap_members(matches) == Set::<u32>::empty(),
    {
        bitmap_new()
    }

    /// Adds a clause after those that are there.
    pub fn push(&mut self, query: Query, occur: Occur) -> (combined: &mut BooleanQuery)
        ensures
            combined.clauses@ == old(self).clauses@.push(BooleanClause { query, occur }),
            combined.min_should_match == old(self).min_should_match,
            *final(self) == *final(combined),
    {
        self.clauses.push(BooleanClause { query, occur });
        self
    }

    /// Adds a clause that asks for `term` in `field`.
    pub fn term(&mut self, field: &str, term: &str, occur: Occur) -> (combined: &mut BooleanQuery)
        ensures
            combined.clauses@.len() == old(self).clauses@.len() + 1,
            combined.clauses@.drop_last() == old(self).clauses@,
            combined.clauses@.last().occur == occur,
            combined.clauses@.last().query matches Query::Term(asked) && asked.field@ == field@
                && asked.term@ == term@,
            combined.min_should_match == old(self).min_should_match,
            *final(self) == *final(combined),
    {
        let asked = TermQuery { field: field.to_owned(), term: term.to_owned() };
        let ghost clause = BooleanClause { query: Query::Term(asked), occur };
        proof {
            assert(old(self).clauses@.push(clause).drop_last() =~= old(self).clauses@);
        }
        self.push(Query::Term(asked), occur)
    }

    /// Adds a clause that asks for what the boolean query `query` asks.
    pub fn boolean(&mut self, query: BooleanQuery, occur: Occur) -> (combined: &mut BooleanQuery)
        ensures
            combined.clauses@ == old(self).clauses@.push(
                BooleanClause { query: Query::Boolean(query), occur },
            ),
            combined.min_should_match == old(self).min_should_match,
            *final(self) == *final(combined),
    {
        self.push(Query::Boolean(query), occur)
    }
}

} // verus!
