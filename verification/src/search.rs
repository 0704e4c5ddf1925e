//! Retrieval: query sanitising for the full-text index, search scopes and
//! options, and (in [`context`]) the packing of ranked hits into a
//! bounded context.
use vstd::prelude::*;

pub mod context;
pub mod ranking;
pub mod rerank;

use vstd::string::StrSliceExecFns;

use crate::text::{chars_of, join, join_exec, replace, replace_str, split_whitespace, string_of, words};

verus! {

/// Which part of the knowledge base to search.
#[derive(Debug, Clone, Copy, PartialEq, Eq, Structural)]
pub enum SearchScope {
    All,
    Documents,
    Conversations,
}

/// Whether a hit is a document chunk or a conversation message.
#[derive(Debug, Clone, Copy, PartialEq, Eq, Structural)]
pub enum HitKind {
    Chunk,
    Message,
}

/// Scope and result limit of a search.
#[derive(Debug, Clone, Copy)]
pub struct SearchOptions {
    pub scope: SearchScope,
    pub limit: usize,
}

impl Default for SearchOptions {
    /// All scopes, at most ten hits.
    fn default() -> (r: Self)
        ensures
            r.scope == SearchScope::All,
            r.limit == 10,
    {
        SearchOptions { scope: SearchScope::All, limit: 10 }
    }
}

/// Errors of the retrieval layer.
#[derive(Debug)]
pub enum SearchError {
    /// The store failed; the message describes how.
    Storage(String),
    InvalidQuery(String),
    /// The embedding model failed.
    Embedding(String),
    /// A reranker misbehaved.
    Rerank(String),
}

/// One whitespace-free term quoted for FTS5: wrapped in double quotes,
/// with each inner double quote doubled.
pub open spec fn quote_term(t: Seq<char>) -> Seq<char> {
    "\""@ + replace(t, "\""@, "\"\""@) + "\""@
}

/// The FTS5 `MATCH` expression for a free-text query: each
/// whitespace-separated term quoted, the quoted terms joined by single
/// spaces.
pub open spec fn sanitize_spec(raw: Seq<char>) -> Seq<char> {
    join(words(raw).map_values(|t: Seq<char>| quote_term(t)), " "@)
}

/// A `join` of parts that are each non-empty is empty only when there are
/// no parts.
proof fn lemma_join_nonempty(parts: Seq<Seq<char>>, sep: Seq<char>)
    requires
        forall|k: int| 0 <= k < parts.len() ==> #[trigger] parts[k].len() > 0,
    ensures
        (join(parts, sep).len() == 0) == (parts.len() == 0),
    decreases parts.len(),
{
    if parts.len() > 1 {
        lemma_join_nonempty(parts.drop_last(), sep);
        assert(parts.last() == parts[parts.len() - 1]);
    } else if parts.len() == 1 {
        assert(parts[0].len() > 0);
    }
}

/// Sanitising a query gives the empty expression exactly when the query
/// has no terms (it is empty or all whitespace).
pub proof fn lemma_sanitize_empty_iff_no_terms(raw: Seq<char>)
    ensures
        (sanitize_spec(raw).len() == 0) == (words(raw).len() == 0),
{
    let qs = words(raw).map_values(|t: Seq<char>| quote_term(t));
    assert forall|k: int| 0 <= k < qs.len() implies #[trigger] qs[k].len() > 0 by {
        reveal_strlit("\"");
        assert(qs[k] == quote_term(words(raw)[k]));
    }
    lemma_join_nonempty(qs, " "@);
}

/// Quotes one term for FTS5.
fn quote_term_exec(t: &Vec<char>) -> (r: Vec<char>)
    ensures
        r@ == quote_term(t@),
{
    proof {
        reveal_strlit("\"");
    }
    let mut r: Vec<char> = Vec::new();
    r.push('"');
    let inner = replace_str(t, "\"", "\"\"");
    crate::text::extend_all(&mut r, &inner);
    r.push('"');
    assert(r@ == quote_term(t@));
    r
}

/// Escapes a free-text query for SQLite FTS5's `MATCH` syntax by quoting
/// every whitespace-separated term, so that user input holding FTS5
/// operators (`-`, `"`, `*`, `:`, ...) can neither make a syntax error nor
/// an unintended query.
pub fn sanitize_query(raw: &str) -> (r: String)
    ensures
        r@ == sanitize_spec(raw@),
{
    let v = chars_of(raw);
    let ws = split_whitespace(&v);
    let ghost wv = ws@.map_values(|w: Vec<char>| w@);
    let mut quoted: Vec<Vec<char>> = Vec::new();
    let mut i: usize = 0;
    while i < ws.len()
        invariant
            i <= ws.len(),
            wv == ws@.map_values(|w: Vec<char>| w@),
            quoted@.map_values(|w: Vec<char>| w@) == wv.take(i as int).map_values(
                |t: Seq<char>| quote_term(t),
            ),
        decreases ws.len() - i,
    {
        let q = quote_term_exec(&ws[i]);
        let ghost before = quoted@;
        quoted.push(q);
        proof {
            assert(wv.take(i + 1) == wv.take(i as int).push(wv[i as int]));
            assert(quoted@.map_values(|w: Vec<char>| w@) =~= before.map_values(|w: Vec<char>| w@).push(
                q@,
            ));
            assert(wv.take(i + 1).map_values(|t: Seq<char>| quote_term(t)) =~= wv.take(
                i as int,
            ).map_values(|t: Seq<char>| quote_term(t)).push(quote_term(wv[i as int])));
        }
        i += 1;
    }
    assert(wv.take(ws.len() as int) == wv);
    let sep = chars_of(" ");
    let out = join_exec(&quoted, &sep);
    string_of(&out)
}

/// Whether a search in `scope` looks at document chunks.
pub open spec fn covers_documents(scope: SearchScope) -> bool {
    scope == SearchScope::All || scope == SearchScope::Documents
}

/// Whether a search in `scope` looks at conversation messages.
pub open spec fn covers_conversations(scope: SearchScope) -> bool {
    scope == SearchScope::All || scope == SearchScope::Conversations
}

/// The index queries a search makes: the sanitised `MATCH` expression and,
/// for each of the two indexes, the number of hits to ask it for (`None`
/// where the scope leaves that index out).
pub struct SearchPlan {
    pub fts_query: String,
    pub chunk_limit: Option<usize>,
    pub message_limit: Option<usize>,
}

/// What a search for `query` with `options` asks of the index: nothing at
/// all when the query has no terms (the search then yields no hits);
/// otherwise the sanitised query against the chunk index and/or the
/// message index, as the scope says, each for at most `options.limit`
/// hits. The hits of both are then merged by score and cut to
/// `options.limit`.
pub fn plan_search(query: &str, options: &SearchOptions) -> (p: Option<SearchPlan>)
    ensures
        p is None <==> words(query@).len() == 0,
        p matches Some(pl) ==> {
            &&& pl.fts_query@ == sanitize_spec(query@)
            &&& pl.chunk_limit == (if covers_documents(options.scope) {
                Some(options.limit)
            } else {
                None::<usize>
            })
            &&& pl.message_limit == (if covers_conversations(options.scope) {
                Some(options.limit)
            } else {
                None::<usize>
            })
        },
{
    let fts_query = sanitize_query(query);
    proof {
        lemma_sanitize_empty_iff_no_terms(query@);
    }
    if fts_query.as_str().unicode_len() == 0 {
        return None;
    }
    let docs = match options.scope {
        SearchScope::All | SearchScope::Documents => true,
        SearchScope::Conversations => false,
    };
    let convs = match options.scope {
        SearchScope::All | SearchScope::Conversations => true,
        SearchScope::Documents => false,
    };
    Some(
        SearchPlan {
            fts_query,
            chunk_limit: if docs {
                Some(options.limit)
            } else {
                None
            },
            message_limit: if convs {
                Some(options.limit)
            } else {
                None
            },
        },
    )
}

} // verus!
