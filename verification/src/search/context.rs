//! Packing ranked hits into a context of bounded size: token estimates,
//! near-duplicate detection by word-set Jaccard similarity, greedy packing
//! under a token budget and a cap on distinct sources, and the expansion
//! of packed chunks with their neighbours in the document.
use vstd::prelude::*;
use vstd::string::StrSliceExecFns;

use crate::ids::{ChunkId, SourceId};
use crate::text::{chars_eq, chars_of, lowercase, to_lowercase};

verus! {

/// The token estimate of a text of `n` characters: a quarter of the
/// characters, rounded up.
pub open spec fn tokens_for(n: nat) -> nat {
    (n + 3) / 4
}

/// Cheap, dependency-free token estimate: about four characters per
/// token, rounded up. Being approximately right and consistent matters
/// more for a budget than matching a particular tokenizer.
pub fn estimate_tokens(text: &str) -> (r: usize)
    ensures
        r == tokens_for(text@.len()),
{
    let n = text.unicode_len();
    let q = n / 4;
    if n % 4 == 0 {
        q
    } else {
        q + 1
    }
}

// ---------------------------------------------------------------------
// Word sets
// ---------------------------------------------------------------------

/// What `char::is_alphanumeric` returns for `c` (Unicode `Alphabetic` or
/// `Numeric`).
pub uninterp spec fn alphanumeric(c: char) -> bool;

/// Calls `char::is_alphanumeric`, whose result depends on `c` alone; its
/// value (the Unicode tables) is not stated.
#[verifier::external_body]
fn is_alphanumeric(c: char) -> (b: bool)
    ensures
        b == alphanumeric(c),
{
    c.is_alphanumeric()
}

/// The state of splitting a prefix of length `n` of `s` at every
/// non-alphanumeric character and dropping empty pieces: the pieces
/// finished so far and the piece being read.
pub open spec fn alnum_runs_state(s: Seq<char>, n: int) -> (Seq<Seq<char>>, Seq<char>)
    decreases n,
{
    if n <= 0 {
        (seq![], seq![])
    } else {
        let (done, cur) = alnum_runs_state(s, n - 1);
        if !alphanumeric(s[n - 1]) {
            if cur.len() > 0 {
                (done.push(cur), seq![])
            } else {
                (done, cur)
            }
        } else {
            (done, cur.push(s[n - 1]))
        }
    }
}

/// The maximal runs of alphanumeric characters of `s`, in order: `s`
/// split at every non-alphanumeric character, empty pieces dropped.
pub open spec fn alnum_runs(s: Seq<char>) -> Seq<Seq<char>> {
    let (done, cur) = alnum_runs_state(s, s.len() as int);
    if cur.len() > 0 {
        done.push(cur)
    } else {
        done
    }
}

/// The word set of a text: the alphanumeric runs of its lowercased form.
pub open spec fn word_set_spec(text: Seq<char>) -> Set<Seq<char>> {
    alnum_runs(lowercase(text)).to_set()
}

/// The character sequences of a vector of words.
pub open spec fn word_views(ws: Seq<Vec<char>>) -> Seq<Seq<char>> {
    ws.map_values(|w: Vec<char>| w@)
}

/// The alphanumeric runs of `v`, in order.
fn alnum_runs_exec(v: &Vec<char>) -> (ws: Vec<Vec<char>>)
    ensures
        word_views(ws@) == alnum_runs(v@),
{
    let mut done: Vec<Vec<char>> = Vec::new();
    let mut cur: Vec<char> = Vec::new();
    let mut i: usize = 0;
    while i < v.len()
        invariant
            i <= v.len(),
            (word_views(done@), cur@) == alnum_runs_state(v@, i as int),
        decreases v.len() - i,
    {
        let c = v[i];
        if !is_alphanumeric(c) {
            if cur.len() > 0 {
                let ghost before = done@;
                let w = cur;
                cur = Vec::new();
                done.push(w);
                assert(word_views(done@) =~= word_views(before).push(w@));
            }
        } else {
            cur.push(c);
        }
        i += 1;
    }
    if cur.len() > 0 {
        let ghost before = done@;
        let ghost cw = cur@;
        done.push(cur);
        assert(word_views(done@) =~= word_views(before).push(cw));
    }
    done
}

/// Whether `w` is one of the words of `ws`.
fn contains_word(ws: &Vec<Vec<char>>, w: &Vec<char>) -> (r: bool)
    ensures
        r == word_views(ws@).contains(w@),
{
    let mut i: usize = 0;
    while i < ws.len()
        invariant
            i <= ws.len(),
            forall|k: int| 0 <= k < i ==> word_views(ws@)[k] != w@,
        decreases ws.len() - i,
    {
        if chars_eq(&ws[i], w) {
            assert(word_views(ws@)[i as int] == w@);
            return true;
        }
        i += 1;
    }
    false
}

/// The word set of `text`: its lowercased form split at every
/// non-alphanumeric character, empty pieces dropped, each word once.
pub fn word_set(text: &str) -> (ws: Vec<Vec<char>>)
    ensures
        word_views(ws@).no_duplicates(),
        word_views(ws@).to_set() == word_set_spec(text@),
{
    let v = chars_of(text);
    let low = to_lowercase(&v);
    let runs = alnum_runs_exec(&low);
    let ghost rv = word_views(runs@);
    let mut out: Vec<Vec<char>> = Vec::new();
    let mut i: usize = 0;
    while i < runs.len()
        invariant
            i <= runs.len(),
            rv == word_views(runs@),
            word_views(out@).no_duplicates(),
            word_views(out@).to_set() == rv.take(i as int).to_set(),
        decreases runs.len() - i,
    {
        let ghost before = out@;
        proof {
            assert(rv.take(i + 1) == rv.take(i as int).push(rv[i as int]));
            rv.take(i as int).lemma_push_to_set_commute(rv[i as int]);
        }
        if !contains_word(&out, &runs[i]) {
            let w = runs[i].clone();
            assert(w@ == rv[i as int]);
            out.push(w);
            proof {
                assert(word_views(out@) =~= word_views(before).push(rv[i as int]));
                word_views(before).lemma_push_to_set_commute(rv[i as int]);
            }
        } else {
            assert(word_views(before).to_set().contains(rv[i as int]));
            assert(rv.take(i as int).to_set().insert(rv[i as int]) =~= rv.take(i as int).to_set());
        }
        i += 1;
    }
    assert(rv.take(runs.len() as int) == rv);
    out
}

// ---------------------------------------------------------------------
// Near duplicates
// ---------------------------------------------------------------------

/// Two word sets are near duplicates when their Jaccard similarity
/// `|A ∩ B| / |A ∪ B|` is at least 0.85, that is when
/// `20 |A ∩ B| >= 17 |A ∪ B|`; two empty sets count as identical.
pub open spec fn near_duplicate(a: Set<Seq<char>>, b: Set<Seq<char>>) -> bool {
    20 * a.intersect(b).len() >= 17 * a.union(b).len()
}

/// Counts the words of `a` that also occur in `b`; with `a` free of
/// repeats this is the size of the intersection of the two word sets.
fn common_words(a: &Vec<Vec<char>>, b: &Vec<Vec<char>>) -> (n: usize)
    requires
        word_views(a@).no_duplicates(),
    ensures
        n == word_views(a@).to_set().intersect(word_views(b@).to_set()).len(),
{
    let ghost av = word_views(a@);
    let ghost bs = word_views(b@).to_set();
    let ghost mut acc: Seq<Seq<char>> = seq![];
    let mut n: usize = 0;
    let mut i: usize = 0;
    while i < a.len()
        invariant
            i <= a.len(),
            av == word_views(a@),
            bs == word_views(b@).to_set(),
            av.no_duplicates(),
            acc.no_duplicates(),
            n == acc.len(),
            acc.len() <= i,
            forall|k: int| 0 <= k < acc.len() ==> #[trigger] av.take(i as int).contains(acc[k]),
            acc.to_set() == av.take(i as int).to_set().intersect(bs),
        decreases a.len() - i,
    {
        proof {
            assert(av.take(i + 1) == av.take(i as int).push(av[i as int]));
            av.take(i as int).lemma_push_to_set_commute(av[i as int]);
        }
        if contains_word(b, &a[i]) {
            proof {
                assert(word_views(b@).contains(av[i as int]));
                assert(bs.contains(av[i as int]));
                assert(!acc.contains(av[i as int])) by {
                    if acc.contains(av[i as int]) {
                        let k = choose|k: int| 0 <= k < acc.len() && acc[k] == av[i as int];
                        assert(av.take(i as int).contains(acc[k]));
                        let m = choose|m: int| 0 <= m < i && av.take(i as int)[m] == acc[k];
                        assert(av[m] == av[i as int]);
                    }
                }
                acc.lemma_push_to_set_commute(av[i as int]);
                acc = acc.push(av[i as int]);
                assert forall|k: int| 0 <= k < acc.len() implies #[trigger] av.take(i + 1).contains(acc[k]) by {
                    if k < acc.len() - 1 {
                        assert(av.take(i as int).contains(acc[k]));
                        let m = choose|m: int| 0 <= m < i && av.take(i as int)[m] == acc[k];
                        assert(av.take(i + 1)[m] == acc[k]);
                    } else {
                        assert(av.take(i + 1)[i as int] == acc[k]);
                    }
                }
                assert(acc.to_set() =~= av.take(i + 1).to_set().intersect(bs));
            }
            n += 1;
        } else {
            proof {
                assert(!bs.contains(av[i as int]));
                assert forall|k: int| 0 <= k < acc.len() implies #[trigger] av.take(i + 1).contains(acc[k]) by {
                    assert(av.take(i as int).contains(acc[k]));
                    let m = choose|m: int| 0 <= m < i && av.take(i as int)[m] == acc[k];
                    assert(av.take(i + 1)[m] == acc[k]);
                }
                assert(acc.to_set() =~= av.take(i + 1).to_set().intersect(bs));
            }
        }
        i += 1;
    }
    proof {
        assert(av.take(a.len() as int) == av);
        acc.unique_seq_to_set();
    }
    n
}

/// Whether the word sets `a` and `b` (each listed without repeats) are
/// near duplicates.
pub fn is_near_duplicate(a: &Vec<Vec<char>>, b: &Vec<Vec<char>>) -> (r: bool)
    requires
        word_views(a@).no_duplicates(),
        word_views(b@).no_duplicates(),
    ensures
        r == near_duplicate(word_views(a@).to_set(), word_views(b@).to_set()),
{
    let ghost sa = word_views(a@).to_set();
    let ghost sb = word_views(b@).to_set();
    let common = common_words(a, b);
    proof {
        word_views(a@).unique_seq_to_set();
        word_views(b@).unique_seq_to_set();
        vstd::set_lib::lemma_set_intersect_union_lens(sa, sb);
        vstd::set_lib::lemma_len_intersect(sa, sb);
        assert(sa + sb == sa.union(sb));
    }
    let union = (a.len() as u128) + (b.len() as u128) - (common as u128);
    20 * (common as u128) >= 17 * union
}

// ---------------------------------------------------------------------
// Candidates and near-duplicate dropping
// ---------------------------------------------------------------------

/// A ranked candidate for the context, as packing sees it: its text and
/// the source it comes from (`None` for conversation messages, which do
/// not count against the cap on sources).
pub struct ContextCandidate {
    pub text: String,
    pub source_id: Option<SourceId>,
}

/// The word sets of the candidates' texts.
pub open spec fn candidate_sets(cs: Seq<ContextCandidate>) -> Seq<Set<Seq<char>>> {
    cs.map_values(|c: ContextCandidate| word_set_spec(c.text@))
}

/// Whether the word set `w` is a near duplicate of the word set of one of
/// the candidates at positions `kept`.
pub open spec fn duplicates_kept(sets: Seq<Set<Seq<char>>>, kept: Seq<int>, w: Set<Seq<char>>) -> bool {
    exists|j: int| 0 <= j < kept.len() && near_duplicate(sets[kept[j]], w)
}

/// The positions, among the first `n` candidates, that survive
/// near-duplicate dropping: taken in rank order, a candidate is kept
/// unless its word set is a near duplicate of one already kept.
pub open spec fn dedup_kept(sets: Seq<Set<Seq<char>>>, n: int) -> Seq<int>
    decreases n,
{
    if n <= 0 {
        seq![]
    } else {
        let kept = dedup_kept(sets, n - 1);
        if duplicates_kept(sets, kept, sets[n - 1]) {
            kept
        } else {
            kept.push(n - 1)
        }
    }
}

/// The kept positions are increasing and lie below `n`.
pub proof fn lemma_dedup_kept_sorted(sets: Seq<Set<Seq<char>>>, n: int)
    requires
        0 <= n,
    ensures
        forall|j: int| 0 <= j < dedup_kept(sets, n).len() ==> 0 <= #[trigger] dedup_kept(sets, n)[j] < n,
        forall|j: int, k: int|
            0 <= j < k < dedup_kept(sets, n).len() ==> dedup_kept(sets, n)[j] < dedup_kept(sets, n)[k],
    decreases n,
{
    if n > 0 {
        lemma_dedup_kept_sorted(sets, n - 1);
        let prev = dedup_kept(sets, n - 1);
        let cur = dedup_kept(sets, n);
        assert forall|j: int| 0 <= j < cur.len() implies 0 <= #[trigger] cur[j] < n by {
            if j < prev.len() {
                assert(cur[j] == prev[j]);
            }
        }
        assert forall|j: int, k: int| 0 <= j < k < cur.len() implies cur[j] < cur[k] by {
            if k < prev.len() {
                assert(cur[j] == prev[j] && cur[k] == prev[k]);
            } else {
                assert(cur[j] == prev[j]);
            }
        }
    }
}

/// No kept candidate is a near duplicate of a candidate kept before it.
pub proof fn lemma_dedup_kept_distinct(sets: Seq<Set<Seq<char>>>, n: int)
    requires
        0 <= n,
    ensures
        forall|j: int, k: int|
            0 <= j < k < dedup_kept(sets, n).len() ==> !near_duplicate(
                sets[#[trigger] dedup_kept(sets, n)[j]],
                sets[#[trigger] dedup_kept(sets, n)[k]],
            ),
    decreases n,
{
    if n > 0 {
        lemma_dedup_kept_distinct(sets, n - 1);
        let prev = dedup_kept(sets, n - 1);
        let cur = dedup_kept(sets, n);
        assert forall|j: int, k: int| 0 <= j < k < cur.len() implies !near_duplicate(
            sets[cur[j]],
            sets[cur[k]],
        ) by {
            if k < prev.len() {
                assert(cur[j] == prev[j] && cur[k] == prev[k]);
            } else {
                assert(cur[j] == prev[j]);
                assert(cur[k] == n - 1);
                if near_duplicate(sets[prev[j]], sets[n - 1]) {
                    assert(duplicates_kept(sets, prev, sets[n - 1]));
                }
            }
        }
    }
}

/// Every candidate that was dropped is a near duplicate of a candidate
/// ranked before it that was kept.
pub proof fn lemma_dedup_dropped_has_original(sets: Seq<Set<Seq<char>>>, n: int, i: int)
    requires
        0 <= i < n,
        !dedup_kept(sets, n).contains(i),
    ensures
        exists|j: int|
            0 <= j < dedup_kept(sets, n).len() && #[trigger] dedup_kept(sets, n)[j] < i && near_duplicate(
                sets[dedup_kept(sets, n)[j]],
                sets[i],
            ),
    decreases n,
{
    let prev = dedup_kept(sets, n - 1);
    let cur = dedup_kept(sets, n);
    lemma_dedup_kept_sorted(sets, n - 1);
    if i == n - 1 {
        if !duplicates_kept(sets, prev, sets[n - 1]) {
            assert(cur[cur.len() - 1] == i);
        }
        let j = choose|j: int| 0 <= j < prev.len() && near_duplicate(sets[prev[j]], sets[n - 1]);
        assert(cur[j] == prev[j]);
    } else {
        if prev.contains(i) {
            let m = choose|m: int| 0 <= m < prev.len() && prev[m] == i;
            assert(cur[m] == i);
        }
        lemma_dedup_dropped_has_original(sets, n - 1, i);
        let j = choose|j: int| 0 <= j < prev.len() && prev[j] < i && near_duplicate(sets[prev[j]], sets[i]);
        assert(cur[j] == prev[j]);
    }
}

/// Positions of the candidates kept by near-duplicate dropping, in rank
/// order.
pub fn dedup_near_duplicates(candidates: &Vec<ContextCandidate>) -> (kept: Vec<usize>)
    ensures
        kept@.map_values(|i: usize| i as int) == dedup_kept(candidate_sets(candidates@), candidates@.len() as int),
{
    let ghost sets = candidate_sets(candidates@);
    let mut kept: Vec<usize> = Vec::new();
    let mut kept_sets: Vec<Vec<Vec<char>>> = Vec::new();
    let mut i: usize = 0;
    while i < candidates.len()
        invariant
            i <= candidates.len(),
            sets == candidate_sets(candidates@),
            kept@.map_values(|x: usize| x as int) == dedup_kept(sets, i as int),
            kept_sets.len() == kept.len(),
            forall|j: int| 0 <= j < kept.len() ==> #[trigger] kept@[j] < i,
            forall|j: int| 0 <= j < kept_sets.len() ==> word_views((#[trigger] kept_sets@[j])@).no_duplicates(),
            forall|j: int|
                0 <= j < kept_sets.len() ==> word_views((#[trigger] kept_sets@[j])@).to_set() == sets[kept@[j] as int],
        decreases candidates.len() - i,
    {
        let words = word_set(candidates[i].text.as_str());
        assert(word_views(words@).to_set() == sets[i as int]);
        let ghost kv = kept@.map_values(|x: usize| x as int);
        let mut dup = false;
        let mut j: usize = 0;
        while j < kept_sets.len()
            invariant
                j <= kept_sets.len(),
                kept_sets.len() == kept.len(),
                kv == kept@.map_values(|x: usize| x as int),
                word_views(words@).no_duplicates(),
                word_views(words@).to_set() == sets[i as int],
                forall|m: int| 0 <= m < kept_sets.len() ==> word_views((#[trigger] kept_sets@[m])@).no_duplicates(),
                forall|m: int|
                    0 <= m < kept_sets.len() ==> word_views((#[trigger] kept_sets@[m])@).to_set() == sets[kept@[m] as int],
                dup == exists|m: int| 0 <= m < j && near_duplicate(sets[kv[m]], sets[i as int]),
            decreases kept_sets.len() - j,
        {
            let d = is_near_duplicate(&kept_sets[j], &words);
            proof {
                assert(kv[j as int] == kept@[j as int] as int);
                if d {
                    assert(near_duplicate(sets[kv[j as int]], sets[i as int]));
                }
            }
            dup = dup || d;
            j += 1;
        }
        proof {
            assert(dup == duplicates_kept(sets, kv, sets[i as int]));
        }
        if !dup {
            let ghost before = kept@;
            kept.push(i);
            kept_sets.push(words);
            proof {
                assert(kept@.map_values(|x: usize| x as int) =~= before.map_values(|x: usize| x as int).push(
                    i as int,
                ));
            }
        }
        i += 1;
    }
    kept
}

// ---------------------------------------------------------------------
// Greedy packing
// ---------------------------------------------------------------------

/// A candidate as the packer sees it: its token estimate and its source.
#[derive(Clone, Copy)]
pub struct PackItem {
    pub tokens: usize,
    pub source_id: Option<SourceId>,
}

/// The packer's state after some candidates: the positions taken, the
/// tokens they use, and the distinct sources among them.
pub struct PackState {
    pub picks: Seq<int>,
    pub used: int,
    pub seen: Set<SourceId>,
}

/// One greedy step on the candidate at position `pos`: it is taken when it
/// fits the remaining budget and either has no source, or its source was
/// already taken, or fewer than `max_sources` sources were taken so far.
pub open spec fn pack_step(st: PackState, item: PackItem, pos: int, budget: int, max_sources: int) -> PackState {
    if st.used + item.tokens > budget {
        st
    } else {
        match item.source_id {
            Some(s) => if !st.seen.contains(s) && st.seen.len() >= max_sources {
                st
            } else {
                PackState { picks: st.picks.push(pos), used: st.used + item.tokens, seen: st.seen.insert(s) }
            },
            None => PackState { picks: st.picks.push(pos), used: st.used + item.tokens, seen: st.seen },
        }
    }
}

/// The packer's state after the first `n` candidates, taken in rank order.
pub open spec fn pack_state(items: Seq<PackItem>, budget: int, max_sources: int, n: int) -> PackState
    decreases n,
{
    if n <= 0 {
        PackState { picks: seq![], used: 0, seen: Set::empty() }
    } else {
        pack_step(pack_state(items, budget, max_sources, n - 1), items[n - 1], n - 1, budget, max_sources)
    }
}

/// The tokens of the candidates at positions `picks`, summed.
pub open spec fn picked_tokens(items: Seq<PackItem>, picks: Seq<int>) -> int
    decreases picks.len(),
{
    if picks.len() == 0 {
        0
    } else {
        picked_tokens(items, picks.drop_last()) + items[picks.last()].tokens
    }
}

/// The distinct sources of the candidates at positions `picks`.
pub open spec fn picked_sources(items: Seq<PackItem>, picks: Seq<int>) -> Set<SourceId>
    decreases picks.len(),
{
    if picks.len() == 0 {
        Set::empty()
    } else {
        match items[picks.last()].source_id {
            Some(s) => picked_sources(items, picks.drop_last()).insert(s),
            None => picked_sources(items, picks.drop_last()),
        }
    }
}

/// Greedy packing stays within the token budget and the cap on distinct
/// sources: the tokens used are those of the candidates taken and never
/// exceed `budget`; the sources seen are those of the candidates taken,
/// and there are at most `max_sources` of them. The positions taken are
/// increasing, so rank order is kept.
pub proof fn lemma_pack_bounds(items: Seq<PackItem>, budget: int, max_sources: int, n: int)
    requires
        0 <= n <= items.len(),
        0 <= budget,
        0 <= max_sources,
    ensures
        pack_state(items, budget, max_sources, n).used == picked_tokens(
            items,
            pack_state(items, budget, max_sources, n).picks,
        ),
        pack_state(items, budget, max_sources, n).used <= budget,
        pack_state(items, budget, max_sources, n).seen == picked_sources(
            items,
            pack_state(items, budget, max_sources, n).picks,
        ),
        pack_state(items, budget, max_sources, n).seen.finite(),
        pack_state(items, budget, max_sources, n).seen.len() <= max_sources,
        forall|j: int|
            0 <= j < pack_state(items, budget, max_sources, n).picks.len() ==> 0
                <= #[trigger] pack_state(items, budget, max_sources, n).picks[j] < n,
        forall|j: int, k: int|
            0 <= j < k < pack_state(items, budget, max_sources, n).picks.len() ==> pack_state(
                items,
                budget,
                max_sources,
                n,
            ).picks[j] < pack_state(items, budget, max_sources, n).picks[k],
    decreases n,
{
    if n > 0 {
        lemma_pack_bounds(items, budget, max_sources, n - 1);
        let st = pack_state(items, budget, max_sources, n - 1);
        let nx = pack_state(items, budget, max_sources, n);
        if nx.picks.len() > st.picks.len() {
            assert(nx.picks.drop_last() == st.picks);
            assert(nx.picks.last() == n - 1);
            assert forall|j: int| 0 <= j < nx.picks.len() implies 0 <= #[trigger] nx.picks[j] < n by {
                if j < st.picks.len() {
                    assert(nx.picks[j] == st.picks[j]);
                }
            }
            assert forall|j: int, k: int| 0 <= j < k < nx.picks.len() implies nx.picks[j] < nx.picks[k] by {
                assert(nx.picks[j] == st.picks[j]);
                if k < st.picks.len() {
                    assert(nx.picks[k] == st.picks[k]);
                }
            }
            match items[n - 1].source_id {
                Some(s) => {
                    if !st.seen.contains(s) {
                        assert(st.seen.len() < max_sources);
                    } else {
                        assert(st.seen.insert(s) == st.seen);
                    }
                },
                None => {},
            }
        }
    }
}

/// The result of greedy packing: the positions taken, in rank order, and
/// the tokens they use.
pub struct PackResult {
    pub picks: Vec<usize>,
    pub tokens_used: usize,
}

/// Whether `s` is one of `seen`.
fn contains_source(seen: &Vec<SourceId>, s: SourceId) -> (r: bool)
    ensures
        r == seen@.contains(s),
{
    let mut i: usize = 0;
    while i < seen.len()
        invariant
            i <= seen.len(),
            forall|k: int| 0 <= k < i ==> seen@[k] != s,
        decreases seen.len() - i,
    {
        if seen[i].0 == s.0 {
            assert(seen@[i as int] == s);
            return true;
        }
        i += 1;
    }
    false
}

/// Greedily packs ranked candidates: each, in rank order, is taken when it
/// fits the tokens left of `budget` and either its source is already
/// included or fewer than `max_sources` distinct sources are; candidates
/// without a source do not count against the cap. This is not an optimal
/// knapsack: after a candidate that does not fit, later smaller ones may
/// still be taken.
pub fn greedy_pack(items: &Vec<PackItem>, budget: usize, max_sources: usize) -> (r: PackResult)
    ensures
        r.picks@.map_values(|i: usize| i as int) == pack_state(
            items@,
            budget as int,
            max_sources as int,
            items@.len() as int,
        ).picks,
        r.tokens_used == pack_state(items@, budget as int, max_sources as int, items@.len() as int).used,
{
    let mut picks: Vec<usize> = Vec::new();
    let mut used: usize = 0;
    let mut seen: Vec<SourceId> = Vec::new();
    let mut i: usize = 0;
    while i < items.len()
        invariant
            i <= items.len(),
            picks@.map_values(|x: usize| x as int) == pack_state(items@, budget as int, max_sources as int, i as int).picks,
            used == pack_state(items@, budget as int, max_sources as int, i as int).used,
            seen@.to_set() == pack_state(items@, budget as int, max_sources as int, i as int).seen,
            seen@.no_duplicates(),
            used <= budget,
        decreases items.len() - i,
    {
        proof {
            lemma_pack_bounds(items@, budget as int, max_sources as int, i as int);
        }
        let item = items[i];
        let ghost before = picks@;
        if item.tokens <= budget - used {
            match item.source_id {
                Some(s) => {
                    let known = contains_source(&seen, s);
                    proof {
                        seen@.unique_seq_to_set();
                    }
                    if known || seen.len() < max_sources {
                        if !known {
                            proof {
                                seen@.lemma_push_to_set_commute(s);
                            }
                            seen.push(s);
                        } else {
                            assert(seen@.to_set().insert(s) =~= seen@.to_set());
                        }
                        picks.push(i);
                        used = used + item.tokens;
                        assert(picks@.map_values(|x: usize| x as int) =~= before.map_values(
                            |x: usize| x as int,
                        ).push(i as int));
                    }
                },
                None => {
                    picks.push(i);
                    used = used + item.tokens;
                    assert(picks@.map_values(|x: usize| x as int) =~= before.map_values(|x: usize| x as int).push(
                        i as int,
                    ));
                },
            }
        }
        i += 1;
    }
    PackResult { picks, tokens_used: used }
}

// ---------------------------------------------------------------------
// Selection: near-duplicate dropping, then greedy packing
// ---------------------------------------------------------------------

/// A candidate chosen for the context: its position among the ranked
/// candidates and its token estimate.
#[derive(Clone, Copy)]
pub struct SelectedCandidate {
    pub index: usize,
    pub tokens: usize,
}

/// The candidates chosen for a context, in rank order, and the tokens
/// they use together.
pub struct ContextSelection {
    pub selected: Vec<SelectedCandidate>,
    pub tokens_used: usize,
}

/// The packer's view of the kept candidates.
pub open spec fn pack_items(cs: Seq<ContextCandidate>, kept: Seq<int>) -> Seq<PackItem> {
    kept.map_values(
        |i: int| PackItem { tokens: tokens_for(cs[i].text@.len()) as usize, source_id: cs[i].source_id },
    )
}

/// The selection as the specification sees it: each chosen candidate's
/// position and token estimate, and the tokens used.
pub open spec fn selection_spec(cs: Seq<ContextCandidate>, budget: int, max_sources: int) -> (Seq<(int, int)>, int) {
    let kept = dedup_kept(candidate_sets(cs), cs.len() as int);
    let items = pack_items(cs, kept);
    let st = pack_state(items, budget, max_sources, items.len() as int);
    (st.picks.map_values(|p: int| (kept[p], items[p].tokens as int)), st.used)
}

pub open spec fn selection_view(sel: Seq<SelectedCandidate>) -> Seq<(int, int)> {
    sel.map_values(|c: SelectedCandidate| (c.index as int, c.tokens as int))
}

/// Chooses the candidates of a context from a ranked candidate list:
/// drops every candidate whose text is a near duplicate of a
/// higher-ranked kept one, then greedily packs the rest, in rank order,
/// into `token_budget` tokens while spreading over at most `max_sources`
/// distinct sources.
pub fn select_context(candidates: &Vec<ContextCandidate>, token_budget: usize, max_sources: usize) -> (r:
    ContextSelection)
    ensures
        selection_view(r.selected@) == selection_spec(candidates@, token_budget as int, max_sources as int).0,
        r.tokens_used == selection_spec(candidates@, token_budget as int, max_sources as int).1,
{
    let kept = dedup_near_duplicates(candidates);
    let ghost kv = kept@.map_values(|x: usize| x as int);
    proof {
        lemma_dedup_kept_sorted(candidate_sets(candidates@), candidates@.len() as int);
    }
    let mut items: Vec<PackItem> = Vec::new();
    let mut i: usize = 0;
    while i < kept.len()
        invariant
            i <= kept.len(),
            kv == kept@.map_values(|x: usize| x as int),
            kv == dedup_kept(candidate_sets(candidates@), candidates@.len() as int),
            forall|j: int| 0 <= j < kv.len() ==> 0 <= #[trigger] kv[j] < candidates@.len(),
            items@ == pack_items(candidates@, kv).take(i as int),
        decreases kept.len() - i,
    {
        let c = &candidates[kept[i]];
        let t = estimate_tokens(c.text.as_str());
        let item = PackItem { tokens: t, source_id: c.source_id };
        proof {
            assert(kv[i as int] == kept@[i as int] as int);
            assert(pack_items(candidates@, kv)[i as int] == item);
            assert(pack_items(candidates@, kv).take(i + 1) == pack_items(candidates@, kv).take(
                i as int,
            ).push(item));
        }
        items.push(item);
        i += 1;
    }
    assert(pack_items(candidates@, kv).take(kept.len() as int) == pack_items(candidates@, kv));
    let packed = greedy_pack(&items, token_budget, max_sources);
    let ghost pv = packed.picks@.map_values(|x: usize| x as int);
    proof {
        lemma_pack_bounds(items@, token_budget as int, max_sources as int, items@.len() as int);
    }
    let mut selected: Vec<SelectedCandidate> = Vec::new();
    let mut k: usize = 0;
    while k < packed.picks.len()
        invariant
            k <= packed.picks.len(),
            kv == kept@.map_values(|x: usize| x as int),
            items@ == pack_items(candidates@, kv),
            items@.len() == kept@.len(),
            pv == packed.picks@.map_values(|x: usize| x as int),
            pv == pack_state(items@, token_budget as int, max_sources as int, items@.len() as int).picks,
            forall|j: int| 0 <= j < pv.len() ==> 0 <= #[trigger] pv[j] < items@.len(),
            selection_view(selected@) == pv.take(k as int).map_values(|p: int| (kv[p], items@[p].tokens as int)),
        decreases packed.picks.len() - k,
    {
        let p = packed.picks[k];
        assert(pv[k as int] == p as int);
        let sc = SelectedCandidate { index: kept[p], tokens: items[p].tokens };
        let ghost before = selected@;
        selected.push(sc);
        proof {
            assert(pv.take(k + 1) == pv.take(k as int).push(p as int));
            assert(selection_view(selected@) =~= selection_view(before).push((kv[p as int], items@[p as int].tokens as int)));
            assert(pv.take(k + 1).map_values(|q: int| (kv[q], items@[q].tokens as int)) =~= pv.take(
                k as int,
            ).map_values(|q: int| (kv[q], items@[q].tokens as int)).push((kv[p as int], items@[p as int].tokens as int)));
        }
        k += 1;
    }
    assert(pv.take(packed.picks.len() as int) == pv);
    ContextSelection { selected, tokens_used: packed.tokens_used }
}

/// The token estimates of a selection, summed.
pub open spec fn selection_tokens(sel: Seq<(int, int)>) -> int
    decreases sel.len(),
{
    if sel.len() == 0 {
        0
    } else {
        selection_tokens(sel.drop_last()) + sel.last().1
    }
}

/// The distinct sources of the selected candidates.
pub open spec fn selection_sources(cs: Seq<ContextCandidate>, sel: Seq<(int, int)>) -> Set<SourceId>
    decreases sel.len(),
{
    if sel.len() == 0 {
        Set::empty()
    } else {
        match cs[sel.last().0].source_id {
            Some(s) => selection_sources(cs, sel.drop_last()).insert(s),
            None => selection_sources(cs, sel.drop_last()),
        }
    }
}

proof fn lemma_selection_sums(cs: Seq<ContextCandidate>, kept: Seq<int>, picks: Seq<int>)
    requires
        forall|j: int| 0 <= j < picks.len() ==> 0 <= #[trigger] picks[j] < kept.len(),
    ensures
        selection_tokens(picks.map_values(|p: int| (kept[p], pack_items(cs, kept)[p].tokens as int)))
            == picked_tokens(pack_items(cs, kept), picks),
        selection_sources(cs, picks.map_values(|p: int| (kept[p], pack_items(cs, kept)[p].tokens as int)))
            == picked_sources(pack_items(cs, kept), picks),
    decreases picks.len(),
{
    let items = pack_items(cs, kept);
    if picks.len() > 0 {
        let sel = picks.map_values(|p: int| (kept[p], items[p].tokens as int));
        lemma_selection_sums(cs, kept, picks.drop_last());
        assert(sel.drop_last() =~= picks.drop_last().map_values(|p: int| (kept[p], items[p].tokens as int)));
        assert(sel.last() == (kept[picks.last()], items[picks.last()].tokens as int));
        assert(items[picks.last()].source_id == cs[kept[picks.last()]].source_id);
    }
}

/// What a selection promises. The token estimates of the chosen
/// candidates add up to the tokens used, which never exceed the budget;
/// each chosen candidate carries the estimate of its own text; the chosen
/// candidates come from at most `max_sources` distinct sources; they keep
/// their rank order; and no two of them are near duplicates.
pub proof fn lemma_selection_bounds(cs: Seq<ContextCandidate>, budget: int, max_sources: int)
    requires
        0 <= budget,
        0 <= max_sources,
        forall|i: int| 0 <= i < cs.len() ==> tokens_for((#[trigger] cs[i]).text@.len()) <= usize::MAX,
    ensures
        ({
            let (sel, used) = selection_spec(cs, budget, max_sources);
            &&& used == selection_tokens(sel)
            &&& used <= budget
            &&& forall|j: int|
                0 <= j < sel.len() ==> 0 <= (#[trigger] sel[j]).0 < cs.len() && sel[j].1 == tokens_for(
                    cs[sel[j].0].text@.len(),
                )
            &&& selection_sources(cs, sel).finite()
            &&& selection_sources(cs, sel).len() <= max_sources
            &&& forall|j: int, k: int| 0 <= j < k < sel.len() ==> sel[j].0 < sel[k].0
            &&& forall|j: int, k: int|
                0 <= j < k < sel.len() ==> !near_duplicate(
                    candidate_sets(cs)[#[trigger] sel[j].0],
                    candidate_sets(cs)[#[trigger] sel[k].0],
                )
        }),
{
    let sets = candidate_sets(cs);
    let kept = dedup_kept(sets, cs.len() as int);
    let items = pack_items(cs, kept);
    let st = pack_state(items, budget, max_sources, items.len() as int);
    let sel = st.picks.map_values(|p: int| (kept[p], items[p].tokens as int));
    lemma_dedup_kept_sorted(sets, cs.len() as int);
    lemma_dedup_kept_distinct(sets, cs.len() as int);
    lemma_pack_bounds(items, budget, max_sources, items.len() as int);
    lemma_selection_sums(cs, kept, st.picks);
    assert forall|j: int| 0 <= j < sel.len() implies 0 <= (#[trigger] sel[j]).0 < cs.len() && sel[j].1
        == tokens_for(cs[sel[j].0].text@.len()) by {
        let p = st.picks[j];
        assert(sel[j] == (kept[p], items[p].tokens as int));
        assert(0 <= kept[p] < cs.len());
        assert(items[p].tokens == tokens_for(cs[kept[p]].text@.len()) as usize);
    }
    assert forall|j: int, k: int| 0 <= j < k < sel.len() implies sel[j].0 < sel[k].0 by {
        assert(st.picks[j] < st.picks[k]);
    }
    assert forall|j: int, k: int| 0 <= j < k < sel.len() implies !near_duplicate(
        sets[#[trigger] sel[j].0],
        sets[#[trigger] sel[k].0],
    ) by {
        let pj = st.picks[j];
        let pk = st.picks[k];
        assert(pj < pk);
        assert(sel[j].0 == kept[pj] && sel[k].0 == kept[pk]);
    }
}

// ---------------------------------------------------------------------
// Neighbour expansion
// ---------------------------------------------------------------------

/// A chunk next to a packed chunk in its document: its id and text.
pub struct NeighborChunk {
    pub id: ChunkId,
    pub text: String,
}

/// A packed hit as neighbour expansion sees it: the chunk id of the hit
/// (`None` for a message), and the chunks just before and just after it
/// in its document, where there are such chunks. Messages, and hits whose
/// chunk can no longer be found, have neither.
pub struct ExpansionEntry {
    pub chunk_id: Option<ChunkId>,
    pub prev: Option<NeighborChunk>,
    pub next: Option<NeighborChunk>,
}

/// One element of the expanded context: the previous neighbour of the
/// packed hit at a position, with its token estimate; the packed hit
/// itself; or its next neighbour, with its token estimate.
#[derive(Clone, Copy, PartialEq, Eq, Structural, Debug)]
pub enum ExpansionStep {
    Prev(usize, usize),
    Selected(usize),
    Next(usize, usize),
}

/// The ids of the packed chunks among the first `n` entries.
pub open spec fn packed_ids(entries: Seq<ExpansionEntry>, n: int) -> Set<ChunkId>
    decreases n,
{
    if n <= 0 {
        Set::empty()
    } else {
        match entries[n - 1].chunk_id {
            Some(id) => packed_ids(entries, n - 1).insert(id),
            None => packed_ids(entries, n - 1),
        }
    }
}

/// The expansion state: the steps so far, the chunk ids included, and the
/// tokens used.
pub struct ExpansionState {
    pub steps: Seq<ExpansionStep>,
    pub included: Set<ChunkId>,
    pub used: int,
}

/// The token estimate of a neighbour, where it is added: when it is not
/// already included and fits the tokens left of the budget.
pub open spec fn neighbor_fit(n: Option<NeighborChunk>, included: Set<ChunkId>, used: int, budget: int) -> Option<int> {
    match n {
        Some(c) => if !included.contains(c.id) && used + tokens_for(c.text@.len()) <= budget {
            Some(tokens_for(c.text@.len()) as int)
        } else {
            None
        },
        None => None,
    }
}

/// The expansion around the packed hit at position `k`: its previous
/// neighbour is tried first, then its next one, each against the ids and
/// budget left by what came before.
pub open spec fn expansion_step(st: ExpansionState, e: ExpansionEntry, k: int, budget: int) -> ExpansionState {
    let p = neighbor_fit(e.prev, st.included, st.used, budget);
    let inc1 = if p is Some { st.included.insert(e.prev->0.id) } else { st.included };
    let used1 = if p is Some { st.used + p->0 } else { st.used };
    let nx = neighbor_fit(e.next, inc1, used1, budget);
    let inc2 = if nx is Some { inc1.insert(e.next->0.id) } else { inc1 };
    let used2 = if nx is Some { used1 + nx->0 } else { used1 };
    let before = if p is Some { seq![ExpansionStep::Prev(k as usize, p->0 as usize)] } else { seq![] };
    let after = if nx is Some { seq![ExpansionStep::Next(k as usize, nx->0 as usize)] } else { seq![] };
    ExpansionState {
        steps: st.steps + before + seq![ExpansionStep::Selected(k as usize)] + after,
        included: inc2,
        used: used2,
    }
}

/// The expansion after the first `n` packed hits, starting from `used`
/// tokens and the ids of all packed chunks.
pub open spec fn expansion_state(entries: Seq<ExpansionEntry>, used: int, budget: int, n: int) -> ExpansionState
    decreases n,
{
    if n <= 0 {
        ExpansionState { steps: seq![], included: packed_ids(entries, entries.len() as int), used }
    } else {
        expansion_step(expansion_state(entries, used, budget, n - 1), entries[n - 1], n - 1, budget)
    }
}

/// The neighbour a step adds, if it adds one.
pub open spec fn step_neighbor(entries: Seq<ExpansionEntry>, s: ExpansionStep) -> Option<ChunkId> {
    match s {
        ExpansionStep::Prev(k, _) => Some(entries[k as int].prev->0.id),
        ExpansionStep::Next(k, _) => Some(entries[k as int].next->0.id),
        ExpansionStep::Selected(_) => None,
    }
}

/// The token estimates of the neighbours among `steps`, summed.
pub open spec fn neighbor_tokens(steps: Seq<ExpansionStep>) -> int
    decreases steps.len(),
{
    if steps.len() == 0 {
        0
    } else {
        neighbor_tokens(steps.drop_last()) + match steps.last() {
            ExpansionStep::Prev(_, t) => t as int,
            ExpansionStep::Next(_, t) => t as int,
            ExpansionStep::Selected(_) => 0,
        }
    }
}

/// The packed hits among `steps`, in order.
pub open spec fn selected_order(steps: Seq<ExpansionStep>) -> Seq<int>
    decreases steps.len(),
{
    if steps.len() == 0 {
        seq![]
    } else {
        match steps.last() {
            ExpansionStep::Selected(k) => selected_order(steps.drop_last()).push(k as int),
            _ => selected_order(steps.drop_last()),
        }
    }
}

proof fn lemma_steps_concat(a: Seq<ExpansionStep>, b: Seq<ExpansionStep>)
    ensures
        neighbor_tokens(a + b) == neighbor_tokens(a) + neighbor_tokens(b),
        selected_order(a + b) == selected_order(a) + selected_order(b),
    decreases b.len(),
{
    if b.len() == 0 {
        assert(a + b == a);
        assert(selected_order(a) + selected_order(b) == selected_order(a));
    } else {
        lemma_steps_concat(a, b.drop_last());
        assert((a + b).drop_last() == a + b.drop_last());
        assert((a + b).last() == b.last());
        match b.last() {
            ExpansionStep::Selected(k) => {
                assert(selected_order(a) + selected_order(b) == (selected_order(a) + selected_order(
                    b.drop_last(),
                )).push(k as int));
            },
            _ => {},
        }
    }
}

/// What neighbour expansion promises, given packed hits using at most
/// `budget` tokens. The tokens used afterwards are those of the packed
/// hits plus those of the added neighbours, and never exceed the budget;
/// every packed hit appears exactly once, in its original order; no added
/// neighbour is one of the packed chunks; and no chunk is added twice.
pub proof fn lemma_expansion_bounds(entries: Seq<ExpansionEntry>, used: int, budget: int, n: int)
    requires
        0 <= n <= entries.len() <= usize::MAX,
        0 <= used <= budget <= usize::MAX,
    ensures
        ({
            let st = expansion_state(entries, used, budget, n);
            &&& st.used == used + neighbor_tokens(st.steps)
            &&& used <= st.used <= budget
            &&& selected_order(st.steps) == Seq::new(n as nat, |i: int| i)
            &&& packed_ids(entries, entries.len() as int).subset_of(st.included)
            &&& forall|a: int|
                0 <= a < st.steps.len() && #[trigger] step_neighbor(entries, st.steps[a]) is Some
                    ==> st.included.contains(step_neighbor(entries, st.steps[a])->0)
            &&& forall|a: int|
                0 <= a < st.steps.len() && #[trigger] step_neighbor(entries, st.steps[a]) is Some
                    ==> !packed_ids(entries, entries.len() as int).contains(
                    step_neighbor(entries, st.steps[a])->0,
                )
            &&& forall|a: int, b: int|
                0 <= a < b < st.steps.len() && #[trigger] step_neighbor(entries, st.steps[a]) is Some
                    && #[trigger] step_neighbor(entries, st.steps[b]) is Some ==> step_neighbor(
                    entries,
                    st.steps[a],
                )->0 != step_neighbor(entries, st.steps[b])->0
        }),
    decreases n,
{
    let packed = packed_ids(entries, entries.len() as int);
    if n == 0 {
        assert(Seq::new(0, |i: int| i) =~= Seq::<int>::empty());
    } else {
        lemma_expansion_bounds(entries, used, budget, n - 1);
        let st = expansion_state(entries, used, budget, n - 1);
        let k = n - 1;
        let e = entries[k];
        let p = neighbor_fit(e.prev, st.included, st.used, budget);
        let inc1 = if p is Some { st.included.insert(e.prev->0.id) } else { st.included };
        let used1 = if p is Some { st.used + p->0 } else { st.used };
        let nx = neighbor_fit(e.next, inc1, used1, budget);
        let before: Seq<ExpansionStep> = if p is Some { seq![ExpansionStep::Prev(k as usize, p->0 as usize)] } else { seq![] };
        let after: Seq<ExpansionStep> = if nx is Some { seq![ExpansionStep::Next(k as usize, nx->0 as usize)] } else { seq![] };
        let mid: Seq<ExpansionStep> = seq![ExpansionStep::Selected(k as usize)];
        let st2 = expansion_state(entries, used, budget, n);
        assert(st2.steps == st.steps + before + mid + after);
        lemma_steps_concat(st.steps, before);
        lemma_steps_concat(st.steps + before, mid);
        lemma_steps_concat(st.steps + before + mid, after);
        assert(neighbor_tokens(mid) == 0) by {
            assert(mid.drop_last() =~= Seq::<ExpansionStep>::empty());
            assert(mid.last() == ExpansionStep::Selected(k as usize));
            assert(neighbor_tokens(Seq::<ExpansionStep>::empty()) == 0);
        }
        if p is Some {
            assert(0 <= p->0 <= budget);
        }
        if nx is Some {
            assert(0 <= nx->0 <= budget);
        }
        assert(selected_order(mid) == seq![k]) by {
            assert(mid.drop_last() =~= Seq::<ExpansionStep>::empty());
            assert(mid.last() == ExpansionStep::Selected(k as usize));
            assert(selected_order(Seq::<ExpansionStep>::empty()) =~= Seq::<int>::empty());
            assert(seq![k] =~= Seq::<int>::empty().push(k));
        }
        if p is Some {
            assert(before.drop_last() =~= Seq::<ExpansionStep>::empty());
            assert(before.last() == ExpansionStep::Prev(k as usize, p->0 as usize));
            assert(neighbor_tokens(Seq::<ExpansionStep>::empty()) == 0);
            assert(neighbor_tokens(before) == p->0);
            assert(selected_order(Seq::<ExpansionStep>::empty()) =~= Seq::<int>::empty());
            assert(selected_order(before) =~= Seq::<int>::empty());
        } else {
            assert(selected_order(before) =~= Seq::<int>::empty());
        }
        if nx is Some {
            assert(after.drop_last() =~= Seq::<ExpansionStep>::empty());
            assert(after.last() == ExpansionStep::Next(k as usize, nx->0 as usize));
            assert(neighbor_tokens(Seq::<ExpansionStep>::empty()) == 0);
            assert(neighbor_tokens(after) == nx->0);
            assert(selected_order(after) =~= Seq::<int>::empty());
        } else {
            assert(selected_order(after) =~= Seq::<int>::empty());
        }
        assert(selected_order(st2.steps) =~= Seq::new(n as nat, |i: int| i));
        let s2 = st2.steps;
        let base = st.steps.len();
        assert forall|a: int|
            0 <= a < s2.len() && #[trigger] step_neighbor(entries, s2[a]) is Some
                implies st2.included.contains(step_neighbor(entries, s2[a])->0)
                && !packed.contains(step_neighbor(entries, s2[a])->0) by {
            if a < base {
                assert(s2[a] == st.steps[a]);
            } else if p is Some && a == base {
                assert(s2[a] == ExpansionStep::Prev(k as usize, p->0 as usize));
            } else if nx is Some && a == s2.len() - 1 {
                assert(s2[a] == ExpansionStep::Next(k as usize, nx->0 as usize));
            } else {
                assert(s2[a] == ExpansionStep::Selected(k as usize));
            }
        }
        assert forall|a: int, b: int|
            0 <= a < b < s2.len() && #[trigger] step_neighbor(entries, s2[a]) is Some
                && #[trigger] step_neighbor(entries, s2[b]) is Some implies step_neighbor(entries, s2[a])->0
                != step_neighbor(entries, s2[b])->0 by {
            if b < base {
                assert(s2[a] == st.steps[a] && s2[b] == st.steps[b]);
            } else if p is Some && b == base {
                assert(s2[a] == st.steps[a]);
                assert(s2[b] == ExpansionStep::Prev(k as usize, p->0 as usize));
            } else if nx is Some && b == s2.len() - 1 {
                assert(s2[b] == ExpansionStep::Next(k as usize, nx->0 as usize));
                if a < base {
                    assert(s2[a] == st.steps[a]);
                } else if p is Some && a == base {
                    assert(s2[a] == ExpansionStep::Prev(k as usize, p->0 as usize));
                } else {
                    assert(s2[a] == ExpansionStep::Selected(k as usize));
                }
            } else {
                assert(s2[b] == ExpansionStep::Selected(k as usize));
            }
        }
    }
}

/// The packed hit a step belongs to.
pub open spec fn step_hit(s: ExpansionStep) -> int {
    match s {
        ExpansionStep::Prev(k, _) => k as int,
        ExpansionStep::Selected(k) => k as int,
        ExpansionStep::Next(k, _) => k as int,
    }
}

proof fn lemma_expansion_hits(entries: Seq<ExpansionEntry>, used: int, budget: int, n: int)
    requires
        0 <= n <= entries.len() <= usize::MAX,
    ensures
        forall|a: int|
            0 <= a < expansion_state(entries, used, budget, n).steps.len() ==> 0 <= step_hit(
                #[trigger] expansion_state(entries, used, budget, n).steps[a],
            ) < n,
    decreases n,
{
    if n > 0 {
        lemma_expansion_hits(entries, used, budget, n - 1);
        let sp = expansion_state(entries, used, budget, n - 1).steps;
        let sn = expansion_state(entries, used, budget, n).steps;
        assert forall|a: int| 0 <= a < sn.len() implies 0 <= step_hit(#[trigger] sn[a]) < n by {
            if a < sp.len() {
                assert(sn[a] == sp[a]);
            }
        }
    }
}

proof fn lemma_expansion_prefix(entries: Seq<ExpansionEntry>, used: int, budget: int, m: int, n: int)
    requires
        0 <= m <= n <= entries.len() <= usize::MAX,
    ensures
        ({
            let sm = expansion_state(entries, used, budget, m).steps;
            let sn = expansion_state(entries, used, budget, n).steps;
            &&& sm.len() <= sn.len()
            &&& sn.subrange(0, sm.len() as int) == sm
            &&& forall|a: int| sm.len() <= a < sn.len() ==> step_hit(#[trigger] sn[a]) >= m
        }),
    decreases n,
{
    let sm = expansion_state(entries, used, budget, m).steps;
    let sn = expansion_state(entries, used, budget, n).steps;
    if n == m {
        assert(sn.subrange(0, sm.len() as int) =~= sm);
    } else {
        lemma_expansion_prefix(entries, used, budget, m, n - 1);
        let sp = expansion_state(entries, used, budget, n - 1).steps;
        assert forall|a: int| sp.len() <= a < sn.len() implies step_hit(#[trigger] sn[a]) == n - 1 by {}
        assert(sn.subrange(0, sm.len() as int) =~= sp.subrange(0, sm.len() as int));
        assert forall|a: int| sm.len() <= a < sn.len() implies step_hit(#[trigger] sn[a]) >= m by {
            if a < sp.len() {
                assert(sn[a] == sp[a]);
            }
        }
    }
}

proof fn lemma_expansion_included(entries: Seq<ExpansionEntry>, used: int, budget: int, m: int)
    requires
        0 <= m <= entries.len() <= usize::MAX,
    ensures
        forall|x: ChunkId|
            #[trigger] expansion_state(entries, used, budget, m).included.contains(x) ==> packed_ids(
                entries,
                entries.len() as int,
            ).contains(x) || exists|a: int|
                0 <= a < expansion_state(entries, used, budget, m).steps.len() && step_neighbor(
                    entries,
                    #[trigger] expansion_state(entries, used, budget, m).steps[a],
                ) == Some(x),
    decreases m,
{
    if m > 0 {
        lemma_expansion_included(entries, used, budget, m - 1);
        let st = expansion_state(entries, used, budget, m - 1);
        let st2 = expansion_state(entries, used, budget, m);
        let k = m - 1;
        let e = entries[k];
        let p = neighbor_fit(e.prev, st.included, st.used, budget);
        let inc1 = if p is Some { st.included.insert(e.prev->0.id) } else { st.included };
        let used1 = if p is Some { st.used + p->0 } else { st.used };
        let nx = neighbor_fit(e.next, inc1, used1, budget);
        let base = st.steps.len();
        let plen: int = if p is Some { 1 } else { 0 };
        assert forall|x: ChunkId| #[trigger] st2.included.contains(x) implies packed_ids(
            entries,
            entries.len() as int,
        ).contains(x) || exists|a: int|
            0 <= a < st2.steps.len() && step_neighbor(entries, #[trigger] st2.steps[a]) == Some(x) by {
            if st.included.contains(x) {
                if !packed_ids(entries, entries.len() as int).contains(x) {
                    let a = choose|a: int|
                        0 <= a < st.steps.len() && step_neighbor(entries, #[trigger] st.steps[a]) == Some(x);
                    assert(st2.steps[a] == st.steps[a]);
                }
            } else if p is Some && x == e.prev->0.id {
                assert(st2.steps[base as int] == ExpansionStep::Prev(k as usize, p->0 as usize));
                assert(step_neighbor(entries, st2.steps[base as int]) == Some(x));
            } else {
                assert(nx is Some && x == e.next->0.id);
                assert(st2.steps[base + plen + 1] == ExpansionStep::Next(k as usize, nx->0 as usize));
                assert(step_neighbor(entries, st2.steps[base + plen + 1]) == Some(x));
            }
        }
    }
}

/// Expansion is complete for next neighbours: wherever the expanded
/// context holds a packed hit at position `j`, and that hit has a next
/// neighbour that is not a packed chunk, is not among the neighbours
/// already added before position `j`, and fits the tokens left after
/// everything before position `j` (the packed hits' tokens, the earlier
/// neighbours and the hit's own previous neighbour), that next neighbour
/// comes right after the hit, with its token estimate, whether or not the
/// hit has a previous neighbour.
pub proof fn lemma_expansion_adds_fitting_next(
    entries: Seq<ExpansionEntry>,
    used: int,
    budget: int,
    n: int,
    j: int,
)
    requires
        0 <= n <= entries.len() <= usize::MAX,
        0 <= used <= budget <= usize::MAX,
        0 <= j < expansion_state(entries, used, budget, n).steps.len(),
        expansion_state(entries, used, budget, n).steps[j] is Selected,
    ensures
        ({
            let steps = expansion_state(entries, used, budget, n).steps;
            let k = step_hit(steps[j]);
            entries[k].next matches Some(c) ==> (!packed_ids(entries, entries.len() as int).contains(c.id)
                && (forall|a: int| 0 <= a < j ==> step_neighbor(entries, #[trigger] steps[a]) != Some(c.id))
                && used + neighbor_tokens(steps.take(j)) + tokens_for(c.text@.len()) <= budget ==> j + 1
                < steps.len() && steps[j + 1] == ExpansionStep::Next(
                k as usize,
                tokens_for(c.text@.len()) as usize,
            ))
        }),
{
    let steps = expansion_state(entries, used, budget, n).steps;
    let k = step_hit(steps[j]);
    lemma_expansion_hits(entries, used, budget, n);
    assert(0 <= k < n);
    lemma_expansion_prefix(entries, used, budget, k, n);
    lemma_expansion_prefix(entries, used, budget, k + 1, n);
    lemma_expansion_hits(entries, used, budget, k);
    lemma_expansion_bounds(entries, used, budget, k);
    lemma_expansion_included(entries, used, budget, k);
    let st = expansion_state(entries, used, budget, k);
    let st1 = expansion_state(entries, used, budget, k + 1);
    let e = entries[k];
    let p = neighbor_fit(e.prev, st.included, st.used, budget);
    let inc1 = if p is Some { st.included.insert(e.prev->0.id) } else { st.included };
    let used1 = if p is Some { st.used + p->0 } else { st.used };
    let nx = neighbor_fit(e.next, inc1, used1, budget);
    let before: Seq<ExpansionStep> = if p is Some { seq![ExpansionStep::Prev(k as usize, p->0 as usize)] } else { seq![] };
    let after: Seq<ExpansionStep> = if nx is Some { seq![ExpansionStep::Next(k as usize, nx->0 as usize)] } else { seq![] };
    let mid: Seq<ExpansionStep> = seq![ExpansionStep::Selected(k as usize)];
    assert(st1.steps == st.steps + before + mid + after);
    let big_j = (st.steps.len() + before.len()) as int;
    assert(steps.subrange(0, st1.steps.len() as int) == st1.steps);
    assert(steps.subrange(0, st.steps.len() as int) == st.steps);
    // The hit's own position is the one block of hit `k` that is `Selected`.
    if j < st.steps.len() {
        assert(steps[j] == st.steps[j]);
        assert(step_hit(st.steps[j]) < k);
    }
    assert(j < st1.steps.len());
    assert(steps[j] == st1.steps[j]);
    if p is Some && j == st.steps.len() {
        assert(st1.steps[j] == ExpansionStep::Prev(k as usize, p->0 as usize));
    }
    if nx is Some && j == st1.steps.len() - 1 {
        assert(st1.steps[j] == ExpansionStep::Next(k as usize, nx->0 as usize));
    }
    let whole = st.steps + before + mid + after;
    assert(whole.len() == st.steps.len() + before.len() + 1 + after.len());
    assert(whole[big_j] == ExpansionStep::Selected(k as usize));
    if j > big_j {
        assert(after.len() == 1 && j == big_j + 1);
        assert(whole[j] == after[0]);
    }
    if j < big_j {
        assert(before.len() == 1 && j == st.steps.len());
        assert(whole[j] == before[0]);
    }
    assert(j == big_j);
    assert(steps.take(j) =~= st.steps + before);
    lemma_steps_concat(st.steps, before);
    if p is Some {
        assert(0 <= p->0 <= budget);
        assert(before.drop_last() =~= Seq::<ExpansionStep>::empty());
        assert(before.last() == ExpansionStep::Prev(k as usize, p->0 as usize));
        assert(neighbor_tokens(Seq::<ExpansionStep>::empty()) == 0);
        assert(neighbor_tokens(before) == p->0);
    } else {
        assert(neighbor_tokens(before) == 0);
    }
    if let Some(c) = e.next {
        if !packed_ids(entries, entries.len() as int).contains(c.id) && (forall|a: int|
            0 <= a < j ==> step_neighbor(entries, #[trigger] steps[a]) != Some(c.id)) && used
            + neighbor_tokens(steps.take(j)) + tokens_for(c.text@.len()) <= budget {
            assert(!st.included.contains(c.id)) by {
                if st.included.contains(c.id) {
                    let a = choose|a: int|
                        0 <= a < st.steps.len() && step_neighbor(entries, #[trigger] st.steps[a]) == Some(c.id);
                    assert(steps[a] == st.steps[a]);
                }
            }
            if p is Some {
                assert(steps[st.steps.len() as int] == st1.steps[st.steps.len() as int]);
                assert(step_neighbor(entries, steps[st.steps.len() as int]) == Some(e.prev->0.id));
            }
            assert(!inc1.contains(c.id));
            assert(nx == Some(tokens_for(c.text@.len()) as int));
            assert(steps[j + 1] == st1.steps[j + 1]);
        }
    }
}

/// Where the block of the packed hit at position `j` starts: at its
/// previous neighbour, when one stands right before it, else at the hit.
pub open spec fn block_start(steps: Seq<ExpansionStep>, j: int) -> int {
    if j >= 1 && steps[j - 1] is Prev {
        j - 1
    } else {
        j
    }
}

/// Expansion is complete for previous neighbours: wherever the expanded
/// context holds a packed hit at position `j`, and that hit has a previous
/// neighbour that is not a packed chunk, is not among the neighbours added
/// for earlier hits, and fits the tokens left after everything the earlier
/// hits placed, that previous neighbour comes right before the hit, with
/// its token estimate.
pub proof fn lemma_expansion_adds_fitting_prev(
    entries: Seq<ExpansionEntry>,
    used: int,
    budget: int,
    n: int,
    j: int,
)
    requires
        0 <= n <= entries.len() <= usize::MAX,
        0 <= used <= budget <= usize::MAX,
        0 <= j < expansion_state(entries, used, budget, n).steps.len(),
        expansion_state(entries, used, budget, n).steps[j] is Selected,
    ensures
        ({
            let steps = expansion_state(entries, used, budget, n).steps;
            let k = step_hit(steps[j]);
            let b = block_start(steps, j);
            entries[k].prev matches Some(c) ==> (!packed_ids(entries, entries.len() as int).contains(c.id)
                && (forall|a: int| 0 <= a < b ==> step_neighbor(entries, #[trigger] steps[a]) != Some(c.id))
                && used + neighbor_tokens(steps.take(b)) + tokens_for(c.text@.len()) <= budget ==> j >= 1
                && steps[j - 1] == ExpansionStep::Prev(k as usize, tokens_for(c.text@.len()) as usize))
        }),
{
    let steps = expansion_state(entries, used, budget, n).steps;
    let k = step_hit(steps[j]);
    lemma_expansion_hits(entries, used, budget, n);
    assert(0 <= k < n);
    lemma_expansion_prefix(entries, used, budget, k, n);
    lemma_expansion_prefix(entries, used, budget, k + 1, n);
    lemma_expansion_hits(entries, used, budget, k);
    lemma_expansion_bounds(entries, used, budget, k);
    lemma_expansion_included(entries, used, budget, k);
    let st = expansion_state(entries, used, budget, k);
    let st1 = expansion_state(entries, used, budget, k + 1);
    let e = entries[k];
    let p = neighbor_fit(e.prev, st.included, st.used, budget);
    let inc1 = if p is Some { st.included.insert(e.prev->0.id) } else { st.included };
    let used1 = if p is Some { st.used + p->0 } else { st.used };
    let nx = neighbor_fit(e.next, inc1, used1, budget);
    let before: Seq<ExpansionStep> = if p is Some { seq![ExpansionStep::Prev(k as usize, p->0 as usize)] } else { seq![] };
    let after: Seq<ExpansionStep> = if nx is Some { seq![ExpansionStep::Next(k as usize, nx->0 as usize)] } else { seq![] };
    let mid: Seq<ExpansionStep> = seq![ExpansionStep::Selected(k as usize)];
    assert(st1.steps == st.steps + before + mid + after);
    let big_j = (st.steps.len() + before.len()) as int;
    assert(steps.subrange(0, st1.steps.len() as int) == st1.steps);
    assert(steps.subrange(0, st.steps.len() as int) == st.steps);
    if j < st.steps.len() {
        assert(steps[j] == st.steps[j]);
        assert(step_hit(st.steps[j]) < k);
    }
    assert(j < st1.steps.len());
    assert(steps[j] == st1.steps[j]);
    let whole = st.steps + before + mid + after;
    assert(whole.len() == st.steps.len() + before.len() + 1 + after.len());
    assert(whole[big_j] == ExpansionStep::Selected(k as usize));
    if j > big_j {
        assert(after.len() == 1 && j == big_j + 1);
        assert(whole[j] == after[0]);
    }
    if j < big_j {
        assert(before.len() == 1 && j == st.steps.len());
        assert(whole[j] == before[0]);
    }
    assert(j == big_j);
    // The block of hit `k` starts where the earlier hits' steps end: those
    // end with a hit or its next neighbour, never a previous neighbour.
    if p is Some {
        assert(steps[j - 1] == whole[j - 1]);
        assert(whole[j - 1] == before[0]);
    } else if j >= 1 {
        assert(k > 0) by {
            if k == 0 {
                assert(st.steps.len() == 0);
            }
        }
        let sp = expansion_state(entries, used, budget, k - 1);
        let e0 = entries[k - 1];
        let p0 = neighbor_fit(e0.prev, sp.included, sp.used, budget);
        let i0 = if p0 is Some { sp.included.insert(e0.prev->0.id) } else { sp.included };
        let u0 = if p0 is Some { sp.used + p0->0 } else { sp.used };
        let n0 = neighbor_fit(e0.next, i0, u0, budget);
        let b0: Seq<ExpansionStep> = if p0 is Some { seq![ExpansionStep::Prev((k - 1) as usize, p0->0 as usize)] } else { seq![] };
        let a0: Seq<ExpansionStep> = if n0 is Some { seq![ExpansionStep::Next((k - 1) as usize, n0->0 as usize)] } else { seq![] };
        let m0: Seq<ExpansionStep> = seq![ExpansionStep::Selected((k - 1) as usize)];
        assert(st.steps == sp.steps + b0 + m0 + a0);
        assert(steps[j - 1] == st.steps[j - 1]);
        assert(!(st.steps[j - 1] is Prev));
    }
    let b = block_start(steps, j);
    assert(b == st.steps.len());
    assert(steps.take(b) =~= st.steps);
    if let Some(c) = e.prev {
        if !packed_ids(entries, entries.len() as int).contains(c.id) && (forall|a: int|
            0 <= a < b ==> step_neighbor(entries, #[trigger] steps[a]) != Some(c.id)) && used
            + neighbor_tokens(steps.take(b)) + tokens_for(c.text@.len()) <= budget {
            assert(!st.included.contains(c.id)) by {
                if st.included.contains(c.id) {
                    let a = choose|a: int|
                        0 <= a < st.steps.len() && step_neighbor(entries, #[trigger] st.steps[a]) == Some(c.id);
                    assert(steps[a] == st.steps[a]);
                }
            }
            assert(p == Some(tokens_for(c.text@.len()) as int));
            assert(steps[j - 1] == whole[j - 1]);
            assert(whole[j - 1] == before[0]);
        }
    }
}

/// The result of neighbour expansion: the elements of the expanded
/// context in order, and the tokens used by the packed hits and the added
/// neighbours together.
pub struct Expansion {
    pub steps: Vec<ExpansionStep>,
    pub tokens_used: usize,
}

/// Whether `id` is one of `ids`.
fn contains_chunk(ids: &Vec<ChunkId>, id: ChunkId) -> (r: bool)
    ensures
        r == ids@.contains(id),
{
    let mut i: usize = 0;
    while i < ids.len()
        invariant
            i <= ids.len(),
            forall|k: int| 0 <= k < i ==> ids@[k] != id,
        decreases ids.len() - i,
    {
        if ids[i].0 == id.0 {
            assert(ids@[i as int] == id);
            return true;
        }
        i += 1;
    }
    false
}

/// Tries to add a neighbour: returns its token estimate where it is added,
/// recording its id and tokens.
fn try_add_neighbor(n: &Option<NeighborChunk>, included: &mut Vec<ChunkId>, used: &mut usize, budget: usize) -> (r:
    Option<usize>)
    ensures
        r matches Some(t) ==> neighbor_fit(*n, old(included)@.to_set(), *old(used) as int, budget as int)
            == Some(t as int),
        r is None ==> neighbor_fit(*n, old(included)@.to_set(), *old(used) as int, budget as int) is None,
        final(included)@.to_set() == (if r is Some {
            old(included)@.to_set().insert(n->0.id)
        } else {
            old(included)@.to_set()
        }),
        *final(used) == (if r is Some {
            *old(used) + r->0
        } else {
            *old(used) as int
        }),
        *old(used) <= budget ==> *final(used) <= budget,
{
    match n {
        Some(c) => {
            if contains_chunk(included, c.id) {
                return None;
            }
            let t = estimate_tokens(c.text.as_str());
            if *used > budget || t > budget - *used {
                return None;
            }
            proof {
                included@.lemma_push_to_set_commute(c.id);
            }
            included.push(c.id);
            *used = *used + t;
            Some(t)
        },
        None => None,
    }
}

/// Expands packed hits with their neighbours in the document, for the
/// context's continuity: for each packed hit in order, its previous
/// neighbour and then its next one are added, right before and right
/// after it, when not already included (among the packed chunks or the
/// neighbours added so far) and when they fit the tokens left of `budget`.
/// Neighbours inherit the score and provenance of the hit they surround;
/// the decisions of the main pack are never revisited.
pub fn expand_with_neighbors(entries: &Vec<ExpansionEntry>, tokens_used: usize, budget: usize) -> (r: Expansion)
    ensures
        r.steps@ == expansion_state(entries@, tokens_used as int, budget as int, entries@.len() as int).steps,
        r.tokens_used == expansion_state(entries@, tokens_used as int, budget as int, entries@.len() as int).used,
{
    let mut included: Vec<ChunkId> = Vec::new();
    let mut i: usize = 0;
    while i < entries.len()
        invariant
            i <= entries.len(),
            included@.to_set() == packed_ids(entries@, i as int),
        decreases entries.len() - i,
    {
        match entries[i].chunk_id {
            Some(id) => {
                proof {
                    included@.lemma_push_to_set_commute(id);
                }
                included.push(id);
            },
            None => {},
        }
        i += 1;
    }
    let mut steps: Vec<ExpansionStep> = Vec::new();
    let mut used = tokens_used;
    let mut k: usize = 0;
    while k < entries.len()
        invariant
            k <= entries.len(),
            tokens_used <= budget ==> used <= budget,
            used >= tokens_used,
            steps@ == expansion_state(entries@, tokens_used as int, budget as int, k as int).steps,
            included@.to_set() == expansion_state(entries@, tokens_used as int, budget as int, k as int).included,
            used == expansion_state(entries@, tokens_used as int, budget as int, k as int).used,
        decreases entries.len() - k,
    {
        let e = &entries[k];
        let p = try_add_neighbor(&e.prev, &mut included, &mut used, budget);
        let nx = try_add_neighbor(&e.next, &mut included, &mut used, budget);
        match p {
            Some(t) => steps.push(ExpansionStep::Prev(k, t)),
            None => {},
        }
        steps.push(ExpansionStep::Selected(k));
        match nx {
            Some(t) => steps.push(ExpansionStep::Next(k, t)),
            None => {},
        }
        proof {
            let st = expansion_state(entries@, tokens_used as int, budget as int, k as int);
            let st2 = expansion_state(entries@, tokens_used as int, budget as int, k + 1);
            assert(st2 == expansion_step(st, entries@[k as int], k as int, budget as int));
            assert(steps@ =~= st2.steps);
        }
        k += 1;
    }
    Expansion { steps, tokens_used: used }
}

} // verus!
