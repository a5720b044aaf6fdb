//! The emoji database and its search: scoring entries against query terms,
//! boosting by usage, and ranking.

use vstd::prelude::*;
use crate::text::{underscores_as_spaces, replace_underscores, normalized, normalized_chars, words, lowered, to_lower, chars_of, split_words, starts_with, same_chars, contains_chars, occurs_in};
use crate::usage::{UsageStats, boost_for, count_of, BOOST_CAP};
use crate::str_map::{StrMap, table_map, keys_distinct, lemma_table_map_at, lemma_table_map_dom};
use crate::ranking::{is_stable_sort_of, sorted_by_score, sort_by_score};

verus! {

/// An entry of the database as plain values.
#[verifier::ext_equal]
pub struct EntryView {
    pub emoji: Seq<char>,
    pub name: Seq<char>,
    pub tags: Seq<Seq<char>>,
}

/// A search result as plain values.
#[verifier::ext_equal]
pub struct ResultView {
    pub emoji: Seq<char>,
    pub name: Seq<char>,
    pub score: u32,
}

/// One emoji with its display name and its search tags.
#[derive(Debug, Clone)]
pub struct EmojiEntry {
    pub emoji: String,
    pub name: String,
    pub tags: Vec<String>,
}

/// The views of a list of texts.
pub open spec fn texts(s: Seq<String>) -> Seq<Seq<char>> {
    s.map_values(|t: String| t@)
}

impl View for EmojiEntry {
    type V = EntryView;

    open spec fn view(&self) -> EntryView {
        EntryView { emoji: self.emoji@, name: self.name@, tags: texts(self.tags@) }
    }
}

/// An emoji found by a search; a lower score is a better match.
#[derive(Debug, Clone)]
pub struct SearchResult {
    pub emoji: String,
    pub name: String,
    pub score: u32,
}

impl View for SearchResult {
    type V = ResultView;

    open spec fn view(&self) -> ResultView {
        ResultView { emoji: self.emoji@, name: self.name@, score: self.score }
    }
}

/// The views of a list of results.
pub open spec fn result_views(s: Seq<SearchResult>) -> Seq<ResultView> {
    s.map_values(|r: SearchResult| r@)
}


/// The score of one tag (at position `i`) for one query term; `u32::MAX` when it does not match.
/// An exact match scores `i`, a prefix match `50 + i`, a match anywhere inside `100 + i`.
pub open spec fn tag_match_score(tag: Seq<char>, term: Seq<char>, i: int) -> int {
    if tag == term {
        i
    } else if term.is_prefix_of(tag) {
        50 + i
    } else if occurs_in(term, tag) {
        100 + i
    } else {
        u32::MAX as int
    }
}

/// The best (lowest) score any of `tags` gets for `term`; `u32::MAX` when none matches.
pub open spec fn best_tag_score(tags: Seq<Seq<char>>, term: Seq<char>) -> int
    decreases tags.len(),
{
    if tags.len() == 0 {
        u32::MAX as int
    } else {
        let prev = best_tag_score(tags.drop_last(), term);
        let s = tag_match_score(tags.last(), term, tags.len() - 1);
        if s < prev {
            s
        } else {
            prev
        }
    }
}

/// Every term matches some tag.
pub open spec fn terms_matched(tags: Seq<Seq<char>>, terms: Seq<Seq<char>>) -> bool {
    forall|k: int| 0 <= k < terms.len() ==> #[trigger] best_tag_score(tags, terms[k]) < u32::MAX
}

/// The sum of the best tag scores of all terms.
pub open spec fn score_sum(tags: Seq<Seq<char>>, terms: Seq<Seq<char>>) -> int
    decreases terms.len(),
{
    if terms.len() == 0 {
        0
    } else {
        score_sum(tags, terms.drop_last()) + best_tag_score(tags, terms.last())
    }
}

/// The score of an entry with (compared) tags `tags` for the query terms `terms`:
/// the sum of each term's best tag score, capped at `u32::MAX`,
/// and `u32::MAX` (no match) when some term matches no tag.
pub open spec fn entry_score(tags: Seq<Seq<char>>, terms: Seq<Seq<char>>) -> u32 {
    if !terms_matched(tags, terms) {
        u32::MAX
    } else if score_sum(tags, terms) < u32::MAX {
        score_sum(tags, terms) as u32
    } else {
        u32::MAX
    }
}

/// Tags as they are compared against query terms.
pub open spec fn normalized_tags(tags: Seq<Seq<char>>) -> Seq<Seq<char>> {
    tags.map_values(|t: Seq<char>| normalized(t))
}

/// The views of a list of character vectors.
pub open spec fn char_lists(s: Seq<Vec<char>>) -> Seq<Seq<char>> {
    s.map_values(|v: Vec<char>| v@)
}

/// The search terms of a query: its lowercase form split at whitespace.
pub open spec fn query_terms(query: Seq<char>) -> Seq<Seq<char>> {
    words(lowered(query))
}

/// `a - b`, or 0 when `b` is larger.
pub open spec fn saturating_minus(a: u32, b: u32) -> u32 {
    if a >= b {
        (a - b) as u32
    } else {
        0
    }
}

/// The usage boost of `emoji`, 0 when no usage is given.
pub open spec fn boost_from(usage: Option<Map<Seq<char>, u32>>, emoji: Seq<char>) -> u32 {
    match usage {
        Some(counts) => boost_for(counts, emoji),
        None => 0,
    }
}

/// The counts of an optional usage record.
pub open spec fn usage_counts(usage: Option<&UsageStats>) -> Option<Map<Seq<char>, u32>> {
    match usage {
        Some(u) => Some(u@),
        None => None,
    }
}

/// The base score of every entry when the query is empty.
pub const BROWSE_SCORE: u32 = 100;

/// The result an entry gives for a search, if it gives one. With an empty query (`browse`)
/// every entry scores `BROWSE_SCORE`; otherwise an entry must match every term.
/// Either way the usage boost is taken off the score, down to 0.
pub open spec fn candidate(
    e: EntryView,
    browse: bool,
    terms: Seq<Seq<char>>,
    usage: Option<Map<Seq<char>, u32>>,
) -> Option<ResultView> {
    let boost = boost_from(usage, e.emoji);
    if browse {
        Some(ResultView { emoji: e.emoji, name: e.name, score: saturating_minus(BROWSE_SCORE, boost) })
    } else {
        let s = entry_score(normalized_tags(e.tags), terms);
        if s < u32::MAX {
            Some(ResultView { emoji: e.emoji, name: e.name, score: saturating_minus(s, boost) })
        } else {
            None
        }
    }
}

/// The results of all entries that give one, in database order.
pub open spec fn candidates(
    entries: Seq<EntryView>,
    browse: bool,
    terms: Seq<Seq<char>>,
    usage: Option<Map<Seq<char>, u32>>,
) -> Seq<ResultView>
    decreases entries.len(),
{
    if entries.len() == 0 {
        seq![]
    } else {
        let prev = candidates(entries.drop_last(), browse, terms, usage);
        match candidate(entries.last(), browse, terms, usage) {
            Some(r) => prev.push(r),
            None => prev,
        }
    }
}

/// The unsorted results of searching `entries` for `query`.
pub open spec fn search_candidates(
    entries: Seq<EntryView>,
    query: Seq<char>,
    usage: Option<Map<Seq<char>, u32>>,
) -> Seq<ResultView> {
    candidates(entries, query.len() == 0, query_terms(query), usage)
}

/// `res` is `cands` ordered by score, ties kept in order, cut to its first `max` results.
pub open spec fn ranked_top(res: Seq<ResultView>, cands: Seq<ResultView>, max: usize) -> bool {
    exists|full: Seq<ResultView>|
        {
            &&& is_stable_sort_of(full, cands)
            &&& res == full.take(
                if max < full.len() {
                    max as int
                } else {
                    full.len() as int
                },
            )
        }
}

/// Scores an entry against query terms; lower is better, `u32::MAX` means no match.
pub fn score_entry(entry: &EmojiEntry, query_terms: &Vec<Vec<char>>) -> (score: u32)
    requires
        entry.tags@.len() <= u32::MAX - 100,
    ensures
        score == entry_score(normalized_tags(entry@.tags), char_lists(query_terms@)),
{
    let ghost tags = normalized_tags(entry@.tags);
    let ghost terms = char_lists(query_terms@);
    let mut total_score: u32 = 0;
    let nterms = query_terms.len();
    let mut k: usize = 0;
    while k < nterms
        invariant
            nterms == query_terms@.len(),
            terms == char_lists(query_terms@),
            tags == normalized_tags(entry@.tags),
            entry.tags@.len() <= u32::MAX - 100,
            k <= nterms,
            terms_matched(tags, terms.take(k as int)),
            total_score == if score_sum(tags, terms.take(k as int)) < u32::MAX {
                score_sum(tags, terms.take(k as int))
            } else {
                u32::MAX as int
            },
        decreases nterms - k,
    {
        let term = &query_terms[k];
        let mut best_tag_score_so_far: u32 = u32::MAX;
        let ntags = entry.tags.len();
        let mut i: usize = 0;
        while i < ntags
            invariant
                ntags == entry.tags@.len(),
                ntags <= u32::MAX - 100,
                i <= ntags,
                tags == normalized_tags(entry@.tags),
                best_tag_score_so_far == best_tag_score(tags.take(i as int), term@),
            decreases ntags - i,
        {
            let tag_lower = normalized_chars(entry.tags[i].as_str());
            let pos = i as u32;
            assert(tags.take(i + 1).drop_last() == tags.take(i as int));
            assert(tags.take(i + 1).last() == tag_lower@);
            if same_chars(&tag_lower, term) {
                if pos < best_tag_score_so_far {
                    best_tag_score_so_far = pos;
                }
            } else if starts_with(&tag_lower, term) {
                if 50 + pos < best_tag_score_so_far {
                    best_tag_score_so_far = 50 + pos;
                }
            } else if contains_chars(&tag_lower, term) {
                if 100 + pos < best_tag_score_so_far {
                    best_tag_score_so_far = 100 + pos;
                }
            }
            i = i + 1;
        }
        assert(tags.take(ntags as int) == tags);
        assert(terms.take(k + 1).drop_last() == terms.take(k as int));
        assert(terms.take(k + 1).last() == term@);
        if best_tag_score_so_far == u32::MAX {
            assert(terms[k as int] == term@);
            assert(!terms_matched(tags, terms));
            return u32::MAX;
        }
        assert(terms_matched(tags, terms.take(k + 1))) by {
            assert forall|j: int| 0 <= j < k + 1 implies #[trigger] best_tag_score(
                tags,
                terms.take(k + 1)[j],
            ) < u32::MAX by {
                if j < k {
                    assert(terms.take(k + 1)[j] == terms.take(k as int)[j]);
                }
            }
        }
        total_score = total_score.saturating_add(best_tag_score_so_far);
        k = k + 1;
    }
    assert(terms.take(nterms as int) == terms);
    total_score
}


/// `tags` with each of `extra` added at the end, in order, unless it is already there.
pub open spec fn merged_tags(tags: Seq<Seq<char>>, extra: Seq<Seq<char>>) -> Seq<Seq<char>>
    decreases extra.len(),
{
    if extra.len() == 0 {
        tags
    } else {
        let prev = merged_tags(tags, extra.drop_last());
        if prev.contains(extra.last()) {
            prev
        } else {
            prev.push(extra.last())
        }
    }
}

/// An entry after merging the custom aliases `aliases` (emoji to extra tags) into it.
pub open spec fn with_aliases(e: EntryView, aliases: Map<Seq<char>, Vec<String>>) -> EntryView {
    if aliases.contains_key(e.emoji) {
        EntryView { emoji: e.emoji, name: e.name, tags: merged_tags(e.tags, texts(aliases[e.emoji]@)) }
    } else {
        e
    }
}

/// `x` is one of `v`.
fn has_text(v: &Vec<String>, x: &String) -> (r: bool)
    ensures
        r == texts(v@).contains(x@),
{
    let n = v.len();
    let mut i: usize = 0;
    while i < n
        invariant
            n == v@.len(),
            i <= n,
            forall|j: int| 0 <= j < i ==> (#[trigger] v@[j])@ != x@,
        decreases n - i,
    {
        if v[i] == *x {
            assert(texts(v@)[i as int] == x@);
            return true;
        }
        i = i + 1;
    }
    assert forall|j: int| 0 <= j < texts(v@).len() implies (#[trigger] texts(v@)[j]) != x@ by {
        assert(texts(v@)[j] == v@[j]@);
    }
    false
}

/// `tags` followed by those of `extra` that are not there yet.
fn merge_tag_lists(tags: &Vec<String>, extra: &Vec<String>) -> (out: Vec<String>)
    ensures
        texts(out@) == merged_tags(texts(tags@), texts(extra@)),
{
    let mut out = tags.clone();
    assert(out@ =~= tags@);
    let n = extra.len();
    let mut i: usize = 0;
    while i < n
        invariant
            n == extra@.len(),
            i <= n,
            texts(out@) == merged_tags(texts(tags@), texts(extra@).take(i as int)),
        decreases n - i,
    {
        let ghost before = out@;
        assert(texts(extra@).take(i + 1).drop_last() == texts(extra@).take(i as int));
        assert(texts(extra@).take(i + 1).last() == extra@[i as int]@);
        if !has_text(&out, &extra[i]) {
            out.push(extra[i].clone());
            assert(texts(out@) == texts(before).push(extra@[i as int]@));
        }
        i = i + 1;
    }
    assert(texts(extra@).take(n as int) == texts(extra@));
    out
}

/// The views of a list of entries.
pub open spec fn entry_views(s: Seq<EmojiEntry>) -> Seq<EntryView> {
    s.map_values(|e: EmojiEntry| e@)
}

/// All the emoji entries that searches run over.
pub struct EmojiDatabase {
    entries: Vec<EmojiEntry>,
}

impl View for EmojiDatabase {
    type V = Seq<EntryView>;

    closed spec fn view(&self) -> Seq<EntryView> {
        entry_views(self.entries@)
    }
}

impl EmojiDatabase {
    /// A database holding `entries`, in that order.
    pub fn from_entries(entries: Vec<EmojiEntry>) -> (db: Self)
        ensures
            db@ == entry_views(entries@),
    {
        EmojiDatabase { entries }
    }

    /// The largest number of tags any entry has (0 for an empty database).
    pub fn max_tag_count(&self) -> (m: usize)
        ensures
            forall|i: int| 0 <= i < self@.len() ==> (#[trigger] self@[i]).tags.len() <= m,
            self@.len() > 0 ==> exists|i: int| 0 <= i < self@.len() && (#[trigger] self@[i]).tags.len() == m,
            self@.len() == 0 ==> m == 0,
    {
        let n = self.entries.len();
        let mut m: usize = 0;
        let mut i: usize = 0;
        while i < n
            invariant
                n == self.entries@.len(),
                i <= n,
                forall|j: int| 0 <= j < i ==> (#[trigger] self@[j]).tags.len() <= m,
                i > 0 ==> exists|j: int| 0 <= j < i && (#[trigger] self@[j]).tags.len() == m,
                i == 0 ==> m == 0,
            decreases n - i,
        {
            assert(self@[i as int].tags.len() == self.entries@[i as int].tags@.len());
            let k = self.entries[i].tags.len();
            if i == 0 || k > m {
                m = k;
            }
            i = i + 1;
        }
        m
    }

    /// Adds custom aliases to the entries' tags: for each entry whose emoji has aliases,
    /// every alias not already among its tags is appended, in order.
    pub fn merge_aliases(&mut self, custom_aliases: &StrMap<Vec<String>>)
        ensures
            final(self)@ == old(self)@.map_values(|e: EntryView| with_aliases(e, custom_aliases@)),
    {
        let ghost start = self@;
        let n = self.entries.len();
        let mut i: usize = 0;
        while i < n
            invariant
                n == self.entries@.len(),
                i <= n,
                start.len() == n,
                forall|j: int| 0 <= j < i ==> #[trigger] self@[j] == with_aliases(start[j], custom_aliases@),
                forall|j: int| i <= j < n ==> #[trigger] self@[j] == start[j],
            decreases n - i,
        {
            assert(self@[i as int] == self.entries@[i as int]@);
            let ghost prev = self.entries@;
            if let Some(extra_tags) = custom_aliases.get(self.entries[i].emoji.as_str()) {
                let tags = merge_tag_lists(&self.entries[i].tags, extra_tags);
                let entry = EmojiEntry {
                    emoji: self.entries[i].emoji.clone(),
                    name: self.entries[i].name.clone(),
                    tags,
                };
                self.entries.set(i, entry);
                assert(self.entries@ == prev.update(i as int, entry));
                assert(entry@ == with_aliases(start[i as int], custom_aliases@));
            }
            assert forall|j: int| 0 <= j < n && j != i implies #[trigger] self@[j] == entry_views(
                prev,
            )[j] by {
                assert(self.entries@[j] == prev[j]);
            }
            assert(self@[i as int] == with_aliases(start[i as int], custom_aliases@));
            i = i + 1;
        }
        assert(self@ =~= start.map_values(|e: EntryView| with_aliases(e, custom_aliases@)));
    }

    /// Searches by query, matching every query term against all tags.
    /// Usage lowers the scores of often picked emojis. Returns the results
    /// ordered by score (best first, ties in database order), at most `max_results` of them.
    pub fn search(&self, query: &str, max_results: usize, usage: Option<&UsageStats>) -> (res: Vec<
        SearchResult,
    >)
        requires
            forall|i: int| 0 <= i < self@.len() ==> (#[trigger] self@[i]).tags.len() <= u32::MAX - 100,
        ensures
            ranked_top(result_views(res@), search_candidates(self@, query@, usage_counts(usage)), max_results),
            res@.len() <= max_results,
            sorted_by_score(result_views(res@)),
    {
        let lower = to_lower(query);
        let lower_chars = chars_of(lower.as_str());
        let terms = split_words(&lower_chars);
        assert(char_lists(terms@) == query_terms(query@));
        self.search_terms(query.is_empty(), &terms, max_results, usage)
    }

    /// Searches with query terms already lowered and split (`browse` for an empty query):
    /// the results of the entries that give one, ordered by score (ties in database order),
    /// at most `max_results` of them.
    pub fn search_terms(
        &self,
        browse: bool,
        terms: &Vec<Vec<char>>,
        max_results: usize,
        usage: Option<&UsageStats>,
    ) -> (res: Vec<SearchResult>)
        requires
            forall|i: int| 0 <= i < self@.len() ==> (#[trigger] self@[i]).tags.len() <= u32::MAX - 100,
        ensures
            ranked_top(
                result_views(res@),
                candidates(self@, browse, char_lists(terms@), usage_counts(usage)),
                max_results,
            ),
            res@.len() <= max_results,
            sorted_by_score(result_views(res@)),
    {
        let ghost ents = self@;
        let ghost counts = usage_counts(usage);
        let ghost tms = char_lists(terms@);
        let mut results: Vec<SearchResult> = Vec::new();
        let n = self.entries.len();
        let mut j: usize = 0;
        while j < n
            invariant
                n == self.entries@.len(),
                j <= n,
                ents == self@,
                ents == entry_views(self.entries@),
                counts == usage_counts(usage),
                char_lists(terms@) == tms,
                forall|i: int| 0 <= i < ents.len() ==> (#[trigger] ents[i]).tags.len() <= u32::MAX - 100,
                result_views(results@) == candidates(ents.take(j as int), browse, tms, counts),
            decreases n - j,
        {
            let e = &self.entries[j];
            assert(ents.take(j + 1).drop_last() == ents.take(j as int));
            assert(ents.take(j + 1).last() == e@);
            let boost: u32 = match usage {
                Some(u) => u.boost(e.emoji.as_str()),
                None => 0,
            };
            assert(boost == boost_from(counts, e@.emoji));
            let ghost before = results@;
            if browse {
                results.push(
                    SearchResult {
                        emoji: e.emoji.clone(),
                        name: e.name.clone(),
                        score: BROWSE_SCORE.saturating_sub(boost),
                    },
                );
                assert(results@.drop_last() == before);
            } else {
                assert(ents[j as int].tags.len() <= u32::MAX - 100);
                let score = score_entry(e, terms);
                if score < u32::MAX {
                    results.push(
                        SearchResult {
                            emoji: e.emoji.clone(),
                            name: e.name.clone(),
                            score: score.saturating_sub(boost),
                        },
                    );
                    assert(results@.drop_last() == before);
                }
            }
            assert(result_views(results@) == candidates(ents.take(j + 1), browse, tms, counts));
            j = j + 1;
        }
        assert(ents.take(n as int) == ents);
        assert(result_views(results@) == candidates(ents, browse, tms, counts));
        let mut sorted = sort_by_score(results);
        let ghost full = result_views(sorted@);
        assert(is_stable_sort_of(full, candidates(ents, browse, tms, counts)));
        sorted.truncate(max_results);
        proof {
            if max_results < full.len() {
                assert(result_views(sorted@) == full.take(max_results as int));
            } else {
                assert(result_views(sorted@) == full.take(full.len() as int));
            }
            assert forall|a: int, b: int| 0 <= a <= b < result_views(sorted@).len() implies (
            #[trigger] result_views(sorted@)[a]).score <= (#[trigger] result_views(
                sorted@,
            )[b]).score by {
                assert(result_views(sorted@)[a] == full[a]);
                assert(result_views(sorted@)[b] == full[b]);
            }
            let m = if max_results < full.len() {
                max_results as int
            } else {
                full.len() as int
            };
            assert(is_stable_sort_of(full, candidates(ents, browse, tms, counts))
                && result_views(sorted@) == full.take(m));
        }
        sorted
    }
}


/// What `serde_json::from_str` yields when it reads `text` as a JSON object whose values
/// are arrays of strings (keys to lists), or `None` when `text` is not such an object.
pub uninterp spec fn emoji_json_table(text: Seq<char>) -> Option<Map<Seq<char>, Seq<Seq<char>>>>;

/// The table, keys to lists of texts, that a list of pairs denotes.
pub open spec fn pair_table(pairs: Seq<(String, Vec<String>)>) -> Map<Seq<char>, Seq<Seq<char>>> {
    Map::new(
        |k: Seq<char>| table_map(pairs).contains_key(k),
        |k: Seq<char>| texts(table_map(pairs)[k]@),
    )
}

/// The display name of an emoji: its first tag with underscores read as spaces,
/// or empty when it has no tag.
pub open spec fn display_name(tags: Seq<Seq<char>>) -> Seq<char> {
    if tags.len() > 0 {
        underscores_as_spaces(tags[0])
    } else {
        seq![]
    }
}

/// The entry built for an emoji from its list of tags.
pub open spec fn entry_from(emoji: Seq<char>, tags: Seq<Seq<char>>) -> EntryView {
    EntryView { emoji, name: display_name(tags), tags }
}

/// `es` holds one entry per key of `table`, no emoji twice, each built from its tag list.
pub open spec fn entries_of_table(es: Seq<EntryView>, table: Map<Seq<char>, Seq<Seq<char>>>) -> bool {
    &&& forall|i: int, j: int| 0 <= i < j < es.len() ==> (#[trigger] es[i]).emoji != (#[trigger] es[j]).emoji
    &&& forall|i: int|
        0 <= i < es.len() ==> table.contains_key((#[trigger] es[i]).emoji) && es[i] == entry_from(
            es[i].emoji,
            table[es[i].emoji],
        )
    &&& forall|k: Seq<char>| #[trigger] table.contains_key(k) ==> exists|i: int| 0 <= i < es.len() && (#[trigger] es[i]).emoji == k
}

#[verifier::external_type_specification]
#[verifier::external_body]
pub struct ExJsonError(serde_json::Error);

/// `serde_json::from_str` into a map from strings to lists of strings, handed out as pairs.
/// The pairs come in the map's walking order, which is left open; the claim is that their
/// keys never repeat and that together they are what `emoji_json_table` names for `text`.
#[verifier::external_body]
fn parse_emoji_table(text: &str) -> (r: Result<Vec<(String, Vec<String>)>, serde_json::Error>)
    ensures
        match r {
            Ok(pairs) => emoji_json_table(text@) == Some(pair_table(pairs@)) && keys_distinct(pairs@),
            Err(_) => emoji_json_table(text@) is None,
        },
{
    serde_json::from_str::<std::collections::HashMap<String, Vec<String>>>(text).map(
        |m| m.into_iter().collect(),
    )
}

/// The message of a `serde_json::Error` (its `Display` text); nothing is claimed of it.
#[verifier::external_body]
fn json_error_text(e: &serde_json::Error) -> String {
    e.to_string()
}

/// Why an emoji list could not be read.
#[derive(Debug)]
pub enum LoadError {
    /// The text is not a JSON object of string arrays; the parser's message.
    InvalidJson(String),
}

impl EmojiDatabase {
    /// A database with one entry per pair (emoji, tags), in the order of `pairs`;
    /// each entry's name is its first tag with underscores read as spaces.
    pub fn from_table(pairs: Vec<(String, Vec<String>)>) -> (db: Self)
        ensures
            db@.len() == pairs@.len(),
            forall|i: int| 0 <= i < pairs@.len() ==> #[trigger] db@[i] == entry_from(pairs@[i].0@, texts(pairs@[i].1@)),
    {
        let mut entries: Vec<EmojiEntry> = Vec::new();
        for p in it: pairs
            invariant
                entries@.len() == it.index(),
                forall|i: int| 0 <= i < it.index() ==> #[trigger] entries@[i]@ == entry_from(it.seq()[i].0@, texts(it.seq()[i].1@)),
        {
            let (emoji, tags) = p;
            let name = if tags.len() > 0 {
                replace_underscores(tags[0].as_str())
            } else {
                String::new()
            };
            entries.push(EmojiEntry { emoji, name, tags });
        }
        EmojiDatabase { entries }
    }

    /// Reads an emoji list in the emojilib format, `{ "😀": ["name", "tag1", ...], ... }`:
    /// one entry per emoji, its tags as listed, its name the first tag with underscores as spaces.
    pub fn from_json(text: &str) -> (r: Result<Self, LoadError>)
        ensures
            match r {
                Ok(db) => emoji_json_table(text@) is Some && entries_of_table(db@, emoji_json_table(text@)->0),
                Err(_) => emoji_json_table(text@) is None,
            },
    {
        match parse_emoji_table(text) {
            Ok(pairs) => {
                let ghost ps = pairs@;
                let db = EmojiDatabase::from_table(pairs);
                proof {
                    let table = pair_table(ps);
                    let es = db@;
                    assert forall|i: int, j: int| 0 <= i < j < es.len() implies (#[trigger] es[i]).emoji
                        != (#[trigger] es[j]).emoji by {
                        assert(es[i].emoji == ps[i].0@);
                        assert(es[j].emoji == ps[j].0@);
                    }
                    assert forall|i: int| 0 <= i < es.len() implies table.contains_key(
                        (#[trigger] es[i]).emoji,
                    ) && es[i] == entry_from(es[i].emoji, table[es[i].emoji]) by {
                        lemma_table_map_at(ps, i);
                        assert(es[i] == entry_from(ps[i].0@, texts(ps[i].1@)));
                    }
                    assert forall|k: Seq<char>| #[trigger] table.contains_key(k) implies exists|i: int|
                        0 <= i < es.len() && (#[trigger] es[i]).emoji == k by {
                        lemma_table_map_dom(ps, k);
                        let i = choose|i: int| 0 <= i < ps.len() && (#[trigger] ps[i]).0@ == k;
                        assert(es[i] == entry_from(ps[i].0@, texts(ps[i].1@)));
                    }
                }
                Ok(db)
            },
            Err(e) => Err(LoadError::InvalidJson(json_error_text(&e))),
        }
    }
}


/// With an empty query every entry is listed, in database order, at the browse score
/// less its usage boost.
pub proof fn law_browse_lists_every_entry(
    entries: Seq<EntryView>,
    terms: Seq<Seq<char>>,
    usage: Option<Map<Seq<char>, u32>>,
)
    ensures
        candidates(entries, true, terms, usage).len() == entries.len(),
        forall|i: int|
            0 <= i < entries.len() ==> #[trigger] candidates(entries, true, terms, usage)[i] == (ResultView {
                emoji: entries[i].emoji,
                name: entries[i].name,
                score: saturating_minus(BROWSE_SCORE, boost_from(usage, entries[i].emoji)),
            }),
    decreases entries.len(),
{
    if entries.len() > 0 {
        law_browse_lists_every_entry(entries.drop_last(), terms, usage);
        assert forall|i: int| 0 <= i < entries.len() - 1 implies entries.drop_last()[i] == entries[i] by {}
    }
}

/// A usage boost never makes a result's score worse than the entry's own score.
pub proof fn law_usage_only_improves(
    e: EntryView,
    browse: bool,
    terms: Seq<Seq<char>>,
    usage: Map<Seq<char>, u32>,
)
    ensures
        candidate(e, browse, terms, Some(usage)) is Some <==> candidate(e, browse, terms, None) is Some,
        candidate(e, browse, terms, Some(usage)) is Some ==> candidate(e, browse, terms, Some(
            usage,
        ))->0.score <= candidate(e, browse, terms, None)->0.score,
{
}

/// Every result of a non-empty query comes from an entry whose tags match every term.
pub proof fn law_results_match_every_term(
    entries: Seq<EntryView>,
    terms: Seq<Seq<char>>,
    usage: Option<Map<Seq<char>, u32>>,
)
    ensures
        forall|i: int|
            0 <= i < candidates(entries, false, terms, usage).len() ==> exists|j: int|
                0 <= j < entries.len() && (#[trigger] entries[j]).emoji == (#[trigger] candidates(
                    entries,
                    false,
                    terms,
                    usage,
                )[i]).emoji && terms_matched(normalized_tags(entries[j].tags), terms),
    decreases entries.len(),
{
    if entries.len() > 0 {
        let prev = entries.drop_last();
        law_results_match_every_term(prev, terms, usage);
        let c = candidates(entries, false, terms, usage);
        assert forall|i: int| 0 <= i < c.len() implies exists|j: int|
            0 <= j < entries.len() && (#[trigger] entries[j]).emoji == (#[trigger] c[i]).emoji
                && terms_matched(normalized_tags(entries[j].tags), terms) by {
            let pc = candidates(prev, false, terms, usage);
            if i < pc.len() {
                assert(c[i] == pc[i]);
                let j = choose|j: int|
                    0 <= j < prev.len() && (#[trigger] prev[j]).emoji == (#[trigger] pc[i]).emoji
                        && terms_matched(normalized_tags(prev[j].tags), terms);
                assert(entries[j] == prev[j]);
            } else {
                let j = entries.len() - 1;
                assert(entries[j].emoji == c[i].emoji);
            }
        }
    }
}

/// A tag matches a term (exactly, as a prefix, or inside) exactly when the term occurs in it.
pub proof fn law_tag_matches_iff_term_occurs(tag: Seq<char>, term: Seq<char>, i: int)
    requires
        0 <= i <= u32::MAX - 101,
    ensures
        tag_match_score(tag, term, i) < u32::MAX <==> occurs_in(term, tag),
        tag == term ==> tag_match_score(tag, term, i) == i,
{
    if tag == term || term.is_prefix_of(tag) {
        assert(tag.subrange(0int, 0int + term.len()) =~= term);
        assert(occurs_in(term, tag));
    }
}

/// The best score of a term is no worse than the score of any one tag.
pub proof fn lemma_best_at_most(tags: Seq<Seq<char>>, term: Seq<char>, i: int)
    requires
        0 <= i < tags.len(),
    ensures
        best_tag_score(tags, term) <= tag_match_score(tags[i], term, i),
    decreases tags.len(),
{
    if i < tags.len() - 1 {
        lemma_best_at_most(tags.drop_last(), term, i);
        assert(tags.drop_last()[i] == tags[i]);
    }
}

/// A term has some matching tag exactly when it occurs in one of the tags;
/// an exact match at position `i` scores at most `i`.
pub proof fn law_term_matches_iff_occurs_in_some_tag(tags: Seq<Seq<char>>, term: Seq<char>)
    requires
        tags.len() <= u32::MAX - 100,
    ensures
        best_tag_score(tags, term) < u32::MAX <==> exists|i: int| 0 <= i < tags.len() && occurs_in(term, #[trigger] tags[i]),
        forall|i: int| 0 <= i < tags.len() && #[trigger] tags[i] == term ==> best_tag_score(tags, term) <= i,
    decreases tags.len(),
{
    if tags.len() > 0 {
        let prev = tags.drop_last();
        law_term_matches_iff_occurs_in_some_tag(prev, term);
        law_tag_matches_iff_term_occurs(tags.last(), term, tags.len() - 1);
        if exists|i: int| 0 <= i < tags.len() && occurs_in(term, #[trigger] tags[i]) {
            let i = choose|i: int| 0 <= i < tags.len() && occurs_in(term, #[trigger] tags[i]);
            law_tag_matches_iff_term_occurs(tags[i], term, i);
            lemma_best_at_most(tags, term, i);
        }
        if best_tag_score(prev, term) < u32::MAX {
            let i = choose|i: int| 0 <= i < prev.len() && occurs_in(term, #[trigger] prev[i]);
            assert(tags[i] == prev[i]);
        }
        assert forall|i: int| 0 <= i < tags.len() && #[trigger] tags[i] == term implies best_tag_score(
            tags,
            term,
        ) <= i by {
            lemma_best_at_most(tags, term, i);
        }
    }
}

/// Of two entries that match equally well (or with an empty query), the one picked more
/// often never gets the worse score: most-used emojis rise to the top.
pub proof fn law_more_use_never_ranks_lower(
    e1: EntryView,
    e2: EntryView,
    browse: bool,
    terms: Seq<Seq<char>>,
    counts: Map<Seq<char>, u32>,
)
    requires
        browse || entry_score(normalized_tags(e1.tags), terms) == entry_score(normalized_tags(e2.tags), terms),
        candidate(e1, browse, terms, Some(counts)) is Some,
        count_of(counts, e1.emoji) >= count_of(counts, e2.emoji),
    ensures
        candidate(e2, browse, terms, Some(counts)) is Some,
        candidate(e1, browse, terms, Some(counts))->0.score <= candidate(e2, browse, terms, Some(
            counts,
        ))->0.score,
{
}

/// No tag scores below zero for a term.
proof fn lemma_best_nonneg(tags: Seq<Seq<char>>, term: Seq<char>)
    ensures
        best_tag_score(tags, term) >= 0,
    decreases tags.len(),
{
    if tags.len() > 0 {
        lemma_best_nonneg(tags.drop_last(), term);
    }
}

/// Sums of best scores are never negative.
proof fn lemma_score_sum_nonneg(tags: Seq<Seq<char>>, terms: Seq<Seq<char>>)
    ensures
        score_sum(tags, terms) >= 0,
    decreases terms.len(),
{
    if terms.len() > 0 {
        lemma_score_sum_nonneg(tags, terms.drop_last());
        lemma_best_nonneg(tags, terms.last());
    }
}

/// Taking one term out of the list takes its best score out of the sum.
proof fn lemma_score_sum_remove(tags: Seq<Seq<char>>, terms: Seq<Seq<char>>, j: int)
    requires
        0 <= j < terms.len(),
    ensures
        score_sum(tags, terms) == score_sum(tags, terms.remove(j)) + best_tag_score(tags, terms[j]),
    decreases terms.len(),
{
    if j == terms.len() - 1 {
        assert(terms.remove(j) == terms.drop_last());
    } else {
        let d = terms.drop_last();
        lemma_score_sum_remove(tags, d, j);
        assert(terms.remove(j).drop_last() == d.remove(j));
        assert(terms.remove(j).last() == terms.last());
        assert(d[j] == terms[j]);
    }
}

/// The sum of best scores does not depend on the order of the terms.
proof fn lemma_score_sum_reordered(tags: Seq<Seq<char>>, a: Seq<Seq<char>>, b: Seq<Seq<char>>)
    requires
        a.to_multiset() == b.to_multiset(),
    ensures
        score_sum(tags, a) == score_sum(tags, b),
    decreases a.len(),
{
    broadcast use vstd::seq_lib::group_to_multiset_ensures;

    if a.len() == 0 {
        assert(a.len() == a.to_multiset().len());
        assert(b.len() == b.to_multiset().len());
    } else {
        let x = a.last();
        let d = a.drop_last();
        assert(d.push(x) == a);
        assert(a.to_multiset().count(x) > 0);
        assert(b.contains(x));
        let j = choose|j: int| 0 <= j < b.len() && b[j] == x;
        assert(b.remove(j).to_multiset() =~= d.to_multiset());
        lemma_score_sum_reordered(tags, d, b.remove(j));
        lemma_score_sum_remove(tags, b, j);
    }
}

/// The order of the query terms never changes an entry's score: any reordering
/// (the same terms, as many times each) scores the same.
pub proof fn law_term_order_never_matters(tags: Seq<Seq<char>>, a: Seq<Seq<char>>, b: Seq<Seq<char>>)
    requires
        a.to_multiset() == b.to_multiset(),
    ensures
        entry_score(tags, a) == entry_score(tags, b),
{
    broadcast use vstd::seq_lib::group_to_multiset_ensures;

    lemma_score_sum_reordered(tags, a, b);
    assert forall|k: int| 0 <= k < a.len() implies exists|j: int| 0 <= j < b.len() && b[j] == #[trigger] a[k] by {
        assert(a.contains(a[k]));
        assert(a.to_multiset().count(a[k]) > 0);
        assert(b.to_multiset().count(a[k]) > 0);
        assert(b.contains(a[k]));
    }
    assert forall|k: int| 0 <= k < b.len() implies exists|j: int| 0 <= j < a.len() && a[j] == #[trigger] b[k] by {
        assert(b.contains(b[k]));
        assert(b.to_multiset().count(b[k]) > 0);
        assert(a.to_multiset().count(b[k]) > 0);
        assert(a.contains(b[k]));
    }
    if terms_matched(tags, a) {
        assert forall|k: int| 0 <= k < b.len() implies #[trigger] best_tag_score(tags, b[k]) < u32::MAX by {
            let j = choose|j: int| 0 <= j < a.len() && a[j] == b[k];
            assert(best_tag_score(tags, a[j]) < u32::MAX);
        }
    }
    if terms_matched(tags, b) {
        assert forall|k: int| 0 <= k < a.len() implies #[trigger] best_tag_score(tags, a[k]) < u32::MAX by {
            let j = choose|j: int| 0 <= j < b.len() && b[j] == a[k];
            assert(best_tag_score(tags, b[j]) < u32::MAX);
        }
    }
}

/// An extra query term never improves an entry's score.
pub proof fn law_extra_term_never_improves(tags: Seq<Seq<char>>, terms: Seq<Seq<char>>, x: Seq<char>)
    ensures
        entry_score(tags, terms.push(x)) >= entry_score(tags, terms),
{
    let t = terms.push(x);
    assert(t.drop_last() == terms);
    assert(t.last() == x);
    lemma_best_nonneg(tags, x);
    assert(score_sum(tags, t) == score_sum(tags, terms) + best_tag_score(tags, x));
    lemma_score_sum_nonneg(tags, terms);
    if terms_matched(tags, t) {
        assert forall|k: int| 0 <= k < terms.len() implies #[trigger] best_tag_score(tags, terms[k]) < u32::MAX by {
            assert(t[k] == terms[k]);
        }
    }
}

/// More tags at the end never make a term's best score worse.
proof fn lemma_best_appended(tags: Seq<Seq<char>>, extra: Seq<Seq<char>>, term: Seq<char>)
    ensures
        best_tag_score(tags + extra, term) <= best_tag_score(tags, term),
    decreases extra.len(),
{
    if extra.len() == 0 {
        assert(tags + extra == tags);
    } else {
        lemma_best_appended(tags, extra.drop_last(), term);
        assert((tags + extra).drop_last() == tags + extra.drop_last());
    }
}

/// Better best scores for every term give a sum no larger.
proof fn lemma_score_sum_monotone(t1: Seq<Seq<char>>, t2: Seq<Seq<char>>, terms: Seq<Seq<char>>)
    requires
        forall|term: Seq<char>| #[trigger] best_tag_score(t1, term) <= best_tag_score(t2, term),
    ensures
        score_sum(t1, terms) <= score_sum(t2, terms),
    decreases terms.len(),
{
    if terms.len() > 0 {
        lemma_score_sum_monotone(t1, t2, terms.drop_last());
        assert(best_tag_score(t1, terms.last()) <= best_tag_score(t2, terms.last()));
    }
}

/// Tags added at the end of an entry's tags (as merging aliases adds them) never make its
/// score worse, and never turn a match into a miss.
pub proof fn law_appended_tags_never_worsen(tags: Seq<Seq<char>>, extra: Seq<Seq<char>>, terms: Seq<Seq<char>>)
    ensures
        entry_score(normalized_tags(tags + extra), terms) <= entry_score(normalized_tags(tags), terms),
{
    let n1 = normalized_tags(tags + extra);
    let n0 = normalized_tags(tags);
    assert(n1 =~= n0 + normalized_tags(extra));
    assert forall|term: Seq<char>| #[trigger] best_tag_score(n1, term) <= best_tag_score(n0, term) by {
        lemma_best_appended(n0, normalized_tags(extra), term);
    }
    lemma_score_sum_monotone(n1, n0, terms);
    assert(score_sum(n1, terms) <= score_sum(n0, terms));
    lemma_score_sum_nonneg(n1, terms);
    if terms_matched(n0, terms) {
        assert forall|k: int| 0 <= k < terms.len() implies #[trigger] best_tag_score(n1, terms[k]) < u32::MAX by {
            assert(best_tag_score(n1, terms[k]) <= best_tag_score(n0, terms[k]));
        }
    }
}

/// After merging, every alias is among the tags.
proof fn lemma_merged_contains(tags: Seq<Seq<char>>, extra: Seq<Seq<char>>)
    ensures
        forall|k: int| 0 <= k < extra.len() ==> merged_tags(tags, extra).contains(#[trigger] extra[k]),
        tags.is_prefix_of(merged_tags(tags, extra)),
    decreases extra.len(),
{
    if extra.len() > 0 {
        let prev = merged_tags(tags, extra.drop_last());
        lemma_merged_contains(tags, extra.drop_last());
        let m = merged_tags(tags, extra);
        assert forall|k: int| 0 <= k < extra.len() implies m.contains(#[trigger] extra[k]) by {
            if k < extra.len() - 1 {
                assert(extra.drop_last()[k] == extra[k]);
                let j = choose|j: int| 0 <= j < prev.len() && prev[j] == extra[k];
                assert(m[j] == extra[k]);
            } else if !prev.contains(extra.last()) {
                assert(m[m.len() - 1] == extra[k]);
            }
        }
        assert(m.take(tags.len() as int) =~= prev.take(tags.len() as int));
    }
}

/// Merging aliases that are all already tags changes nothing.
proof fn lemma_merged_noop(tags: Seq<Seq<char>>, extra: Seq<Seq<char>>)
    requires
        forall|k: int| 0 <= k < extra.len() ==> tags.contains(#[trigger] extra[k]),
    ensures
        merged_tags(tags, extra) == tags,
    decreases extra.len(),
{
    if extra.len() > 0 {
        assert forall|k: int| 0 <= k < extra.drop_last().len() implies tags.contains(
            #[trigger] extra.drop_last()[k],
        ) by {
            assert(extra.drop_last()[k] == extra[k]);
        }
        lemma_merged_noop(tags, extra.drop_last());
        assert(tags.contains(extra[extra.len() - 1]));
    }
}

/// Merging aliases keeps the existing tags first, in order, and afterwards every alias is a tag.
pub proof fn law_merge_keeps_tags_and_adds_aliases(e: EntryView, aliases: Map<Seq<char>, Vec<String>>)
    ensures
        with_aliases(e, aliases).emoji == e.emoji,
        with_aliases(e, aliases).name == e.name,
        e.tags.is_prefix_of(with_aliases(e, aliases).tags),
        aliases.contains_key(e.emoji) ==> forall|k: int|
            0 <= k < aliases[e.emoji]@.len() ==> with_aliases(e, aliases).tags.contains(
                #[trigger] texts(aliases[e.emoji]@)[k],
            ),
{
    if aliases.contains_key(e.emoji) {
        lemma_merged_contains(e.tags, texts(aliases[e.emoji]@));
    } else {
        assert(e.tags.take(e.tags.len() as int) == e.tags);
    }
}

/// Merging the same aliases twice gives what merging them once gives.
pub proof fn law_merge_idempotent(e: EntryView, aliases: Map<Seq<char>, Vec<String>>)
    ensures
        with_aliases(with_aliases(e, aliases), aliases) == with_aliases(e, aliases),
{
    if aliases.contains_key(e.emoji) {
        let extra = texts(aliases[e.emoji]@);
        let once = merged_tags(e.tags, extra);
        lemma_merged_contains(e.tags, extra);
        lemma_merged_noop(once, extra);
    }
}

/// Usage takes the emoji's whole boost (its pick count, capped at `BOOST_CAP`) off the score
/// the entry has without usage, down to zero; and without usage a non-empty query gives an
/// entry exactly its entry score, when that is a match.
pub proof fn law_usage_takes_whole_boost_off(
    e: EntryView,
    browse: bool,
    terms: Seq<Seq<char>>,
    counts: Map<Seq<char>, u32>,
)
    ensures
        candidate(e, browse, terms, Some(counts)) is Some <==> candidate(e, browse, terms, None) is Some,
        candidate(e, browse, terms, None) is Some ==> ({
            let plain = candidate(e, browse, terms, None)->0.score;
            let count = if counts.contains_key(e.emoji) { counts[e.emoji] as int } else { 0 };
            let boost = if count < BOOST_CAP { count } else { BOOST_CAP as int };
            &&& candidate(e, browse, terms, Some(counts))->0.score == if plain >= boost {
                plain - boost
            } else {
                0
            }
            &&& candidate(e, browse, terms, Some(counts))->0.emoji == e.emoji
            &&& candidate(e, browse, terms, Some(counts))->0.name == e.name
        }),
        !browse ==> (candidate(e, browse, terms, None) is Some <==> entry_score(normalized_tags(e.tags), terms)
            < u32::MAX),
        !browse && candidate(e, browse, terms, None) is Some ==> candidate(e, browse, terms, None)->0.score
            == entry_score(normalized_tags(e.tags), terms),
        browse ==> candidate(e, browse, terms, None) == Some(
            ResultView { emoji: e.emoji, name: e.name, score: BROWSE_SCORE },
        ),
{
}

/// An entry built from a list of tags whose first is `first` keeps the emoji and the tags,
/// and is named `first` with each underscore turned into a space, whatever tags follow;
/// with no tags its name is empty.
pub proof fn law_entry_named_after_first_tag(emoji: Seq<char>, first: Seq<char>, rest: Seq<Seq<char>>)
    ensures
        entry_from(emoji, seq![first] + rest).emoji == emoji,
        entry_from(emoji, seq![first] + rest).tags == seq![first] + rest,
        entry_from(emoji, seq![first] + rest).name.len() == first.len(),
        forall|i: int|
            0 <= i < first.len() ==> #[trigger] entry_from(emoji, seq![first] + rest).name[i] == if first[i]
                == '_' {
                ' '
            } else {
                first[i]
            },
        entry_from(emoji, Seq::<Seq<char>>::empty()).name.len() == 0,
{
    assert((seq![first] + rest)[0] == first);
}

/// A single term scores exactly its best tag score (`u32::MAX` when no tag matches it).
pub proof fn law_single_term_scores_its_best(tags: Seq<Seq<char>>, term: Seq<char>)
    ensures
        entry_score(tags, seq![term]) == best_tag_score(tags, term),
{
    lemma_best_bounds(tags, term);
    let t = seq![term];
    assert(t.drop_last() == Seq::<Seq<char>>::empty());
    assert(score_sum(tags, Seq::<Seq<char>>::empty()) == 0);
    assert(t.last() == term);
    assert(score_sum(tags, t) == best_tag_score(tags, term));
    if best_tag_score(tags, term) < u32::MAX {
        assert(terms_matched(tags, t));
    } else {
        assert(!(best_tag_score(tags, t[0]) < u32::MAX));
    }
}

/// A best tag score lies between 0 and `u32::MAX`.
proof fn lemma_best_bounds(tags: Seq<Seq<char>>, term: Seq<char>)
    ensures
        0 <= best_tag_score(tags, term) <= u32::MAX,
    decreases tags.len(),
{
    lemma_best_nonneg(tags, term);
    if tags.len() > 0 {
        lemma_best_bounds(tags.drop_last(), term);
    }
}

/// The sum of best scores over two lists of terms is the sum over each.
proof fn lemma_score_sum_concat(tags: Seq<Seq<char>>, a: Seq<Seq<char>>, b: Seq<Seq<char>>)
    ensures
        score_sum(tags, a + b) == score_sum(tags, a) + score_sum(tags, b),
    decreases b.len(),
{
    if b.len() == 0 {
        assert(a + b == a);
    } else {
        lemma_score_sum_concat(tags, a, b.drop_last());
        assert((a + b).drop_last() == a + b.drop_last());
        assert((a + b).last() == b.last());
    }
}

/// Term scores add up: when every term of `a` and of `b` matches, the score of all the
/// terms together is the sum of the two scores, capped at `u32::MAX`; when some term of
/// either does not match, nothing matches.
pub proof fn law_term_scores_add_up(tags: Seq<Seq<char>>, a: Seq<Seq<char>>, b: Seq<Seq<char>>)
    ensures
        entry_score(tags, a) < u32::MAX && entry_score(tags, b) < u32::MAX ==> entry_score(tags, a + b) == if entry_score(
            tags,
            a,
        ) + entry_score(tags, b) < u32::MAX {
            entry_score(tags, a) + entry_score(tags, b)
        } else {
            u32::MAX as int
        },
        entry_score(tags, a) == u32::MAX && !terms_matched(tags, a) ==> entry_score(tags, a + b) == u32::MAX,
        entry_score(tags, b) == u32::MAX && !terms_matched(tags, b) ==> entry_score(tags, a + b) == u32::MAX,
        terms_matched(tags, a) && terms_matched(tags, b) ==> terms_matched(tags, a + b),
{
    let ab = a + b;
    lemma_score_sum_concat(tags, a, b);
    lemma_score_sum_nonneg(tags, a);
    lemma_score_sum_nonneg(tags, b);
    if terms_matched(tags, a) && terms_matched(tags, b) {
        assert forall|k: int| 0 <= k < ab.len() implies #[trigger] best_tag_score(tags, ab[k]) < u32::MAX by {
            if k < a.len() {
                assert(ab[k] == a[k]);
            } else {
                assert(ab[k] == b[k - a.len()]);
            }
        }
    }
    if !terms_matched(tags, a) {
        let k = choose|k: int| 0 <= k < a.len() && !(#[trigger] best_tag_score(tags, a[k]) < u32::MAX);
        assert(ab[k] == a[k]);
    }
    if !terms_matched(tags, b) {
        let k = choose|k: int| 0 <= k < b.len() && !(#[trigger] best_tag_score(tags, b[k]) < u32::MAX);
        assert(ab[a.len() + k] == b[k]);
    }
}

/// The best score of a term is the lowest of its tags' scores: no tag beats it, and unless
/// it is `u32::MAX` (no match) some tag reaches it.
pub proof fn law_best_is_lowest_tag_score(tags: Seq<Seq<char>>, term: Seq<char>)
    ensures
        forall|i: int| 0 <= i < tags.len() ==> best_tag_score(tags, term) <= tag_match_score(#[trigger] tags[i], term, i),
        best_tag_score(tags, term) == u32::MAX || exists|i: int|
            0 <= i < tags.len() && best_tag_score(tags, term) == tag_match_score(#[trigger] tags[i], term, i),
    decreases tags.len(),
{
    assert forall|i: int| 0 <= i < tags.len() implies best_tag_score(tags, term) <= tag_match_score(
        #[trigger] tags[i],
        term,
        i,
    ) by {
        lemma_best_at_most(tags, term, i);
    }
    if tags.len() > 0 {
        let prev = tags.drop_last();
        law_best_is_lowest_tag_score(prev, term);
        if best_tag_score(tags, term) != u32::MAX && best_tag_score(tags, term) == best_tag_score(prev, term) {
            let i = choose|i: int|
                0 <= i < prev.len() && best_tag_score(prev, term) == tag_match_score(#[trigger] prev[i], term, i);
            assert(tags[i] == prev[i]);
        }
        if best_tag_score(tags, term) != best_tag_score(prev, term) {
            assert(tags[tags.len() - 1] == tags.last());
        }
    }
}

/// How one tag at position `i` scores for a term, in plain terms: the position when the tag is
/// the term, 50 more when the term starts the tag, 100 more when it occurs elsewhere inside it,
/// and `u32::MAX` when it does not occur in the tag.
pub proof fn law_tag_score_by_kind_of_match(tag: Seq<char>, term: Seq<char>, i: int)
    requires
        0 <= i <= u32::MAX - 101,
    ensures
        tag == term ==> tag_match_score(tag, term, i) == i,
        tag != term && term.len() <= tag.len() && tag.subrange(0, term.len() as int) == term ==> tag_match_score(
            tag,
            term,
            i,
        ) == 50 + i,
        !(term.len() <= tag.len() && tag.subrange(0, term.len() as int) == term) && (exists|j: int|
            0 <= j <= tag.len() - term.len() && #[trigger] tag.subrange(j, j + term.len()) == term)
            ==> tag_match_score(tag, term, i) == 100 + i,
        !(exists|j: int| 0 <= j <= tag.len() - term.len() && #[trigger] tag.subrange(j, j + term.len()) == term)
            ==> tag_match_score(tag, term, i) == u32::MAX,
{
    law_tag_matches_iff_term_occurs(tag, term, i);
    if tag != term && term.len() <= tag.len() && tag.subrange(0, term.len() as int) == term {
        assert(term.is_prefix_of(tag));
    }
}

} // verus!
