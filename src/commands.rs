//! The translation pipeline around the service calls: filtering out comments
//! already in the target language, deduplication by checksum, partition
//! against the cache, and reconciliation of the answers.

use crate::gpt::{views, QueryRequest, QueryResult, ResultView};
use crate::keyed::{
    has_key, latest, lemma_latest_append_absent, lemma_latest_dom, lemma_latest_update,
    lemma_one_entry_per_key, lemma_push_fresh, unique_keys, Keyed,
};
use std::collections::HashMap;
use vstd::prelude::*;

verus! {

/// A comment as the parser hands it over: its text and the checksum of that
/// text.
#[derive(Clone, Debug)]
pub struct CodeComment {
    pub text: String,
    pub text_checksum: u64,
}

impl Keyed for CodeComment {
    open spec fn key(&self) -> u64 {
        self.text_checksum
    }
}

impl CodeComment {
    pub fn copied(&self) -> (r: CodeComment)
        ensures
            r == *self,
    {
        CodeComment { text: self.text.clone(), text_checksum: self.text_checksum }
    }
}

/// The code of the language that `whatlang` detects in a text, if any.
pub uninterp spec fn detected_code(text: Seq<char>) -> Option<Seq<char>>;

/// Relies on `whatlang::detect` and `Lang::code`: the code of the detected
/// language, which depends on the text alone.
#[verifier::external_body]
fn detect(text: &str) -> (r: Option<String>)
    ensures
        match r {
            Some(c) => detected_code(text@) == Some(c@),
            None => detected_code(text@) is None,
        },
{
    match whatlang::detect(text) {
        Some(info) => Some(info.lang().code().to_string()),
        None => None,
    }
}

/// The language code of a text, `unknown` where none is detected.
pub open spec fn language_of(text: Seq<char>) -> Seq<char> {
    match detected_code(text) {
        Some(c) => c,
        None => "unknown"@,
    }
}

pub fn detect_language(comment: &str) -> (r: String)
    ensures
        r@ == language_of(comment@),
{
    match detect(comment) {
        Some(c) => c,
        None => String::from_str("unknown"),
    }
}

pub fn is_in_target_language(comment: &str, language: &String) -> (r: bool)
    ensures
        r == (language_of(comment@) == language@),
{
    let detected = detect_language(comment);
    detected == *language
}

/// The comments of `s` whose detected language, given at the same place in
/// `langs`, is not `language`, in their order.
pub open spec fn untranslated(s: Seq<CodeComment>, langs: Seq<Seq<char>>, language: Seq<char>) -> Seq<
    CodeComment,
>
    decreases s.len(),
{
    if s.len() == 0 {
        Seq::empty()
    } else {
        let rest = untranslated(s.drop_last(), langs.take(s.len() - 1), language);
        if langs[s.len() - 1] == language {
            rest
        } else {
            rest.push(s.last())
        }
    }
}

pub open spec fn string_views(v: Seq<String>) -> Seq<Seq<char>> {
    v.map_values(|s: String| s@)
}

/// Keeps the comments whose detected language (`languages[i]` for
/// `comments[i]`, as `detect_language` gives it) differs from `language`.
pub fn select_untranslated(
    comments: &Vec<CodeComment>,
    languages: &Vec<String>,
    language: &String,
) -> (r: Vec<CodeComment>)
    requires
        languages.len() == comments.len(),
    ensures
        r@ == untranslated(comments@, string_views(languages@), language@),
{
    let ghost langs = string_views(languages@);
    let mut r: Vec<CodeComment> = Vec::new();
    let mut i: usize = 0;
    while i < comments.len()
        invariant
            i <= comments.len(),
            languages.len() == comments.len(),
            langs == string_views(languages@),
            r@ == untranslated(comments@.take(i as int), langs.take(i as int), language@),
        decreases comments.len() - i,
    {
        let ghost s = comments@.take(i as int + 1);
        assert(s.drop_last() =~= comments@.take(i as int));
        assert(langs.take(i as int + 1).take(i as int) =~= langs.take(i as int));
        if languages[i] != *language {
            r.push(comments[i].copied());
        }
        i += 1;
    }
    assert(comments@.take(comments.len() as int) =~= comments@);
    assert(langs.take(comments.len() as int) =~= langs);
    r
}

fn find_comment(s: &Vec<CodeComment>, k: u64) -> (r: Option<usize>)
    ensures
        match r {
            Some(j) => j < s.len() && s@[j as int].key() == k,
            None => !has_key(s@, k),
        },
{
    let mut j: usize = 0;
    while j < s.len()
        invariant
            j <= s.len(),
            forall|a: int| 0 <= a < j ==> #[trigger] s@[a].key() != k,
        decreases s.len() - j,
    {
        if s[j].text_checksum == k {
            return Some(j);
        }
        j += 1;
    }
    None
}

/// One comment per checksum: the last one that carries it.
pub fn dedup(comments: &Vec<CodeComment>) -> (r: Vec<CodeComment>)
    ensures
        unique_keys(r@),
        latest(r@) == latest(comments@),
{
    let mut r: Vec<CodeComment> = Vec::new();
    let mut i: usize = 0;
    while i < comments.len()
        invariant
            i <= comments.len(),
            unique_keys(r@),
            latest(r@) == latest(comments@.take(i as int)),
        decreases comments.len() - i,
    {
        let c = comments[i].copied();
        assert(comments@.take(i as int + 1).drop_last() =~= comments@.take(i as int));
        match find_comment(&r, c.text_checksum) {
            Some(j) => {
                proof {
                    lemma_latest_update(r@, j as int, c);
                }
                r.set(j, c);
            },
            None => {
                proof {
                    lemma_push_fresh(r@, c);
                }
                r.push(c);
            },
        }
        i += 1;
    }
    assert(comments@.take(comments.len() as int) =~= comments@);
    r
}

/// Every entry of the cache is stored under its own checksum.
pub open spec fn cache_keyed(cache: Map<u64, QueryResult>) -> bool {
    forall|k: u64| #[trigger] cache.contains_key(k) ==> cache[k].text_checksum == k
}

/// The cached results for the comments of `s` that the cache holds, in the
/// order of `s`.
pub open spec fn cached_part(s: Seq<CodeComment>, cache: Map<u64, QueryResult>) -> Seq<ResultView>
    decreases s.len(),
{
    if s.len() == 0 {
        Seq::empty()
    } else {
        let rest = cached_part(s.drop_last(), cache);
        let k = s.last().text_checksum;
        if cache.contains_key(k) {
            rest.push(cache[k]@)
        } else {
            rest
        }
    }
}

/// The requests for the comments of `s` that the cache does not hold, in the
/// order of `s`.
pub open spec fn missing_part(s: Seq<CodeComment>, cache: Map<u64, QueryResult>, language: String) -> Seq<
    QueryRequest,
>
    decreases s.len(),
{
    if s.len() == 0 {
        Seq::empty()
    } else {
        let rest = missing_part(s.drop_last(), cache, language);
        let c = s.last();
        if cache.contains_key(c.text_checksum) {
            rest
        } else {
            rest.push(QueryRequest { language, text: c.text, text_checksum: c.text_checksum })
        }
    }
}

/// The comments split into those the cache answers and those to send.
pub struct Plan {
    pub resolved: Vec<QueryResult>,
    pub requests: Vec<QueryRequest>,
}

/// Splits deduplicated comments into cached results and requests in
/// `language` for the rest.
pub fn partition(entries: &Vec<CodeComment>, cache: &HashMap<u64, QueryResult>, language: &String) -> (r:
    Plan)
    ensures
        views(r.resolved@) == cached_part(entries@, cache@),
        r.requests@ == missing_part(entries@, cache@, *language),
{
    let mut resolved: Vec<QueryResult> = Vec::new();
    let mut requests: Vec<QueryRequest> = Vec::new();
    let mut i: usize = 0;
    while i < entries.len()
        invariant
            i <= entries.len(),
            views(resolved@) == cached_part(entries@.take(i as int), cache@),
            requests@ == missing_part(entries@.take(i as int), cache@, *language),
        decreases entries.len() - i,
    {
        let c = &entries[i];
        assert(entries@.take(i as int + 1).drop_last() =~= entries@.take(i as int));
        match cache.get(&c.text_checksum) {
            Some(q) => {
                let ghost before = resolved@;
                resolved.push(q.copied());
                assert(views(resolved@) =~= views(before).push(q@));
            },
            None => {
                requests.push(
                    QueryRequest {
                        language: language.clone(),
                        text: c.text.clone(),
                        text_checksum: c.text_checksum,
                    },
                );
            },
        }
        i += 1;
    }
    assert(entries@.take(entries.len() as int) =~= entries@);
    Plan { resolved, requests }
}

proof fn lemma_cached_part_unique(s: Seq<CodeComment>, cache: Map<u64, QueryResult>)
    requires
        unique_keys(s),
        cache_keyed(cache),
    ensures
        unique_keys(cached_part(s, cache)),
    decreases s.len(),
{
    if s.len() > 0 {
        let p = s.drop_last();
        let k = s.last().text_checksum;
        assert forall|a: int, b: int| 0 <= a < b < p.len() implies #[trigger] p[a].key()
            != #[trigger] p[b].key() by {
            assert(s[a].key() != s[b].key());
        }
        lemma_cached_part_unique(p, cache);
        if cache.contains_key(k) {
            if has_key(cached_part(p, cache), k) {
                lemma_latest_dom(cached_part(p, cache), k);
                lemma_cached_part_entry(p, cache, k);
                let i = choose|i: int| 0 <= i < p.len() && #[trigger] p[i].key() == k;
                assert(s[i].key() != s[s.len() - 1].key());
            }
            assert(cache[k]@.key() == k);
            lemma_push_fresh(cached_part(p, cache), cache[k]@);
        }
    }
}

proof fn lemma_missing_part_entries(s: Seq<CodeComment>, cache: Map<u64, QueryResult>, language: String)
    requires
        unique_keys(s),
    ensures
        unique_keys(missing_part(s, cache, language)),
        forall|k: u64| #[trigger]
            latest(missing_part(s, cache, language)).contains_key(k) <==> latest(s).contains_key(
                k,
            ) && !cache.contains_key(k),
        forall|k: u64| #[trigger]
            latest(missing_part(s, cache, language)).contains_key(k) ==> latest(
                missing_part(s, cache, language),
            )[k] == (QueryRequest { language, text: latest(s)[k].text, text_checksum: k }),
    decreases s.len(),
{
    if s.len() > 0 {
        let p = s.drop_last();
        let c = s.last();
        let k = c.text_checksum;
        assert forall|a: int, b: int| 0 <= a < b < p.len() implies #[trigger] p[a].key()
            != #[trigger] p[b].key() by {
            assert(s[a].key() != s[b].key());
        }
        lemma_missing_part_entries(p, cache, language);
        if !cache.contains_key(k) {
            let x = QueryRequest { language, text: c.text, text_checksum: k };
            if has_key(missing_part(p, cache, language), k) {
                lemma_missing_part_key(p, cache, language, k);
                let i = choose|i: int| 0 <= i < p.len() && #[trigger] p[i].key() == k;
                assert(s[i].key() != s[s.len() - 1].key());
            }
            lemma_push_fresh(missing_part(p, cache, language), x);
        }
    }
}

/// The comments not yet in `language` (`languages[i]` being the detected
/// language of `comments[i]`), one per checksum, split against the cache:
/// each checksum is either answered by the cache, with the cached entry, or
/// requested, with the last text that carries it, and never both.
pub fn plan(
    comments: &Vec<CodeComment>,
    languages: &Vec<String>,
    cache: &HashMap<u64, QueryResult>,
    language: &String,
) -> (r: Plan)
    requires
        languages.len() == comments.len(),
        cache_keyed(cache@),
    ensures
        ({
            let wanted = latest(untranslated(comments@, string_views(languages@), language@));
            &&& unique_keys(views(r.resolved@))
            &&& unique_keys(r.requests@)
            &&& forall|k: u64| #[trigger]
                latest(views(r.resolved@)).contains_key(k) <==> wanted.contains_key(k)
                    && cache@.contains_key(k)
            &&& forall|k: u64| #[trigger]
                latest(views(r.resolved@)).contains_key(k) ==> latest(views(r.resolved@))[k]
                    == cache@[k]@
            &&& forall|k: u64| #[trigger]
                latest(r.requests@).contains_key(k) <==> wanted.contains_key(k)
                    && !cache@.contains_key(k)
            &&& forall|k: u64| #[trigger]
                latest(r.requests@).contains_key(k) ==> latest(r.requests@)[k] == (QueryRequest {
                    language: *language,
                    text: wanted[k].text,
                    text_checksum: k,
                })
        }),
{
    let kept = select_untranslated(comments, languages, language);
    let entries = dedup(&kept);
    let r = partition(&entries, cache, language);
    proof {
        lemma_cached_part_unique(entries@, cache@);
        lemma_missing_part_entries(entries@, cache@, *language);
        assert forall|k: u64| #[trigger] latest(views(r.resolved@)).contains_key(k)
            <==> latest(entries@).contains_key(k) && cache@.contains_key(k) by {
            lemma_cached_part_entry(entries@, cache@, k);
            lemma_latest_dom(entries@, k);
        }
        assert forall|k: u64| #[trigger] latest(views(r.resolved@)).contains_key(k) implies latest(
            views(r.resolved@),
        )[k] == cache@[k]@ by {
            lemma_cached_part_entry(entries@, cache@, k);
        }
    }
    r
}

/// What `str::trim_start` makes of a string.
pub uninterp spec fn trimmed_start(s: Seq<char>) -> Seq<char>;

/// Relies on `str::trim_start`: leading white space removed, a result that
/// depends on the characters alone.
#[verifier::external_body]
fn trim_start(s: &str) -> (r: &str)
    ensures
        r@ == trimmed_start(s@),
{
    s.trim_start()
}

pub open spec fn is_prefix(p: Seq<char>, s: Seq<char>) -> bool {
    p.len() <= s.len() && s.subrange(0, p.len() as int) == p
}

/// Relies on `str::starts_with` with a string pattern: whether `p` is a
/// prefix of `s`.
#[verifier::external_body]
fn starts_with(s: &str, p: &str) -> (r: bool)
    ensures
        r == is_prefix(p@, s@),
{
    s.starts_with(p)
}

/// The translation with a line-comment marker put in front where the
/// original, past its leading white space (`original_start`), opens with
/// `//` and the translation, past its own (`translation_start`), does not.
pub open spec fn marked_from(
    original_start: Seq<char>,
    translation_start: Seq<char>,
    translation: Seq<char>,
) -> Seq<char> {
    if is_prefix("//"@, original_start) && !is_prefix("//"@, translation_start) {
        "// "@ + translation
    } else {
        translation
    }
}

pub open spec fn marked(original: Seq<char>, translation: Seq<char>) -> Seq<char> {
    marked_from(trimmed_start(original), trimmed_start(translation), translation)
}

/// Puts the marker in front of `translation` given both texts past their
/// leading white space.
pub fn mark_translation(original_start: &str, translation_start: &str, translation: String) -> (r:
    String)
    ensures
        r@ == marked_from(original_start@, translation_start@, translation@),
{
    if starts_with(original_start, "//") && !starts_with(translation_start, "//") {
        let mut r = String::from_str("// ");
        r.append(translation.as_str());
        r
    } else {
        translation
    }
}

/// Keeps a line-comment marker of the original on its translation.
pub fn fix_marker(original: &str, translation: String) -> (r: String)
    ensures
        r@ == marked(original@, translation@),
{
    let original_start = trim_start(original);
    let translation_start = trim_start(translation.as_str());
    mark_translation(original_start, translation_start, translation.clone())
}

/// A fresh result with the marker fix-up applied.
pub open spec fn fixed_view(q: ResultView) -> ResultView {
    ResultView {
        text: q.text,
        text_translation: marked(q.text, q.text_translation),
        text_checksum: q.text_checksum,
    }
}

pub open spec fn fixed_views(s: Seq<QueryResult>) -> Seq<ResultView> {
    s.map_values(|q: QueryResult| fixed_view(q@))
}

fn find_result(s: &Vec<QueryResult>, k: u64) -> (r: Option<usize>)
    ensures
        match r {
            Some(j) => j < s.len() && s@[j as int].text_checksum == k,
            None => !has_key(views(s@), k),
        },
{
    let mut j: usize = 0;
    while j < s.len()
        invariant
            j <= s.len(),
            forall|a: int| 0 <= a < j ==> #[trigger] s@[a].text_checksum != k,
        decreases s.len() - j,
    {
        if s[j].text_checksum == k {
            return Some(j);
        }
        j += 1;
    }
    assert forall|a: int| 0 <= a < s.len() implies #[trigger] views(s@)[a].key() != k by {
        assert(views(s@)[a] == s@[a]@);
    }
    None
}

/// Puts `f` in place of the entry with its checksum, or adds it.
fn upsert(r: &mut Vec<QueryResult>, f: QueryResult)
    requires
        unique_keys(views(old(r)@)),
    ensures
        unique_keys(views(final(r)@)),
        latest(views(final(r)@)) == latest(views(old(r)@)).insert(f.text_checksum, f@),
{
    let ghost before = r@;
    match find_result(r, f.text_checksum) {
        Some(j) => {
            proof {
                assert(views(before)[j as int].key() == f@.key());
                lemma_latest_update(views(before), j as int, f@);
            }
            r.set(j, f);
            assert(views(r@) =~= views(before).update(j as int, f@));
        },
        None => {
            proof {
                lemma_push_fresh(views(before), f@);
            }
            r.push(f);
            assert(views(r@) =~= views(before).push(f@));
        },
    }
}

/// Merges the fresh results, marker fixed, into the cached ones: one entry
/// per checksum, a later entry replacing an earlier one and a fresh result
/// replacing a cached one.
pub fn reconcile(resolved: &Vec<QueryResult>, fresh: &Vec<QueryResult>) -> (r: Vec<QueryResult>)
    ensures
        unique_keys(views(r@)),
        latest(views(r@)) == latest(views(resolved@) + fixed_views(fresh@)),
{
    let ghost base = views(resolved@);
    let mut r: Vec<QueryResult> = Vec::new();
    let mut i: usize = 0;
    while i < resolved.len()
        invariant
            i <= resolved.len(),
            base == views(resolved@),
            unique_keys(views(r@)),
            latest(views(r@)) == latest(base.take(i as int)),
        decreases resolved.len() - i,
    {
        assert(base.take(i as int + 1).drop_last() =~= base.take(i as int));
        assert(base[i as int] == resolved@[i as int]@);
        upsert(&mut r, resolved[i].copied());
        i += 1;
    }
    assert(base.take(resolved.len() as int) =~= base);
    let mut i: usize = 0;
    while i < fresh.len()
        invariant
            i <= fresh.len(),
            unique_keys(views(r@)),
            latest(views(r@)) == latest(base + fixed_views(fresh@).take(i as int)),
        decreases fresh.len() - i,
    {
        let q = &fresh[i];
        let f = QueryResult {
            text: q.text.clone(),
            text_translation: fix_marker(q.text.as_str(), q.text_translation.clone()),
            text_checksum: q.text_checksum,
        };
        assert(f@ == fixed_view(q@));
        assert((base + fixed_views(fresh@).take(i as int + 1)).drop_last() =~= base + fixed_views(
            fresh@,
        ).take(i as int));
        upsert(&mut r, f);
        i += 1;
    }
    assert(fixed_views(fresh@).take(fresh.len() as int) =~= fixed_views(fresh@));
    r
}

/// The cache to store: each result under its checksum.
pub fn to_cache_map(results: &Vec<QueryResult>) -> (r: HashMap<u64, QueryResult>)
    ensures
        cache_keyed(r@),
        forall|k: u64| #[trigger] r@.contains_key(k) <==> latest(views(results@)).contains_key(k),
        forall|k: u64| #[trigger] r@.contains_key(k) ==> r@[k]@ == latest(views(results@))[k],
{
    let mut r: HashMap<u64, QueryResult> = HashMap::new();
    let mut i: usize = 0;
    while i < results.len()
        invariant
            i <= results.len(),
            cache_keyed(r@),
            forall|k: u64| #[trigger] r@.contains_key(k) <==> latest(views(results@).take(i as int)).contains_key(k),
            forall|k: u64| #[trigger] r@.contains_key(k) ==> r@[k]@ == latest(views(results@).take(i as int))[k],
        decreases results.len() - i,
    {
        let q = results[i].copied();
        assert(views(results@).take(i as int + 1).drop_last() =~= views(results@).take(i as int));
        assert(views(results@)[i as int] == q@);
        r.insert(q.text_checksum, q);
        i += 1;
    }
    assert(views(results@).take(results.len() as int) =~= views(results@));
    r
}

/// What `str::replace` makes of `s` with pattern `from` and replacement `to`.
pub uninterp spec fn replaced(s: Seq<char>, from: Seq<char>, to: Seq<char>) -> Seq<char>;

/// Relies on `str::replace`: each match of `from`, left to right, replaced
/// by `to`, a result that depends on the three texts alone.
#[verifier::external_body]
fn replace(s: &str, from: &str, to: &str) -> (r: String)
    ensures
        r@ == replaced(s@, from@, to@),
{
    s.replace(from, to)
}

/// The source with the text of each result, in turn, replaced by its
/// translation.
pub open spec fn rewritten(source: Seq<char>, results: Seq<ResultView>) -> Seq<char>
    decreases results.len(),
{
    if results.len() == 0 {
        source
    } else {
        let r = results.last();
        replaced(rewritten(source, results.drop_last()), r.text, r.text_translation)
    }
}

/// Writes the translations into the source text, by plain substring
/// replacement.
pub fn rewrite(source: &str, results: &Vec<QueryResult>) -> (r: String)
    ensures
        r@ == rewritten(source@, views(results@)),
{
    let mut r = String::from_str(source);
    let mut i: usize = 0;
    while i < results.len()
        invariant
            i <= results.len(),
            r@ == rewritten(source@, views(results@).take(i as int)),
        decreases results.len() - i,
    {
        assert(views(results@).take(i as int + 1).drop_last() =~= views(results@).take(i as int));
        assert(views(results@)[i as int] == results@[i as int]@);
        r = replace(r.as_str(), results[i].text.as_str(), results[i].text_translation.as_str());
        i += 1;
    }
    assert(views(results@).take(results.len() as int) =~= views(results@));
    r
}

proof fn lemma_cached_part_entry(s: Seq<CodeComment>, cache: Map<u64, QueryResult>, k: u64)
    requires
        cache_keyed(cache),
    ensures
        latest(cached_part(s, cache)).contains_key(k) <==> (has_key(s, k) && cache.contains_key(k)),
        latest(cached_part(s, cache)).contains_key(k) ==> latest(cached_part(s, cache))[k]
            == cache[k]@,
    decreases s.len(),
{
    if s.len() > 0 {
        let p = s.drop_last();
        lemma_cached_part_entry(p, cache, k);
        let c = s.last();
        if cache.contains_key(c.text_checksum) {
            assert(cached_part(s, cache).drop_last() =~= cached_part(p, cache));
        }
        if has_key(p, k) {
            let i = choose|i: int| 0 <= i < p.len() && #[trigger] p[i].key() == k;
            assert(s[i].key() == k);
        }
        if has_key(s, k) && c.key() != k {
            let i = choose|i: int| 0 <= i < s.len() && #[trigger] s[i].key() == k;
            assert(p[i].key() == k);
        }
        assert(s[s.len() - 1].key() == c.key());
    }
}

proof fn lemma_missing_part_key(s: Seq<CodeComment>, cache: Map<u64, QueryResult>, language: String, k: u64)
    requires
        has_key(missing_part(s, cache, language), k),
    ensures
        has_key(s, k),
        !cache.contains_key(k),
    decreases s.len(),
{
    let p = s.drop_last();
    let m = missing_part(s, cache, language);
    let i = choose|i: int| 0 <= i < m.len() && #[trigger] m[i].key() == k;
    if i < missing_part(p, cache, language).len() {
        assert(missing_part(p, cache, language)[i].key() == k);
        lemma_missing_part_key(p, cache, language, k);
        let j = choose|j: int| 0 <= j < p.len() && #[trigger] p[j].key() == k;
        assert(s[j].key() == k);
    } else {
        assert(s[s.len() - 1].key() == k);
    }
}

proof fn lemma_nothing_missing(s: Seq<CodeComment>, cache: Map<u64, QueryResult>, language: String)
    requires
        forall|k: u64| has_key(s, k) ==> #[trigger] cache.contains_key(k),
    ensures
        missing_part(s, cache, language).len() == 0,
    decreases s.len(),
{
    if s.len() > 0 {
        let p = s.drop_last();
        assert forall|k: u64| has_key(p, k) implies #[trigger] cache.contains_key(k) by {
            let j = choose|j: int| 0 <= j < p.len() && #[trigger] p[j].key() == k;
            assert(s[j].key() == k);
        }
        lemma_nothing_missing(p, cache, language);
        assert(s[s.len() - 1].key() == s.last().key());
        assert(has_key(s, s.last().text_checksum));
    }
}

/// Comments that share a checksum collapse: whatever sequence with unique
/// checksums maps like the comments (what `dedup` returns) holds that
/// checksum at exactly one place.
pub proof fn lemma_dedup_one_entry(comments: Seq<CodeComment>, deduped: Seq<CodeComment>, i: int, j: int)
    requires
        0 <= i < j < comments.len(),
        comments[i].text_checksum == comments[j].text_checksum,
        unique_keys(deduped),
        latest(deduped) == latest(comments),
    ensures
        exists|x: int|
            0 <= x < deduped.len() && #[trigger] deduped[x].key() == comments[i].text_checksum
                && forall|y: int|
                0 <= y < deduped.len() && y != x ==> #[trigger] deduped[y].key()
                    != comments[i].text_checksum,
{
    let k = comments[i].text_checksum;
    assert(comments[i].key() == k);
    lemma_latest_dom(comments, k);
    lemma_one_entry_per_key(deduped, k);
}

/// In the reconciled result a checksum of the comments that was answered,
/// from the cache or by the service, stands at exactly one place, however
/// many comments shared it.
pub proof fn lemma_result_one_entry(
    entries: Seq<CodeComment>,
    cache: Map<u64, QueryResult>,
    fresh: Seq<QueryResult>,
    result: Seq<QueryResult>,
    k: u64,
)
    requires
        cache_keyed(cache),
        unique_keys(views(result)),
        latest(views(result)) == latest(cached_part(entries, cache) + fixed_views(fresh)),
        has_key(entries, k),
        cache.contains_key(k) || has_key(views(fresh), k),
    ensures
        exists|x: int|
            0 <= x < result.len() && #[trigger] result[x].text_checksum == k && forall|y: int|
                0 <= y < result.len() && y != x ==> #[trigger] result[y].text_checksum != k,
{
    let a = cached_part(entries, cache);
    let f = fixed_views(fresh);
    if cache.contains_key(k) {
        lemma_cached_part_entry(entries, cache, k);
        lemma_latest_dom(a, k);
        let i = choose|i: int| 0 <= i < a.len() && #[trigger] a[i].key() == k;
        assert((a + f)[i].key() == k);
    } else {
        let i = choose|i: int| 0 <= i < fresh.len() && #[trigger] views(fresh)[i].key() == k;
        assert(views(fresh)[i] == fresh[i]@);
        assert((a + f)[a.len() + i].key() == k);
    }
    lemma_latest_dom(a + f, k);
    lemma_one_entry_per_key(views(result), k);
    let x = choose|x: int|
        0 <= x < views(result).len() && #[trigger] views(result)[x].key() == k && forall|y: int|
            0 <= y < views(result).len() && y != x ==> #[trigger] views(result)[y].key() != k;
    assert(result[x].text_checksum == views(result)[x].key());
    assert forall|y: int| 0 <= y < result.len() && y != x implies #[trigger] result[y].text_checksum
        != k by {
        assert(views(result)[y].key() == result[y].text_checksum);
    }
}

/// A checksum that the cache holds is never requested, and the reconciled
/// result keeps the cached entry for it unchanged, whatever answers come
/// back for the requests.
pub proof fn lemma_cache_short_circuit(
    entries: Seq<CodeComment>,
    cache: Map<u64, QueryResult>,
    language: String,
    fresh: Seq<QueryResult>,
    k: u64,
)
    requires
        cache_keyed(cache),
        has_key(entries, k),
        cache.contains_key(k),
        forall|i: int|
            0 <= i < fresh.len() ==> has_key(
                missing_part(entries, cache, language),
                #[trigger] fresh[i].text_checksum,
            ),
    ensures
        !has_key(missing_part(entries, cache, language), k),
        latest(cached_part(entries, cache) + fixed_views(fresh)).contains_key(k),
        latest(cached_part(entries, cache) + fixed_views(fresh))[k] == cache[k]@,
{
    if has_key(missing_part(entries, cache, language), k) {
        lemma_missing_part_key(entries, cache, language, k);
    }
    let f = fixed_views(fresh);
    if has_key(f, k) {
        let i = choose|i: int| 0 <= i < f.len() && #[trigger] f[i].key() == k;
        assert(f[i].key() == fresh[i].text_checksum);
        lemma_missing_part_key(entries, cache, language, fresh[i].text_checksum);
    }
    lemma_cached_part_entry(entries, cache, k);
    lemma_latest_append_absent(cached_part(entries, cache), f, k);
}

/// Translating again on the cache that the first run stored issues no
/// request, and each checksum gets the very entry that the first run
/// produced.
pub proof fn lemma_round_trip(
    entries: Seq<CodeComment>,
    first: Seq<QueryResult>,
    cache: Map<u64, QueryResult>,
    language: String,
)
    requires
        cache_keyed(cache),
        forall|k: u64| #[trigger] cache.contains_key(k) <==> latest(views(first)).contains_key(k),
        forall|k: u64| #[trigger] cache.contains_key(k) ==> cache[k]@ == latest(views(first))[k],
        forall|k: u64| has_key(entries, k) ==> #[trigger] latest(views(first)).contains_key(k),
    ensures
        missing_part(entries, cache, language).len() == 0,
        forall|k: u64|
            has_key(entries, k) ==> #[trigger] latest(cached_part(entries, cache)).contains_key(k)
                && latest(cached_part(entries, cache))[k] == latest(views(first))[k],
{
    assert forall|k: u64| has_key(entries, k) implies #[trigger] cache.contains_key(k) by {
        assert(latest(views(first)).contains_key(k));
    }
    lemma_nothing_missing(entries, cache, language);
    assert forall|k: u64| has_key(entries, k) implies #[trigger] latest(
        cached_part(entries, cache),
    ).contains_key(k) && latest(cached_part(entries, cache))[k] == latest(views(first))[k] by {
        assert(latest(views(first)).contains_key(k));
        lemma_cached_part_entry(entries, cache, k);
    }
}

} // verus!
