//! Frequency analysis of text: pre-tokenizing by a pattern, dictionary
//! segmentation, filtering, counting, case merging and ranking.

use crate::freq::{
    class_total, count_words, distinct_texts, keep_common_case, lower_of, occurrences, to_lower, top_of_class, total,
};
use crate::rank::{rank_words, ranked};
use jieba_rs::Jieba;
use regex::Regex;
use vstd::prelude::*;
use vstd::string::StrSliceExecFns;

verus! {

#[verifier::external_type_specification]
#[verifier::external_body]
pub struct ExJieba(jieba_rs::Jieba);

/// What `char::is_numeric` says of a character.
pub uninterp spec fn numeric_char(c: char) -> bool;

/// Relies on `char::is_numeric`: true for the characters of the Unicode
/// number categories, among them the ASCII digits.
#[verifier::external_body]
fn is_numeric(c: char) -> (r: bool)
    ensures
        r == numeric_char(c),
        '0' <= c <= '9' ==> r,
{
    c.is_numeric()
}

/// The texts of the successive matches of the regular expression
/// `pattern` in `text`, as regex finds them; none when `pattern` does not
/// compile.
pub uninterp spec fn matches_of(pattern: Seq<char>, text: Seq<char>) -> Seq<Seq<char>>;

/// Relies on regex's `Regex::new` and `Regex::find_iter`: the matches
/// depend on the pattern and the text alone.
#[verifier::external_body]
fn find_matches(pattern: &str, text: &str) -> (r: Vec<String>)
    ensures
        texts(r@) == matches_of(pattern@, text@),
{
    match Regex::new(pattern) {
        Ok(re) => re.find_iter(text).map(|m| m.as_str().to_string()).collect(),
        Err(_) => Vec::new(),
    }
}

/// The words that jieba-rs's segmenter, loaded with its default
/// dictionary and then the words `added` in turn, cuts `chunk` into
/// (without the hidden Markov model).
pub uninterp spec fn cut_of(added: Seq<Seq<char>>, chunk: Seq<char>) -> Seq<Seq<char>>;

/// Relies on jieba-rs's `Jieba::new`: a segmenter with the default
/// dictionary.
#[verifier::external_body]
fn new_jieba() -> (r: Jieba) {
    Jieba::new()
}

/// Relies on jieba-rs's `Jieba::cut` without the hidden Markov model: the
/// cut depends on the words added to the default dictionary and on the
/// chunk alone.
#[verifier::external_body]
fn segment(segmenter: &Segmenter, chunk: &str) -> (r: Vec<String>)
    ensures
        texts(r@) == cut_of(segmenter.added_words(), chunk@),
{
    segmenter.jieba.cut(chunk, false).into_iter().map(|s| s.to_string()).collect()
}

/// Relies on jieba-rs's `Jieba::add_word`: makes a non-empty `word` known
/// to the segmenter, with a frequency it suggests itself (an empty word
/// would make it panic).
#[verifier::external_body]
fn add_dictionary_word(jieba: &mut Jieba, word: &str)
    requires
        word@.len() > 0,
{
    jieba.add_word(word, None, None);
}

/// Dictionary segmentation: the default dictionary and the words added to
/// it, in order.
pub struct Segmenter {
    jieba: Jieba,
    added: Vec<String>,
}

impl Segmenter {
    /// The words added to the default dictionary, in order.
    pub closed spec fn added_words(&self) -> Seq<Seq<char>> {
        texts(self.added@)
    }

    pub fn new() -> (r: Segmenter)
        ensures
            r.added_words() == Seq::<Seq<char>>::empty(),
    {
        let r = Segmenter { jieba: new_jieba(), added: Vec::new() };
        assert(texts(r.added@) =~= Seq::<Seq<char>>::empty());
        r
    }

    /// Adds a non-empty `word` to the dictionary.
    pub fn add_word(&mut self, word: &str)
        requires
            word@.len() > 0,
        ensures
            final(self).added_words() == old(self).added_words().push(word@),
    {
        add_dictionary_word(&mut self.jieba, word);
        let ghost before = self.added@;
        self.added.push(word.to_string());
        assert(texts(self.added@) =~= texts(before).push(word@));
    }

    /// The words of `chunk`.
    pub fn cut(&self, chunk: &str) -> (r: Vec<String>)
        ensures
            texts(r@) == cut_of(self.added_words(), chunk@),
    {
        segment(self, chunk)
    }
}

/// Every character of `s` is numeric.
pub open spec fn all_numeric(s: Seq<char>) -> bool {
    forall|i: int| 0 <= i < s.len() ==> #[trigger] numeric_char(s[i])
}

/// A segment survives the filters: long enough, not a number when numbers
/// are excluded, and not in the exclusion list whatever its letter case.
pub open spec fn token_kept(
    min_word_length: usize,
    exclude_numbers: bool,
    filter: Seq<String>,
    word: Seq<char>,
) -> bool {
    &&& word.len() >= min_word_length
    &&& !(exclude_numbers && all_numeric(word))
    &&& forall|k: int| 0 <= k < filter.len() ==> #[trigger] filter[k]@ != lower_of(word)
}

/// The segments among the first `n` that survive the filters, in order.
pub open spec fn kept_segments(
    min_word_length: usize,
    exclude_numbers: bool,
    filter: Seq<String>,
    segments: Seq<Seq<char>>,
    n: int,
) -> Seq<Seq<char>>
    decreases n,
{
    if n <= 0 {
        Seq::empty()
    } else {
        let before = kept_segments(min_word_length, exclude_numbers, filter, segments, n - 1);
        if token_kept(min_word_length, exclude_numbers, filter, segments[n - 1]) {
            before.push(segments[n - 1])
        } else {
            before
        }
    }
}

/// The texts of a list of strings.
pub open spec fn texts(s: Seq<String>) -> Seq<Seq<char>> {
    s.map_values(|x: String| x@)
}

proof fn lemma_class_total_ge(s: Seq<(String, u64)>, l: Seq<char>, i: int, n: int)
    requires
        0 <= i < n <= s.len(),
        lower_of(s[i].0@) == l,
    ensures
        class_total(s, l, n) >= s[i].1,
    decreases n,
{
    if n - 1 > i {
        lemma_class_total_ge(s, l, i, n - 1);
    } else {
        lemma_class_total_nonneg(s, l, n - 1);
    }
}

proof fn lemma_class_total_nonneg(s: Seq<(String, u64)>, l: Seq<char>, n: int)
    ensures
        class_total(s, l, n) >= 0,
    decreases n,
{
    if n > 0 {
        lemma_class_total_nonneg(s, l, n - 1);
    }
}

proof fn lemma_kept_segments_pass(
    min_word_length: usize,
    exclude_numbers: bool,
    filter: Seq<String>,
    segments: Seq<Seq<char>>,
    n: int,
)
    ensures
        forall|k: int|
            0 <= k < kept_segments(min_word_length, exclude_numbers, filter, segments, n).len() ==> token_kept(
                min_word_length,
                exclude_numbers,
                filter,
                #[trigger] kept_segments(min_word_length, exclude_numbers, filter, segments, n)[k],
            ),
    decreases n,
{
    if n > 0 {
        lemma_kept_segments_pass(min_word_length, exclude_numbers, filter, segments, n - 1);
        let before = kept_segments(min_word_length, exclude_numbers, filter, segments, n - 1);
        let now = kept_segments(min_word_length, exclude_numbers, filter, segments, n);
        assert forall|k: int| 0 <= k < now.len() implies token_kept(
            min_word_length,
            exclude_numbers,
            filter,
            #[trigger] now[k],
        ) by {
            if k < before.len() {
                assert(now[k] == before[k]);
            }
        }
    }
}

/// Merging letter-case variants of positive counts leaves positive counts.
proof fn lemma_merged_positive(counts: Seq<(String, u64)>, r: Seq<(String, u64)>)
    requires
        forall|i: int| 0 <= i < counts.len() ==> #[trigger] counts[i].1 > 0,
        forall|k: int|
            #![trigger r[k]]
            0 <= k < r.len() ==> exists|i: int|
                0 <= i < counts.len() && #[trigger] counts[i].0@ == r[k].0@ && top_of_class(counts, i, counts.len() as int),
        forall|k: int| 0 <= k < r.len() ==> #[trigger] r[k].1 == class_total(counts, lower_of(r[k].0@), counts.len() as int),
    ensures
        forall|k: int| 0 <= k < r.len() ==> #[trigger] r[k].1 > 0,
{
    assert forall|k: int| 0 <= k < r.len() implies #[trigger] r[k].1 > 0 by {
        let i = choose|i: int|
            0 <= i < counts.len() && #[trigger] counts[i].0@ == r[k].0@ && top_of_class(counts, i, counts.len() as int);
        lemma_class_total_ge(counts, lower_of(r[k].0@), i, counts.len() as int);
    }
}

/// `counts` counts the `tokens` by exact text, and `r` merges the
/// letter-case variants of `counts`.
pub open spec fn counted_and_merged(tokens: Seq<String>, counts: Seq<(String, u64)>, r: Seq<(String, u64)>) -> bool {
    &&& distinct_texts(counts)
    &&& forall|k: int|
        0 <= k < counts.len() ==> #[trigger] counts[k].1 == occurrences(tokens, counts[k].0@, tokens.len() as int)
            && counts[k].1 > 0
    &&& forall|j: int|
        #![trigger tokens[j]]
        0 <= j < tokens.len() ==> exists|k: int| 0 <= k < counts.len() && #[trigger] counts[k].0@ == #[trigger] tokens[j]@
    &&& total(counts, counts.len() as int) == tokens.len()
    &&& forall|a: int, b: int| 0 <= a < b < r.len() ==> lower_of(#[trigger] r[a].0@) != lower_of(#[trigger] r[b].0@)
    &&& forall|k: int|
        #![trigger r[k]]
        0 <= k < r.len() ==> exists|i: int|
            0 <= i < counts.len() && #[trigger] counts[i].0@ == r[k].0@ && top_of_class(counts, i, counts.len() as int)
    &&& forall|k: int| 0 <= k < r.len() ==> #[trigger] r[k].1 == class_total(counts, lower_of(r[k].0@), counts.len() as int)
    &&& forall|i: int|
        #![trigger counts[i]]
        0 <= i < counts.len() ==> exists|k: int| 0 <= k < r.len() && lower_of(#[trigger] r[k].0@) == lower_of(counts[i].0@)
}

/// `r` is the first `max_words` (all when 0) of a ranking of `freqs`.
pub open spec fn ranked_prefix(freqs: Seq<(String, u64)>, r: Seq<(String, u64)>, max_words: usize) -> bool {
    &&& r.len() == if 0 < max_words < freqs.len() {
        max_words as int
    } else {
        freqs.len() as int
    }
    &&& exists|full: Seq<(String, u64)>|
        #![trigger full.to_multiset()]
        full.to_multiset() == freqs.to_multiset() && ranked(full) && r == full.subrange(0, r.len() as int)
}

/// Splits text into words and counts them.
pub struct ChineseTokenizer {
    /// The regular expression that pre-tokenizes text.
    pub pattern: String,
    pub segmenter: Segmenter,
    /// Excluded words, in lower case.
    pub filter: Vec<String>,
    pub min_word_length: usize,
    pub exclude_numbers: bool,
    pub max_words: usize,
    pub repeat: bool,
}

impl ChineseTokenizer {
    /// A tokenizer that pre-tokenizes by the regular expression `pattern`
    /// and segments with the default dictionary: no minimum length,
    /// numbers excluded, at most 200 words.
    pub fn new(pattern: String) -> (r: Self)
        ensures
            r.pattern@ == pattern@,
            r.segmenter.added_words() == Seq::<Seq<char>>::empty(),
            r.filter@.len() == 0,
            r.min_word_length == 0,
            r.exclude_numbers,
            r.max_words == 200,
            !r.repeat,
    {
        ChineseTokenizer {
            pattern,
            segmenter: Segmenter::new(),
            filter: Vec::new(),
            min_word_length: 0,
            exclude_numbers: true,
            max_words: 200,
            repeat: false,
        }
    }

    /// Pre-tokenizes by the regular expression `pattern` from now on.
    pub fn with_regex(self, pattern: String) -> (r: Self)
        ensures
            r.pattern@ == pattern@,
            r.segmenter.added_words() == self.segmenter.added_words(),
            r.filter == self.filter,
            r.min_word_length == self.min_word_length,
            r.exclude_numbers == self.exclude_numbers,
            r.max_words == self.max_words,
            r.repeat == self.repeat,
    {
        ChineseTokenizer { pattern, ..self }
    }

    /// Makes `word` known to the segmenter; an empty word is ignored.
    pub fn with_word(self, word: &str) -> (r: Self)
        ensures
            r.segmenter.added_words() == if word@.len() > 0 {
                self.segmenter.added_words().push(word@)
            } else {
                self.segmenter.added_words()
            },
            r.pattern == self.pattern,
            r.filter == self.filter,
            r.min_word_length == self.min_word_length,
            r.exclude_numbers == self.exclude_numbers,
            r.max_words == self.max_words,
            r.repeat == self.repeat,
    {
        let mut s = self;
        if word.unicode_len() > 0 {
            s.segmenter.add_word(word);
        }
        s
    }

    pub fn with_min_word_leng(self, size: usize) -> (r: Self)
        ensures
            r.pattern == self.pattern,
            r.segmenter == self.segmenter,
            r.min_word_length == size,
            r.filter == self.filter,
            r.exclude_numbers == self.exclude_numbers,
            r.max_words == self.max_words,
            r.repeat == self.repeat,
    {
        ChineseTokenizer { min_word_length: size, ..self }
    }

    pub fn with_max_words(self, size: usize) -> (r: Self)
        ensures
            r.pattern == self.pattern,
            r.segmenter == self.segmenter,
            r.max_words == size,
            r.filter == self.filter,
            r.min_word_length == self.min_word_length,
            r.exclude_numbers == self.exclude_numbers,
            r.repeat == self.repeat,
    {
        ChineseTokenizer { max_words: size, ..self }
    }

    pub fn with_exclude_numbers(self, value: bool) -> (r: Self)
        ensures
            r.pattern == self.pattern,
            r.segmenter == self.segmenter,
            r.exclude_numbers == value,
            r.filter == self.filter,
            r.min_word_length == self.min_word_length,
            r.max_words == self.max_words,
            r.repeat == self.repeat,
    {
        ChineseTokenizer { exclude_numbers: value, ..self }
    }

    /// Excludes the words of `value`, compared in lower case.
    pub fn with_filter(self, value: &[&str]) -> (r: Self)
        ensures
            r.pattern == self.pattern,
            r.segmenter == self.segmenter,
            r.filter@.len() == value@.len(),
            forall|k: int| 0 <= k < value@.len() ==> #[trigger] r.filter@[k]@ == lower_of(value@[k]@),
            r.min_word_length == self.min_word_length,
            r.exclude_numbers == self.exclude_numbers,
            r.max_words == self.max_words,
            r.repeat == self.repeat,
    {
        let mut filter: Vec<String> = Vec::new();
        let mut i: usize = 0;
        while i < value.len()
            invariant
                i <= value@.len(),
                filter@.len() == i,
                forall|k: int| 0 <= k < i ==> #[trigger] filter@[k]@ == lower_of(value@[k]@),
            decreases value@.len() - i,
        {
            filter.push(to_lower(value[i]));
            i = i + 1;
        }
        ChineseTokenizer { filter, ..self }
    }

    /// Whether `word` survives the length, number and exclusion filters.
    pub fn keep_token(&self, word: &str) -> (r: bool)
        ensures
            r == token_kept(self.min_word_length, self.exclude_numbers, self.filter@, word@),
    {
        let n = word.unicode_len();
        if n < self.min_word_length {
            return false;
        }
        if self.exclude_numbers {
            let mut i: usize = 0;
            let mut all = true;
            while i < n
                invariant
                    n == word@.len(),
                    i <= n,
                    all == forall|k: int| 0 <= k < i ==> #[trigger] numeric_char(word@[k]),
                decreases n - i,
            {
                let c = word.get_char(i);
                if !is_numeric(c) {
                    all = false;
                }
                i = i + 1;
            }
            if all {
                return false;
            }
        }
        if self.filter.len() > 0 {
            let lower = to_lower(word);
            let mut k: usize = 0;
            while k < self.filter.len()
                invariant
                    k <= self.filter@.len(),
                    lower@ == lower_of(word@),
                    forall|j: int| 0 <= j < k ==> #[trigger] self.filter@[j]@ != lower_of(word@),
                decreases self.filter@.len() - k,
            {
                if self.filter[k] == lower {
                    return false;
                }
                k = k + 1;
            }
        }
        true
    }

    /// The segments that survive the filters, in order.
    pub fn filter_tokens(&self, segments: &Vec<String>) -> (r: Vec<String>)
        ensures
            texts(r@) == kept_segments(
                self.min_word_length,
                self.exclude_numbers,
                self.filter@,
                texts(segments@),
                segments@.len() as int,
            ),
    {
        let mut out: Vec<String> = Vec::new();
        let mut i: usize = 0;
        while i < segments.len()
            invariant
                i <= segments@.len(),
                texts(out@) == kept_segments(self.min_word_length, self.exclude_numbers, self.filter@, texts(segments@), i as int),
            decreases segments@.len() - i,
        {
            let ghost before = out@;
            assert(texts(segments@)[i as int] == segments@[i as int]@);
            if self.keep_token(segments[i].as_str()) {
                out.push(segments[i].clone());
                assert(texts(out@) =~= texts(before).push(segments@[i as int]@));
            }
            i = i + 1;
        }
        out
    }

    /// The words of `text`: the non-empty matches of the pattern, each cut
    /// by the segmenter, that survive the filters.
    pub fn tokenize(&self, text: &str) -> (r: Vec<String>)
        ensures
            texts(r@) == self.tokens_of(text@),
    {
        let chunks = find_matches(self.pattern.as_str(), text);
        let ghost ms = matches_of(self.pattern@, text@);
        let mut out: Vec<String> = Vec::new();
        let mut i: usize = 0;
        assert(texts(out@) =~= Seq::<Seq<char>>::empty());
        while i < chunks.len()
            invariant
                i <= chunks@.len(),
                texts(chunks@) == ms,
                texts(out@) == self.tokens_from(ms, i as int),
            decreases chunks@.len() - i,
        {
            let ghost before = out@;
            assert(ms[i as int] == chunks@[i as int]@);
            if chunks[i].unicode_len() > 0 {
                let segments = self.segmenter.cut(chunks[i].as_str());
                let mut kept = self.filter_tokens(&segments);
                let ghost kv = kept@;
                out.append(&mut kept);
                assert(texts(out@) =~= texts(before) + texts(kv));
            }
            i = i + 1;
        }
        proof {
            assert(ms.len() == chunks@.len());
        }
        out
    }

    /// The words of the first `n` pre-tokenized chunks `chunks`.
    pub open spec fn tokens_from(&self, chunks: Seq<Seq<char>>, n: int) -> Seq<Seq<char>>
        decreases n,
    {
        if n <= 0 {
            Seq::empty()
        } else {
            let before = self.tokens_from(chunks, n - 1);
            if chunks[n - 1].len() > 0 {
                let segments = cut_of(self.segmenter.added_words(), chunks[n - 1]);
                before + kept_segments(
                    self.min_word_length,
                    self.exclude_numbers,
                    self.filter@,
                    segments,
                    segments.len() as int,
                )
            } else {
                before
            }
        }
    }

    /// The words of `text`, in order.
    pub open spec fn tokens_of(&self, text: Seq<char>) -> Seq<Seq<char>> {
        let chunks = matches_of(self.pattern@, text);
        self.tokens_from(chunks, chunks.len() as int)
    }

    /// `r` is the case merge of the counts of the words of `text`.
    pub open spec fn frequencies_of(&self, text: Seq<char>, r: Seq<(String, u64)>) -> bool {
        exists|tokens: Seq<String>, counts: Seq<(String, u64)>|
            #[trigger] counted_and_merged(tokens, counts, r) && texts(tokens) == self.tokens_of(text)
    }

    /// The words of `text` with their number of occurrences, letter-case
    /// variants merged.
    pub fn get_word_frequencies(&self, text: &str) -> (r: Vec<(String, u64)>)
        ensures
            self.frequencies_of(text@, r@),
            distinct_texts(r@),
            forall|k: int| 0 <= k < r@.len() ==> #[trigger] r@[k].1 > 0,
    {
        let tokens = self.tokenize(text);
        let n = tokens.len();
        let counts = count_words(&tokens);
        assert(n <= u64::MAX);
        let r = keep_common_case(&counts);
        proof {
            lemma_merged_positive(counts@, r@);
            assert(counted_and_merged(tokens@, counts@, r@));
            assert forall|a: int, b: int| 0 <= a < b < r@.len() implies #[trigger] r@[a].0@ != #[trigger] r@[b].0@ by {
                assert(lower_of(r@[a].0@) != lower_of(r@[b].0@));
            }
        }
        r
    }

    /// The words of `text` ranked by count, highest first and equal counts
    /// in lexicographic order, at most `max_words` of them unless that is
    /// 0. A word's weight is its count divided by the first word's count.
    pub fn get_normalized_word_frequencies(&self, text: &str) -> (r: Vec<(String, u64)>)
        ensures
            self.max_words > 0 ==> r@.len() <= self.max_words,
            ranked(r@),
            distinct_texts(r@),
            exists|freqs: Seq<(String, u64)>|
                #[trigger] self.frequencies_of(text@, freqs) && ranked_prefix(freqs, r@, self.max_words),
            r@.len() > 0 ==> forall|k: int| 0 <= k < r@.len() ==> #[trigger] r@[k].1 <= r@[0].1,
            forall|k: int| 0 <= k < r@.len() ==> #[trigger] r@[k].1 > 0,
    {
        let frequencies = self.get_word_frequencies(text);
        let r = rank_words(&frequencies, self.max_words);
        assert(ranked_prefix(frequencies@, r@, self.max_words));
        r
    }
}

} // verus!
