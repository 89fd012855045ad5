//! What a search is given: the computations that are made elsewhere, and the
//! query, taken apart.
use crate::cosine::{MatchedTexts, MatchedWords, VectorReadings};
use crate::index::{splits, splits_all, Unpairing};
use crate::matching::covers_words;
use crate::score::{computes, takes_all, Arithmetic, FloatOp, Score};
use crate::shard::{numbers, numbers_all, Numbering};
use crate::tables::{by_text, list_texts, number_keys, texts, value_texts};
use fnv::{FnvHashMap, FnvHashSet};
use vstd::prelude::*;

verus! {

/// The computations that a search is given.
pub struct Hooks<P, S, F, U, Q, E, V> {
    /// Takes a query apart.
    pub parse: P,
    /// Gives the shard that an ngram belongs to, out of so many.
    pub shard_of: S,
    /// Carries out a floating-point operation.
    pub float: F,
    /// Splits the value of an ngram into the place and the length of its bucket.
    pub unpair: U,
    /// Gives the global id of a query, by its number in a shard, the shard, and
    /// the number of shards.
    pub number: Q,
    /// Compares the text of a candidate with the words of the query and with
    /// their synonyms.
    pub match_words: E,
    /// Reads the word vectors for the words of the query and a candidate.
    pub vectors: V,
}

/// The hook can take a query with this text apart in this way.
pub open spec fn parses_to<P: Fn(&str) -> ParsedQuery>(
    parse: P,
    text: Seq<char>,
    parsed: ParsedQuery,
) -> bool {
    exists|query: &str| #[trigger] parse.ensures((query,), parsed) && query@ == text
}

/// The hook can assign these shards to the ngrams, one by one.
pub open spec fn are_shards_of<S: Fn(&String, u32) -> u32>(
    shard_ids: Seq<u32>,
    ngrams: Seq<String>,
    shards: u32,
    shard_of: S,
) -> bool {
    &&& shard_ids.len() == ngrams.len()
    &&& forall|i: int|
        0 <= i < ngrams.len() ==> shard_of.ensures((&ngrams[i], shards), #[trigger] shard_ids[i])
}

/// The hook assigns a shard to every ngram.
pub open spec fn shards_all<S: Fn(&String, u32) -> u32>(shard_of: S) -> bool {
    forall|ngram: &String, shards: u32| #[trigger] shard_of.requires((ngram, shards))
}

/// Finds the shard that each ngram belongs to, out of so many.
pub fn find_shards<S: Fn(&String, u32) -> u32>(
    ngrams: &Vec<String>,
    shards: u32,
    shard_of: &S,
) -> (r: Vec<u32>)
    requires
        shards_all(*shard_of),
    ensures
        are_shards_of(r@, ngrams@, shards, *shard_of),
{
    let mut shard_ids: Vec<u32> = Vec::new();
    let mut i: usize = 0;
    while i < ngrams.len()
        invariant
            i <= ngrams@.len(),
            shards_all(*shard_of),
            shard_ids@.len() == i,
            forall|j: int|
                0 <= j < i ==> shard_of.ensures((&ngrams@[j], shards), #[trigger] shard_ids@[j]),
        decreases ngrams@.len() - i,
    {
        let shard: u32 = shard_of(&ngrams[i], shards);
        shard_ids.push(shard);
        i = i + 1;
    }
    shard_ids
}

impl<P, S, F, U, Q, E, V> Hooks<P, S, F, U, Q, E, V> where
    P: Fn(&str) -> ParsedQuery,
    S: Fn(&String, u32) -> u32,
    F: Fn(FloatOp) -> Score,
    U: Fn(u64) -> (u64, u64),
    Q: Fn(u64, u8, usize) -> u64,
    E: Fn(&String, &FnvHashSet<String>, &FnvHashMap<String, String>) -> MatchedWords,
    V: Fn(&Vec<String>, &MatchedWords) -> Option<VectorReadings>,
 {
    /// The hooks take all arguments.
    pub open spec fn ready(self) -> bool {
        &&& forall|query: &str| #[trigger] self.parse.requires((query,))
        &&& shards_all(self.shard_of)
        &&& takes_all(self.float)
        &&& splits_all(self.unpair)
        &&& numbers_all(self.number)
        &&& forall|text: &String, words: &FnvHashSet<String>, synonyms: &FnvHashMap<String, String>|
            #[trigger] self.match_words.requires((text, words, synonyms))
        &&& forall|words: &Vec<String>, found: &MatchedWords| #[trigger]
            self.vectors.requires((words, found))
    }

    /// The hooks compute the given functions.
    pub open spec fn compute(self, f: Functions) -> bool {
        &&& parses(self.parse, f.parse)
        &&& assigns(self.shard_of, f.shard_of)
        &&& computes(self.float, f.float)
        &&& splits(self.unpair, f.unpair)
        &&& numbers(self.number, f.number)
        &&& compares(self.match_words, f.match_words)
        &&& reads(self.vectors, f.vectors)
    }
}

/// A query, taken apart.
#[derive(Debug)]
pub struct ParsedQuery {
    pub ngrams: Vec<String>,
    /// Relevance of each ngram.
    pub trs: Vec<Score>,
    /// Numbers of the words that each ngram covers.
    pub ngrams_ids: FnvHashMap<String, Vec<usize>>,
    pub words: Vec<String>,
    /// Relevance of each word.
    pub wrs: Vec<Score>,
    /// Numbers of the words that a match must have.
    pub must_have: Vec<usize>,
    /// Synonyms, by the number of the word.
    pub synonyms: FnvHashMap<usize, String>,
}

/// A [`ParsedQuery`] with its texts as sequences of characters.
#[verifier::ext_equal]
pub struct QueryTexts {
    pub ngrams: Seq<Seq<char>>,
    pub trs: Seq<Score>,
    pub ngrams_ids: Map<Seq<char>, Seq<usize>>,
    pub words: Seq<Seq<char>>,
    pub wrs: Seq<Score>,
    pub must_have: Seq<usize>,
    pub synonyms: Map<usize, Seq<char>>,
}

impl View for ParsedQuery {
    type V = QueryTexts;

    open spec fn view(&self) -> QueryTexts {
        QueryTexts {
            ngrams: list_texts(self.ngrams@),
            trs: self.trs@,
            ngrams_ids: by_text(self.ngrams_ids@).map_values(|v: Vec<usize>| v@),
            words: list_texts(self.words@),
            wrs: self.wrs@,
            must_have: self.must_have@,
            synonyms: value_texts(self.synonyms@),
        }
    }
}

/// A function from the text of a query to its parts.
pub type Parsing = spec_fn(Seq<char>) -> QueryTexts;

/// A function from an ngram and the number of shards to the shard that the ngram
/// belongs to.
pub type Placing = spec_fn(Seq<char>, u32) -> u32;

/// A function from the text of a candidate, the words of a query and the word that
/// each synonym stands for, to how their words compare.
pub type Comparing = spec_fn(Seq<char>, Set<Seq<char>>, Map<Seq<char>, Seq<char>>) -> MatchedTexts;

/// A function from the words of a query, and how those of a candidate compare, to
/// what the word vectors say.
pub type Reading = spec_fn(Seq<Seq<char>>, MatchedTexts) -> Option<VectorReadings>;

/// What the hooks compute, as functions of texts and numbers.
pub struct Functions {
    pub parse: Parsing,
    pub shard_of: Placing,
    pub float: Arithmetic,
    pub unpair: Unpairing,
    pub number: Numbering,
    pub match_words: Comparing,
    pub vectors: Reading,
}

/// Every result that `parse` can give has the parts that `f` names.
pub open spec fn parses<P: Fn(&str) -> ParsedQuery>(parse: P, f: Parsing) -> bool {
    forall|query: &str, r: ParsedQuery| #[trigger] parse.ensures((query,), r) ==> r@ == f(query@)
}

/// Every result that `shard_of` can give is the one that `f` names.
pub open spec fn assigns<S: Fn(&String, u32) -> u32>(shard_of: S, f: Placing) -> bool {
    forall|ngram: &String, shards: u32, r: u32| #[trigger]
        shard_of.ensures((ngram, shards), r) ==> r == f(ngram@, shards)
}

/// Every result that `match_words` can give has the words that `f` names.
pub open spec fn compares<
    E: Fn(&String, &FnvHashSet<String>, &FnvHashMap<String, String>) -> MatchedWords,
>(match_words: E, f: Comparing) -> bool {
    forall|
        text: &String,
        words: &FnvHashSet<String>,
        synonyms: &FnvHashMap<String, String>,
        r: MatchedWords,
    | #[trigger]
        match_words.ensures((text, words, synonyms), r) ==> r@ == f(
            text@,
            texts(words@),
            value_texts(by_text(synonyms@)),
        )
}

/// Every result that `vectors` can give is the one that `f` names.
pub open spec fn reads<V: Fn(&Vec<String>, &MatchedWords) -> Option<VectorReadings>>(
    vectors: V,
    f: Reading,
) -> bool {
    forall|words: &Vec<String>, found: &MatchedWords, r: Option<VectorReadings>| #[trigger]
        vectors.ensures((words, found), r) ==> r == f(list_texts(words@), found@)
}

impl ParsedQuery {
    /// Every synonym is one of a word.
    pub open spec fn synonyms_fit(self) -> bool {
        forall|number: usize| #[trigger]
            self.synonyms@.contains_key(number) ==> number < self.words@.len()
    }

    /// Everything fits together: every synonym is one of a word, every word has a
    /// relevance, every ngram covers words of the query, and all words that must
    /// be there are words of the query.
    pub open spec fn wf(self) -> bool {
        &&& self.synonyms_fit()
        &&& self.words@.len() <= self.wrs@.len()
        &&& covers_words(by_text(self.ngrams_ids@), self.words@.len(), self.wrs@.len())
        &&& forall|i: int|
            0 <= i < self.must_have@.len() ==> (#[trigger] self.must_have@[i]) < self.words@.len()
    }

    /// Computes [`ParsedQuery::synonyms_fit`].
    pub fn check_synonyms(&self) -> (r: bool)
        ensures
            r == self.synonyms_fit(),
    {
        let numbers: Vec<usize> = number_keys(&self.synonyms);
        let mut i: usize = 0;
        while i < numbers.len()
            invariant
                i <= numbers@.len(),
                forall|k: usize| numbers@.contains(k) <==> #[trigger] self.synonyms@.contains_key(k),
                forall|j: int| 0 <= j < i ==> (#[trigger] numbers@[j]) < self.words@.len(),
            decreases numbers@.len() - i,
        {
            if numbers[i] >= self.words.len() {
                assert(numbers@.contains(numbers@[i as int]));
                assert(self.synonyms@.contains_key(numbers@[i as int]));
                return false;
            }
            i = i + 1;
        }
        proof {
            assert forall|number: usize| #[trigger]
                self.synonyms@.contains_key(number) implies number < self.words@.len() by {
                assert(numbers@.contains(number));
            }
        }
        true
    }
}

} // verus!
