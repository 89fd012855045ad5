//! The words of a query, and where they stand in it.
use crate::tables::{
    by_text, lemma_empty_by_text, lemma_empty_texts, list_texts, number_get, number_keys,
    text_insert, texts, value_texts, word_insert,
};
use fnv::{FnvHashMap, FnvHashSet};
use vstd::prelude::*;

verus! {

/// Word `i` of the list has this text, and no later one has.
pub open spec fn is_last(words: Seq<String>, i: int, text: Seq<char>) -> bool {
    &&& 0 <= i < words.len()
    &&& words[i]@ == text
    &&& forall|j: int| i < j < words.len() ==> (#[trigger] words[j])@ != text
}

/// The table gives the word with this number the text as a synonym.
pub open spec fn is_synonym(synonyms: Map<usize, String>, number: usize, text: Seq<char>) -> bool {
    synonyms.contains_key(number) && synonyms[number]@ == text
}

/// Some word has the text as a synonym.
pub open spec fn has_word(synonyms: Map<usize, String>, text: Seq<char>) -> bool {
    exists|number: usize| #[trigger] is_synonym(synonyms, number, text)
}

/// Some word of the list has the text.
pub open spec fn lists(words: Seq<String>, text: Seq<char>) -> bool {
    exists|i: int| 0 <= i < words.len() && (#[trigger] words[i])@ == text
}

/// The index finds the number of a word by its text, or by the text of a
/// synonym of it. A text that is both is found as a synonym. Of several words
/// with one text the last is found; of several words with one synonym, some one
/// of them.
pub open spec fn is_word_index(
    index: Map<Seq<char>, usize>,
    words: Seq<String>,
    synonyms: Map<usize, String>,
) -> bool {
    &&& forall|text: Seq<char>| #[trigger]
        index.contains_key(text) <==> has_word(synonyms, text) || lists(words, text)
    &&& forall|text: Seq<char>| #[trigger]
        index.contains_key(text) ==> if has_word(synonyms, text) {
            is_synonym(synonyms, index[text], text)
        } else {
            is_last(words, index[text] as int, text)
        }
}

/// Indexes the words of a query and their synonyms, and gives the set of the
/// words themselves, without the synonyms.
pub fn index_words(words: &Vec<String>, synonyms: &FnvHashMap<usize, String>) -> (r: (
    FnvHashMap<String, usize>,
    FnvHashSet<String>,
))
    ensures
        is_word_index(by_text(r.0@), words@, synonyms@),
        forall|text: Seq<char>| #[trigger] texts(r.1@).contains(text) <==> lists(words@, text),
{
    let mut words_set: FnvHashSet<String> = FnvHashSet::default();
    let mut words_index: FnvHashMap<String, usize> = FnvHashMap::default();
    proof {
        lemma_empty_by_text::<usize>();
        lemma_empty_texts();
    }
    let mut i: usize = 0;
    while i < words.len()
        invariant
            i <= words@.len(),
            forall|text: Seq<char>| #[trigger]
                texts(words_set@).contains(text) <==> lists(words@.take(i as int), text),
            forall|text: Seq<char>| #[trigger]
                by_text(words_index@).contains_key(text) <==> lists(words@.take(i as int), text),
            forall|text: Seq<char>| #[trigger]
                by_text(words_index@).contains_key(text) ==> is_last(
                    words@.take(i as int),
                    by_text(words_index@)[text] as int,
                    text,
                ),
        decreases words@.len() - i,
    {
        let ghost before = words@.take(i as int);
        let ghost after = words@.take(i + 1);
        assert(after =~= before.push(words@[i as int]));
        word_insert(&mut words_set, words[i].clone());
        text_insert(&mut words_index, words[i].clone(), i);
        proof {
            assert forall|text: Seq<char>| lists(after, text) <==> lists(before, text) || text
                == words@[i as int]@ by {
                if lists(before, text) {
                    let j = choose|j: int| 0 <= j < before.len() && (#[trigger] before[j])@ == text;
                    assert(after[j]@ == text);
                }
                if text == words@[i as int]@ {
                    assert(after[i as int]@ == text);
                }
                if lists(after, text) {
                    let j = choose|j: int| 0 <= j < after.len() && (#[trigger] after[j])@ == text;
                    assert(j < i ==> before[j]@ == text);
                }
            }
        }
        i = i + 1;
    }
    assert(words@.take(i as int) =~= words@);
    let numbers: Vec<usize> = number_keys(synonyms);
    let mut j: usize = 0;
    while j < numbers.len()
        invariant
            j <= numbers@.len(),
            forall|k: usize| numbers@.contains(k) <==> #[trigger] synonyms@.contains_key(k),
            forall|text: Seq<char>| #[trigger]
                by_text(words_index@).contains_key(text) <==> some_of(
                    synonyms@,
                    numbers@.take(j as int),
                    text,
                ) || lists(words@, text),
            forall|text: Seq<char>| #[trigger]
                by_text(words_index@).contains_key(text) ==> if some_of(
                    synonyms@,
                    numbers@.take(j as int),
                    text,
                ) {
                    is_synonym(synonyms@, by_text(words_index@)[text], text)
                } else {
                    is_last(words@, by_text(words_index@)[text] as int, text)
                },
        decreases numbers@.len() - j,
    {
        let number: usize = numbers[j];
        let ghost before = numbers@.take(j as int);
        let ghost after = numbers@.take(j + 1);
        assert(after =~= before.push(number));
        assert(numbers@.contains(number));
        match number_get(synonyms, number) {
            Some(syn) => {
                text_insert(&mut words_index, syn.clone(), number);
            },
            None => {},
        }
        proof {
            assert forall|text: Seq<char>|
                some_of(synonyms@, after, text) <==> some_of(synonyms@, before, text) || is_synonym(
                    synonyms@,
                    number,
                    text,
                ) by {
                lemma_some_of_push(synonyms@, before, number, text);
            }
        }
        j = j + 1;
    }
    proof {
        assert(numbers@.take(j as int) =~= numbers@);
        assert forall|text: Seq<char>|
            some_of(synonyms@, numbers@, text) <==> has_word(synonyms@, text) by {
            if has_word(synonyms@, text) {
                let number = choose|number: usize| #[trigger]
                    is_synonym(synonyms@, number, text);
                assert(numbers@.contains(number));
            }
        }
    }
    (words_index, words_set)
}

/// One of the words with these numbers has the text as a synonym.
spec fn some_of(synonyms: Map<usize, String>, numbers: Seq<usize>, text: Seq<char>) -> bool {
    exists|number: usize|
        numbers.contains(number) && #[trigger] is_synonym(synonyms, number, text)
}

/// With one more number, one more synonym is covered.
proof fn lemma_some_of_push(
    synonyms: Map<usize, String>,
    numbers: Seq<usize>,
    number: usize,
    text: Seq<char>,
)
    ensures
        some_of(synonyms, numbers.push(number), text) <==> some_of(synonyms, numbers, text)
            || is_synonym(synonyms, number, text),
{
    let more = numbers.push(number);
    assert forall|k: usize| more.contains(k) <==> numbers.contains(k) || k == number by {
        if numbers.contains(k) {
            let i = choose|i: int| 0 <= i < numbers.len() && numbers[i] == k;
            assert(more[i] == k);
        }
        if k == number {
            assert(more[numbers.len() as int] == k);
        }
    }
}

/// The table gives the word that each synonym stands for; of several words with
/// one synonym, some one of them.
pub open spec fn is_synonym_table(
    table: Map<Seq<char>, String>,
    words: Seq<String>,
    synonyms: Map<usize, String>,
) -> bool {
    &&& forall|text: Seq<char>| #[trigger] table.contains_key(text) <==> has_word(synonyms, text)
    &&& forall|text: Seq<char>| #[trigger]
        table.contains_key(text) ==> exists|number: usize| #[trigger]
            is_synonym(synonyms, number, text) && table[text]@ == words[number as int]@
}

/// Turns the synonyms of the words of a query into a table from each synonym to
/// its word.
pub fn candidate_synonyms(words: &Vec<String>, synonyms: &FnvHashMap<usize, String>) -> (r:
    FnvHashMap<String, String>)
    requires
        forall|number: usize| #[trigger] synonyms@.contains_key(number) ==> number < words@.len(),
    ensures
        is_synonym_table(by_text(r@), words@, synonyms@),
{
    let mut table: FnvHashMap<String, String> = FnvHashMap::default();
    proof {
        lemma_empty_by_text::<String>();
    }
    let numbers: Vec<usize> = number_keys(synonyms);
    let mut j: usize = 0;
    while j < numbers.len()
        invariant
            j <= numbers@.len(),
            forall|k: usize| numbers@.contains(k) <==> #[trigger] synonyms@.contains_key(k),
            forall|number: usize| #[trigger]
                synonyms@.contains_key(number) ==> number < words@.len(),
            forall|text: Seq<char>| #[trigger]
                by_text(table@).contains_key(text) <==> some_of(
                    synonyms@,
                    numbers@.take(j as int),
                    text,
                ),
            forall|text: Seq<char>| #[trigger]
                by_text(table@).contains_key(text) ==> exists|number: usize| #[trigger]
                    is_synonym(synonyms@, number, text) && by_text(table@)[text]@
                        == words@[number as int]@,
        decreases numbers@.len() - j,
    {
        let number: usize = numbers[j];
        let ghost before = numbers@.take(j as int);
        let ghost after = numbers@.take(j + 1);
        assert(after =~= before.push(number));
        assert(numbers@.contains(number));
        match number_get(synonyms, number) {
            Some(syn) => {
                text_insert(&mut table, syn.clone(), words[number].clone());
                assert(is_synonym(synonyms@, number, syn@));
            },
            None => {},
        }
        proof {
            assert forall|text: Seq<char>|
                some_of(synonyms@, after, text) <==> some_of(synonyms@, before, text) || is_synonym(
                    synonyms@,
                    number,
                    text,
                ) by {
                lemma_some_of_push(synonyms@, before, number, text);
            }
        }
        j = j + 1;
    }
    proof {
        assert(numbers@.take(j as int) =~= numbers@);
        assert forall|text: Seq<char>|
            some_of(synonyms@, numbers@, text) <==> has_word(synonyms@, text) by {
            if has_word(synonyms@, text) {
                let number = choose|number: usize| #[trigger]
                    is_synonym(synonyms@, number, text);
                assert(numbers@.contains(number));
            }
        }
    }
    table
}

/// A word that the index finds is a word of the query, if all synonyms are of
/// words of the query.
pub proof fn lemma_index_finds_words(
    index: Map<Seq<char>, usize>,
    words: Seq<String>,
    synonyms: Map<usize, String>,
    text: Seq<char>,
)
    requires
        is_word_index(index, words, synonyms),
        forall|number: usize| #[trigger] synonyms.contains_key(number) ==> number < words.len(),
        index.contains_key(text),
    ensures
        index[text] < words.len(),
{
}

/// Synonyms are indexed, but are not words: a synonym of some word is found in
/// the index, as the number of a word that has it, and is in the set of words
/// only if it is a word itself.
pub proof fn law_synonyms_are_indexed_but_are_not_words(
    tables: WordTables,
    words: Seq<String>,
    synonyms: Map<usize, String>,
    number: usize,
)
    requires
        tables.describe(words, synonyms),
        synonyms.contains_key(number),
    ensures
        by_text(tables.index@).contains_key(synonyms[number]@),
        is_synonym(synonyms, by_text(tables.index@)[synonyms[number]@], synonyms[number]@),
        by_text(tables.synonyms@).contains_key(synonyms[number]@),
        texts(tables.words@).contains(synonyms[number]@) ==> lists(words, synonyms[number]@),
{
    assert(is_synonym(synonyms, number, synonyms[number]@));
}

/// What is looked up of the words of a query.
#[derive(Debug)]
pub struct WordTables {
    /// Numbers of the words, by their text or that of a synonym.
    pub index: FnvHashMap<String, usize>,
    /// The words.
    pub words: FnvHashSet<String>,
    /// The word that each synonym stands for.
    pub synonyms: FnvHashMap<String, String>,
}

impl WordTables {
    /// The tables are those of the given words and synonyms.
    pub open spec fn describe(self, words: Seq<String>, synonyms: Map<usize, String>) -> bool {
        &&& is_word_index(by_text(self.index@), words, synonyms)
        &&& forall|text: Seq<char>| #[trigger]
            texts(self.words@).contains(text) <==> lists(words, text)
        &&& is_synonym_table(by_text(self.synonyms@), words, synonyms)
    }

    /// Makes the tables of the words of a query.
    pub fn new(words: &Vec<String>, synonyms: &FnvHashMap<usize, String>) -> (r: WordTables)
        requires
            forall|number: usize| #[trigger]
                synonyms@.contains_key(number) ==> number < words@.len(),
        ensures
            r.describe(words@, synonyms@),
    {
        let (index, words_set): (FnvHashMap<String, usize>, FnvHashSet<String>) = index_words(
            words,
            synonyms,
        );
        let table: FnvHashMap<String, String> = candidate_synonyms(words, synonyms);
        WordTables { index, words: words_set, synonyms: table }
    }
}

/// No two words have the same synonym.
pub open spec fn one_word_each(synonyms: Map<usize, Seq<char>>) -> bool {
    forall|a: usize, b: usize|
        #![trigger synonyms[a], synonyms[b]]
        synonyms.contains_key(a) && synonyms.contains_key(b) && synonyms[a] == synonyms[b] ==> a
            == b
}

/// What is looked up of the words of a query is settled by their texts, if no two of
/// them have the same synonym.
pub proof fn law_tables_are_settled(
    x: WordTables,
    y: WordTables,
    words_x: Seq<String>,
    words_y: Seq<String>,
    synonyms_x: Map<usize, String>,
    synonyms_y: Map<usize, String>,
)
    requires
        x.describe(words_x, synonyms_x),
        y.describe(words_y, synonyms_y),
        list_texts(words_x) == list_texts(words_y),
        value_texts(synonyms_x) == value_texts(synonyms_y),
        one_word_each(value_texts(synonyms_x)),
        forall|number: usize| #[trigger] synonyms_x.contains_key(number) ==> number < words_x.len(),
    ensures
        by_text(x.index@) == by_text(y.index@),
        texts(x.words@) == texts(y.words@),
        value_texts(by_text(x.synonyms@)) == value_texts(by_text(y.synonyms@)),
{
    assert(list_texts(words_x).len() == words_x.len());
    assert(list_texts(words_y).len() == words_y.len());
    assert forall|i: int| 0 <= i < words_x.len() implies (#[trigger] words_x[i])@ == words_y[i]@ by {
        assert(list_texts(words_x)[i] == list_texts(words_y)[i]);
    }
    assert forall|i: int| 0 <= i < words_y.len() implies words_x[i]@ == (#[trigger] words_y[i])@ by {
        assert(words_x[i]@ == words_y[i]@);
    }
    assert forall|number: usize, text: Seq<char>|
        #![trigger is_synonym(synonyms_x, number, text)]
        #![trigger is_synonym(synonyms_y, number, text)]
        is_synonym(synonyms_x, number, text) == is_synonym(synonyms_y, number, text) by {
        lemma_same_synonym(synonyms_x, synonyms_y, number);
    }
    assert forall|text: Seq<char>|
        #![trigger has_word(synonyms_x, text)]
        #![trigger has_word(synonyms_y, text)]
        has_word(synonyms_x, text) == has_word(synonyms_y, text) by {
        if has_word(synonyms_x, text) {
            let number = choose|number: usize| #[trigger] is_synonym(synonyms_x, number, text);
            assert(is_synonym(synonyms_y, number, text));
        }
        if has_word(synonyms_y, text) {
            let number = choose|number: usize| #[trigger] is_synonym(synonyms_y, number, text);
            assert(is_synonym(synonyms_x, number, text));
        }
    }
    assert forall|text: Seq<char>|
        #![trigger lists(words_x, text)]
        #![trigger lists(words_y, text)]
        lists(words_x, text) == lists(words_y, text) by {
        if lists(words_x, text) {
            let i = choose|i: int| 0 <= i < words_x.len() && (#[trigger] words_x[i])@ == text;
            assert(words_y[i]@ == text);
        }
        if lists(words_y, text) {
            let i = choose|i: int| 0 <= i < words_y.len() && (#[trigger] words_y[i])@ == text;
            assert(words_x[i]@ == text);
        }
    }
    assert forall|a: usize, b: usize, text: Seq<char>|
        #![trigger is_synonym(synonyms_x, a, text), is_synonym(synonyms_x, b, text)]
        is_synonym(synonyms_x, a, text) && is_synonym(synonyms_x, b, text) implies a == b by {
        assert(value_texts(synonyms_x)[a] == value_texts(synonyms_x)[b]);
    }
    let p = by_text(x.index@);
    let q = by_text(y.index@);
    assert forall|text: Seq<char>| p.contains_key(text) == q.contains_key(text) by {
        assert(has_word(synonyms_x, text) == has_word(synonyms_y, text));
        assert(lists(words_x, text) == lists(words_y, text));
    }
    assert forall|text: Seq<char>| p.contains_key(text) implies p[text] == q[text] by {
        assert(q.contains_key(text));
        if has_word(synonyms_x, text) {
            assert(is_synonym(synonyms_x, p[text], text));
            assert(is_synonym(synonyms_y, q[text], text));
            assert(is_synonym(synonyms_x, q[text], text));
        } else {
            let (i, j) = (p[text] as int, q[text] as int);
            assert(is_last(words_x, i, text) && is_last(words_y, j, text));
            assert(words_y[i]@ == text && words_x[j]@ == text);
        }
    }
    assert(p =~= q);
    assert(texts(x.words@) =~= texts(y.words@)) by {
        assert forall|text: Seq<char>|
            texts(x.words@).contains(text) == texts(y.words@).contains(text) by {
            assert(lists(words_x, text) == lists(words_y, text));
        }
    }
    let s = by_text(x.synonyms@);
    let t = by_text(y.synonyms@);
    assert forall|text: Seq<char>| s.contains_key(text) == t.contains_key(text) by {
        assert(has_word(synonyms_x, text) == has_word(synonyms_y, text));
    }
    assert forall|text: Seq<char>| s.contains_key(text) implies s[text]@ == t[text]@ by {
        assert(t.contains_key(text));
        let a = choose|a: usize| #[trigger]
            is_synonym(synonyms_x, a, text) && s[text]@ == words_x[a as int]@;
        let b = choose|b: usize| #[trigger]
            is_synonym(synonyms_y, b, text) && t[text]@ == words_y[b as int]@;
        assert(is_synonym(synonyms_x, b, text));
        assert(a == b);
        assert(synonyms_x.contains_key(a));
        assert(words_x[a as int]@ == words_y[a as int]@);
    }
    assert(value_texts(s) =~= value_texts(t));
}

/// A number has the same synonym in both tables.
proof fn lemma_same_synonym(x: Map<usize, String>, y: Map<usize, String>, number: usize)
    requires
        value_texts(x) == value_texts(y),
    ensures
        x.contains_key(number) == y.contains_key(number),
        x.contains_key(number) ==> x[number]@ == y[number]@,
{
    assert(value_texts(x).contains_key(number) == x.contains_key(number));
    assert(value_texts(y).contains_key(number) == y.contains_key(number));
    if x.contains_key(number) {
        assert(value_texts(x)[number] == x[number]@);
        assert(value_texts(y)[number] == y[number]@);
    }
}

} // verus!
