//! The text features the hashing provider weighs: word stems, the terms
//! related to a stem, and character n-grams.
use vstd::prelude::*;
use crate::text::spec_views;

verus! {

/// `word` without the first of the suffixes `ing`, `es`, `s`, `ed` it
/// ends with, where something is left; `word` itself otherwise.
pub open spec fn spec_stem(word: Seq<char>) -> Seq<char> {
    if spec_strips(word, "ing"@) {
        word.subrange(0, word.len() - 3)
    } else if spec_strips(word, "es"@) {
        word.subrange(0, word.len() - 2)
    } else if spec_strips(word, "s"@) {
        word.subrange(0, word.len() - 1)
    } else if spec_strips(word, "ed"@) {
        word.subrange(0, word.len() - 2)
    } else {
        word
    }
}

/// Whether `word` ends with `suffix` and has more than it.
pub open spec fn spec_strips(word: Seq<char>, suffix: Seq<char>) -> bool {
    word.len() > suffix.len() && word.subrange(word.len() - suffix.len(), word.len() as int) == suffix
}

/// Whether `word` ends with `suffix` and has more than it.
fn strips(word: &str, suffix: &str) -> (b: bool)
    ensures
        b == spec_strips(word@, suffix@),
{
    let n = word.unicode_len();
    let m = suffix.unicode_len();
    if n <= m {
        return false;
    }
    let mut i: usize = 0;
    while i < m
        invariant
            n == word@.len(),
            m == suffix@.len(),
            n > m,
            i <= m,
            forall|j: int| 0 <= j < i ==> word@[n - m + j] == suffix@[j],
        decreases m - i,
    {
        if word.get_char(n - m + i) != suffix.get_char(i) {
            assert(word@.subrange(n - m, n as int)[i as int] != suffix@[i as int]);
            return false;
        }
        i = i + 1;
    }
    assert(word@.subrange(n - m, n as int) =~= suffix@);
    true
}

/// The stem of a word.
pub fn stem(word: &str) -> (r: &str)
    ensures
        r@ == spec_stem(word@),
{
    let n = word.unicode_len();
    if strips(word, "ing") {
        proof {
            reveal_strlit("ing");
        }
        word.substring_char(0, n - 3)
    } else if strips(word, "es") {
        proof {
            reveal_strlit("es");
        }
        word.substring_char(0, n - 2)
    } else if strips(word, "s") {
        proof {
            reveal_strlit("s");
        }
        word.substring_char(0, n - 1)
    } else if strips(word, "ed") {
        proof {
            reveal_strlit("ed");
        }
        word.substring_char(0, n - 2)
    } else {
        word
    }
}

/// The terms related to a stem: the words of the same idea among ownership
/// transfer, RAII, virtual functions and mutual exclusion.
pub open spec fn spec_related_terms(word: Seq<char>) -> Option<Seq<Seq<char>>> {
    if word == "transfer"@ {
        Some(seq!["move"@, "ownership"@, "constructor"@])
    } else if word == "ownership"@ {
        Some(seq!["move"@, "transfer"@, "constructor"@])
    } else if word == "move"@ {
        Some(seq!["transfer"@, "ownership"@, "constructor"@])
    } else if word == "constructor"@ {
        Some(seq!["transfer"@, "ownership"@, "move"@])
    } else if word == "raii"@ {
        Some(seq!["resource"@, "acquisition"@, "initialization"@])
    } else if word == "resource"@ {
        Some(seq!["raii"@, "acquisition"@, "initialization"@])
    } else if word == "acquisition"@ {
        Some(seq!["raii"@, "resource"@, "initialization"@])
    } else if word == "initialization"@ {
        Some(seq!["raii"@, "resource"@, "acquisition"@])
    } else if word == "virtual"@ {
        Some(seq!["polymorphism"@, "function"@])
    } else if word == "polymorphism"@ {
        Some(seq!["virtual"@, "function"@])
    } else if word == "mutex"@ {
        Some(seq!["mutual"@, "exclusion"@, "concurrent"@])
    } else if word == "mutual"@ {
        Some(seq!["mutex"@, "exclusion"@, "concurrent"@])
    } else if word == "exclusion"@ {
        Some(seq!["mutex"@, "mutual"@, "concurrent"@])
    } else if word == "concurrent"@ {
        Some(seq!["mutex"@, "mutual"@, "exclusion"@])
    } else {
        None
    }
}

/// The terms as owned strings.
fn terms(ts: &[&str]) -> (r: Vec<String>)
    ensures
        spec_views(r@) == ts@.map_values(|t: &str| t@),
{
    crate::text::strings_of(ts)
}

/// The terms related to a stem.
pub fn related_terms(word: &str) -> (r: Option<Vec<String>>)
    ensures
        match spec_related_terms(word@) {
            Some(ts) => r matches Some(v) && spec_views(v@) == ts,
            None => r is None,
        },
{
    let w = word.to_owned();
    if w == String::from_str("transfer") {
        Some(terms(&["move", "ownership", "constructor"]))
    } else if w == String::from_str("ownership") {
        Some(terms(&["move", "transfer", "constructor"]))
    } else if w == String::from_str("move") {
        Some(terms(&["transfer", "ownership", "constructor"]))
    } else if w == String::from_str("constructor") {
        Some(terms(&["transfer", "ownership", "move"]))
    } else if w == String::from_str("raii") {
        Some(terms(&["resource", "acquisition", "initialization"]))
    } else if w == String::from_str("resource") {
        Some(terms(&["raii", "acquisition", "initialization"]))
    } else if w == String::from_str("acquisition") {
        Some(terms(&["raii", "resource", "initialization"]))
    } else if w == String::from_str("initialization") {
        Some(terms(&["raii", "resource", "acquisition"]))
    } else if w == String::from_str("virtual") {
        Some(terms(&["polymorphism", "function"]))
    } else if w == String::from_str("polymorphism") {
        Some(terms(&["virtual", "function"]))
    } else if w == String::from_str("mutex") {
        Some(terms(&["mutual", "exclusion", "concurrent"]))
    } else if w == String::from_str("mutual") {
        Some(terms(&["mutex", "exclusion", "concurrent"]))
    } else if w == String::from_str("exclusion") {
        Some(terms(&["mutex", "mutual", "concurrent"]))
    } else if w == String::from_str("concurrent") {
        Some(terms(&["mutex", "mutual", "exclusion"]))
    } else {
        None
    }
}

/// The runs of `n` consecutive characters of `text`, in order.
pub open spec fn spec_char_ngrams(text: Seq<char>, n: int) -> Seq<Seq<char>> {
    if text.len() < n {
        seq![]
    } else {
        Seq::new((text.len() - n + 1) as nat, |i: int| text.subrange(i, i + n))
    }
}

/// The runs of `n` consecutive characters of `text`.
pub fn char_ngrams(text: &str, n: usize) -> (r: Vec<String>)
    requires
        n > 0,
    ensures
        spec_views(r@) == spec_char_ngrams(text@, n as int),
{
    let len = text.unicode_len();
    let mut r: Vec<String> = Vec::new();
    if len < n {
        assert(spec_views(r@) =~= Seq::<Seq<char>>::empty());
        return r;
    }
    let mut i: usize = 0;
    while i <= len - n
        invariant
            len == text@.len(),
            n > 0,
            n <= len,
            i <= len - n + 1,
            spec_views(r@) == spec_char_ngrams(text@, n as int).take(i as int),
        decreases len + 1 - n - i,
    {
        let g = text.substring_char(i, i + n).to_owned();
        let ghost before = spec_views(r@);
        r.push(g);
        assert(spec_views(r@) =~= before.push(g@));
        i = i + 1;
        assert(spec_views(r@) =~= spec_char_ngrams(text@, n as int).take(i as int));
    }
    assert(spec_char_ngrams(text@, n as int).take(i as int) =~= spec_char_ngrams(text@, n as int));
    r
}

} // verus!
