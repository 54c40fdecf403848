use step_dict::{Dict, Word};

/// An inclusive range of dictionary words, emulating the stepping protocol
/// a range iterator follows: yield the current word while it does not pass
/// `end`, advancing one dictionary position at a time.
fn word_range_next<'a>(dict: &'a Dict, cur: &mut Option<Word<'a>>, end: Word<'a>) -> Option<Word<'a>> {
    let w = (*cur)?;
    if w > end {
        *cur = None;
        return None;
    }
    if w == end {
        *cur = None;
    } else {
        *cur = Word::forward_checked(dict, w, 1);
    }
    Some(w)
}

/// Skips `n` words of the range, then yields the next one.
fn word_range_nth<'a>(
    dict: &'a Dict,
    cur: &mut Option<Word<'a>>,
    end: Word<'a>,
    n: usize,
) -> Option<Word<'a>> {
    let w = (*cur)?;
    *cur = Word::forward_checked(dict, w, n);
    word_range_next(dict, cur, end)
}

/// A sorted word list holding the words the big-dictionary scenario names,
/// at the same relative positions they occupy in a full English word list:
/// 428,210 words between "amontillado" and "sus", 43,526 between "sus" and
/// "us", and words on both sides of the scenario's range.
fn word_list() -> Vec<String> {
    let mut words: Vec<String> = Vec::new();
    words.push("aardvark".to_string());
    words.push("among".to_string());
    words.push("amongst".to_string());
    words.push("amontillado".to_string());
    for i in 0..428_210usize {
        words.push(format!("b{:06}", i));
    }
    words.push("sus".to_string());
    for i in 0..43_526usize {
        words.push(format!("t{:06}", i));
    }
    words.push("us".to_string());
    words.push("usward".to_string());
    words.push("zebra".to_string());
    words
}

fn small_dict() -> Dict {
    let words = vec![
        "apple".to_string(),
        "banana".to_string(),
        "cherry".to_string(),
        "date".to_string(),
        "elderberry".to_string(),
    ];
    Dict::new(words)
}

#[test]
fn sus() {
    let dict = Dict::new(word_list());
    let end = Word("us");
    let mut iter: Option<Word> = Some(Word("among"));

    // funny
    assert_eq!(word_range_next(&dict, &mut iter, end), Some(Word("among")));

    // unfunny
    assert_eq!(word_range_next(&dict, &mut iter, end), Some(Word("amongst")));
    assert_eq!(word_range_next(&dict, &mut iter, end), Some(Word("amontillado")));

    // funny
    assert_eq!(word_range_nth(&dict, &mut iter, end, 428_210), Some(Word("sus")));
    assert_eq!(word_range_nth(&dict, &mut iter, end, 43_526), Some(Word("us")));

    // unfunny
    assert_eq!(word_range_next(&dict, &mut iter, end), None);
}

#[test]
fn bijection_round_trip() {
    let dict = small_dict();
    let mut i = 0usize;
    while i < dict.len() {
        let w = dict.word_at(i);
        assert_eq!(dict.index_of(w), Some(i));
        i += 1;
    }
    assert_eq!(dict.index_of("apple"), Some(0));
    assert_eq!(dict.word_at(0), "apple");
    assert_eq!(dict.index_of("elderberry"), Some(4));
    assert_eq!(dict.word_at(4), "elderberry");
}

#[test]
fn distance_then_forward() {
    let dict = small_dict();
    let dist = Word::steps_between(&dict, &Word("banana"), &Word("elderberry"));
    assert_eq!(dist, Some(3));
    let landed = Word::forward_checked(&dict, Word("banana"), 3);
    assert_eq!(landed, Some(Word("elderberry")));
    assert_eq!(Word::steps_between(&dict, &Word("apple"), &Word("apple")), Some(0));
}

#[test]
fn distance_reversed_is_none() {
    // When the second word precedes the first there is no forward distance:
    // the convention here is "no value".
    let dict = small_dict();
    assert_eq!(Word::steps_between(&dict, &Word("date"), &Word("banana")), None);
}

#[test]
fn step_identity() {
    let dict = small_dict();
    assert_eq!(Word::forward_checked(&dict, Word("cherry"), 0), Some(Word("cherry")));
    assert_eq!(Word::backward_checked(&dict, Word("cherry"), 0), Some(Word("cherry")));
}

#[test]
fn boundary_termination() {
    let dict = small_dict();
    assert_eq!(Word::forward_checked(&dict, Word("elderberry"), 1), None);
    assert_eq!(Word::backward_checked(&dict, Word("apple"), 1), None);
    assert_eq!(Word::forward_checked(&dict, Word("apple"), 5), None);
    assert_eq!(Word::backward_checked(&dict, Word("cherry"), 3), None);
}

#[test]
fn backward_step() {
    let dict = small_dict();
    assert_eq!(Word::backward_checked(&dict, Word("elderberry"), 4), Some(Word("apple")));
    assert_eq!(Word::backward_checked(&dict, Word("cherry"), 1), Some(Word("banana")));
}

#[test]
fn ordering_matches_strings() {
    let words = ["apple", "banana", "cherry", "date", "elderberry"];
    for a in words.iter() {
        for b in words.iter() {
            assert_eq!(Word(a) < Word(b), a < b);
            assert_eq!(Word(a) == Word(b), a == b);
            assert_eq!(Word(a) > Word(b), a > b);
        }
    }
    assert!(Word("app") < Word("apple"));
    assert_eq!(Word("apple").as_str(), "apple");
}

#[test]
fn absent_word_is_not_found() {
    // A word outside the dictionary is reported absent, never mapped to an
    // unrelated position: the fatal stepping precondition is detectable.
    let dict = small_dict();
    assert_eq!(dict.index_of(""), None);
    assert_eq!(dict.index_of("abc123"), None);
    assert_eq!(dict.index_of("blueberry"), None);
    assert_eq!(dict.index_of("zebra"), None);
}

#[test]
fn single_word_table() {
    let dict = Dict::new(vec!["only".to_string()]);
    assert_eq!(Word::steps_between(&dict, &Word("only"), &Word("only")), Some(0));
    assert_eq!(Word::forward_checked(&dict, Word("only"), 1), None);
    assert_eq!(Word::backward_checked(&dict, Word("only"), 1), None);
}

#[test]
fn empty_word_sorts_first() {
    let dict = Dict::new(vec!["".to_string(), "a".to_string(), "ab".to_string()]);
    assert_eq!(dict.index_of(""), Some(0));
    assert_eq!(Word::forward_checked(&dict, Word(""), 2), Some(Word("ab")));
    assert_eq!(Word::backward_checked(&dict, Word("ab"), 2), Some(Word("")));
}
