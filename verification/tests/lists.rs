use stroke::hsk::{characters, Unit, Word};
use stroke::lists::{
    clamp, clean_headword, clean_title, create, delete, import_unit, into_shape, is_han, merge,
    new_id, position_of, remove_word, rename, unit_list_title, ListSource, ListWord, ListsDoc,
    WordList, MAX_LISTS, MAX_TITLE, MAX_WORDS,
};

fn word(headword: &str) -> ListWord {
    ListWord {
        word: headword.to_string(),
        pinyin: String::new(),
        gloss: String::new(),
        level: Some(1),
        added_at: 1,
    }
}

fn unit(id: &str) -> Unit {
    Unit {
        id: id.to_string(),
        title: "Greetings & courtesy".to_string(),
        topic: "greetings".to_string(),
        words: vec!["你好".to_string()],
    }
}

fn course_word(headword: &str) -> Word {
    Word {
        word: headword.to_string(),
        pinyin: "nǐ hǎo".to_string(),
        gloss: "hello".to_string(),
        level: 1,
    }
}

fn list(id: &str, title: &str, words: Vec<ListWord>) -> WordList {
    WordList {
        id: id.to_string(),
        title: title.to_string(),
        source: ListSource::Custom,
        words,
        created_at: 0,
        updated_at: 0,
    }
}

fn headwords(list: &WordList) -> Vec<&str> {
    list.words.iter().map(|w| w.word.as_str()).collect()
}

#[test]
fn parsing_clamps_a_hand_edited_document_into_shape() {
    let raw = ListsDoc {
        version: 9,
        lists: vec![
            list("l1", "   ", vec![word("你好 (hello)"), word("你好"), word("!")]),
            list("", "No id", vec![]),
        ],
        updated_at: 0,
    };
    let doc = into_shape(raw);
    assert_eq!(doc.version, 1);
    assert_eq!(doc.lists.len(), 1, "the list without an id is dropped");
    let list = &doc.lists[0];
    assert_eq!(list.title, "Untitled list");
    assert_eq!(
        headwords(list),
        ["你好"],
        "latin is stripped, the repeat and the empty word are dropped"
    );
}

#[test]
fn the_default_document_is_empty() {
    let doc = ListsDoc::default();
    assert_eq!(doc.version, 1);
    assert!(doc.lists.is_empty());
    assert_eq!(doc.updated_at, 0);
}

#[test]
fn an_empty_document_stays_empty() {
    let doc = into_shape(ListsDoc::new());
    assert!(doc.lists.is_empty());
    assert_eq!(doc.version, 1);
}

#[test]
fn shaping_caps_lists_and_words() {
    let many_words: Vec<ListWord> = (0..MAX_WORDS + 10).map(|i| word(&format!("字{i}"))).collect();
    let mut lists = vec![list("l0", "Big", many_words)];
    for i in 1..MAX_LISTS + 5 {
        lists.push(list(&format!("l{i}"), "x", vec![]));
    }
    let doc = into_shape(ListsDoc { version: 1, lists, updated_at: 7 });
    assert_eq!(doc.lists.len(), MAX_LISTS);
    assert_eq!(doc.updated_at, 7);
    // Every headword cleans down to 字, so only the first survives the dedupe.
    assert_eq!(headwords(&doc.lists[0]), ["字"]);
}

#[test]
fn shaping_clamps_readings() {
    let mut w = word("好");
    w.pinyin = "  hǎo   ".to_string();
    w.gloss = "g".repeat(300);
    let doc = into_shape(ListsDoc { version: 1, lists: vec![list("l1", "t", vec![w])], updated_at: 0 });
    let kept = &doc.lists[0].words[0];
    assert_eq!(kept.pinyin, "hǎo");
    assert_eq!(kept.gloss.chars().count(), 140);
}

#[test]
fn merging_skips_words_a_list_already_has() {
    let mut words = vec![word("你好")];
    assert_eq!(merge(&mut words, vec![word("你好"), word("谢谢")]), 1);
    assert_eq!(words.len(), 2);
    assert_eq!(merge(&mut words, vec![word("谢谢")]), 0);
}

#[test]
fn merging_stops_at_the_word_ceiling() {
    let mut words: Vec<ListWord> = (0..MAX_WORDS - 1).map(|i| word(&format!("已{i}"))).collect();
    let incoming: Vec<ListWord> = (0..5).map(|i| word(&format!("新{i}"))).collect();
    assert_eq!(merge(&mut words, incoming), 1);
    assert_eq!(words.len(), MAX_WORDS);
}

#[test]
fn merging_the_same_words_twice_adds_nothing_the_second_time() {
    let mut words = vec![word("一")];
    let incoming = vec![word("二"), word(""), word("三"), word("二")];
    assert_eq!(merge(&mut words, incoming.iter().map(|w| w.duplicate()).collect()), 2);
    assert_eq!(merge(&mut words, incoming), 0);
    assert_eq!(words.iter().map(|w| w.word.as_str()).collect::<Vec<_>>(), ["一", "二", "三"]);
}

#[test]
fn a_list_knows_which_unit_it_came_from() {
    let list = WordList {
        id: "l1".to_string(),
        title: "HSK 1 · Greetings & courtesy".to_string(),
        source: ListSource::from_unit(1, &unit("1-01")),
        words: vec![word("你好")],
        created_at: 0,
        updated_at: 0,
    };
    assert!(list.is_from_unit(1, "1-01"), "by full id");
    assert!(list.is_from_unit(1, "01"), "by position, as a route carries it");
    assert!(!list.is_from_unit(2, "01"), "a different level");
    assert!(!list.is_from_unit(1, "02"), "a different unit");
    assert_eq!(list.source.label(), "HSK 1 · Unit 01");
    assert_eq!(list.characters(), vec!['你', '好']);
}

#[test]
fn a_title_is_collapsed_and_capped() {
    assert_eq!(clean_title("  Food   and drink "), "Food and drink");
    assert_eq!(clean_title(""), "Untitled list");
    assert_eq!(clean_title(&"x".repeat(200)).chars().count(), MAX_TITLE);
}

#[test]
fn a_custom_list_says_so() {
    assert_eq!(ListSource::Custom.label(), "Your own list");
}

#[test]
fn clamping_collapses_every_kind_of_whitespace() {
    assert_eq!(clamp("\tone\u{3000}two\n\nthree ", 80), "one two three");
    assert_eq!(clamp("abcdef", 3), "abc");
    assert_eq!(clamp("   ", 5), "");
}

#[test]
fn a_headword_keeps_only_han_characters() {
    assert_eq!(clean_headword("你好 (hello)"), "你好");
    assert_eq!(clean_headword("々豈a"), "々豈");
    assert_eq!(clean_headword(&"好".repeat(20)).chars().count(), 12);
    assert!(is_han('好'));
    assert!(!is_han('a'));
    assert!(!is_han('。'));
}

#[test]
fn a_position_is_what_follows_the_dash() {
    assert_eq!(position_of("3-07"), "07");
    assert_eq!(position_of("07"), "07");
    assert_eq!(position_of("a-b-c"), "b-c");
    assert_eq!(unit("1-07").number(), "07");
}

#[test]
fn characters_are_listed_once_in_order() {
    let words = vec!["你好".to_string(), "好的".to_string(), "ok".to_string()];
    assert_eq!(characters(&words), vec!['你', '好', '的']);
}

#[test]
fn a_new_list_goes_first_and_is_cleaned() {
    let mut doc = ListsDoc::new();
    let id = create(&mut doc, "la".to_string(), 5, "  My   words ", ListSource::Custom, vec![word("一"), word("一")]);
    assert_eq!(id.as_deref(), Some("la"));
    let id = create(&mut doc, "lb".to_string(), 6, "", ListSource::Custom, vec![]);
    assert_eq!(id.as_deref(), Some("lb"));
    assert_eq!(doc.lists[0].id, "lb");
    assert_eq!(doc.lists[0].title, "Untitled list");
    assert_eq!(doc.lists[1].title, "My words");
    assert_eq!(headwords(&doc.lists[1]), ["一"]);
    assert_eq!(doc.updated_at, 6);
    assert_eq!(doc.total_words(), 1);
    assert_eq!(doc.get("la").map(|l| l.title.as_str()), Some("My words"));
    assert!(doc.get("lz").is_none());
}

#[test]
fn a_full_document_takes_no_new_list() {
    let mut doc = ListsDoc::new();
    for i in 0..MAX_LISTS {
        assert!(create(&mut doc, format!("l{i}"), 1, "t", ListSource::Custom, vec![]).is_some());
    }
    assert!(doc.is_full());
    assert_eq!(create(&mut doc, "extra".to_string(), 2, "t", ListSource::Custom, vec![]), None);
    assert_eq!(doc.lists.len(), MAX_LISTS);
    assert_eq!(doc.updated_at, 1, "a refused create does not stamp the document");
}

#[test]
fn renaming_stamps_only_a_real_change() {
    let mut doc = ListsDoc::new();
    create(&mut doc, "l1".to_string(), 1, "Old", ListSource::Custom, vec![]);
    rename(&mut doc, "l1", "  Old ", 2);
    assert_eq!(doc.lists[0].updated_at, 1);
    assert_eq!(doc.updated_at, 2);
    rename(&mut doc, "l1", "New   name", 3);
    assert_eq!(doc.lists[0].title, "New name");
    assert_eq!(doc.lists[0].updated_at, 3);
}

#[test]
fn deleting_and_pruning() {
    let mut doc = ListsDoc::new();
    create(&mut doc, "l1".to_string(), 1, "A", ListSource::Custom, vec![word("一"), word("二")]);
    create(&mut doc, "l2".to_string(), 1, "B", ListSource::Custom, vec![]);
    remove_word(&mut doc, "l1", "三", 4);
    assert_eq!(doc.get("l1").unwrap().updated_at, 1, "nothing removed, nothing stamped");
    remove_word(&mut doc, "l1", "一", 5);
    assert_eq!(headwords(doc.get("l1").unwrap()), ["二"]);
    assert_eq!(doc.get("l1").unwrap().updated_at, 5);
    delete(&mut doc, "l2", 6);
    assert_eq!(doc.lists.len(), 1);
    assert_eq!(doc.updated_at, 6);
}

#[test]
fn importing_a_unit_twice_opens_the_same_list() {
    let mut doc = ListsDoc::new();
    let u = unit("1-01");
    let words = vec![course_word("你好"), course_word("谢谢")];
    let first = import_unit(&mut doc, 1, &u, &words, "lfirst".to_string(), 10);
    assert_eq!(first.as_deref(), Some("lfirst"));
    assert_eq!(doc.lists[0].title, "HSK 1 · Greetings & courtesy");
    assert_eq!(doc.lists[0].words.len(), 2);
    assert_eq!(doc.lists[0].words[0].level, Some(1));
    assert_eq!(doc.lists[0].words[0].added_at, 10);
    // Pruned since: the second tap still finds it and leaves it alone.
    remove_word(&mut doc, "lfirst", "谢谢", 11);
    let second = import_unit(&mut doc, 1, &u, &words, "lsecond".to_string(), 12);
    assert_eq!(second.as_deref(), Some("lfirst"));
    assert_eq!(doc.lists.len(), 1);
    assert_eq!(doc.lists[0].words.len(), 1);
    assert_eq!(doc.imported_units(1), vec!["1-01".to_string()]);
    assert!(doc.imported_units(2).is_empty());
    assert!(doc.list_for_unit(1, "01").is_some());
    assert!(doc.list_for_unit(2, "01").is_none());
}

#[test]
fn an_imported_unit_is_titled_after_it() {
    assert_eq!(unit_list_title(3, &unit("3-07")), "HSK 3 · Greetings & courtesy");
}

#[test]
fn an_id_is_the_time_and_salt_in_hex() {
    assert_eq!(new_id(0x18f2a, 0x00ff), "l18f2a00ff");
    assert_eq!(new_id(0, 0), "l00000");
    assert_eq!(new_id(255, 0xabcd), "lffabcd");
}

#[test]
fn a_course_word_is_copied_as_taught() {
    let w = ListWord::from_course(&course_word("你好"), 42);
    assert_eq!(w.word, "你好");
    assert_eq!(w.pinyin, "nǐ hǎo");
    assert_eq!(w.gloss, "hello");
    assert_eq!(w.level, Some(1));
    assert_eq!(w.added_at, 42);
}

#[test]
fn merging_appends_fresh_words_up_to_the_ceiling() {
    let mut words: Vec<ListWord> = (0..MAX_WORDS - 2).map(|i| word(&format!("旧{i}"))).collect();
    let incoming = vec![word("旧0"), word("甲"), word(""), word("甲"), word("乙"), word("丙")];
    assert_eq!(merge(&mut words, incoming), 2);
    assert_eq!(words[MAX_WORDS - 2].word, "甲");
    assert_eq!(words[MAX_WORDS - 1].word, "乙");
}

#[test]
fn a_clamped_document_keeps_its_order() {
    let raw = ListsDoc {
        version: 3,
        lists: vec![
            list("a", "First", vec![word("三x"), word("一"), word("二")]),
            list("", "dropped", vec![]),
            list("b", &"t".repeat(100), vec![word("四")]),
        ],
        updated_at: 0,
    };
    let doc = into_shape(raw);
    assert_eq!(doc.lists.iter().map(|l| l.id.as_str()).collect::<Vec<_>>(), ["a", "b"]);
    assert_eq!(headwords(&doc.lists[0]), ["三", "一", "二"]);
    assert_eq!(doc.lists[1].title.chars().count(), MAX_TITLE);
}
