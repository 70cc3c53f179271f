use adventure_book::adventure::{Adventure, Choice, Name, Page, Record};
use adventure_book::dict::Dict;
use adventure_book::editing::{
    add_name, add_record, can_add_test, check_side_effect, condition_in_use, keyword_in_use,
    new_condition, new_result, new_test, page_file_name, rename_condition, rename_name, rename_page,
    rename_record, rename_result, rename_test, result_use, test_in_use, EffectCheck,
    KeywordRefusal, ResultUse,
};
use adventure_book::evaluation::EvaluationError;
use adventure_book::page_files::page_names;
use adventure_book::keywords::{create_keyword, is_keyword_valid, regex_match_keyword, KeywordError};

fn sample_page() -> Page {
    Page::parse_from_string(
        "title: Door of [gold]
story: You have [gold] coins.
choice: Pay {condition: rich}{result: inside}
choice: Fight {test: duel}
condition: rich; [gold]; >; 3
test: duel; 1d20+[gold]; >; 10; inside; outside
result: inside; hall; gold; [gold]-1
result: outside; road"
            .to_string(),
    )
    .unwrap()
}

#[test]
fn keyword_patterns() {
    assert!(is_keyword_valid("gold"));
    assert!(is_keyword_valid("stuffed animals"));
    assert!(!is_keyword_valid("a(b"));
    match regex_match_keyword("a(b") {
        Err(KeywordError::InvalidPattern(p)) => assert_eq!(p, "\\[\\s*(a(b)\\s*\\]"),
        Ok(_) => panic!("accepted"),
    }
    assert_eq!(create_keyword("gold"), "[gold]");
    let r = regex_match_keyword("gold").unwrap();
    assert!(r.is_match("a [ gold ] b"));
    assert!(!r.is_match("a gold b"));
    assert!(r.captures("nothing").is_none());
}

#[test]
fn keywords_in_pages() {
    let mut page = sample_page();
    assert!(page.is_keyword_present("gold"));
    assert!(!page.is_keyword_present("silver"));
    page.rename_keyword("gold", "silver");
    assert_eq!(page.title, "Door of [silver]");
    assert_eq!(page.story, "You have [silver] coins.");
    assert_eq!(page.conditions.get("rich").unwrap().expression_l, "[silver]");
    assert_eq!(page.tests.get("duel").unwrap().expression_l, "1d20+[silver]");
    let inside = page.results.get("inside").unwrap();
    assert!(inside.side_effects.get("gold").is_none());
    assert_eq!(inside.side_effects.get("silver").unwrap(), "[silver]-1");
    assert!(!page.is_keyword_present("gold"));
    assert!(page.is_keyword_present("silver"));
    let choice = Choice::parse_from_string("Spend [silver] {result: inside}".to_string()).unwrap();
    assert!(choice.is_keyword_present("silver"));
}

#[test]
fn renaming_parts_of_a_page() {
    let mut page = sample_page();
    rename_result(&mut page, "inside", "entrance");
    assert_eq!(page.choices[0].result, "entrance");
    assert_eq!(page.tests.get("duel").unwrap().success_result, "entrance");
    assert_eq!(page.results.get("inside").unwrap().name, "entrance");
    rename_test(&mut page, "duel", "fight");
    assert_eq!(page.choices[1].test, "fight");
    assert_eq!(page.tests.get("fight").unwrap().name, "fight");
    assert!(page.tests.get("duel").is_none());
    rename_condition(&mut page, "rich", "wealthy");
    assert_eq!(page.choices[0].condition, "wealthy");
    assert_eq!(page.conditions.get("wealthy").unwrap().name, "wealthy");
    rename_condition(&mut page, "wealthy", "");
    assert_eq!(page.choices[0].condition, "wealthy");
}

#[test]
fn removal_checks() {
    let page = sample_page();
    assert_eq!(result_use(&page, "inside"), ResultUse::InChoice);
    assert_eq!(result_use(&page, "outside"), ResultUse::InTest);
    assert_eq!(result_use(&page, "elsewhere"), ResultUse::Unused);
    assert!(test_in_use(&page, "duel"));
    assert!(!test_in_use(&page, "other"));
    assert!(condition_in_use(&page, "rich"));
    assert!(!condition_in_use(&page, "poor"));
    assert!(can_add_test(&page));
}

#[test]
fn new_parts() {
    let c = new_condition("c".to_string());
    assert_eq!(c.expression_l, "0");
    assert_eq!(c.expression_r, "0");
    let t = new_test("t".to_string());
    assert_eq!(t.expression_l, "1d20");
    assert_eq!(t.expression_r, "10");
    let r = new_result("r".to_string());
    assert_eq!(r.name, "r");
    assert_eq!(r.next_page, "");
}

#[test]
fn renaming_pages() {
    let mut pages = Dict::new();
    pages.insert("start".to_string(), sample_page());
    let mut other = sample_page();
    rename_result(&mut other, "outside", "out");
    pages.insert("hall".to_string(), other);
    assert!(rename_page(&mut pages, "hall", "great-hall"));
    assert!(pages.get("hall").is_none());
    assert_eq!(pages.get("start").unwrap().results.get("inside").unwrap().next_page, "great-hall");
    assert!(!rename_page(&mut pages, "missing", "x"));
    assert_eq!(page_file_name("My First Page"), "my-first-page");
}

#[test]
fn keyword_edits() {
    let mut adv = Adventure::parse_from_string(
        "title: T\nrecord: gold; 5\nname: hero; Bob".to_string(),
        "p".to_string(),
    )
    .unwrap();
    let gold = Record { name: "gold".to_string(), category: String::new(), value: 1 };
    match add_record(&mut adv, gold) {
        Err(KeywordRefusal::AlreadyPresent(n)) => assert_eq!(n, "gold"),
        other => panic!("unexpected {:?}", other),
    }
    let bad = Record { name: "a(b".to_string(), category: String::new(), value: 1 };
    match add_record(&mut adv, bad) {
        Err(KeywordRefusal::Invalid(n)) => assert_eq!(n, "a(b"),
        other => panic!("unexpected {:?}", other),
    }
    add_record(&mut adv, Record { name: "hp".to_string(), category: String::new(), value: 3 }).unwrap();
    assert_eq!(adv.records.len(), 2);
    add_name(&mut adv, Name { keyword: "foe".to_string(), value: "Orc".to_string() }).unwrap();
    let mut pages = Dict::new();
    pages.insert("start".to_string(), sample_page());
    assert!(keyword_in_use(&pages, "gold"));
    assert!(!keyword_in_use(&pages, "hp"));
    match rename_record(&mut adv, &mut pages, "gold", Record { name: "hp".to_string(), category: String::new(), value: 0 }) {
        Err(KeywordRefusal::AlreadyUsed(n)) => assert_eq!(n, "hp"),
        other => panic!("unexpected {:?}", other),
    }
    rename_record(&mut adv, &mut pages, "gold", Record { name: "coins".to_string(), category: String::new(), value: 9 })
        .unwrap();
    assert_eq!(adv.records.get("coins").unwrap().value, 9);
    assert_eq!(pages.get("start").unwrap().story, "You have [coins] coins.");
    match rename_name(&mut adv, &mut pages, "nobody", Name { keyword: "x".to_string(), value: String::new() }) {
        Err(KeywordRefusal::Missing(n)) => assert_eq!(n, "nobody"),
        other => panic!("unexpected {:?}", other),
    }
    rename_name(&mut adv, &mut pages, "hero", Name { keyword: "hero".to_string(), value: "Ann".to_string() })
        .unwrap();
    assert_eq!(adv.names.get("hero").unwrap().value, "Ann");
}

#[test]
fn side_effect_checks() {
    let mut records = Dict::new();
    records.insert("gold".to_string(), Record { name: "gold".to_string(), category: String::new(), value: 0 });
    match check_side_effect(false, "anything".to_string(), &records) {
        EffectCheck::Keep(v) => assert_eq!(v, "anything"),
        other => panic!("unexpected {:?}", other),
    }
    let empty = check_side_effect(true, String::new(), &records);
    assert_eq!(empty.saved_value().unwrap(), "1");
    assert!(matches!(empty, EffectCheck::EmptyRecord));
    let zero = check_side_effect(true, "0".to_string(), &records);
    assert!(matches!(zero, EffectCheck::ZeroRecord));
    assert_eq!(zero.saved_value().unwrap(), "1");
    match check_side_effect(true, "10/[gold]".to_string(), &records) {
        EffectCheck::DivisionByZero(v) => assert_eq!(v, "10/[gold]"),
        other => panic!("unexpected {:?}", other),
    }
    match check_side_effect(true, "bat".to_string(), &records) {
        EffectCheck::Invalid(e) => assert_eq!(e, EvaluationError::NotANumber("bat".to_string())),
        other => panic!("unexpected {:?}", other),
    }
    let kept = check_side_effect(true, "1d6".to_string(), &records);
    assert_eq!(kept.saved_value().unwrap(), "1d6");
}

#[test]
fn dict_entries_replaced_in_place() {
    let mut d: Dict<Record> = Dict::new();
    d.insert("gold".to_string(), Record { category: "c".to_string(), name: "gold".to_string(), value: 1 });
    d.insert("hp".to_string(), Record { category: "c".to_string(), name: "hp".to_string(), value: 9 });
    let i = d.find(&"hp".to_string());
    assert_eq!(i, 1);
    let mut hp = d.replace_value(i, Record { category: "c".to_string(), name: "hp".to_string(), value: 0 });
    assert_eq!(d.get("hp").unwrap().value, 0);
    hp.value += 3;
    d.set_value(i, hp);
    assert_eq!(d.get("hp").unwrap().value, 12);
    assert_eq!(d.key_at(1), "hp");
    assert_eq!(d.find(&"none".to_string()), 2);
    d.insert("gold".to_string(), Record { category: "c".to_string(), name: "gold".to_string(), value: 7 });
    assert_eq!(d.len(), 2);
    assert_eq!(d.get("gold").unwrap().value, 7);
    assert_eq!(d.remove("gold").unwrap().value, 7);
    assert!(d.get("gold").is_none());
    assert_eq!(d.len(), 1);
}

#[test]
fn renaming_every_occurrence() {
    let r = regex_match_keyword("k").unwrap();
    assert_eq!(r.rename_in(&"[k] and [ k ] or [kk]".to_string(), "n"), "[n] and [ n ] or [kk]");
    assert_eq!(r.rename_in(&"none here".to_string(), "n"), "none here");
    let caps = r.captures("x [ k ]").unwrap();
    assert_eq!(caps, vec![Some("k".to_string())]);
    let mut page = sample_page();
    page.story = "[gold], [gold] and [ gold ]".to_string();
    page.rename_keyword("gold", "silver");
    assert_eq!(page.story, "[silver], [silver] and [ silver ]");
    assert!(!page.is_keyword_present("gold"));
}

#[test]
fn page_files_of_a_folder() {
    let entries: Vec<(String, bool)> = vec![
        ("b.txt".to_string(), false),
        ("adventure.txt".to_string(), false),
        ("a".to_string(), false),
        ("img.png".to_string(), false),
        ("dir".to_string(), true),
        (".hidden".to_string(), false),
        ("c.d.txt".to_string(), false),
        ("x.".to_string(), false),
    ];
    assert_eq!(page_names(&entries), vec![".hidden", "a", "b", "c.d"]);
    assert!(page_names(&Vec::new()).is_empty());
}
