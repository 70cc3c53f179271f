use adventure_book::adventure::{
    Adventure, Choice, Comparison, Condition, Name, Page, ParsingError, Record, StoryResult, Test,
};
use adventure_book::dict::Dict;
use adventure_book::keywords::regex_match_keyword;
use adventure_book::tags::is_word_character;

#[test]
fn record_parse() {
    let data = "strength; attributes;".to_string();
    let rec = Record::parse_from_string(data).unwrap();
    assert_eq!(rec.name, "strength");
    assert_eq!(rec.category, "attributes");
}

#[test]
fn result_parse() {
    let data = "proceed; next scene".to_string();
    let res = StoryResult::parse_from_string(data).unwrap();
    assert_eq!(res.name, "proceed");
    assert_eq!(res.next_page, "next scene");
}

#[test]
fn result_record_mod_parse() {
    let data = "proceed; next_scene; strength; 1;".to_string();
    let res = StoryResult::parse_from_string(data).unwrap();
    assert_eq!(res.name, "proceed");
    assert_eq!(res.next_page, "next_scene");
    assert_eq!(res.side_effects.get("strength").unwrap(), "1");
}

#[test]
fn test_parse() {
    let data = "bravery; 1d20; <=; [confidence]; proceed; cowardness;".to_string();
    let t = Test::parse_from_string(data).unwrap();
    assert_eq!(t.name, "bravery");
    assert_eq!(t.expression_l, "1d20");
    assert_eq!(t.expression_r, "[confidence]");
    assert_eq!(t.comparison, Comparison::LessEqual);
    assert_eq!(t.success_result, "proceed");
    assert_eq!(t.failure_result, "cowardness");
}

#[test]
fn condition_parse() {
    let data = "wealth; [wealth]; >=; 1d100+15;".to_string();
    let con = Condition::parse_from_string(data).unwrap();
    assert_eq!(con.name, "wealth");
    assert_eq!(con.comparison, Comparison::GreaterEqual);
    assert_eq!(con.expression_l, "[wealth]");
    assert_eq!(con.expression_r, "1d100+15");
}

#[test]
fn comparison_conversion() {
    let mut comp: Comparison = ">".into();
    assert_eq!(comp, Comparison::Greater);
    comp = ">=".into();
    assert_eq!(comp, Comparison::GreaterEqual);
    comp = "=".into();
    assert_eq!(comp, Comparison::Equal);
    comp = "!".into();
    assert_eq!(comp, Comparison::NotEqual);
    comp = "<".into();
    assert_eq!(comp, Comparison::Less);
    comp = "<=".into();
    assert_eq!(comp, Comparison::LessEqual);
}

#[test]
fn choice_parse_condition_result() {
    let data = "Do something brave! {condition: brave} {result: proceed}".to_string();
    let cho = Choice::parse_from_string(data).unwrap();
    assert_eq!(cho.text, "Do something brave!");
    assert_eq!(cho.test, "");
    assert_eq!(cho.condition, "brave");
    assert_eq!(cho.result, "proceed");
}

#[test]
fn choice_parse_test() {
    let data = "Do something brave! { test: bravery }".to_string();
    let cho = Choice::parse_from_string(data).unwrap();
    assert_eq!(cho.text, "Do something brave!");
    assert_eq!(cho.test, "bravery");
    assert_eq!(cho.condition, "");
    assert_eq!(cho.result, "");
}

#[test]
fn choice_parse() {
    let data = "Do something brave! { result: proceed }".to_string();
    let cho = Choice::parse_from_string(data).unwrap();
    assert_eq!(cho.text, "Do something brave!");
    assert_eq!(cho.test, "");
    assert_eq!(cho.condition, "");
    assert_eq!(cho.result, "proceed");
}

#[test]
fn choice_valid() {
    let mut cho = Choice {
        text: String::from("Do something brave!"),
        condition: String::new(),
        result: String::from("Proceed"),
        test: String::new(),
    };
    assert!(cho.is_valid());
    cho.result = String::new();
    cho.test = String::from("bravery");
    assert!(cho.is_valid());
}

#[test]
fn choice_invalid() {
    let mut cho = Choice {
        text: String::from("Do something brave!"),
        condition: String::new(),
        result: String::new(),
        test: String::new(),
    };
    assert!(!cho.is_valid());
    cho.result = String::from("proceed");
    cho.test = String::from("bravery");
    assert!(!cho.is_valid());
}

#[test]
fn page_parse() {
    let data = "title: At the Castle Ruins
story: [name] arrived at the ruined castle where the fabled dragon has kidnapped the princess to. The air is stale, filled with stench of sulfour and roars of the beast can be heard in the distance.
choice: Proceed through the ga"
        .to_string()
        + "te! {test: bravery}
choice: Run away! {result: coward}
choice: Prepare stuffed animal spiked with poison. {condition: animal}{result: victory}
condition: animal; [stuffed animals]; >; 1;
test: bravery; [confidence]; >=; 1d20; victory; coward;
result: victory; victory_scene
result: coward; confidence; -1; coward_scene;";
    let page = Page::parse_from_string(data).unwrap();

    assert_eq!(page.title, "At the Castle Ruins");
    assert_eq!(page.story, "[name] arrived at the ruined castle where the fabled dragon has kidnapped the princess to. The air is stale, filled with stench of sulfour and roars of the beast can be heard in the distance.");
    assert_eq!(page.choices.len(), 3);
    assert_eq!(page.conditions.len(), 1);
    assert_eq!(page.tests.len(), 1);
    assert_eq!(page.results.len(), 2);

    for choice in page.choices {
        assert!(choice.is_valid());
    }
}

#[test]
fn capture_keyword() {
    let data = "this is a test string with a [spaced keyword] that should be captured";
    let regex = regex_match_keyword("spaced keyword").unwrap();
    if let Some(cap) = regex.captures(data) {
        let r = cap.get(0).cloned().flatten();
        assert_eq!(r.unwrap().as_str(), "spaced keyword");
    } else {
        assert!(false);
    }
}

#[test]
fn adventure_parse() {
    let data = "title: Damsel in Distress
description: This is a story about a knight who faces a dragon to save the princess
start: at_the_castle_ruins
record: confidence; attributes;
record: stuffed animals; resources;"
        .to_string();
    let adventure = Adventure::parse_from_string(data, "damsel".to_string()).unwrap();

    assert_eq!(adventure.title, "Damsel in Distress");
    assert_eq!(
        adventure.description,
        "This is a story about a knight who faces a dragon to save the princess"
    );
    assert_eq!(adventure.start, "at_the_castle_ruins");
    assert_eq!(adventure.records.len(), 2);

    let con = adventure.records.get("confidence").unwrap();
    let stuff = adventure.records.get("stuffed animals").unwrap();
    assert_eq!(con.name, "confidence");
    assert_eq!(con.category, "attributes");
    assert_eq!(stuff.name, "stuffed animals");
    assert_eq!(stuff.category, "resources");
}

#[test]
fn comparison_greater() {
    assert!(Comparison::Greater.compare(20, 10));
}

#[test]
fn comparison_greater_equal() {
    assert!(Comparison::GreaterEqual.compare(10, 10));
}

#[test]
fn comparison_less() {
    assert!(Comparison::Less.compare(10, 20));
}

#[test]
fn comparison_less_equal() {
    assert!(Comparison::LessEqual.compare(10, 10));
}

#[test]
fn comparison_equal() {
    assert!(Comparison::Equal.compare(10, 10));
}

#[test]
fn comparison_not_equal() {
    assert!(Comparison::NotEqual.compare(10, 20));
}

#[test]
fn serializing_adventure_metadata() {
    let a = Adventure {
        title: "test".to_string(),
        description: "this is a test adventure".to_string(),
        start: "start-page".to_string(),
        records: {
            let mut r = Dict::new();
            r.insert(
                "first".to_string(),
                Record { name: "first".to_string(), category: "".to_string(), value: 1 },
            );
            r.insert(
                "second".to_string(),
                Record { name: "second".to_string(), category: "".to_string(), value: 4 },
            );
            r
        },
        names: {
            let mut n = Dict::new();
            n.insert(
                "hero".to_string(),
                Name { keyword: "hero".to_string(), value: "Prince Charming".to_string() },
            );
            n.insert(
                "vilain".to_string(),
                Name { keyword: "vilain".to_string(), value: "Evil Witch".to_string() },
            );
            n
        },
        ..Default::default()
    };

    let serialized = a.serialize_to_string();
    let b = Adventure::parse_from_string(serialized, "path".to_string()).unwrap();
    assert_eq!(a.title, b.title);
    assert_eq!(a.description, b.description);
    assert_eq!(a.start, b.start);
    assert_eq!(a.records.get("first"), b.records.get("first"));
    assert_eq!(a.records.get("second"), b.records.get("second"));
    assert_eq!(a.names.get("hero"), b.names.get("hero"));
    assert_eq!(a.names.get("vilain"), b.names.get("vilain"));
}

#[test]
fn serializing_page() {
    let a = Page {
        title: "test title".to_string(),
        story: "this is a test story".to_string(),
        choices: {
            vec![
                Choice {
                    text: "Default choice".to_string(),
                    result: "game over".to_string(),
                    ..Default::default()
                },
                Choice {
                    text: "Conditioned choice".to_string(),
                    condition: "con".to_string(),
                    result: "game over".to_string(),
                    ..Default::default()
                },
                Choice {
                    text: "Testing Choice".to_string(),
                    test: "test".to_string(),
                    ..Default::default()
                },
                Choice {
                    text: "Resulting choice".to_string(),
                    result: "result".to_string(),
                    ..Default::default()
                },
            ]
        },
        conditions: {
            let mut c = Dict::new();
            c.insert(
                "con".to_string(),
                Condition {
                    name: "con".to_string(),
                    comparison: Comparison::Greater,
                    expression_l: "1d6".to_string(),
                    expression_r: "2".to_string(),
                },
            );
            c
        },
        tests: {
            let mut t = Dict::new();
            t.insert(
                "test".to_string(),
                Test {
                    name: "test".to_string(),
                    comparison: Comparison::Greater,
                    expression_l: "1d20".to_string(),
                    expression_r: "10".to_string(),
                    success_result: "result".to_string(),
                    failure_result: "failure".to_string(),
                },
            );
            t
        },
        results: {
            let mut r = Dict::new();
            r.insert(
                "result".to_string(),
                StoryResult {
                    name: "result".to_string(),
                    next_page: "next".to_string(),
                    side_effects: {
                        let mut se = Dict::new();
                        se.insert("record".to_string(), "4".to_string());
                        se
                    },
                },
            );
            r.insert(
                "failure".to_string(),
                StoryResult {
                    name: "failure".to_string(),
                    next_page: "loss".to_string(),
                    side_effects: Dict::new(),
                },
            );
            r
        },
    };

    let serialized = a.serialize_to_string();
    let b = Page::parse_from_string(serialized).unwrap();
    assert_eq!(a.title, b.title);
    assert_eq!(a.story, b.story);
    assert_eq!(a.choices.len(), b.choices.len());
    a.choices
        .iter()
        .enumerate()
        .for_each(|x| assert_eq!(x.1, b.choices.get(x.0).unwrap()));
    assert_eq!(a.conditions.len(), b.conditions.len());
    for i in 0..a.conditions.len() {
        assert_eq!(a.conditions.value_at(i), b.conditions.get(a.conditions.key_at(i)).unwrap());
    }
    assert_eq!(a.tests.len(), b.tests.len());
    for i in 0..a.tests.len() {
        assert_eq!(a.tests.value_at(i), b.tests.get(a.tests.key_at(i)).unwrap());
    }
    assert_eq!(a.results.len(), b.results.len());
    for i in 0..a.results.len() {
        assert_eq!(a.results.value_at(i), b.results.get(a.results.key_at(i)).unwrap());
    }
}

#[test]
fn record_errors() {
    match Record::parse_from_string("gold; coins; many".to_string()) {
        Err(ParsingError::ValueNaN(t)) => assert_eq!(t, "gold; coins; many"),
        other => panic!("unexpected {:?}", other),
    }
    match Record::parse_from_string("a;b;c;d".to_string()) {
        Err(ParsingError::IncorrectElementCount(t, n)) => {
            assert_eq!(t, "a;b;c;d");
            assert_eq!(n, 3);
        }
        other => panic!("unexpected {:?}", other),
    }
    let r = Record::parse_from_string("gold; 12".to_string()).unwrap();
    assert_eq!(r.value, 12);
    assert_eq!(r.category, "");
    assert_eq!(r.value_as_string(), "12");
    let r = Record::parse_from_string("gold; coins; -7".to_string()).unwrap();
    assert_eq!(r.value, -7);
    assert_eq!(r.serialize_to_string(), "gold;coins;-7");
}

#[test]
fn name_and_result_errors() {
    match Name::parse_from_string(" ; ;".to_string()) {
        Err(ParsingError::IncorrectElementCount(_, n)) => assert_eq!(n, 2),
        other => panic!("unexpected {:?}", other),
    }
    let n = Name::parse_from_string("hero; Prince Charming".to_string()).unwrap();
    assert_eq!(n.keyword, "hero");
    assert_eq!(n.value, "Prince Charming");
    assert_eq!(n.serialize_to_string(), "hero;Prince Charming");
    match StoryResult::parse_from_string("go; next; gold".to_string()) {
        Err(ParsingError::ElementPairMissing(t)) => assert_eq!(t, "go; next; gold"),
        other => panic!("unexpected {:?}", other),
    }
    match StoryResult::parse_from_string("go".to_string()) {
        Err(ParsingError::IncorrectElementCount(_, n)) => assert_eq!(n, 2),
        other => panic!("unexpected {:?}", other),
    }
    match Condition::parse_from_string("a; b; >".to_string()) {
        Err(ParsingError::IncorrectElementCount(_, n)) => assert_eq!(n, 4),
        other => panic!("unexpected {:?}", other),
    }
    match Test::parse_from_string("a; b; >; c".to_string()) {
        Err(ParsingError::IncorrectElementCount(_, n)) => assert_eq!(n, 6),
        other => panic!("unexpected {:?}", other),
    }
}

#[test]
fn stored_parts_read_back() {
    let c = Condition {
        name: "rich".to_string(),
        expression_r: "10".to_string(),
        comparison: Comparison::NotEqual,
        expression_l: "[gold]".to_string(),
    };
    let text = c.serialize_to_string();
    assert_eq!(text, "rich;[gold];!=;10");
    assert_eq!(Condition::parse_from_string(text).unwrap(), c);
    let t = Test {
        name: "luck".to_string(),
        expression_r: "5".to_string(),
        comparison: Comparison::Equal,
        expression_l: "1d6".to_string(),
        success_result: "win".to_string(),
        failure_result: "lose".to_string(),
    };
    let text = t.serialize_to_string();
    assert_eq!(text, "luck;1d6;==;5;win;lose");
    assert_eq!(Test::parse_from_string(text).unwrap(), t);
    let mut se = Dict::new();
    se.insert("gold".to_string(), "1d6".to_string());
    se.insert("hp".to_string(), "-1".to_string());
    let r = StoryResult { name: "go".to_string(), next_page: "cave".to_string(), side_effects: se };
    let text = r.serialize_to_string();
    assert_eq!(text, "go;cave;gold;1d6;hp;-1");
    assert_eq!(StoryResult::parse_from_string(text).unwrap(), r);
}

#[test]
fn comparison_symbols_and_indices() {
    let all = [
        Comparison::Greater,
        Comparison::GreaterEqual,
        Comparison::Less,
        Comparison::LessEqual,
        Comparison::Equal,
        Comparison::NotEqual,
    ];
    let entries: Vec<String> = Comparison::as_choice().split('|').map(|x| x.to_string()).collect();
    for c in all.iter() {
        let back: Comparison = c.symbol().into();
        assert_eq!(back, *c);
        let entry: Comparison = entries[c.to_index() as usize].clone().into();
        assert_eq!(entry, *c);
    }
    let other: Comparison = " something ".into();
    assert_eq!(other, Comparison::LessEqual);
    assert_eq!(Comparison::as_choice(), ">|>=|<|<=|=|!=");
}

#[test]
fn choice_lines() {
    let c = Choice::parse_from_string("  Go north {result: north}  ".to_string()).unwrap();
    assert_eq!(c.text, "Go north");
    assert!(c.is_constant());
    assert!(!c.has_condition());
    assert!(!c.is_game_over());
    assert_eq!(c.serialize_to_string(), "Go north{result: north}");
    match Choice::parse_from_string("Nowhere {condition: c}".to_string()) {
        Err(ParsingError::Invalid(t)) => assert_eq!(t, "Nowhere "),
        other => panic!("unexpected {:?}", other),
    }
    let g = Choice { text: "End".to_string(), ..Default::default() };
    assert_eq!(g.serialize_to_string(), "End{result: game over}");
    let g = Choice::parse_from_string(g.serialize_to_string()).unwrap();
    assert!(g.is_game_over());
    let u = Choice::parse_from_string("Über {test: prüfung}".to_string()).unwrap();
    assert_eq!(u.test, "prüfung");
}

#[test]
fn page_playability() {
    match Page::parse_from_string("title: t\nstory: s".to_string()) {
        Err(ParsingError::IncomplatePage(p)) => assert_eq!(p.story, "s"),
        other => panic!("unexpected {:?}", other),
    }
    let p = Page::parse_from_string("title: t\nstory: one\ntwo\nchoice: End {result: game over}".to_string())
        .unwrap();
    assert_eq!(p.story, "one\ntwo");
    assert!(p.is_playable());
    match Page::parse_from_string("title: t\nstory: s\nchoice: Go {result: next}".to_string()) {
        Err(ParsingError::IncomplatePage(_)) => {}
        other => panic!("unexpected {:?}", other),
    }
}

#[test]
fn adventure_lines() {
    let a = Adventure::parse_from_string(
        "title: T\ndescription: first\nsecond\nstart: s\nname: hero; Bob".to_string(),
        "p".to_string(),
    )
    .unwrap();
    assert_eq!(a.description, "firstsecond");
    assert!(a.is_bare_minimum());
    assert!(a.is_playable(true));
    assert!(!a.is_playable(false));
    assert_eq!(a.serialize_to_string(), "title: T\ndescription: firstsecond\nstart: s\nname: hero;Bob");
    match Adventure::parse_from_string("description: none".to_string(), "p".to_string()) {
        Err(ParsingError::Invalid(t)) => assert_eq!(t, "description: none"),
        other => panic!("unexpected {:?}", other),
    }
    match Adventure::parse_from_string("title: x\nrecord: a;b;c;d".to_string(), "p".to_string()) {
        Err(ParsingError::IncorrectElementCount(_, 3)) => {}
        other => panic!("unexpected {:?}", other),
    }
}

#[test]
fn updating_records_and_names() {
    let mut a = Adventure::parse_from_string(
        "title: T\nrecord: gold; 5\nname: hero; Bob".to_string(),
        "p".to_string(),
    )
    .unwrap();
    a.update_record("gold", Record { name: "silver".to_string(), category: String::new(), value: 2 });
    assert!(a.records.get("gold").is_none());
    assert_eq!(a.records.get("silver").unwrap().value, 2);
    a.update_record("missing", Record { name: "x".to_string(), category: String::new(), value: 0 });
    assert!(a.records.get("x").is_none());
    a.update_name("hero", Name { keyword: "knight".to_string(), value: "Ann".to_string() });
    assert_eq!(a.names.get("knight").unwrap().value, "Ann");
    assert!(a.names.get("hero").is_none());
}

#[test]
fn multi_line_story_reads_back() {
    let text = "title: Cave\nstory: It is dark.\nA drop of water falls.\n   Far away, wind.\nchoice: Leave {result: out}\nresult: out; start".to_string();
    let page = Page::parse_from_string(text).unwrap();
    assert_eq!(page.story, "It is dark.\nA drop of water falls.\n   Far away, wind.");
    let again = Page::parse_from_string(page.serialize_to_string()).unwrap();
    assert_eq!(again.story, page.story);
    assert_eq!(again.title, "Cave");
    assert_eq!(again.choices, page.choices);
    let gap = "title: Cave\nstory: One.\n\nTwo.\nchoice: Leave {result: out}\nresult: out; start".to_string();
    let page = Page::parse_from_string(gap).unwrap();
    assert_eq!(page.story, "One.\n\nTwo.");
    assert_eq!(Page::parse_from_string(page.serialize_to_string()).unwrap().story, "One.\n\nTwo.");
}

#[test]
fn word_characters() {
    assert!(is_word_character('a'));
    assert!(is_word_character('Z'));
    assert!(is_word_character('7'));
    assert!(is_word_character('_'));
    assert!(is_word_character('é'));
    assert!(!is_word_character('}'));
    assert!(!is_word_character(' '));
}
