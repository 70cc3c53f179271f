use adventure_book::adventure::{Choice, Comparison, Condition, Name, Page, ParsingError, Record, StoryResult, Test};
use adventure_book::dict::Dict;
use adventure_book::evaluation::{evaluate_and_compare, evaluate_expression, EvaluationError, Random};
use adventure_book::game::{apply_side_effects, follow_choice, parse_choices, parse_keywords, GameError, StepError};

fn strength_records() -> Dict<Record> {
    let mut records = Dict::<Record>::new();
    records.insert("strength".to_string(), {
        let mut r = Record::parse_from_string("strength".to_string()).unwrap();
        r.value = 4;
        r
    });
    records
}

#[test]
fn evex_dice_regular() {
    let mut rand = Random::new(69420);
    let mut test = Random::new(69420);
    let records = strength_records();
    assert_eq!(test.die(1, 4), evaluate_expression("1d4", &records, &mut rand).unwrap());
}

#[test]
fn evaluate_dice_record_dice() {
    let mut rand = Random::new(69420);
    let mut test = Random::new(69420);
    let records = strength_records();
    assert_eq!(test.die(4, 6), evaluate_expression("[strength]d6", &records, &mut rand).unwrap());
}

#[test]
fn evaluate_dice_record_sides() {
    let mut rand = Random::new(69420);
    let mut test = Random::new(69420);
    let records = strength_records();
    assert_eq!(test.die(6, 4), evaluate_expression("6d[strength]", &records, &mut rand).unwrap());
}

#[test]
fn evaluate_dice_pool() {
    let mut rand = Random::new(69420);
    let mut test = Random::new(69420);
    let records = Dict::<Record>::new();
    assert_eq!(test.pool(2, 6, 4), evaluate_expression("2d6p4", &records, &mut rand).unwrap());
}

#[test]
fn evaluate_dice_pool_reverse() {
    let mut rand = Random::new(69420);
    let mut test = Random::new(69420);
    let records = Dict::<Record>::new();
    assert_eq!(test.pool_reverse(2, 6, 4), evaluate_expression("2d6q4", &records, &mut rand).unwrap());
}

#[test]
fn evaluate_dice_exploding() {
    let mut rand = Random::new(69420);
    let mut test = Random::new(69420);
    let records = Dict::<Record>::new();
    assert_eq!(test.die_explode(2, 6).unwrap(), evaluate_expression("2x6", &records, &mut rand).unwrap());
}

#[test]
fn evaluate_dice_adddition() {
    let mut rand = Random::new(69420);
    let mut test = Random::new(69420);
    let records = Dict::<Record>::new();
    assert_eq!(test.die(1, 10) + 5, evaluate_expression("1d10+5", &records, &mut rand).unwrap());
}

#[test]
fn evaluate_dicedivision() {
    let mut rand = Random::new(69420);
    let mut test = Random::new(69420);
    let records = Dict::<Record>::new();
    assert_eq!(test.die(2, 4) / 2, evaluate_expression("2d4/2", &records, &mut rand).unwrap());
}

#[test]
fn evaluate_dice_multiplication() {
    let mut rand = Random::new(69420);
    let mut test = Random::new(69420);
    let records = Dict::<Record>::new();
    assert_eq!(
        test.die(1, 4) * test.die(1, 4),
        evaluate_expression("1d4*1d4", &records, &mut rand).unwrap()
    );
}

#[test]
fn evaluate_dice_take_less() {
    let mut rand = Random::new(69420);
    let mut test = Random::new(69420);
    let records = Dict::<Record>::new();
    assert_eq!(
        i32::min(test.die(1, 20), test.die(1, 20)),
        evaluate_expression("1d20l1d20", &records, &mut rand).unwrap()
    );
}

#[test]
fn evaluate_dice_take_greater() {
    let mut rand = Random::new(69420);
    let mut test = Random::new(69420);
    let records = Dict::<Record>::new();
    assert_eq!(
        i32::max(test.die(1, 20), test.die(1, 20)),
        evaluate_expression("1d20h1d20", &records, &mut rand).unwrap()
    );
}

#[test]
fn evaluate_dice_long() {
    let mut rand = Random::new(69420);
    let mut test = Random::new(69420);
    let records = Dict::<Record>::new();
    assert_eq!(
        evaluate_expression("1d20+5*2/3-1", &records, &mut rand).unwrap(),
        test.die(1, 20) + 5 * 2 / 3 - 1
    );
}

#[test]
fn evaluate_dice_negative() {
    let mut rand = Random::new(69420);
    let mut test = Random::new(69420);
    let records = Dict::<Record>::new();
    assert_eq!(
        evaluate_expression("1d20*-1", &records, &mut rand).unwrap(),
        test.die(1, 20) * -1
    );
}

#[test]
fn deterministic_random() {
    let mut r = Random::new(1234567890);
    let mut l = Random::new(1234567890);
    assert_eq!(r.die(1, 20), l.die(1, 20));
    assert_eq!(r.die_explode(1, 6), l.die_explode(1, 6));
    assert_eq!(r.pool(4, 10, 6), l.pool(4, 10, 6));
}

#[test]
fn random_die_in_range() {
    let mut r = Random::new(1234567890);
    for _ in 0..100 {
        let v = r.die(1, 20);
        assert!(v >= 1 && v <= 20);
    }
}

#[test]
fn random_die_pool_in_range() {
    let mut r = Random::new(1234567890);
    for _ in 0..100 {
        let v = r.pool(4, 6, 4);
        assert!(v >= 0 && v <= 6);
    }
}

#[test]
fn evaluate_compare() {
    let mut rand = Random::new(69420);
    let mut test = Random::new(69420);
    let records = Dict::<Record>::new();
    for _ in 0..10 {
        let c = evaluate_and_compare("1d20", "1d10", &Comparison::Less, &records, &mut rand).unwrap();
        assert_eq!(c, test.die(1, 20) < test.die(1, 10));
    }
}

#[test]
fn plain_arithmetic() {
    let mut rand = Random::new(1);
    let records = strength_records();
    assert_eq!(evaluate_expression("2+3*4", &records, &mut rand).unwrap(), 14);
    assert_eq!(evaluate_expression("7/2", &records, &mut rand).unwrap(), 3);
    assert_eq!(evaluate_expression("-7/2", &records, &mut rand).unwrap(), -3);
    assert_eq!(evaluate_expression("10-2-3", &records, &mut rand).unwrap(), 5);
    assert_eq!(evaluate_expression("[strength]*2", &records, &mut rand).unwrap(), 8);
    match evaluate_expression("[unknown]+1", &records, &mut rand) {
        Err(EvaluationError::MissingRecord(k)) => assert_eq!(k, "unknown"),
        other => panic!("expected a missing record, got {:?}", other),
    }
    assert_eq!(evaluate_expression("3l5", &records, &mut rand).unwrap(), 3);
    assert_eq!(evaluate_expression("3h5l4", &records, &mut rand).unwrap(), 4);
    assert_eq!(evaluate_expression("42", &records, &mut rand).unwrap(), 42);
}

#[test]
fn evaluation_errors() {
    let mut rand = Random::new(1);
    let records = Dict::<Record>::new();
    assert_eq!(evaluate_expression("1/0", &records, &mut rand), Err(EvaluationError::DivisionByZero));
    assert_eq!(
        evaluate_expression("abc", &records, &mut rand),
        Err(EvaluationError::NotANumber("abc".to_string()))
    );
    assert_eq!(
        evaluate_expression("1d2d3", &records, &mut rand),
        Err(EvaluationError::InvalidDieExpression("1d2d3".to_string()))
    );
    assert_eq!(
        evaluate_expression("1d6p", &records, &mut rand),
        Err(EvaluationError::NotANumber("".to_string()))
    );
    assert_eq!(
        evaluate_expression("1d6p2p3", &records, &mut rand),
        Err(EvaluationError::MissingDicePoolEvaluator("1d6p2p3".to_string()))
    );
    assert_eq!(evaluate_expression("2147483647+1", &records, &mut rand), Err(EvaluationError::Overflow));
    assert_eq!(
        evaluate_expression("[strength", &records, &mut rand),
        Err(EvaluationError::Malformed("[strength".to_string()))
    );
    assert_eq!(evaluate_expression("", &records, &mut rand), Err(EvaluationError::Malformed("".to_string())));
    assert_eq!(
        evaluate_expression("0d6", &records, &mut rand),
        Err(EvaluationError::Malformed("0d6".to_string()))
    );
}

#[test]
fn exploding_dice_total() {
    let mut rand = Random::new(5);
    for _ in 0..20 {
        let v = rand.die_explode(3, 6).unwrap();
        assert!(v >= 3);
    }
}

#[test]
fn story_text_parsing() {
    let story = "You approach castle [castle name] in hopes of finding adventure. With only [gold] gold coins in your pouch, you know you will have to accept any job you will be offered. However, you're sure you will find something good. The name of [name] should be well known in these parts.".to_string();
    let expected = "You approach castle Stonehill in hopes of finding adventure. With only 13 gold coins in your pouch, you know you will have to accept any job you will be offered. However, you're sure you will find something good. The name of Joseph the Adventurer should be well known in these parts.".to_string();

    let mut names = Dict::new();
    let mut records = Dict::new();

    names.insert(
        "castle name".to_string(),
        Name { keyword: "castle name".to_string(), value: "Stonehill".to_string() },
    );
    names.insert(
        "name".to_string(),
        Name { keyword: "name".to_string(), value: "Joseph the Adventurer".to_string() },
    );
    records.insert(
        "gold".to_string(),
        Record { category: String::new(), name: "gold".to_string(), value: 13 },
    );

    let res = parse_keywords(&story, &records, &names).unwrap();
    assert_eq!(res, expected);
}

#[test]
fn missing_keyword() {
    let names = Dict::<Name>::new();
    let records = Dict::<Record>::new();
    match parse_keywords(&"a [ghost] b".to_string(), &records, &names) {
        Err(GameError::ParsingError(ParsingError::MissingRecord(k))) => assert_eq!(k, "ghost"),
        other => panic!("unexpected {:?}", other),
    }
    let res = parse_keywords(&"[not closed and [1 2]".to_string(), &records, &names);
    match res {
        Err(GameError::ParsingError(ParsingError::MissingRecord(k))) => assert_eq!(k, "1 2"),
        other => panic!("unexpected {:?}", other),
    }
    let plain = parse_keywords(&"no [] keywords [ here".to_string(), &records, &names).unwrap();
    assert_eq!(plain, "no [] keywords [ here");
}

#[test]
fn parsing_choices() {
    let choices = vec![Choice {
        text: "Choose".to_string(),
        condition: "con".to_string(),
        result: "res".to_string(),
        test: String::new(),
    }];
    let mut conditions = Dict::new();
    conditions.insert(
        "con".to_string(),
        Condition {
            comparison: Comparison::Equal,
            expression_l: "1".to_string(),
            expression_r: "1".to_string(),
            name: "con".to_string(),
        },
    );
    let names = Dict::new();
    let records = Dict::new();
    let mut rand = Random::new(69420);

    let res = parse_choices(&choices, &conditions, &records, &names, &mut rand).unwrap();
    for r in res {
        assert!(r.0);
        assert_eq!(r.1, "Choose".to_string());
    }
}

#[test]
fn parsing_choices_expression() {
    let choices = vec![Choice {
        text: "Choose".to_string(),
        condition: "con".to_string(),
        result: "res".to_string(),
        test: String::new(),
    }];
    let mut conditions = Dict::new();

    let mut rand = Random::new(69420);
    let lv = rand.die(1, 20);
    let rv = rand.die(1, 4);
    rand = Random::new(69420);
    conditions.insert(
        "con".to_string(),
        Condition {
            comparison: Comparison::Greater,
            expression_l: "1d20".to_string(),
            expression_r: "1d4".to_string(),
            name: "con".to_string(),
        },
    );
    let records = Dict::new();
    let names = Dict::new();

    let res = parse_choices(&choices, &conditions, &records, &names, &mut rand).unwrap();
    for r in res {
        assert_eq!(r.0, lv > rv);
        assert_eq!(r.1, "Choose".to_string());
    }
}

#[test]
fn choices_with_missing_condition() {
    let choices = vec![Choice {
        text: "Choose".to_string(),
        condition: "absent".to_string(),
        result: "res".to_string(),
        test: String::new(),
    }];
    let conditions = Dict::new();
    let records = Dict::new();
    let names = Dict::new();
    let mut rand = Random::new(1);
    match parse_choices(&choices, &conditions, &records, &names, &mut rand) {
        Err(GameError::ConditionNotFound(c)) => assert_eq!(c, "absent"),
        other => panic!("unexpected {:?}", other),
    }
}

fn small_page() -> Page {
    Page::parse_from_string(
        "title: Crossroads
story: Where to?
choice: End it {result: game over}
choice: Walk {result: walk}
choice: Gamble {test: luck}
choice: Fly {result: nowhere}
test: luck; 1; >; 0; walk; walk
result: walk; road; gold; 2; name; ignored"
            .to_string(),
    )
    .unwrap()
}

#[test]
fn following_choices() {
    let page = small_page();
    let records = Dict::<Record>::new();
    let mut rand = Random::new(3);
    assert!(follow_choice(&page, 0, &records, &mut rand).unwrap().is_none());
    assert_eq!(follow_choice(&page, 1, &records, &mut rand).unwrap().unwrap().next_page, "road");
    assert_eq!(follow_choice(&page, 2, &records, &mut rand).unwrap().unwrap().name, "walk");
    match follow_choice(&page, 3, &records, &mut rand) {
        Err(StepError::MissingResult(r, t)) => {
            assert_eq!(r, "nowhere");
            assert_eq!(t, "Crossroads");
        }
        other => panic!("unexpected {:?}", other),
    }
}

#[test]
fn side_effects_change_records() {
    let page = small_page();
    let mut records = Dict::<Record>::new();
    records.insert("gold".to_string(), Record { category: String::new(), name: "gold".to_string(), value: 5 });
    let mut rand = Random::new(3);
    let result: &StoryResult = page.results.get("walk").unwrap();
    let failures = apply_side_effects(&result.side_effects, &mut records, &mut rand);
    assert_eq!(failures, 0);
    assert_eq!(records.get("gold").unwrap().value, 7);
    records.insert("hp".to_string(), Record { category: String::new(), name: "hp".to_string(), value: 3 });
    let mut bad = Dict::new();
    bad.insert("hp".to_string(), "1/0".to_string());
    bad.insert("gold".to_string(), "2147483647".to_string());
    bad.insert("hp".to_string(), "[gold]-1".to_string());
    let failures = apply_side_effects(&bad, &mut records, &mut rand);
    assert_eq!(failures, 1);
    assert_eq!(records.get("gold").unwrap().value, 7);
    assert_eq!(records.get("hp").unwrap().value, 9);
    let test = Test::parse_from_string("t; 1; <; 2; yes; no".to_string()).unwrap();
    assert_eq!(test.evaluate(&records, &mut rand).unwrap(), "yes");
}

#[test]
fn error_messages() {
    assert_eq!(EvaluationError::DivisionByZero.message(), "Division by 0 error");
    assert_eq!(EvaluationError::NotANumber("x".to_string()).message(), "x is not a number");
    assert_eq!(
        EvaluationError::InvalidDieExpression("1dd".to_string()).message(),
        "1dd is not a valid dice expression, use something like 1d6"
    );
    assert_eq!(
        EvaluationError::MissingDicePoolEvaluator("4d6p".to_string()).message(),
        "4d6p is not a valid dice pool expression, use something like 4d6p4"
    );
    assert_eq!(EvaluationError::Overflow.message(), "The value is too large");
    assert_eq!(EvaluationError::MissingRecord("gold".to_string()).message(), "Record gold is not defined");
    assert_eq!(EvaluationError::Malformed("(".to_string()).message(), "( cannot be evaluated");
    assert_eq!(
        ParsingError::IncorrectElementCount("a;b;c;d".to_string(), 3).message(),
        "Incorrect amount of elements in a;b;c;d, expected 3 elements"
    );
    assert_eq!(
        ParsingError::ValueNaN("x; y; z".to_string()).message(),
        "Value is not a number in string x; y; z"
    );
    assert_eq!(ParsingError::Invalid("q".to_string()).message(), "Invalid data: q");
    assert_eq!(
        ParsingError::ElementPairMissing("w".to_string()).message(),
        "Expected element pair missing in w"
    );
    assert_eq!(ParsingError::MissingRecord("gold".to_string()).message(), "Record gold is missing");
    let mut page = Page::default();
    page.title = "Hall".to_string();
    assert_eq!(ParsingError::IncomplatePage(page).message(), "The page is incomplete: Hall");
}
