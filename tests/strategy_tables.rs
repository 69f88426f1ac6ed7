use blackjack_core::strategy::{
    default_action, value_to_count_table, value_to_table, Action, HandLabel, JsonValue, Strategy,
    StrategyInput,
};

fn s(v: &str) -> JsonValue {
    JsonValue::Str(v.to_string())
}

fn obj(entries: Vec<(&str, JsonValue)>) -> JsonValue {
    JsonValue::Object(entries.into_iter().map(|(k, v)| (k.to_string(), v)).collect())
}

fn row(cells: &[(&str, &str)]) -> JsonValue {
    obj(cells.iter().map(|(d, a)| (*d, s(a))).collect())
}

fn input(hard: JsonValue, soft: JsonValue, pairs: JsonValue) -> StrategyInput {
    StrategyInput {
        count_based: None,
        hard,
        soft,
        pairs,
        hard_by_count: JsonValue::Null,
        soft_by_count: JsonValue::Null,
        pairs_by_count: JsonValue::Null,
    }
}

fn err_of(r: Result<Strategy, String>) -> String {
    match r {
        Ok(_) => panic!("expected an error"),
        Err(e) => e,
    }
}

#[test]
fn action_codes() {
    assert_eq!(Action::from_code("S"), Action::Stand);
    assert_eq!(Action::from_code("D"), Action::Double);
    assert_eq!(Action::from_code("P"), Action::Split);
    assert_eq!(Action::from_code("H"), Action::Hit);
    assert_eq!(Action::from_code("Z"), Action::Hit);
    assert_eq!(Action::Hit.as_code(), "H");
    assert_eq!(Action::Stand.as_code(), "S");
    assert_eq!(Action::Double.as_code(), "D");
    assert_eq!(Action::Split.as_code(), "P");
}

#[test]
fn label_texts() {
    assert_eq!(HandLabel::Pair(11).text(), "A,A");
    assert_eq!(HandLabel::Pair(8).text(), "8,8");
    assert_eq!(HandLabel::Pair(10).text(), "10,10");
    assert_eq!(HandLabel::Soft(17).text(), "S17");
    assert_eq!(HandLabel::Hard(12).text(), "12");
}

#[test]
fn safety_defaults() {
    assert_eq!(default_action(&HandLabel::Soft(13)), Action::Stand);
    assert_eq!(default_action(&HandLabel::Hard(16)), Action::Hit);
    assert_eq!(default_action(&HandLabel::Hard(17)), Action::Stand);
    assert_eq!(default_action(&HandLabel::Pair(8)), Action::Hit);
    let empty = Strategy::from_input(input(obj(vec![]), obj(vec![]), obj(vec![]))).ok().unwrap();
    assert_eq!(empty.decide_action(&HandLabel::Hard(12), "6", true, false, 0), Action::Hit);
    assert_eq!(empty.decide_action(&HandLabel::Soft(15), "6", true, false, 0), Action::Stand);
    assert_eq!(empty.decide_action(&HandLabel::Pair(11), "6", true, true, 0), Action::Hit);
}

#[test]
fn static_lookups_and_double_downgrade() {
    let hard = obj(vec![("11", row(&[("6", "D"), ("A", "H")])), ("16", row(&[("10", "S")]))]);
    let soft = obj(vec![("18", row(&[("6", "D"), ("9", "H")]))]);
    let pairs = obj(vec![("8", row(&[("6", "P")])), ("11", row(&[("6", "P")]))]);
    let st = Strategy::from_input(input(hard, soft, pairs)).ok().unwrap();
    assert_eq!(st.decide_action(&HandLabel::Hard(11), "6", true, false, 0), Action::Double);
    assert_eq!(st.decide_action(&HandLabel::Hard(11), "6", false, false, 0), Action::Hit);
    assert_eq!(st.decide_action(&HandLabel::Hard(16), "10", true, false, 0), Action::Stand);
    assert_eq!(st.decide_action(&HandLabel::Soft(18), "6", true, false, 0), Action::Double);
    assert_eq!(st.decide_action(&HandLabel::Soft(18), "6", false, false, 0), Action::Hit);
    // a soft label missing from the soft table falls back to the hard row of
    // its total, then to the default
    assert_eq!(st.decide_action(&HandLabel::Soft(11), "6", true, false, 0), Action::Double);
    assert_eq!(st.decide_action(&HandLabel::Soft(11), "A", true, false, 0), Action::Hit);
    assert_eq!(st.decide_action(&HandLabel::Soft(16), "6", true, false, 0), Action::Stand);
    // pairs are keyed by card value; aces by 11
    assert_eq!(st.decide_action(&HandLabel::Pair(8), "6", true, true, 0), Action::Split);
    assert_eq!(st.decide_action(&HandLabel::Pair(11), "6", true, true, 0), Action::Split);
    // without splitting the pair table is skipped
    assert_eq!(st.decide_action(&HandLabel::Pair(8), "6", true, false, 0), Action::Hit);
}

#[test]
fn count_tables_override_when_enabled() {
    let hard = obj(vec![("16", row(&[("10", "H")]))]);
    let by_count = obj(vec![("2", obj(vec![("16", row(&[("10", "S")]))])), ("-1", obj(vec![("16", row(&[("10", "D")]))]))]);
    let mut inp = input(hard, obj(vec![]), obj(vec![]));
    inp.count_based = Some(true);
    inp.hard_by_count = by_count;
    let st = Strategy::from_input(inp).ok().unwrap();
    assert_eq!(st.decide_action(&HandLabel::Hard(16), "10", true, false, 2), Action::Stand);
    assert_eq!(st.decide_action(&HandLabel::Hard(16), "10", false, false, -1), Action::Hit);
    assert_eq!(st.decide_action(&HandLabel::Hard(16), "10", true, false, -1), Action::Double);
    assert_eq!(st.decide_action(&HandLabel::Hard(16), "10", true, false, 1), Action::Hit);
    assert_eq!(st.decide_action(&HandLabel::Hard(16), "10", true, false, 0), Action::Hit);
}

#[test]
fn count_tables_ignored_when_disabled() {
    let hard = obj(vec![("16", row(&[("10", "H")]))]);
    let by_count = obj(vec![("2", obj(vec![("16", row(&[("10", "S")]))]))]);
    let mut inp = input(hard, obj(vec![]), obj(vec![]));
    inp.hard_by_count = by_count;
    let st = Strategy::from_input(inp).ok().unwrap();
    assert_eq!(st.decide_action(&HandLabel::Hard(16), "10", true, false, 2), Action::Hit);
}

#[test]
fn later_rows_replace_earlier_ones() {
    let hard = obj(vec![("12", row(&[("4", "H")])), ("12", row(&[("4", "S")]))]);
    let st = Strategy::from_input(input(hard, obj(vec![]), obj(vec![]))).ok().unwrap();
    assert_eq!(st.decide_action(&HandLabel::Hard(12), "4", true, false, 0), Action::Stand);
}

#[test]
fn non_string_cells_are_skipped() {
    let hard = obj(vec![("12", obj(vec![("4", JsonValue::Other), ("5", s("S"))]))]);
    let st = Strategy::from_input(input(hard, obj(vec![]), obj(vec![]))).ok().unwrap();
    assert_eq!(st.decide_action(&HandLabel::Hard(12), "4", true, false, 0), Action::Hit);
    assert_eq!(st.decide_action(&HandLabel::Hard(12), "5", true, false, 0), Action::Stand);
}

#[test]
fn malformed_tables_are_refused() {
    let e = err_of(Strategy::from_input(input(s("x"), obj(vec![]), obj(vec![]))));
    assert_eq!(e, "strategy table must be an object");
    let e = err_of(Strategy::from_input(input(obj(vec![("12", s("H"))]), obj(vec![]), obj(vec![]))));
    assert_eq!(e, "strategy row must be an object");
    let mut inp = input(obj(vec![]), obj(vec![]), obj(vec![]));
    inp.soft_by_count = s("x");
    assert_eq!(err_of(Strategy::from_input(inp)), "count table must be an object");
    let mut inp = input(obj(vec![]), obj(vec![]), obj(vec![]));
    inp.pairs_by_count = obj(vec![("1", JsonValue::Null)]);
    assert_eq!(err_of(Strategy::from_input(inp)), "strategy table must be an object");
    // the first malformed table in order decides the message
    let e = err_of(Strategy::from_input(input(obj(vec![("12", s("H"))]), s("x"), obj(vec![]))));
    assert_eq!(e, "strategy row must be an object");
}

#[test]
fn table_readers() {
    assert!(value_to_count_table(&JsonValue::Null).is_ok());
    assert!(value_to_count_table(&JsonValue::Other).is_err());
    assert!(value_to_table(&JsonValue::Null).is_err());
    let t = value_to_table(&obj(vec![("9", row(&[("3", "D"), ("7", "H")]))])).ok().unwrap();
    assert_eq!(t.rows.len(), 1);
    assert_eq!(t.rows[0].cells.len(), 2);
}
