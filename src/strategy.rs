//! Strategy tables and the decision oracle.

use vstd::prelude::*;
use vstd::string::*;
use crate::text::{decimal, signed_decimal, push_decimal, push_signed_decimal, str_eq};

verus! {

/// The four player actions.
#[derive(Clone, Copy, Debug, PartialEq, Eq, Structural)]
pub enum Action {
    Hit,
    Stand,
    Double,
    Split,
}

/// The action a table code names: "S", "D", "P"; anything else is Hit.
pub open spec fn action_of_code(code: Seq<char>) -> Action {
    if code == "S"@ {
        Action::Stand
    } else if code == "D"@ {
        Action::Double
    } else if code == "P"@ {
        Action::Split
    } else {
        Action::Hit
    }
}

pub open spec fn code_of_action(a: Action) -> Seq<char> {
    match a {
        Action::Hit => seq!['H'],
        Action::Stand => seq!['S'],
        Action::Double => seq!['D'],
        Action::Split => seq!['P'],
    }
}

impl Action {
    pub fn from_code(code: &str) -> (r: Action)
        ensures
            r == action_of_code(code@),
    {
        if str_eq(code, "S") {
            Action::Stand
        } else if str_eq(code, "D") {
            Action::Double
        } else if str_eq(code, "P") {
            Action::Split
        } else {
            Action::Hit
        }
    }

    pub fn as_code(&self) -> (r: &'static str)
        ensures
            r@ == code_of_action(*self),
    {
        proof {
            reveal_strlit("H");
            reveal_strlit("S");
            reveal_strlit("D");
            reveal_strlit("P");
        }
        match self {
            Action::Hit => "H",
            Action::Stand => "S",
            Action::Double => "D",
            Action::Split => "P",
        }
    }
}

/// A loosely typed input value, as decoded from the host's JSON.
pub enum JsonValue {
    Null,
    Str(String),
    Object(Vec<(String, JsonValue)>),
    Other,
}

/// The player hand as the strategy sees it: a splittable pair (by card
/// value, 11 for aces), a soft total, or a hard total.
#[derive(Clone, Copy, Debug, PartialEq, Eq, Structural)]
pub enum HandLabel {
    Pair(u8),
    Soft(u8),
    Hard(u8),
}

/// Symbol of a pair card: "A" for value 11, else the value.
pub open spec fn pair_symbol(v: u8) -> Seq<char> {
    if v == 11 {
        seq!['A']
    } else {
        decimal(v as nat)
    }
}

/// Text of a label: "V,V" for a pair, "S<total>" for soft, "<total>" for hard.
pub open spec fn label_text(l: HandLabel) -> Seq<char> {
    match l {
        HandLabel::Pair(v) => pair_symbol(v) + seq![','] + pair_symbol(v),
        HandLabel::Soft(n) => seq!['S'] + decimal(n as nat),
        HandLabel::Hard(n) => decimal(n as nat),
    }
}

/// Label text without a leading "S": the soft table's row key.
pub open spec fn soft_key(l: HandLabel) -> Seq<char> {
    match l {
        HandLabel::Soft(n) => decimal(n as nat),
        _ => label_text(l),
    }
}

/// Row key in the pair tables: the pair's card value.
pub open spec fn pair_key(l: HandLabel) -> Option<Seq<char>> {
    match l {
        HandLabel::Pair(v) => Some(decimal(v as nat)),
        _ => None,
    }
}

/// Fallback when no table resolves: stand on soft totals, hit hard totals
/// below 17, stand from 17, hit pairs.
pub open spec fn default_action_spec(l: HandLabel) -> Action {
    match l {
        HandLabel::Soft(_) => Action::Stand,
        HandLabel::Hard(n) => if n < 17 { Action::Hit } else { Action::Stand },
        HandLabel::Pair(_) => Action::Hit,
    }
}

/// A resolved Double becomes Hit when doubling is not allowed.
pub open spec fn legal_action(a: Action, can_double: bool) -> Action {
    if a == Action::Double && !can_double { Action::Hit } else { a }
}

pub open spec fn resolve(code: Option<Seq<char>>, can_double: bool) -> Option<Action> {
    match code {
        Some(c) => Some(legal_action(action_of_code(c), can_double)),
        None => None,
    }
}

/// One row: its key and (dealer label, action code) cells.
pub struct StrategyRow {
    pub key: String,
    pub cells: Vec<(String, String)>,
}

/// Rows of player keys; a later row or cell with an equal key replaces an earlier one.
pub struct StrategyTable {
    pub rows: Vec<StrategyRow>,
}

/// Tables keyed by the count bucket's decimal text.
pub struct StrategyCountTable {
    pub tables: Vec<(String, StrategyTable)>,
}

pub open spec fn cells_view(cells: Seq<(String, String)>) -> Seq<(Seq<char>, Seq<char>)> {
    cells.map_values(|c: (String, String)| (c.0@, c.1@))
}

pub open spec fn row_view(r: StrategyRow) -> (Seq<char>, Seq<(Seq<char>, Seq<char>)>) {
    (r.key@, cells_view(r.cells@))
}

pub open spec fn table_view(t: StrategyTable) -> Seq<(Seq<char>, Seq<(Seq<char>, Seq<char>)>)> {
    t.rows@.map_values(|r: StrategyRow| row_view(r))
}

pub open spec fn count_view(c: StrategyCountTable) -> Seq<(Seq<char>, Seq<(Seq<char>, Seq<(Seq<char>, Seq<char>)>)>)> {
    c.tables@.map_values(|e: (String, StrategyTable)| (e.0@, table_view(e.1)))
}

/// Code of the last cell for `dealer`.
pub open spec fn cell_code(cells: Seq<(Seq<char>, Seq<char>)>, dealer: Seq<char>) -> Option<Seq<char>>
    decreases cells.len(),
{
    if cells.len() == 0 {
        None
    } else if cells.last().0 == dealer {
        Some(cells.last().1)
    } else {
        cell_code(cells.drop_last(), dealer)
    }
}

/// Cells of the last row keyed `key`.
pub open spec fn row_cells(
    rows: Seq<(Seq<char>, Seq<(Seq<char>, Seq<char>)>)>,
    key: Seq<char>,
) -> Option<Seq<(Seq<char>, Seq<char>)>>
    decreases rows.len(),
{
    if rows.len() == 0 {
        None
    } else if rows.last().0 == key {
        Some(rows.last().1)
    } else {
        row_cells(rows.drop_last(), key)
    }
}

pub open spec fn table_code(
    rows: Seq<(Seq<char>, Seq<(Seq<char>, Seq<char>)>)>,
    key: Seq<char>,
    dealer: Seq<char>,
) -> Option<Seq<char>> {
    match row_cells(rows, key) {
        Some(cells) => cell_code(cells, dealer),
        None => None,
    }
}

/// The last table for a count key.
pub open spec fn count_entry(
    tables: Seq<(Seq<char>, Seq<(Seq<char>, Seq<(Seq<char>, Seq<char>)>)>)>,
    count_key: Seq<char>,
) -> Option<Seq<(Seq<char>, Seq<(Seq<char>, Seq<char>)>)>>
    decreases tables.len(),
{
    if tables.len() == 0 {
        None
    } else if tables.last().0 == count_key {
        Some(tables.last().1)
    } else {
        count_entry(tables.drop_last(), count_key)
    }
}

pub open spec fn count_code(
    tables: Seq<(Seq<char>, Seq<(Seq<char>, Seq<(Seq<char>, Seq<char>)>)>)>,
    count_key: Seq<char>,
    key: Seq<char>,
    dealer: Seq<char>,
) -> Option<Seq<char>> {
    match count_entry(tables, count_key) {
        Some(t) => table_code(t, key, dealer),
        None => None,
    }
}

/// The strategy: static hard, soft and pair tables, per-count overrides of
/// the same shape, and whether the overrides are consulted.
pub struct Strategy {
    pub count_based: bool,
    pub hard: StrategyTable,
    pub soft: StrategyTable,
    pub pairs: StrategyTable,
    pub hard_by_count: StrategyCountTable,
    pub soft_by_count: StrategyCountTable,
    pub pairs_by_count: StrategyCountTable,
}

/// The count-override lookup: pair table (when splitting), then soft table
/// under the label without its "S", then hard table under the label.
pub open spec fn count_lookup_spec(
    s: Strategy,
    count_key: Seq<char>,
    label: HandLabel,
    pair: Option<Seq<char>>,
    dealer: Seq<char>,
) -> Option<Seq<char>> {
    let from_pairs = match pair {
        Some(k) => count_code(count_view(s.pairs_by_count), count_key, k, dealer),
        None => None,
    };
    if from_pairs is Some {
        from_pairs
    } else {
        let from_soft = count_code(count_view(s.soft_by_count), count_key, soft_key(label), dealer);
        if from_soft is Some {
            from_soft
        } else {
            count_code(count_view(s.hard_by_count), count_key, label_text(label), dealer)
        }
    }
}

/// Static lookup for soft labels first in the soft table, then in the hard
/// table under the underlying total (other labels: under their text).
pub open spec fn soft_or_hard_spec(s: Strategy, label: HandLabel, dealer: Seq<char>) -> Option<Seq<char>> {
    let from_soft = if label is Soft {
        table_code(table_view(s.soft), soft_key(label), dealer)
    } else {
        None
    };
    if from_soft is Some {
        from_soft
    } else {
        table_code(table_view(s.hard), soft_key(label), dealer)
    }
}

/// The code the lookup chain resolves to, if any.
pub open spec fn decided_code(
    s: Strategy,
    label: HandLabel,
    dealer: Seq<char>,
    can_split: bool,
    count: i32,
) -> Option<Seq<char>> {
    let pair = if can_split { pair_key(label) } else { None };
    let counted = if s.count_based && count != 0 {
        count_lookup_spec(s, signed_decimal(count as int), label, pair, dealer)
    } else {
        None
    };
    if counted is Some {
        counted
    } else {
        let from_pairs = match pair {
            Some(k) => table_code(table_view(s.pairs), k, dealer),
            None => None,
        };
        if from_pairs is Some {
            from_pairs
        } else {
            soft_or_hard_spec(s, label, dealer)
        }
    }
}

/// The decision: the resolved code's action (Double downgraded to Hit when
/// doubling is not allowed), or the safety default.
pub open spec fn decide_spec(
    s: Strategy,
    label: HandLabel,
    dealer: Seq<char>,
    can_double: bool,
    can_split: bool,
    count: i32,
) -> Action {
    match decided_code(s, label, dealer, can_split, count) {
        Some(c) => legal_action(action_of_code(c), can_double),
        None => default_action_spec(label),
    }
}

pub fn default_action(label: &HandLabel) -> (r: Action)
    ensures
        r == default_action_spec(*label),
{
    match label {
        HandLabel::Soft(_) => Action::Stand,
        HandLabel::Hard(n) => if *n < 17 { Action::Hit } else { Action::Stand },
        HandLabel::Pair(_) => Action::Hit,
    }
}

fn push_pair_symbol(s: &mut String, v: u8)
    ensures
        final(s)@ == old(s)@ + pair_symbol(v),
{
    if v == 11 {
        proof {
            reveal_strlit("A");
        }
        s.append("A");
    } else {
        push_decimal(s, v as u64);
    }
}

impl HandLabel {
    /// The label's text.
    pub fn text(&self) -> (r: String)
        ensures
            r@ == label_text(*self),
    {
        let mut s = String::new();
        match self {
            HandLabel::Pair(v) => {
                push_pair_symbol(&mut s, *v);
                proof {
                    reveal_strlit(",");
                }
                s.append(",");
                push_pair_symbol(&mut s, *v);
            },
            HandLabel::Soft(n) => {
                proof {
                    reveal_strlit("S");
                }
                s.append("S");
                push_decimal(&mut s, *n as u64);
            },
            HandLabel::Hard(n) => {
                push_decimal(&mut s, *n as u64);
            },
        }
        assert(s@ =~= label_text(*self));
        s
    }
}

/// Row key in the soft tables: the label without a leading "S".
pub fn soft_table_key(label: &HandLabel) -> (r: String)
    ensures
        r@ == soft_key(*label),
{
    match label {
        HandLabel::Soft(n) => {
            let mut s = String::new();
            push_decimal(&mut s, *n as u64);
            assert(s@ =~= soft_key(*label));
            s
        },
        _ => label.text(),
    }
}

/// Row key in the pair tables, for a pair label.
pub fn pair_key_from_label(label: &HandLabel) -> (r: Option<String>)
    ensures
        match r {
            Some(k) => pair_key(*label) == Some(k@),
            None => pair_key(*label) is None,
        },
{
    match label {
        HandLabel::Pair(v) => {
            let mut s = String::new();
            push_decimal(&mut s, *v as u64);
            assert(s@ =~= decimal(*v as nat));
            Some(s)
        },
        _ => None,
    }
}

fn find_cell(cells: &Vec<(String, String)>, dealer: &str) -> (r: Option<usize>)
    ensures
        match r {
            Some(i) => i < cells@.len() && cell_code(cells_view(cells@), dealer@) == Some(cells@[i as int].1@),
            None => cell_code(cells_view(cells@), dealer@) is None,
        },
{
    let ghost v = cells_view(cells@);
    let mut i: usize = cells.len();
    assert(v.subrange(0, i as int) =~= v);
    while i > 0
        invariant
            i <= cells@.len(),
            v == cells_view(cells@),
            cell_code(v, dealer@) == cell_code(v.subrange(0, i as int), dealer@),
        decreases i,
    {
        i = i - 1;
        let ghost sub = v.subrange(0, i as int + 1);
        assert(sub.drop_last() =~= v.subrange(0, i as int));
        assert(sub.last() == v[i as int]);
        if str_eq(cells[i].0.as_str(), dealer) {
            return Some(i);
        }
    }
    None
}

fn find_row(rows: &Vec<StrategyRow>, key: &str) -> (r: Option<usize>)
    ensures
        match r {
            Some(i) => i < rows@.len()
                && row_cells(rows@.map_values(|r: StrategyRow| row_view(r)), key@)
                    == Some(cells_view(rows@[i as int].cells@)),
            None => row_cells(rows@.map_values(|r: StrategyRow| row_view(r)), key@) is None,
        },
{
    let ghost v = rows@.map_values(|r: StrategyRow| row_view(r));
    let mut i: usize = rows.len();
    assert(v.subrange(0, i as int) =~= v);
    while i > 0
        invariant
            i <= rows@.len(),
            v == rows@.map_values(|r: StrategyRow| row_view(r)),
            row_cells(v, key@) == row_cells(v.subrange(0, i as int), key@),
        decreases i,
    {
        i = i - 1;
        let ghost sub = v.subrange(0, i as int + 1);
        assert(sub.drop_last() =~= v.subrange(0, i as int));
        assert(sub.last() == v[i as int]);
        if str_eq(rows[i].key.as_str(), key) {
            return Some(i);
        }
    }
    None
}

fn find_count_table(tables: &Vec<(String, StrategyTable)>, count_key: &str) -> (r: Option<usize>)
    ensures
        match r {
            Some(i) => i < tables@.len()
                && count_entry(
                    tables@.map_values(|e: (String, StrategyTable)| (e.0@, table_view(e.1))),
                    count_key@,
                ) == Some(table_view(tables@[i as int].1)),
            None => count_entry(
                tables@.map_values(|e: (String, StrategyTable)| (e.0@, table_view(e.1))),
                count_key@,
            ) is None,
        },
{
    let ghost v = tables@.map_values(|e: (String, StrategyTable)| (e.0@, table_view(e.1)));
    let mut i: usize = tables.len();
    assert(v.subrange(0, i as int) =~= v);
    while i > 0
        invariant
            i <= tables@.len(),
            v == tables@.map_values(|e: (String, StrategyTable)| (e.0@, table_view(e.1))),
            count_entry(v, count_key@) == count_entry(v.subrange(0, i as int), count_key@),
        decreases i,
    {
        i = i - 1;
        let ghost sub = v.subrange(0, i as int + 1);
        assert(sub.drop_last() =~= v.subrange(0, i as int));
        assert(sub.last() == v[i as int]);
        if str_eq(tables[i].0.as_str(), count_key) {
            return Some(i);
        }
    }
    None
}

/// The action a table gives for (row key, dealer label), Double downgraded
/// to Hit when doubling is not allowed.
pub fn lookup_action_map(table: &StrategyTable, key: &str, dealer: &str, can_double: bool) -> (r: Option<Action>)
    ensures
        r == resolve(table_code(table_view(*table), key@, dealer@), can_double),
{
    match find_row(&table.rows, key) {
        None => None,
        Some(i) => match find_cell(&table.rows[i].cells, dealer) {
            None => None,
            Some(j) => {
                let a = Action::from_code(table.rows[i].cells[j].1.as_str());
                if a == Action::Double && !can_double {
                    Some(Action::Hit)
                } else {
                    Some(a)
                }
            },
        },
    }
}

/// The action the count bucket's table gives for (row key, dealer label).
pub fn lookup_action(
    count_table: &StrategyCountTable,
    count_key: &str,
    label: &str,
    dealer: &str,
    can_double: bool,
) -> (r: Option<Action>)
    ensures
        r == resolve(count_code(count_view(*count_table), count_key@, label@, dealer@), can_double),
{
    match find_count_table(&count_table.tables, count_key) {
        None => None,
        Some(i) => lookup_action_map(&count_table.tables[i].1, label, dealer, can_double),
    }
}


/// Strategy tables as decoded from the host's input; absent override
/// tables are `Null`.
pub struct StrategyInput {
    pub count_based: Option<bool>,
    pub hard: JsonValue,
    pub soft: JsonValue,
    pub pairs: JsonValue,
    pub hard_by_count: JsonValue,
    pub soft_by_count: JsonValue,
    pub pairs_by_count: JsonValue,
}

/// The string-valued cells of a row object, in order; other values are skipped.
pub open spec fn string_cells(entries: Seq<(String, JsonValue)>) -> Seq<(Seq<char>, Seq<char>)>
    decreases entries.len(),
{
    if entries.len() == 0 {
        Seq::empty()
    } else {
        let prev = string_cells(entries.drop_last());
        match entries.last().1 {
            JsonValue::Str(code) => prev.push((entries.last().0@, code@)),
            _ => prev,
        }
    }
}

/// Rows of a table object; the first entry that is not an object is an error.
pub open spec fn rows_spec(entries: Seq<(String, JsonValue)>) -> Result<
    Seq<(Seq<char>, Seq<(Seq<char>, Seq<char>)>)>,
    Seq<char>,
>
    decreases entries.len(),
{
    if entries.len() == 0 {
        Ok(Seq::empty())
    } else {
        match rows_spec(entries.drop_last()) {
            Err(e) => Err(e),
            Ok(rows) => match entries.last().1 {
                JsonValue::Object(cells) => Ok(rows.push((entries.last().0@, string_cells(cells@)))),
                _ => Err("strategy row must be an object"@),
            },
        }
    }
}

/// A table read from an input value: it must be an object of row objects.
pub open spec fn table_spec(v: JsonValue) -> Result<Seq<(Seq<char>, Seq<(Seq<char>, Seq<char>)>)>, Seq<char>> {
    match v {
        JsonValue::Object(entries) => rows_spec(entries@),
        _ => Err("strategy table must be an object"@),
    }
}

pub open spec fn count_rows_spec(entries: Seq<(String, JsonValue)>) -> Result<
    Seq<(Seq<char>, Seq<(Seq<char>, Seq<(Seq<char>, Seq<char>)>)>)>,
    Seq<char>,
>
    decreases entries.len(),
{
    if entries.len() == 0 {
        Ok(Seq::empty())
    } else {
        match count_rows_spec(entries.drop_last()) {
            Err(e) => Err(e),
            Ok(tables) => match table_spec(entries.last().1) {
                Err(e) => Err(e),
                Ok(t) => Ok(tables.push((entries.last().0@, t))),
            },
        }
    }
}

/// A count table read from an input value: null is empty, else an object
/// of tables keyed by count.
pub open spec fn count_table_spec(v: JsonValue) -> Result<
    Seq<(Seq<char>, Seq<(Seq<char>, Seq<(Seq<char>, Seq<char>)>)>)>,
    Seq<char>,
> {
    match v {
        JsonValue::Null => Ok(Seq::empty()),
        JsonValue::Object(entries) => count_rows_spec(entries@),
        _ => Err("count table must be an object"@),
    }
}

pub open spec fn err_of<T>(r: Result<T, Seq<char>>) -> Option<Seq<char>> {
    match r {
        Ok(_) => None,
        Err(e) => Some(e),
    }
}

/// The first error among the tables, read in the order hard, soft, pairs,
/// hard by count, soft by count, pairs by count.
pub open spec fn input_error(input: StrategyInput) -> Option<Seq<char>> {
    if table_spec(input.hard) is Err {
        err_of(table_spec(input.hard))
    } else if table_spec(input.soft) is Err {
        err_of(table_spec(input.soft))
    } else if table_spec(input.pairs) is Err {
        err_of(table_spec(input.pairs))
    } else if count_table_spec(input.hard_by_count) is Err {
        err_of(count_table_spec(input.hard_by_count))
    } else if count_table_spec(input.soft_by_count) is Err {
        err_of(count_table_spec(input.soft_by_count))
    } else if count_table_spec(input.pairs_by_count) is Err {
        err_of(count_table_spec(input.pairs_by_count))
    } else {
        None
    }
}

fn string_err(msg: &str) -> (r: String)
    ensures
        r@ == msg@,
{
    String::from_str(msg)
}

proof fn lemma_rows_error_persists(entries: Seq<(String, JsonValue)>, k: int)
    requires
        0 <= k <= entries.len(),
        rows_spec(entries.subrange(0, k)) is Err,
    ensures
        rows_spec(entries) == rows_spec(entries.subrange(0, k)),
    decreases entries.len() - k,
{
    if k < entries.len() {
        let sub = entries.subrange(0, k + 1);
        assert(sub.drop_last() =~= entries.subrange(0, k));
        lemma_rows_error_persists(entries, k + 1);
    } else {
        assert(entries.subrange(0, k) =~= entries);
    }
}

proof fn lemma_count_rows_error_persists(entries: Seq<(String, JsonValue)>, k: int)
    requires
        0 <= k <= entries.len(),
        count_rows_spec(entries.subrange(0, k)) is Err,
    ensures
        count_rows_spec(entries) == count_rows_spec(entries.subrange(0, k)),
    decreases entries.len() - k,
{
    if k < entries.len() {
        let sub = entries.subrange(0, k + 1);
        assert(sub.drop_last() =~= entries.subrange(0, k));
        lemma_count_rows_error_persists(entries, k + 1);
    } else {
        assert(entries.subrange(0, k) =~= entries);
    }
}

/// Reads a table: an object whose values are row objects of action codes.
pub fn value_to_table(value: &JsonValue) -> (r: Result<StrategyTable, String>)
    ensures
        match r {
            Ok(t) => table_spec(*value) == Ok::<_, Seq<char>>(table_view(t)),
            Err(e) => table_spec(*value) == Err::<Seq<(Seq<char>, Seq<(Seq<char>, Seq<char>)>)>, _>(e@),
        },
{
    let entries = match value {
        JsonValue::Object(entries) => entries,
        _ => {
            return Err(string_err("strategy table must be an object"));
        },
    };
    let mut rows: Vec<StrategyRow> = Vec::new();
    let mut i: usize = 0;
    assert(entries@.subrange(0, 0) =~= Seq::<(String, JsonValue)>::empty());
    assert(rows@.map_values(|r: StrategyRow| row_view(r)) =~= Seq::empty());
    while i < entries.len()
        invariant
            i <= entries@.len(),
            table_spec(*value) == rows_spec(entries@),
            rows_spec(entries@.subrange(0, i as int)) == Ok::<_, Seq<char>>(
                rows@.map_values(|r: StrategyRow| row_view(r)),
            ),
        decreases entries@.len() - i,
    {
        proof {
            let sub = entries@.subrange(0, i as int + 1);
            assert(sub.drop_last() =~= entries@.subrange(0, i as int));
        }
        let row_entries = match &entries[i].1 {
            JsonValue::Object(cells) => cells,
            _ => {
                proof {
                    let sub = entries@.subrange(0, i as int + 1);
                    assert(sub.last() == entries@[i as int]);
                    assert(rows_spec(sub) == Err::<Seq<(Seq<char>, Seq<(Seq<char>, Seq<char>)>)>, _>("strategy row must be an object"@));
                    lemma_rows_error_persists(entries@, i as int + 1);
                }
                return Err(string_err("strategy row must be an object"));
            },
        };
        let mut cells: Vec<(String, String)> = Vec::new();
        let mut j: usize = 0;
        while j < row_entries.len()
            invariant
                j <= row_entries@.len(),
                string_cells(row_entries@.subrange(0, j as int)) == cells_view(cells@),
            decreases row_entries@.len() - j,
        {
            proof {
                let sub = row_entries@.subrange(0, j as int + 1);
                assert(sub.drop_last() =~= row_entries@.subrange(0, j as int));
            }
            match &row_entries[j].1 {
                JsonValue::Str(code) => {
                    cells.push((row_entries[j].0.clone(), code.clone()));
                    assert(cells_view(cells@) =~= string_cells(row_entries@.subrange(0, j as int + 1)));
                },
                _ => {},
            }
            j = j + 1;
        }
        assert(row_entries@.subrange(0, row_entries@.len() as int) =~= row_entries@);
        rows.push(StrategyRow { key: entries[i].0.clone(), cells });
        assert(rows@.map_values(|r: StrategyRow| row_view(r)) =~= rows_spec(
            entries@.subrange(0, i as int + 1),
        )->Ok_0);
        i = i + 1;
    }
    assert(entries@.subrange(0, entries@.len() as int) =~= entries@);
    Ok(StrategyTable { rows })
}

/// Reads a count table: null gives an empty one, else an object of tables.
pub fn value_to_count_table(value: &JsonValue) -> (r: Result<StrategyCountTable, String>)
    ensures
        match r {
            Ok(t) => count_table_spec(*value) == Ok::<_, Seq<char>>(count_view(t)),
            Err(e) => count_table_spec(*value) == Err::<Seq<(Seq<char>, Seq<(Seq<char>, Seq<(Seq<char>, Seq<char>)>)>)>, _>(e@),
        },
{
    let entries = match value {
        JsonValue::Null => {
            let empty = StrategyCountTable { tables: Vec::new() };
            assert(count_view(empty) =~= Seq::empty());
            return Ok(empty);
        },
        JsonValue::Object(entries) => entries,
        _ => {
            return Err(string_err("count table must be an object"));
        },
    };
    let mut tables: Vec<(String, StrategyTable)> = Vec::new();
    let mut i: usize = 0;
    assert(entries@.subrange(0, 0) =~= Seq::<(String, JsonValue)>::empty());
    assert(tables@.map_values(|e: (String, StrategyTable)| (e.0@, table_view(e.1))) =~= Seq::empty());
    while i < entries.len()
        invariant
            i <= entries@.len(),
            count_table_spec(*value) == count_rows_spec(entries@),
            count_rows_spec(entries@.subrange(0, i as int)) == Ok::<_, Seq<char>>(
                tables@.map_values(|e: (String, StrategyTable)| (e.0@, table_view(e.1))),
            ),
        decreases entries@.len() - i,
    {
        proof {
            let sub = entries@.subrange(0, i as int + 1);
            assert(sub.drop_last() =~= entries@.subrange(0, i as int));
        }
        let t = match value_to_table(&entries[i].1) {
            Ok(t) => t,
            Err(e) => {
                proof {
                    let sub = entries@.subrange(0, i as int + 1);
                    assert(sub.last() == entries@[i as int]);
                    assert(count_rows_spec(sub) == Err::<Seq<(Seq<char>, Seq<(Seq<char>, Seq<(Seq<char>, Seq<char>)>)>)>, _>(e@));
                    lemma_count_rows_error_persists(entries@, i as int + 1);
                }
                return Err(e);
            },
        };
        tables.push((entries[i].0.clone(), t));
        assert(tables@.map_values(|e: (String, StrategyTable)| (e.0@, table_view(e.1))) =~= count_rows_spec(
            entries@.subrange(0, i as int + 1),
        )->Ok_0);
        i = i + 1;
    }
    assert(entries@.subrange(0, entries@.len() as int) =~= entries@);
    Ok(StrategyCountTable { tables })
}

impl Strategy {
    /// Builds the strategy, failing with the first malformed table's message.
    pub fn from_input(input: StrategyInput) -> (r: Result<Strategy, String>)
        ensures
            match r {
                Ok(s) => {
                    &&& input_error(input) is None
                    &&& s.count_based == (match input.count_based { Some(b) => b, None => false })
                    &&& table_spec(input.hard) == Ok::<_, Seq<char>>(table_view(s.hard))
                    &&& table_spec(input.soft) == Ok::<_, Seq<char>>(table_view(s.soft))
                    &&& table_spec(input.pairs) == Ok::<_, Seq<char>>(table_view(s.pairs))
                    &&& count_table_spec(input.hard_by_count) == Ok::<_, Seq<char>>(count_view(s.hard_by_count))
                    &&& count_table_spec(input.soft_by_count) == Ok::<_, Seq<char>>(count_view(s.soft_by_count))
                    &&& count_table_spec(input.pairs_by_count) == Ok::<_, Seq<char>>(count_view(s.pairs_by_count))
                },
                Err(e) => input_error(input) == Some(e@),
            },
    {
        let hard = match value_to_table(&input.hard) {
            Ok(t) => t,
            Err(e) => { return Err(e); },
        };
        let soft = match value_to_table(&input.soft) {
            Ok(t) => t,
            Err(e) => { return Err(e); },
        };
        let pairs = match value_to_table(&input.pairs) {
            Ok(t) => t,
            Err(e) => { return Err(e); },
        };
        let hard_by_count = match value_to_count_table(&input.hard_by_count) {
            Ok(t) => t,
            Err(e) => { return Err(e); },
        };
        let soft_by_count = match value_to_count_table(&input.soft_by_count) {
            Ok(t) => t,
            Err(e) => { return Err(e); },
        };
        let pairs_by_count = match value_to_count_table(&input.pairs_by_count) {
            Ok(t) => t,
            Err(e) => { return Err(e); },
        };
        let count_based = match input.count_based {
            Some(b) => b,
            None => false,
        };
        Ok(Strategy { count_based, hard, soft, pairs, hard_by_count, soft_by_count, pairs_by_count })
    }

    /// The action for a hand label against a dealer label, given whether
    /// doubling and splitting are allowed and the count bucket.
    pub fn decide_action(
        &self,
        player_label: &HandLabel,
        dealer: &str,
        can_double: bool,
        can_split: bool,
        count: i32,
    ) -> (r: Action)
        ensures
            r == decide_spec(*self, *player_label, dealer@, can_double, can_split, count),
    {
        let pair_key = if can_split { pair_key_from_label(player_label) } else { None };
        if self.count_based && count != 0 {
            let mut count_key = String::new();
            push_signed_decimal(&mut count_key, count as i64);
            assert(count_key@ =~= signed_decimal(count as int));
            let counted = self.lookup_count_action(count_key.as_str(), player_label, &pair_key, dealer, can_double);
            if let Some(action) = counted {
                return action;
            }
        }
        match &pair_key {
            Some(key) => {
                if let Some(action) = self.lookup_pair(key.as_str(), dealer, can_double) {
                    return action;
                }
            },
            None => {},
        }
        match self.lookup_soft_or_hard(player_label, dealer, can_double) {
            Some(action) => action,
            None => default_action(player_label),
        }
    }

    fn lookup_count_action(
        &self,
        count_key: &str,
        label: &HandLabel,
        pair_key: &Option<String>,
        dealer: &str,
        can_double: bool,
    ) -> (r: Option<Action>)
        ensures
            r == resolve(
                count_lookup_spec(
                    *self,
                    count_key@,
                    *label,
                    match *pair_key { Some(k) => Some(k@), None => None },
                    dealer@,
                ),
                can_double,
            ),
    {
        match pair_key {
            Some(key) => {
                let a = lookup_action(&self.pairs_by_count, count_key, key.as_str(), dealer, can_double);
                if a.is_some() {
                    return a;
                }
            },
            None => {},
        }
        let soft = soft_table_key(label);
        let a = lookup_action(&self.soft_by_count, count_key, soft.as_str(), dealer, can_double);
        if a.is_some() {
            return a;
        }
        let text = label.text();
        lookup_action(&self.hard_by_count, count_key, text.as_str(), dealer, can_double)
    }

    fn lookup_pair(&self, key: &str, dealer: &str, can_double: bool) -> (r: Option<Action>)
        ensures
            r == resolve(table_code(table_view(self.pairs), key@, dealer@), can_double),
    {
        lookup_action_map(&self.pairs, key, dealer, can_double)
    }

    fn lookup_soft_or_hard(&self, label: &HandLabel, dealer: &str, can_double: bool) -> (r: Option<Action>)
        ensures
            r == resolve(soft_or_hard_spec(*self, *label, dealer@), can_double),
    {
        if let HandLabel::Soft(_) = label {
            let key = soft_table_key(label);
            let soft_result = lookup_action_map(&self.soft, key.as_str(), dealer, can_double);
            if soft_result.is_some() {
                return soft_result;
            }
        }
        let key = soft_table_key(label);
        lookup_action_map(&self.hard, key.as_str(), dealer, can_double)
    }
}

} // verus!
