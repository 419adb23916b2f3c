//! Transformer rules: which column of which table gets which transformer.
//!
//! A rule set is valid where every rule names a known column, no two rules
//! name the same column, and every transformer's settings make sense. Rules
//! are validated once, before any row is read.

use crate::error::ConfigError;
use crate::row::{column_names, Column, Row, RowModel};
use crate::transformer::{
    alters, lemma_transformed_differs, lemma_transformed_same, lemma_transformed_shape,
    same_transformer, transform, transformed, well_shaped, Transformer,
};
use crate::wire::{bytes_eq, bytes_of, views};
use vstd::prelude::*;

verus! {

/// One rule: the values of `column` in `table` go through `transformer`.
#[derive(Clone, Debug, PartialEq, Eq)]
pub struct Rule {
    pub table: Vec<u8>,
    pub column: Vec<u8>,
    pub transformer: Transformer,
}

/// The columns of one table of the source.
#[derive(Clone, Debug, PartialEq, Eq)]
pub struct TableSchema {
    pub name: Vec<u8>,
    pub columns: Vec<Vec<u8>>,
}

/// A `TableSchema` as contracts see it.
pub struct TableSchemaModel {
    pub name: Seq<u8>,
    pub columns: Seq<Seq<u8>>,
}

impl View for TableSchema {
    type V = TableSchemaModel;

    open spec fn view(&self) -> TableSchemaModel {
        TableSchemaModel { name: self.name@, columns: views(self.columns@) }
    }
}

/// The schemas held by a vector of them.
pub open spec fn schema_models(schema: Seq<TableSchema>) -> Seq<TableSchemaModel> {
    Seq::new(schema.len(), |i: int| schema[i]@)
}

/// Whether `rule` is about `column` of `table`.
pub open spec fn targets(rule: Rule, table: Seq<u8>, column: Seq<u8>) -> bool {
    rule.table@ == table && rule.column@ == column
}

/// Whether the schema has a table `table` with a column `column`.
pub open spec fn known(schema: Seq<TableSchemaModel>, table: Seq<u8>, column: Seq<u8>) -> bool {
    exists|t: int, c: int|
        0 <= t < schema.len() && 0 <= c < schema[t].columns.len() && schema[t].name == table
            && #[trigger] schema[t].columns[c] == column
}

/// The index of the first of the first `n` rules that targets the column.
pub open spec fn first_rule(rules: Seq<Rule>, table: Seq<u8>, column: Seq<u8>, n: int) -> Option<
    int,
>
    decreases n,
{
    if n <= 0 {
        None
    } else {
        match first_rule(rules, table, column, n - 1) {
            Some(j) => Some(j),
            None => if targets(rules[n - 1], table, column) {
                Some(n - 1)
            } else {
                None
            },
        }
    }
}

/// What is wrong with rule `i`, given the rules before it.
pub open spec fn rule_fault(rules: Seq<Rule>, schema: Seq<TableSchemaModel>, i: int) -> Option<
    ConfigError,
> {
    if !rules[i].transformer.valid() {
        Some(ConfigError::InvalidTransformer { rule: i as usize })
    } else if !known(schema, rules[i].table@, rules[i].column@) {
        Some(ConfigError::UnknownColumn { rule: i as usize })
    } else {
        match first_rule(rules, rules[i].table@, rules[i].column@, i) {
            Some(j) => Some(ConfigError::ConflictingRule { first: j as usize, second: i as usize }),
            None => None,
        }
    }
}

/// The fault of the first faulty rule among the first `n`.
pub open spec fn first_fault(rules: Seq<Rule>, schema: Seq<TableSchemaModel>, n: int) -> Option<
    ConfigError,
>
    decreases n,
{
    if n <= 0 {
        None
    } else {
        match first_fault(rules, schema, n - 1) {
            Some(e) => Some(e),
            None => rule_fault(rules, schema, n - 1),
        }
    }
}

/// Every rule is sound and names a known column, and no two rules name the
/// same column.
pub open spec fn rules_valid(rules: Seq<Rule>, schema: Seq<TableSchemaModel>) -> bool {
    &&& forall|i: int| 0 <= i < rules.len() ==> (#[trigger] rules[i]).transformer.valid()
    &&& forall|i: int|
        0 <= i < rules.len() ==> known(schema, (#[trigger] rules[i]).table@, rules[i].column@)
    &&& forall|i: int, j: int|
        0 <= i < j < rules.len() ==> !targets(#[trigger] rules[i], (#[trigger] rules[j]).table@, rules[j].column@)
}

/// `first_rule` finds the least index of a rule that targets the column.
pub proof fn lemma_first_rule(rules: Seq<Rule>, table: Seq<u8>, column: Seq<u8>, n: int)
    requires
        0 <= n <= rules.len(),
    ensures
        match first_rule(rules, table, column, n) {
            Some(j) => 0 <= j < n && targets(rules[j], table, column) && forall|k: int|
                0 <= k < j ==> !targets(#[trigger] rules[k], table, column),
            None => forall|k: int| 0 <= k < n ==> !targets(#[trigger] rules[k], table, column),
        },
    decreases n,
{
    if n > 0 {
        lemma_first_rule(rules, table, column, n - 1);
    }
}

/// A rule found among the first `n` is still the first among more.
pub proof fn lemma_first_rule_stays(
    rules: Seq<Rule>,
    table: Seq<u8>,
    column: Seq<u8>,
    n: int,
    m: int,
)
    requires
        0 <= n <= m,
        first_rule(rules, table, column, n) is Some,
    ensures
        first_rule(rules, table, column, m) == first_rule(rules, table, column, n),
    decreases m - n,
{
    if n < m {
        lemma_first_rule_stays(rules, table, column, n, m - 1);
    }
}

/// The rules have no fault exactly where they are valid.
pub proof fn lemma_no_fault_iff_valid(rules: Seq<Rule>, schema: Seq<TableSchemaModel>, n: int)
    requires
        0 <= n <= rules.len(),
    ensures
        first_fault(rules, schema, n) is None <==> rules_valid(rules.take(n), schema),
    decreases n,
{
    let head = rules.take(n);
    if n > 0 {
        lemma_no_fault_iff_valid(rules, schema, n - 1);
        let last = rules[n - 1];
        lemma_first_rule(rules, last.table@, last.column@, n - 1);
        assert(forall|i: int| 0 <= i < n ==> head[i] == rules[i]);
    }
}

/// Whether the schema has a table `table` with a column `column`.
pub fn is_known(schema: &Vec<TableSchema>, table: &[u8], column: &[u8]) -> (found: bool)
    ensures
        found == known(schema_models(schema@), table@, column@),
{
    let ghost models = schema_models(schema@);
    let mut t: usize = 0;
    while t < schema.len()
        invariant
            t <= schema.len(),
            models == schema_models(schema@),
            forall|a: int, c: int|
                0 <= a < t && 0 <= c < models[a].columns.len() && models[a].name == table@
                    ==> #[trigger] models[a].columns[c] != column@,
        decreases schema.len() - t,
    {
        if bytes_eq(schema[t].name.as_slice(), table) {
            let mut c: usize = 0;
            while c < schema[t].columns.len()
                invariant
                    t < schema.len(),
                    c <= schema[t as int].columns.len(),
                    models == schema_models(schema@),
                    schema[t as int].name@ == table@,
                    forall|b: int| 0 <= b < c ==> #[trigger] schema[t as int].columns[b]@ != column@,
                decreases schema[t as int].columns.len() - c,
            {
                if bytes_eq(schema[t].columns[c].as_slice(), column) {
                    assert(models[t as int].columns[c as int] == column@);
                    return true;
                }
                c += 1;
            }
        }
        t += 1;
    }
    false
}

/// The first of the first `n` rules that targets the column, if there is one.
pub fn find_rule(rules: &Vec<Rule>, table: &[u8], column: &[u8], n: usize) -> (found: Option<
    usize,
>)
    requires
        n <= rules.len(),
    ensures
        match found {
            Some(j) => first_rule(rules@, table@, column@, n as int) == Some(j as int),
            None => first_rule(rules@, table@, column@, n as int) is None,
        },
{
    let mut j: usize = 0;
    while j < n
        invariant
            j <= n <= rules.len(),
            first_rule(rules@, table@, column@, j as int) is None,
        decreases n - j,
    {
        if bytes_eq(rules[j].table.as_slice(), table) && bytes_eq(
            rules[j].column.as_slice(),
            column,
        ) {
            proof {
                lemma_first_rule_stays(rules@, table@, column@, j + 1, n as int);
            }
            return Some(j);
        }
        j += 1;
    }
    None
}

/// Validates a rule set against the schema of the source. The error is that
/// of the first faulty rule: its transformer's settings, then its column, then
/// a clash with the first earlier rule for the same column.
pub fn validate_rules(rules: &Vec<Rule>, schema: &Vec<TableSchema>) -> (res: Result<
    (),
    ConfigError,
>)
    ensures
        res == match first_fault(rules@, schema_models(schema@), rules.len() as int) {
            Some(e) => Err::<(), ConfigError>(e),
            None => Ok(()),
        },
        res is Ok <==> rules_valid(rules@, schema_models(schema@)),
{
    let ghost models = schema_models(schema@);
    let mut i: usize = 0;
    while i < rules.len()
        invariant
            i <= rules.len(),
            models == schema_models(schema@),
            first_fault(rules@, models, i as int) is None,
        decreases rules.len() - i,
    {
        if !rules[i].transformer.is_valid() {
            proof {
                lemma_first_fault_stays(rules@, models, i + 1, rules.len() as int);
                lemma_no_fault_iff_valid(rules@, models, rules.len() as int);
            }
            return Err(ConfigError::InvalidTransformer { rule: i });
        }
        if !is_known(schema, rules[i].table.as_slice(), rules[i].column.as_slice()) {
            proof {
                lemma_first_fault_stays(rules@, models, i + 1, rules.len() as int);
                lemma_no_fault_iff_valid(rules@, models, rules.len() as int);
            }
            return Err(ConfigError::UnknownColumn { rule: i });
        }
        match find_rule(rules, rules[i].table.as_slice(), rules[i].column.as_slice(), i) {
            Some(j) => {
                proof {
                    lemma_first_fault_stays(rules@, models, i + 1, rules.len() as int);
                    lemma_no_fault_iff_valid(rules@, models, rules.len() as int);
                }
                return Err(ConfigError::ConflictingRule { first: j, second: i });
            },
            None => {},
        }
        i += 1;
    }
    proof {
        lemma_no_fault_iff_valid(rules@, models, rules.len() as int);
        assert(rules@.take(rules.len() as int) =~= rules@);
    }
    Ok(())
}

/// A fault found among the first `n` rules is still the first among more.
pub proof fn lemma_first_fault_stays(rules: Seq<Rule>, schema: Seq<TableSchemaModel>, n: int, m: int)
    requires
        0 <= n <= m,
        first_fault(rules, schema, n) is Some,
    ensures
        first_fault(rules, schema, m) == first_fault(rules, schema, n),
    decreases m - n,
{
    if n < m {
        lemma_first_fault_stays(rules, schema, n, m - 1);
    }
}

/// What the rules make of one column's value: the output of the first rule
/// that targets the column, or the value itself where there is none. `None`
/// where the rule's transformer cannot process the value.
pub open spec fn applied_value(
    rules: Seq<Rule>,
    table: Seq<u8>,
    column: (Seq<u8>, Seq<u8>),
    seed: u64,
    ordinal: u64,
) -> Option<Seq<u8>> {
    match first_rule(rules, table, column.0, rules.len() as int) {
        Some(j) => transformed(rules[j].transformer, column.1, seed, ordinal),
        None => Some(column.1),
    }
}

/// Whether every value of the row can be processed.
pub open spec fn appliable(
    rules: Seq<Rule>,
    table: Seq<u8>,
    row: RowModel,
    seed: u64,
    ordinal: u64,
) -> bool {
    forall|i: int|
        0 <= i < row.len() ==> applied_value(rules, table, #[trigger] row[i], seed, ordinal) is Some
}

/// The row that the rules make of `row`: the same columns in the same order,
/// each with its applied value.
pub open spec fn applied_row(
    rules: Seq<Rule>,
    table: Seq<u8>,
    row: RowModel,
    seed: u64,
    ordinal: u64,
) -> RowModel {
    Seq::new(
        row.len(),
        |i: int| (row[i].0, applied_value(rules, table, row[i], seed, ordinal).unwrap()),
    )
}

/// Of each column of an applied row: its name stays; without a rule its value
/// stays; with a rule its value has the shape that the rule's transformer
/// promises, and differs from the source value where the transformer alters
/// that value.
pub proof fn lemma_applied_column(
    rules: Seq<Rule>,
    table: Seq<u8>,
    row: RowModel,
    seed: u64,
    ordinal: u64,
    i: int,
)
    requires
        appliable(rules, table, row, seed, ordinal),
        0 <= i < row.len(),
    ensures
        applied_row(rules, table, row, seed, ordinal).len() == row.len(),
        applied_row(rules, table, row, seed, ordinal)[i].0 == row[i].0,
        match first_rule(rules, table, row[i].0, rules.len() as int) {
            None => applied_row(rules, table, row, seed, ordinal)[i].1 == row[i].1,
            Some(j) => {
                &&& 0 <= j < rules.len()
                &&& targets(rules[j], table, row[i].0)
                &&& well_shaped(
                    rules[j].transformer,
                    row[i].1,
                    applied_row(rules, table, row, seed, ordinal)[i].1,
                )
                &&& alters(rules[j].transformer, row[i].1) ==> applied_row(
                    rules,
                    table,
                    row,
                    seed,
                    ordinal,
                )[i].1 != row[i].1
            },
        },
{
    lemma_first_rule(rules, table, row[i].0, rules.len() as int);
    if let Some(j) = first_rule(rules, table, row[i].0, rules.len() as int) {
        lemma_transformed_shape(rules[j].transformer, row[i].1, seed, ordinal);
        if alters(rules[j].transformer, row[i].1) {
            lemma_transformed_differs(rules[j].transformer, row[i].1, seed, ordinal);
        }
    }
}

/// Whether two rule sets name the same columns in the same order, each with
/// a transformer of the same kind and settings.
pub open spec fn same_rules(a: Seq<Rule>, b: Seq<Rule>) -> bool {
    &&& a.len() == b.len()
    &&& forall|i: int|
        0 <= i < a.len() ==> (#[trigger] a[i]).table@ == b[i].table@ && a[i].column@
            == b[i].column@ && same_transformer(a[i].transformer, b[i].transformer)
}

/// Rule sets that are the same find the same rule for every column.
pub proof fn lemma_first_rule_same(
    a: Seq<Rule>,
    b: Seq<Rule>,
    table: Seq<u8>,
    column: Seq<u8>,
    n: int,
)
    requires
        same_rules(a, b),
        0 <= n <= a.len(),
    ensures
        first_rule(a, table, column, n) == first_rule(b, table, column, n),
    decreases n,
{
    if n > 0 {
        lemma_first_rule_same(a, b, table, column, n - 1);
        assert(a[n - 1].table@ == b[n - 1].table@);
    }
}

/// Rule sets that are the same make the same of every row: what is made of a
/// row depends on the row, the table's name, the rules as they are written,
/// the seed and the ordinal, and on nothing else.
pub proof fn lemma_applied_same(
    a: Seq<Rule>,
    b: Seq<Rule>,
    table: Seq<u8>,
    row: RowModel,
    seed: u64,
    ordinal: u64,
)
    requires
        same_rules(a, b),
    ensures
        appliable(a, table, row, seed, ordinal) == appliable(b, table, row, seed, ordinal),
        applied_row(a, table, row, seed, ordinal) == applied_row(b, table, row, seed, ordinal),
{
    assert forall|i: int| 0 <= i < row.len() implies applied_value(
        a,
        table,
        #[trigger] row[i],
        seed,
        ordinal,
    ) == applied_value(b, table, row[i], seed, ordinal) by {
        lemma_first_rule_same(a, b, table, row[i].0, a.len() as int);
        lemma_first_rule(a, table, row[i].0, a.len() as int);
        if let Some(j) = first_rule(a, table, row[i].0, a.len() as int) {
            assert(same_transformer(a[j].transformer, b[j].transformer));
            lemma_transformed_same(a[j].transformer, b[j].transformer, row[i].1, seed, ordinal);
        }
    }
    assert(applied_row(a, table, row, seed, ordinal) =~= applied_row(b, table, row, seed, ordinal));
}

/// Applies the rules of `table` to one column's value: the first rule that
/// targets the column decides, and without one the value is copied. `None`
/// where the rule's transformer cannot process the value.
pub fn apply_value(column: &Column, table: &[u8], rules: &Vec<Rule>, seed: u64, ordinal: u64) -> (res:
    Option<Vec<u8>>)
    ensures
        match res {
            Some(out) => applied_value(rules@, table@, column@, seed, ordinal) == Some(out@),
            None => applied_value(rules@, table@, column@, seed, ordinal) is None,
        },
{
    proof {
        lemma_first_rule(rules@, table@, column.name@, rules.len() as int);
    }
    match find_rule(rules, table, column.name.as_slice(), rules.len()) {
        Some(j) => transform(&rules[j].transformer, column.value.as_slice(), seed, ordinal),
        None => Some(bytes_of(column.value.as_slice())),
    }
}

/// Applies the rules of `table` to one row. The columns and their order stay.
/// The error is the index of the first column whose value cannot be
/// processed.
pub fn apply(row: &Row, table: &[u8], rules: &Vec<Rule>, seed: u64, ordinal: u64) -> (res: Result<
    Row,
    usize,
>)
    ensures
        match res {
            Ok(out) => {
                &&& appliable(rules@, table@, row@, seed, ordinal)
                &&& out@ == applied_row(rules@, table@, row@, seed, ordinal)
                &&& column_names(out@) == column_names(row@)
            },
            Err(column) => {
                &&& column < row@.len()
                &&& applied_value(rules@, table@, row@[column as int], seed, ordinal) is None
                &&& forall|i: int|
                    0 <= i < column ==> applied_value(
                        rules@,
                        table@,
                        #[trigger] row@[i],
                        seed,
                        ordinal,
                    ) is Some
            },
        },
{
    let mut columns: Vec<Column> = Vec::new();
    let mut i: usize = 0;
    while i < row.columns.len()
        invariant
            i <= row.columns.len(),
            columns.len() == i,
            forall|k: int|
                0 <= k < i ==> applied_value(rules@, table@, #[trigger] row@[k], seed, ordinal)
                    == Some(columns[k].value@),
            forall|k: int| 0 <= k < i ==> (#[trigger] columns[k]).name@ == row@[k].0,
        decreases row.columns.len() - i,
    {
        let source = &row.columns[i];
        let value = match apply_value(source, table, rules, seed, ordinal) {
            Some(out) => out,
            None => {
                return Err(i);
            },
        };
        let name = bytes_of(source.name.as_slice());
        columns.push(Column { name, value });
        i += 1;
    }
    let out = Row { columns };
    Ok(out)
}

} // verus!
