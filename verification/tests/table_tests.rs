use truth_table_rs::parser::parse;
use truth_table_rs::table::{truth_table, union_variables, Row};
use truth_table_rs::Formula;

fn formulas(sources: &[&str]) -> Vec<Formula> {
    sources.iter().map(|s| parse(s).unwrap()).collect()
}

#[test]
fn table_lists_the_union_of_the_variables_in_order() {
    let fs = formulas(&["c & a", "b | a", "d"]);
    assert_eq!(union_variables(&fs), vec!["a", "b", "c", "d"]);
    let table = truth_table(&fs);
    assert_eq!(table.variables, vec!["a", "b", "c", "d"]);
    assert_eq!(table.headers, vec!["c & a", "b | a", "d"]);
    assert_eq!(table.rows.len(), 16);
}

#[test]
fn rows_run_from_all_true_down_to_all_false() {
    let table = truth_table(&formulas(&["a & b"]));
    let values: Vec<Vec<bool>> = table.rows.iter().map(|r| r.values.clone()).collect();
    assert_eq!(
        values,
        vec![vec![true, true], vec![true, false], vec![false, true], vec![false, false]]
    );
    let results: Vec<Vec<Option<bool>>> = table.rows.iter().map(|r| r.results.clone()).collect();
    assert_eq!(
        results,
        vec![vec![Some(true)], vec![Some(false)], vec![Some(false)], vec![Some(false)]]
    );
}

#[test]
fn first_variable_is_the_most_significant_bit() {
    let table = truth_table(&formulas(&["a | b | c"]));
    assert_eq!(table.rows.len(), 8);
    for (k, row) in table.rows.iter().enumerate() {
        let number = 7 - k;
        assert_eq!(row.values[0], (number >> 2) & 1 == 1);
        assert_eq!(row.values[1], (number >> 1) & 1 == 1);
        assert_eq!(row.values[2], number & 1 == 1);
    }
}

#[test]
fn table_without_variables_has_one_row() {
    let table = truth_table(&formulas(&["T -> F"]));
    assert!(table.variables.is_empty());
    assert_eq!(table.rows.len(), 1);
    assert!(table.rows[0].values.is_empty());
    assert_eq!(table.rows[0].results, vec![Some(false)]);
    let empty = truth_table(&[]);
    assert_eq!(empty.rows.len(), 1);
    assert!(empty.headers.is_empty());
}

#[test]
fn each_formula_is_evaluated_under_the_row() {
    let table = truth_table(&formulas(&["a -> b", "~b", "a <-> b"]));
    let results: Vec<Vec<Option<bool>>> = table.rows.iter().map(|r| r.results.clone()).collect();
    assert_eq!(
        results,
        vec![
            vec![Some(true), Some(false), Some(true)],
            vec![Some(false), Some(true), Some(false)],
            vec![Some(true), Some(false), Some(false)],
            vec![Some(true), Some(true), Some(true)],
        ]
    );
}

#[test]
fn table_renders_as_a_grid() {
    let table = truth_table(&formulas(&["a & b", "~a"]));
    let expected = "| a | b | a & b | ~a | \n\
                    |:-:|:-:|:-:|:-:|\n\
                    | T | T | T | F | \n\
                    | T | F | F | F | \n\
                    | F | T | F | T | \n\
                    | F | F | F | T | \n\
                    \nT: True, F: False, E: Error (undefined variable)\n";
    assert_eq!(table.render(), expected);
}

#[test]
fn undefined_results_render_as_errors() {
    let row = Row { values: vec![true, false], results: vec![None, Some(true), Some(false)] };
    let mut out = String::from(">");
    row.render(&mut out);
    assert_eq!(out, ">| T | F | E | T | F | \n");
}
