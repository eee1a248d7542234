//! Engine tests: the dependency graph, the formula language, and the store.

use spreadsheet::data::Data;
use spreadsheet::graph::Dag;
use spreadsheet::parse::{convert_alpha_str_to_num, parse};
use spreadsheet::position::CellPos;

#[test]
fn test_graph() {
    let mut g = Dag::new();
    let p1 = CellPos::new(0, 0);
    let p2 = CellPos::new(1, 2);

    g.insert(p2, &[p1]);
    let dep = g.get_dependents(p1);
    assert_eq!(dep, vec![p2]);

    g.remove(p2);
    let dep = g.get_dependents(p1);
    assert_eq!(dep, vec![]);
}

#[test]
fn test_graph_topological() {
    let mut g = Dag::new();
    let p1 = CellPos::new(0, 0);
    let p2 = CellPos::new(1, 2);
    let p3 = CellPos::new(1, 3);

    g.insert(p2, &[p1]);
    g.insert(p3, &[p1, p2]);
    let dep = g.get_topological_sort(p1).unwrap();
    assert_eq!(dep, vec![p1, p2, p3]);
}

#[test]
fn test_parse() {
    let input = "=add 2 (sub (mul 2 2) 3)";
    let (val, _refs) = parse(input, &Data::new()).unwrap();
    assert_eq!(val, 3);
}

#[test]
fn test_convert() {
    let input = "AB";
    let out = convert_alpha_str_to_num(&input);
    assert_eq!(out, 27);
}

#[test]
fn alpha_column_round_trip() {
    for n in 0u8..26u8 {
        let c = (65u8 + n) as char;
        let s = c.to_string();
        assert_eq!(convert_alpha_str_to_num(&s), n as usize);
    }
}

#[test]
fn literal_then_formula() {
    let mut d = Data::new();
    let a0 = CellPos::new(0, 0);
    let b0 = CellPos::new(1, 0);
    d.insert(a0, "3".to_string());
    d.insert(b0, "=add A0 4".to_string());
    assert_eq!(d.get(a0).unwrap(), "3");
    assert_eq!(d.get(b0).unwrap(), "7");
}

#[test]
fn parse_failure_is_sticky_raw() {
    let mut d = Data::new();
    let c0 = CellPos::new(2, 0);
    d.insert(c0, "=add".to_string());
    assert_eq!(d.get_computed(c0).unwrap(), "#PARSE_ERR");
    assert_eq!(d.get_raw(c0).unwrap(), "=add");
}

#[test]
fn div_by_zero() {
    let mut d = Data::new();
    let a0 = CellPos::new(0, 0);
    let b0 = CellPos::new(1, 0);
    d.insert(a0, "0".to_string());
    d.insert(b0, "=div 1 A0".to_string());
    assert_eq!(d.get_computed(b0).unwrap(), "#OP_ERR");
}

#[test]
fn cycle_is_rejected() {
    let mut d = Data::new();
    let a0 = CellPos::new(0, 0);
    let b0 = CellPos::new(1, 0);
    d.insert(a0, "=add B0 1".to_string());
    assert_eq!(d.get_computed(a0).unwrap(), "#REF_ERR");
    d.insert(b0, "=add A0 1".to_string());
    assert_eq!(d.get_computed(b0).unwrap(), "#CYCLE_ERR");
    assert_eq!(d.get_computed(a0).unwrap(), "#REF_ERR");
    // the rejected edit left no edges for the second cell: writing the cell
    // it tried to reference does not recompute it
    d.insert(a0, "9".to_string());
    assert_eq!(d.get_computed(b0).unwrap(), "#CYCLE_ERR");
}

#[test]
fn cascade_update() {
    let mut d = Data::new();
    let a0 = CellPos::new(0, 0);
    let b0 = CellPos::new(1, 0);
    d.insert(a0, "1".to_string());
    d.insert(b0, "=add A0 2".to_string());
    assert_eq!(d.get(b0).unwrap(), "3");
    d.insert(a0, "5".to_string());
    assert_eq!(d.get(b0).unwrap(), "7");
}

#[test]
fn cascade_through_chain() {
    let mut d = Data::new();
    let a0 = CellPos::new(0, 0);
    let b0 = CellPos::new(1, 0);
    let c0 = CellPos::new(2, 0);
    d.insert(a0, "2".to_string());
    d.insert(b0, "=mul A0 10".to_string());
    d.insert(c0, "=add B0 1".to_string());
    assert_eq!(d.get(c0).unwrap(), "21");
    d.insert(a0, "3".to_string());
    assert_eq!(d.get(b0).unwrap(), "30");
    assert_eq!(d.get(c0).unwrap(), "31");
}

#[test]
fn unknown_operator_is_op_error() {
    let mut d = Data::new();
    let a0 = CellPos::new(0, 0);
    d.insert(a0, "=foo 1 2".to_string());
    assert_eq!(d.get_computed(a0).unwrap(), "#OP_ERR");
}

#[test]
fn sub_arity_is_op_error() {
    let mut d = Data::new();
    let a0 = CellPos::new(0, 0);
    d.insert(a0, "=sub 5 2 1".to_string());
    assert_eq!(d.get_computed(a0).unwrap(), "#OP_ERR");
}

#[test]
fn literal_overflow_is_cell_error() {
    let mut d = Data::new();
    let a0 = CellPos::new(0, 0);
    d.insert(a0, "=add 99999999999 1".to_string());
    assert_eq!(d.get_computed(a0).unwrap(), "#CELL_ERR");
}

#[test]
fn missing_reference_is_ref_error() {
    let mut d = Data::new();
    let a0 = CellPos::new(0, 0);
    d.insert(a0, "=add Z9 1".to_string());
    assert_eq!(d.get_computed(a0).unwrap(), "#REF_ERR");
}

#[test]
fn negative_results_print_with_sign() {
    let mut d = Data::new();
    let a0 = CellPos::new(0, 0);
    d.insert(a0, "=sub 0 5".to_string());
    assert_eq!(d.get_computed(a0).unwrap(), "-5");
}

#[test]
fn division_truncates_toward_zero() {
    let mut d = Data::new();
    let a0 = CellPos::new(0, 0);
    d.insert(a0, "=div 7 2".to_string());
    assert_eq!(d.get_computed(a0).unwrap(), "3");
}

#[test]
fn add_folds_many_terms() {
    let mut d = Data::new();
    let a0 = CellPos::new(0, 0);
    d.insert(a0, "=add 1 2 3 4".to_string());
    assert_eq!(d.get_computed(a0).unwrap(), "10");
}

#[test]
fn formula_over_formula_reads_computed_text() {
    let mut d = Data::new();
    let a0 = CellPos::new(0, 0);
    let b0 = CellPos::new(1, 0);
    d.insert(a0, "=add 2 3".to_string());
    d.insert(b0, "=mul A0 2".to_string());
    assert_eq!(d.get(b0).unwrap(), "10");
}

#[test]
fn self_reference_is_cycle() {
    let mut d = Data::new();
    let a0 = CellPos::new(0, 0);
    d.insert(a0, "=add A0 1".to_string());
    assert_eq!(d.get_computed(a0).unwrap(), "#CYCLE_ERR");
}

#[test]
fn reference_with_whitespace_and_parens() {
    let mut d = Data::new();
    let a0 = CellPos::new(0, 0);
    let b0 = CellPos::new(1, 0);
    d.insert(a0, "7".to_string());
    d.insert(b0, "=add (mul A0 2)   1".to_string());
    assert_eq!(d.get(b0).unwrap(), "15");
}

#[test]
fn edit_replaces_old_references() {
    let mut d = Data::new();
    let a0 = CellPos::new(0, 0);
    let b0 = CellPos::new(1, 0);
    let c0 = CellPos::new(2, 0);
    d.insert(a0, "1".to_string());
    d.insert(c0, "10".to_string());
    d.insert(b0, "=add A0 1".to_string());
    assert_eq!(d.get(b0).unwrap(), "2");
    d.insert(b0, "=add C0 1".to_string());
    assert_eq!(d.get(b0).unwrap(), "11");
    // the old edge is gone: changing A0 no longer touches B0
    d.insert(a0, "100".to_string());
    assert_eq!(d.get(b0).unwrap(), "11");
}

#[test]
fn addition_wraps_deterministically() {
    let mut d = Data::new();
    let a0 = CellPos::new(0, 0);
    d.insert(a0, "=add 2147483647 1".to_string());
    assert_eq!(d.get_computed(a0).unwrap(), "-2147483648");
}

#[test]
fn top_level_parentheses_parse() {
    let (val, _refs) = parse("=(add 1 2)", &Data::new()).unwrap();
    assert_eq!(val, 3);
}

#[test]
fn references_come_back_in_source_order() {
    let mut d = Data::new();
    d.insert(CellPos::new(0, 0), "1".to_string());
    d.insert(CellPos::new(1, 0), "2".to_string());
    let (val, refs) = parse("=add B0 A0", &d).unwrap();
    assert_eq!(val, 3);
    assert_eq!(refs, vec![CellPos::new(1, 0), CellPos::new(0, 0)]);
}

#[test]
fn graph_edges_are_recorded_at_both_endpoints() {
    let mut g = Dag::new();
    let a = CellPos::new(0, 0);
    let b = CellPos::new(1, 0);
    let c = CellPos::new(2, 0);
    g.insert(a, &[b, c]);
    // a references b and c; b and c each record a as a dependent
    assert_eq!(g.get_references(a), vec![b, c]);
    assert_eq!(g.get_dependents(b), vec![a]);
    assert_eq!(g.get_dependents(c), vec![a]);
    g.remove(a);
    assert_eq!(g.get_references(a), vec![]);
    assert_eq!(g.get_dependents(b), vec![]);
    assert_eq!(g.get_dependents(c), vec![]);
}
