use pg_glot_hybrid::plan::{
    const_i32, is_desc_sort, is_glot_rank, shape_supported, try_build_path_config, ArgNode,
    CandidateCursor, ConstValue, QueryShape, RankScanInput, SortExpr,
};
use pg_glot_hybrid::sql::{decimal_string, quote_literal};

fn column(attno: i16, name: &str) -> ArgNode {
    ArgNode::Column { levels_up: 0, varno: 1, attno, name: Some(name.to_string()) }
}

fn text_const(text: &str) -> ArgNode {
    ArgNode::Constant { is_null: false, value: ConstValue::Other, output: Some(text.to_string()) }
}

fn int4(v: i32) -> ArgNode {
    ArgNode::Constant { is_null: false, value: ConstValue::Int4(v), output: Some(v.to_string()) }
}

fn supported_shape() -> QueryShape {
    QueryShape {
        is_base_relation: true,
        has_restrictions: false,
        is_plain_relation: true,
        range_table_len: 1,
        has_offset: false,
        has_limit_count: true,
        limit_is_count: true,
        sort_clause_len: 1,
    }
}

fn rank_input(args: Vec<ArgNode>) -> RankScanInput {
    RankScanInput {
        shape: supported_shape(),
        limit_rows: Some(3),
        sort_op_name: Some(">".to_string()),
        sort_expr: SortExpr::Function {
            name: Some("rank".to_string()),
            namespace: Some("glot".to_string()),
            args,
        },
        rti: 1,
        relation_oid: 16384,
        id_attno: 1,
        relation_sql: Some("pg_temp_3.rank_docs".to_string()),
        id_ident: Some("id".to_string()),
    }
}

fn four_args() -> Vec<ArgNode> {
    vec![column(2, "body"), column(3, "emb"), text_const("형태소"), text_const("[1,0,0]")]
}

#[test]
fn rank_order_by_with_limit_gets_a_candidate_query() {
    let cfg = try_build_path_config(&rank_input(four_args())).expect("rank scan applies");
    assert_eq!(cfg.limit_rows, 3);
    assert_eq!(
        cfg.sql,
        "SELECT d.* FROM pg_temp_3.rank_docs AS d JOIN glot.hybrid(16384::oid::regclass, 'id', \
         'body', 'emb', '형태소', '[1,0,0]'::vector, 60, 60, 3) AS h ON d.id = h.id \
         ORDER BY h.score DESC, d.id"
    );
}

#[test]
fn explicit_k_and_per_leg_are_used() {
    let mut args = four_args();
    args.push(int4(10));
    args.push(ArgNode::Constant { is_null: false, value: ConstValue::Int8(25), output: None });
    let cfg = try_build_path_config(&rank_input(args)).unwrap();
    assert!(cfg.sql.contains("'[1,0,0]'::vector, 10, 25, 3) AS h"), "{}", cfg.sql);
}

#[test]
fn unsupported_orderings_fall_back() {
    let mut input = rank_input(four_args());
    input.sort_op_name = Some("<".to_string());
    assert!(try_build_path_config(&input).is_none());

    let mut input = rank_input(four_args());
    input.limit_rows = None;
    assert!(try_build_path_config(&input).is_none());

    let mut input = rank_input(four_args());
    input.sort_expr = SortExpr::Other;
    assert!(try_build_path_config(&input).is_none());

    let mut args = four_args();
    args.push(int4(10));
    assert!(try_build_path_config(&rank_input(args)).is_none(), "five arguments");

    let mut args = four_args();
    args[0] = ArgNode::Column { levels_up: 1, varno: 1, attno: 2, name: Some("body".to_string()) };
    assert!(try_build_path_config(&rank_input(args)).is_none(), "outer column");

    let mut args = four_args();
    args[2] = ArgNode::Constant { is_null: true, value: ConstValue::Other, output: None };
    assert!(try_build_path_config(&rank_input(args)).is_none(), "null query text");
}

#[test]
fn non_positive_k_or_missing_id_falls_back() {
    let mut args = four_args();
    args.push(int4(0));
    args.push(int4(60));
    assert!(try_build_path_config(&rank_input(args)).is_none());

    let mut input = rank_input(four_args());
    input.id_attno = 0;
    assert!(try_build_path_config(&input).is_none());

    let mut input = rank_input(four_args());
    input.relation_sql = None;
    assert!(try_build_path_config(&input).is_none());
}

#[test]
fn wrong_function_falls_back() {
    let mut input = rank_input(four_args());
    input.sort_expr = SortExpr::Function {
        name: Some("rank".to_string()),
        namespace: Some("public".to_string()),
        args: four_args(),
    };
    assert!(try_build_path_config(&input).is_none());
}

#[test]
fn integer_constants() {
    assert_eq!(const_i32(&int4(7)), Some(7));
    let big = ArgNode::Constant {
        is_null: false,
        value: ConstValue::Int8(i64::from(i32::MAX) + 1),
        output: None,
    };
    assert_eq!(const_i32(&big), None);
    let neg = ArgNode::Constant { is_null: false, value: ConstValue::Int8(-3), output: None };
    assert_eq!(const_i32(&neg), Some(-3));
    assert_eq!(const_i32(&text_const("5")), None);
    assert_eq!(const_i32(&ArgNode::Other), None);
}

#[test]
fn sort_and_function_names() {
    assert!(is_desc_sort(&Some(">".to_string())));
    assert!(!is_desc_sort(&Some(">=".to_string())));
    assert!(!is_desc_sort(&None));
    assert!(is_glot_rank(&Some("rank".to_string()), &Some("glot".to_string())));
    assert!(!is_glot_rank(&Some("rank".to_string()), &None));
}

#[test]
fn query_shapes() {
    let good = QueryShape {
        is_base_relation: true,
        has_restrictions: false,
        is_plain_relation: true,
        range_table_len: 1,
        has_offset: false,
        has_limit_count: true,
        limit_is_count: true,
        sort_clause_len: 1,
    };
    assert!(shape_supported(&good));
    assert!(!shape_supported(&QueryShape { has_offset: true, ..good }));
    assert!(!shape_supported(&QueryShape { has_limit_count: false, ..good }));
    assert!(!shape_supported(&QueryShape { sort_clause_len: 2, ..good }));
    assert!(!shape_supported(&QueryShape { has_restrictions: true, ..good }));
}

#[test]
fn literals_are_quoted_like_postgres() {
    assert_eq!(quote_literal("body"), "'body'");
    assert_eq!(quote_literal("it's"), "'it''s'");
    assert_eq!(quote_literal("a\\b"), "E'a\\\\b'");
    assert_eq!(quote_literal(""), "''");
    assert_eq!(quote_literal("형태소'"), "'형태소'''");
}

#[test]
fn decimal_numbers() {
    assert_eq!(decimal_string(0), "0");
    assert_eq!(decimal_string(60), "60");
    assert_eq!(decimal_string(4294967295), "4294967295");
}

#[test]
fn candidate_cursor_hands_out_rows_and_rescans() {
    let mut c = CandidateCursor::new(2);
    assert_eq!(c.next_candidate(), Some(0));
    assert_eq!(c.next_candidate(), Some(1));
    assert_eq!(c.next_candidate(), None);
    c.rescan();
    assert_eq!(c.next_candidate(), Some(0));
}

#[test]
fn unsupported_query_shapes_fall_back() {
    let base = || rank_input(four_args());
    assert!(try_build_path_config(&base()).is_some());
    let shapes = [
        QueryShape { is_base_relation: false, ..supported_shape() },
        QueryShape { has_restrictions: true, ..supported_shape() },
        QueryShape { is_plain_relation: false, ..supported_shape() },
        QueryShape { range_table_len: 2, ..supported_shape() },
        QueryShape { has_offset: true, ..supported_shape() },
        QueryShape { has_limit_count: false, ..supported_shape() },
        QueryShape { limit_is_count: false, ..supported_shape() },
        QueryShape { sort_clause_len: 2, ..supported_shape() },
    ];
    for shape in shapes {
        let input = RankScanInput { shape, ..base() };
        assert!(try_build_path_config(&input).is_none());
    }
}
