use vstd::prelude::*;
use vstd::string::StringExecFns;
use crate::lang::{chars_of, chars_equal};
use crate::sql::{quote_literal, spec_quote_literal, decimal_string, decimal};

verus! {

/// Rank constant used when the rank call does not give one.
pub const DEFAULT_K: i32 = 60;

/// Per-list candidate count used when the rank call does not give one.
pub const DEFAULT_PER_LEG: i32 = 60;

/// Planner facts about a base relation scan and its query that decide, with
/// no catalog lookup, whether the hybrid rank scan can apply.
pub struct QueryShape {
    pub is_base_relation: bool,
    pub has_restrictions: bool,
    pub is_plain_relation: bool,
    pub range_table_len: i32,
    pub has_offset: bool,
    pub has_limit_count: bool,
    pub limit_is_count: bool,
    pub sort_clause_len: i32,
}

/// Whether the query is a single-relation scan without filters, ordered by
/// one expression and cut by a plain `LIMIT` count without `OFFSET`.
pub open spec fn spec_shape_supported(q: QueryShape) -> bool {
    &&& q.is_base_relation
    &&& !q.has_restrictions
    &&& q.is_plain_relation
    &&& q.range_table_len == 1
    &&& !q.has_offset
    &&& q.has_limit_count
    &&& q.limit_is_count
    &&& q.sort_clause_len == 1
}

/// Whether the query shape admits the hybrid rank scan.
pub fn shape_supported(q: &QueryShape) -> (r: bool)
    ensures
        r == spec_shape_supported(*q),
{
    q.is_base_relation && !q.has_restrictions && q.is_plain_relation && q.range_table_len == 1
        && !q.has_offset && q.has_limit_count && q.limit_is_count && q.sort_clause_len == 1
}

/// Value of a constant argument.
pub enum ConstValue {
    Int4(i32),
    Int8(i64),
    Other,
}

/// An argument of the ordering function call.
pub enum ArgNode {
    /// A column reference, with the column's name when the catalog has it.
    Column { levels_up: u32, varno: i32, attno: i16, name: Option<String> },
    /// A constant, with its text form from the type's output function when
    /// there is one.
    Constant { is_null: bool, value: ConstValue, output: Option<String> },
    /// Anything else.
    Other,
}

/// The ordering expression of the query.
pub enum SortExpr {
    /// A function call, with the function's name and schema when known.
    Function { name: Option<String>, namespace: Option<String>, args: Vec<ArgNode> },
    /// Any other expression.
    Other,
}

/// Facts, read from the planner and catalog, that the hybrid rank scan
/// decision needs.
pub struct RankScanInput {
    /// The query's shape.
    pub shape: QueryShape,
    /// Row limit from the planner's tuple limit, when it is a positive count.
    pub limit_rows: Option<i32>,
    /// Name of the sort operator.
    pub sort_op_name: Option<String>,
    pub sort_expr: SortExpr,
    /// Range table index of the scanned relation.
    pub rti: u32,
    pub relation_oid: u32,
    /// Attribute number of the relation's `id` column (0 or less when absent).
    pub id_attno: i16,
    /// Schema-qualified, quoted name of the relation.
    pub relation_sql: Option<String>,
    /// `id` quoted as an identifier.
    pub id_ident: Option<String>,
}

/// The plan of a hybrid rank scan: the candidate query and the row limit.
pub struct PathConfig {
    pub sql: String,
    pub limit_rows: i32,
}

pub open spec fn opt_chars(o: Option<String>) -> Option<Seq<char>> {
    match o {
        Some(s) => Some(s@),
        None => None,
    }
}

/// Name of a column of the scanned relation referenced at the query's own level.
pub open spec fn spec_column_name(a: ArgNode, rti: u32) -> Option<Seq<char>> {
    match a {
        ArgNode::Column { levels_up, varno, attno, name } => if levels_up == 0 && varno == rti as i32
            && attno > 0 {
            opt_chars(name)
        } else {
            None
        },
        _ => None,
    }
}

/// A non-null 4- or 8-byte integer constant that fits in 32 bits.
pub open spec fn spec_const_i32(a: ArgNode) -> Option<i32> {
    match a {
        ArgNode::Constant { is_null, value, output } => if is_null {
            None
        } else {
            match value {
                ConstValue::Int4(v) => Some(v),
                ConstValue::Int8(v) => if i32::MIN <= v <= i32::MAX {
                    Some(v as i32)
                } else {
                    None
                },
                ConstValue::Other => None,
            }
        },
        _ => None,
    }
}

/// A non-null constant with a text form, as a quoted SQL literal.
pub open spec fn spec_const_literal(a: ArgNode) -> Option<Seq<char>> {
    match a {
        ArgNode::Constant { is_null, value, output } => if is_null {
            None
        } else {
            match output {
                Some(o) => Some(spec_quote_literal(o@)),
                None => None,
            }
        },
        _ => None,
    }
}

/// The candidate query: the relation's rows joined with the hybrid search
/// over the same relation, best score first.
pub open spec fn candidate_sql(
    relation_sql: Seq<char>,
    relation_oid: nat,
    text_col_lit: Seq<char>,
    vec_col_lit: Seq<char>,
    q_text: Seq<char>,
    q_vec: Seq<char>,
    k: nat,
    per_leg: nat,
    limit_rows: nat,
    id_ident: Seq<char>,
) -> Seq<char> {
    "SELECT d.* FROM "@ + relation_sql + " AS d JOIN glot.hybrid("@ + decimal(relation_oid)
        + "::oid::regclass, 'id', "@ + text_col_lit + ", "@ + vec_col_lit + ", "@ + q_text + ", "@
        + q_vec + "::vector, "@ + decimal(k) + ", "@ + decimal(per_leg) + ", "@ + decimal(
        limit_rows,
    ) + ") AS h ON d."@ + id_ident + " = h.id ORDER BY h.score DESC, d."@ + id_ident
}

/// Whether the ordering is `glot.rank(...) DESC` with four or six arguments.
pub open spec fn spec_rank_call(c: RankScanInput) -> bool {
    &&& opt_chars(c.sort_op_name) == Some(">"@)
    &&& c.sort_expr matches SortExpr::Function { name, namespace, args }
    &&& opt_chars(name) == Some("rank"@)
    &&& opt_chars(namespace) == Some("glot"@)
    &&& (args@.len() == 4 || args@.len() == 6)
}

/// The hybrid rank scan plan, or none when the query shape is not supported
/// or the ordering is not a usable `glot.rank(text_col, vec_col, q_text, q_vec[, k,
/// per_leg]) DESC` over columns and constants of this relation, `k` or
/// `per_leg` is not positive, the relation has no `id` column, or a name is
/// missing.
pub open spec fn spec_path_config(c: RankScanInput) -> Option<(Seq<char>, i32)> {
    if !spec_shape_supported(c.shape) || c.limit_rows is None || !spec_rank_call(c) {
        None
    } else {
        let limit = c.limit_rows->0;
        let args = c.sort_expr->Function_args@;
        let text_col = spec_column_name(args[0], c.rti);
        let vec_col = spec_column_name(args[1], c.rti);
        let q_text = spec_const_literal(args[2]);
        let q_vec = spec_const_literal(args[3]);
        let k = if args.len() == 6 {
            spec_const_i32(args[4])
        } else {
            Some(DEFAULT_K)
        };
        let per_leg = if args.len() == 6 {
            spec_const_i32(args[5])
        } else {
            Some(DEFAULT_PER_LEG)
        };
        if text_col is None || vec_col is None || q_text is None || q_vec is None || k is None
            || per_leg is None {
            None
        } else if k->0 <= 0 || per_leg->0 <= 0 || c.id_attno <= 0 {
            None
        } else if c.relation_sql is None || c.id_ident is None || limit <= 0 {
            None
        } else {
            Some(
                (
                    candidate_sql(
                        c.relation_sql->0@,
                        c.relation_oid as nat,
                        spec_quote_literal(text_col->0),
                        spec_quote_literal(vec_col->0),
                        q_text->0,
                        q_vec->0,
                        k->0 as nat,
                        per_leg->0 as nat,
                        limit as nat,
                        c.id_ident->0@,
                    ),
                    limit,
                ),
            )
        }
    }
}

fn opt_equals(o: &Option<String>, word: &str) -> (r: bool)
    ensures
        r == (opt_chars(*o) == Some(word@)),
{
    match o {
        Some(s) => chars_equal(&chars_of(s.as_str()), word),
        None => false,
    }
}

/// Whether the sort operator is `>`, a descending order.
pub fn is_desc_sort(op_name: &Option<String>) -> (r: bool)
    ensures
        r == (opt_chars(*op_name) == Some(">"@)),
{
    opt_equals(op_name, ">")
}

/// Whether the function is `glot.rank`.
pub fn is_glot_rank(name: &Option<String>, namespace: &Option<String>) -> (r: bool)
    ensures
        r == (opt_chars(*name) == Some("rank"@) && opt_chars(*namespace) == Some("glot"@)),
{
    opt_equals(name, "rank") && opt_equals(namespace, "glot")
}

/// Name of the column an argument references, when it is a column of the
/// scanned relation at the query's own level.
pub fn column_name_for_var(a: &ArgNode, rti: u32) -> (r: Option<&str>)
    ensures
        match r {
            Some(s) => spec_column_name(*a, rti) == Some(s@),
            None => spec_column_name(*a, rti) is None,
        },
{
    match a {
        ArgNode::Column { levels_up, varno, attno, name } => {
            if *levels_up == 0 && *varno == rti as i32 && *attno > 0 {
                match name {
                    Some(n) => Some(n.as_str()),
                    None => None,
                }
            } else {
                None
            }
        },
        _ => None,
    }
}

/// The value of an argument that is a non-null integer constant fitting in 32 bits.
pub fn const_i32(a: &ArgNode) -> (r: Option<i32>)
    ensures
        r == spec_const_i32(*a),
{
    match a {
        ArgNode::Constant { is_null, value, output: _ } => {
            if *is_null {
                None
            } else {
                match value {
                    ConstValue::Int4(v) => Some(*v),
                    ConstValue::Int8(v) => {
                        if i32::MIN as i64 <= *v && *v <= i32::MAX as i64 {
                            Some(*v as i32)
                        } else {
                            None
                        }
                    },
                    ConstValue::Other => None,
                }
            }
        },
        _ => None,
    }
}

/// An argument that is a non-null constant with a text form, as a quoted SQL literal.
pub fn const_to_quoted_literal(a: &ArgNode) -> (r: Option<String>)
    ensures
        opt_chars(r) == spec_const_literal(*a),
{
    match a {
        ArgNode::Constant { is_null, value: _, output } => {
            if *is_null {
                None
            } else {
                match output {
                    Some(o) => Some(quote_literal(o.as_str())),
                    None => None,
                }
            }
        },
        _ => None,
    }
}

/// The hybrid rank scan plan for the query, or `None` when the rank scan
/// does not apply and the ordinary plan stays.
pub fn try_build_path_config(c: &RankScanInput) -> (r: Option<PathConfig>)
    ensures
        match r {
            Some(p) => spec_path_config(*c) == Some((p.sql@, p.limit_rows)),
            None => spec_path_config(*c) is None,
        },
        r is Some ==> spec_shape_supported(c.shape),
{
    if !shape_supported(&c.shape) {
        return None;
    }
    let limit = match c.limit_rows {
        Some(l) => l,
        None => return None,
    };
    if !is_desc_sort(&c.sort_op_name) {
        return None;
    }
    let (name, namespace, args) = match &c.sort_expr {
        SortExpr::Function { name, namespace, args } => (name, namespace, args),
        SortExpr::Other => return None,
    };
    if !is_glot_rank(name, namespace) {
        return None;
    }
    let nargs = args.len();
    if !(nargs == 4 || nargs == 6) {
        return None;
    }
    let text_col = match column_name_for_var(&args[0], c.rti) {
        Some(t) => t,
        None => return None,
    };
    let vec_col = match column_name_for_var(&args[1], c.rti) {
        Some(t) => t,
        None => return None,
    };
    let q_text = match const_to_quoted_literal(&args[2]) {
        Some(t) => t,
        None => return None,
    };
    let q_vec = match const_to_quoted_literal(&args[3]) {
        Some(t) => t,
        None => return None,
    };
    let k = if nargs == 6 {
        match const_i32(&args[4]) {
            Some(v) => v,
            None => return None,
        }
    } else {
        DEFAULT_K
    };
    let per_leg = if nargs == 6 {
        match const_i32(&args[5]) {
            Some(v) => v,
            None => return None,
        }
    } else {
        DEFAULT_PER_LEG
    };
    if k <= 0 || per_leg <= 0 {
        return None;
    }
    if c.id_attno <= 0 {
        return None;
    }
    let rel_sql = match &c.relation_sql {
        Some(s) => s,
        None => return None,
    };
    let id_ident = match &c.id_ident {
        Some(s) => s,
        None => return None,
    };
    if limit <= 0 {
        return None;
    }
    let text_col_lit = quote_literal(text_col);
    let vec_col_lit = quote_literal(vec_col);
    let mut sql = String::from_str("SELECT d.* FROM ");
    sql.append(rel_sql.as_str());
    sql.append(" AS d JOIN glot.hybrid(");
    sql.append(decimal_string(c.relation_oid).as_str());
    sql.append("::oid::regclass, 'id', ");
    sql.append(text_col_lit.as_str());
    sql.append(", ");
    sql.append(vec_col_lit.as_str());
    sql.append(", ");
    sql.append(q_text.as_str());
    sql.append(", ");
    sql.append(q_vec.as_str());
    sql.append("::vector, ");
    sql.append(decimal_string(k as u32).as_str());
    sql.append(", ");
    sql.append(decimal_string(per_leg as u32).as_str());
    sql.append(", ");
    sql.append(decimal_string(limit as u32).as_str());
    sql.append(") AS h ON d.");
    sql.append(id_ident.as_str());
    sql.append(" = h.id ORDER BY h.score DESC, d.");
    sql.append(id_ident.as_str());
    Some(PathConfig { sql, limit_rows: limit })
}

/// The row limit reaches the fused search: whenever a plan is built, its
/// row limit is the planner's, and it is the last argument of `glot.hybrid`
/// in the candidate query, whatever the per-list count is.
pub proof fn law_plan_passes_row_limit_to_hybrid(c: RankScanInput)
    ensures
        spec_path_config(c) matches Some((sql, lim)) ==> {
            &&& c.limit_rows == Some(lim)
            &&& exists|pre: Seq<char>|
                #![trigger pre + ", "@]
                sql == pre + ", "@ + decimal(lim as nat) + ") AS h ON d."@ + c.id_ident->0@
                    + " = h.id ORDER BY h.score DESC, d."@ + c.id_ident->0@
        },
{
    if spec_path_config(c) is Some {
        let limit = c.limit_rows->0;
        let args = c.sort_expr->Function_args@;
        let text_col = spec_column_name(args[0], c.rti);
        let vec_col = spec_column_name(args[1], c.rti);
        let q_text = spec_const_literal(args[2]);
        let q_vec = spec_const_literal(args[3]);
        let k = if args.len() == 6 {
            spec_const_i32(args[4])
        } else {
            Some(DEFAULT_K)
        };
        let per_leg = if args.len() == 6 {
            spec_const_i32(args[5])
        } else {
            Some(DEFAULT_PER_LEG)
        };
        let pre = "SELECT d.* FROM "@ + c.relation_sql->0@ + " AS d JOIN glot.hybrid("@ + decimal(
            c.relation_oid as nat,
        ) + "::oid::regclass, 'id', "@ + spec_quote_literal(text_col->0) + ", "@
            + spec_quote_literal(vec_col->0) + ", "@ + q_text->0 + ", "@ + q_vec->0
            + "::vector, "@ + decimal(k->0 as nat) + ", "@ + decimal(per_leg->0 as nat);
        let cfg = spec_path_config(c)->0;
        let sql = cfg.0;
        assert(sql == pre + ", "@ + decimal(limit as nat) + ") AS h ON d."@ + c.id_ident->0@
            + " = h.id ORDER BY h.score DESC, d."@ + c.id_ident->0@);
    }
}

/// Position of a rank scan in its candidate rows: rows are handed out in
/// order, once each, until a rescan starts over.
pub struct CandidateCursor {
    len: usize,
    next: usize,
}

impl View for CandidateCursor {
    type V = (int, int);

    closed spec fn view(&self) -> (int, int) {
        (self.len as int, self.next as int)
    }
}

/// One call of the row getter on a cursor `(len, next)`: the next row's
/// index and the cursor one further, or nothing once all rows are out.
pub open spec fn spec_next_candidate(v: (int, int)) -> ((int, int), Option<int>) {
    if v.1 < v.0 {
        ((v.0, v.1 + 1), Some(v.1))
    } else {
        (v, None)
    }
}

/// The cursor after `k` successive calls of the row getter, and what they
/// handed out, in order.
pub open spec fn candidates_after(v: (int, int), k: nat) -> ((int, int), Seq<Option<int>>)
    decreases k,
{
    if k == 0 {
        (v, Seq::empty())
    } else {
        let step = spec_next_candidate(v);
        let rest = candidates_after(step.0, (k - 1) as nat);
        (rest.0, seq![step.1] + rest.1)
    }
}

/// From a cursor at row `next` of `len` (as after `new` or `rescan`, with
/// `next` 0), `k` successive calls hand out rows `next, next + 1, ...`, each
/// once and in order, while rows remain, and nothing afterwards; the cursor
/// then stands at `next + k`, or at `len` once all rows are out.
pub proof fn law_cursor_hands_out_each_row_once(len: int, next: int, k: nat)
    requires
        0 <= next <= len,
    ensures
        candidates_after((len, next), k).1.len() == k,
        forall|j: int|
            0 <= j < k ==> #[trigger] candidates_after((len, next), k).1[j] == if next + j < len {
                Some(next + j)
            } else {
                None::<int>
            },
        candidates_after((len, next), k).0 == (len, if next + k < len {
            next + k
        } else {
            len
        }),
    decreases k,
{
    if k > 0 {
        let step = spec_next_candidate((len, next));
        law_cursor_hands_out_each_row_once(len, step.0.1, (k - 1) as nat);
        let rest = candidates_after(step.0, (k - 1) as nat);
        assert forall|j: int| 0 <= j < k implies #[trigger] candidates_after((len, next), k).1[j]
            == if next + j < len {
            Some(next + j)
        } else {
            None::<int>
        } by {
            if j > 0 {
                assert(candidates_after((len, next), k).1[j] == rest.1[j - 1]);
            }
        }
    }
}

impl CandidateCursor {
    #[verifier::type_invariant]
    closed spec fn wf(&self) -> bool {
        self.next <= self.len
    }

    /// A cursor over `len` candidate rows, at the first.
    pub fn new(len: usize) -> (c: CandidateCursor)
        ensures
            c@ == (len as int, 0int),
    {
        CandidateCursor { len, next: 0 }
    }

    /// Index of the next candidate row, or `None` once all are out.
    pub fn next_candidate(&mut self) -> (r: Option<usize>)
        ensures
            (final(self)@, match r {
                Some(i) => Some(i as int),
                None => None,
            }) == spec_next_candidate(old(self)@),
            0 <= final(self)@.1 <= final(self)@.0,
    {
        proof {
            use_type_invariant(&*self);
        }
        if self.next < self.len {
            let i = self.next;
            self.next = self.next + 1;
            Some(i)
        } else {
            None
        }
    }

    /// Starts over at the first row.
    pub fn rescan(&mut self)
        ensures
            final(self)@ == (old(self)@.0, 0int),
    {
        self.next = 0;
    }
}

} // verus!
