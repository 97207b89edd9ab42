use vstd::prelude::*;
use vstd::string::StringExecFns;
use vstd::string::StrSliceExecFns;
use crate::lang::chars_of;

verus! {

/// A character of a literal body as quoted SQL writes it: quotes and
/// backslashes doubled, everything else as is.
pub open spec fn sql_char(c: char) -> Seq<char> {
    if c == '\'' || c == '\\' {
        seq![c, c]
    } else {
        seq![c]
    }
}

/// The body of a quoted literal.
pub open spec fn sql_body(s: Seq<char>) -> Seq<char>
    decreases s.len(),
{
    if s.len() == 0 {
        Seq::empty()
    } else {
        sql_body(s.drop_last()) + sql_char(s.last())
    }
}

/// A string as a SQL literal, as PostgreSQL's `quote_literal_cstr` writes it:
/// in single quotes with quotes and backslashes doubled, and prefixed by `E`
/// when it holds a backslash.
pub open spec fn spec_quote_literal(s: Seq<char>) -> Seq<char> {
    (if s.contains('\\') {
        seq!['E']
    } else {
        Seq::<char>::empty()
    }) + seq!['\''] + sql_body(s) + seq!['\'']
}

proof fn lemma_sql_body_concat(a: Seq<char>, b: Seq<char>)
    ensures
        sql_body(a + b) == sql_body(a) + sql_body(b),
    decreases b.len(),
{
    if b.len() == 0 {
        assert(a + b =~= a);
        assert(sql_body(a) + sql_body(b) =~= sql_body(a));
    } else {
        lemma_sql_body_concat(a, b.drop_last());
        assert((a + b).drop_last() =~= a + b.drop_last());
        assert((a + b).last() == b.last());
        assert(sql_body(a) + sql_body(b.drop_last()) + sql_char(b.last()) =~= sql_body(a) + (
        sql_body(b.drop_last()) + sql_char(b.last())));
    }
}

proof fn lemma_sql_body_plain(s: Seq<char>)
    requires
        forall|i: int| 0 <= i < s.len() ==> #[trigger] s[i] != '\'' && s[i] != '\\',
    ensures
        sql_body(s) == s,
    decreases s.len(),
{
    if s.len() > 0 {
        lemma_sql_body_plain(s.drop_last());
        assert(s.drop_last() + seq![s.last()] =~= s);
    }
}

proof fn lemma_quote_step(s: Seq<char>, seg: int, i: int)
    requires
        0 <= seg <= i < s.len(),
        forall|j: int| seg <= j < i ==> #[trigger] s[j] != '\'' && s[j] != '\\',
        s[i] == '\'' || s[i] == '\\',
    ensures
        sql_body(s.take(i + 1)) == sql_body(s.take(seg)) + (s.subrange(seg, i) + seq![s[i], s[i]]),
{
    let mid = s.subrange(seg, i);
    let c = s[i];
    lemma_sql_body_plain(mid);
    assert(s.take(i + 1) =~= s.take(seg) + mid.push(c));
    lemma_sql_body_concat(s.take(seg), mid.push(c));
    assert(mid.push(c).drop_last() =~= mid);
    assert(sql_body(mid.push(c)) =~= mid + seq![c, c]);
}

/// Quotes a string as a SQL literal, as PostgreSQL's `quote_literal_cstr` does.
pub fn quote_literal(s: &str) -> (r: String)
    ensures
        r@ == spec_quote_literal(s@),
{
    proof {
        reveal_strlit("E'");
        reveal_strlit("'");
        reveal_strlit("\\");
    }
    let cs = chars_of(s);
    let n = cs.len();
    let mut has_backslash = false;
    let mut i: usize = 0;
    while i < n
        invariant
            n == cs@.len(),
            cs@ == s@,
            i <= n,
            has_backslash == (exists|j: int| 0 <= j < i && cs@[j] == '\\'),
        decreases n - i,
    {
        if cs[i] == '\\' {
            has_backslash = true;
        }
        i = i + 1;
    }
    proof {
        if has_backslash {
            let j = choose|j: int| 0 <= j < n && cs@[j] == '\\';
            assert(s@.contains('\\')) by {
                assert(s@[j] == '\\');
            }
        } else {
            assert(!s@.contains('\\'));
        }
    }
    let mut r = if has_backslash {
        String::from_str("E'")
    } else {
        String::from_str("'")
    };
    let ghost prefix = r@;
    assert(prefix == (if s@.contains('\\') {
        seq!['E']
    } else {
        Seq::<char>::empty()
    }) + seq!['\'']);
    let mut seg: usize = 0;
    let mut i: usize = 0;
    assert(s@.take(0) =~= Seq::<char>::empty());
    assert(prefix + sql_body(s@.take(0)) =~= prefix);
    while i < n
        invariant
            n == cs@.len(),
            cs@ == s@,
            seg <= i <= n,
            forall|j: int| seg <= j < i ==> #[trigger] s@[j] != '\'' && s@[j] != '\\',
            r@ == prefix + sql_body(s@.take(seg as int)),
        decreases n - i,
    {
        let c = cs[i];
        if c == '\'' || c == '\\' {
            let piece = s.substring_char(seg, i + 1);
            let ghost before = r@;
            r.append(piece);
            if c == '\'' {
                r.append("'");
            } else {
                r.append("\\");
            }
            proof {
                reveal_strlit("'");
                reveal_strlit("\\");
                lemma_quote_step(s@, seg as int, i as int);
                let mid = s@.subrange(seg as int, i as int);
                assert(piece@ =~= mid.push(c));
                if c == '\'' {
                    assert("'"@ =~= seq![c]);
                } else {
                    assert("\\"@ =~= seq![c]);
                }
                assert(r@ =~= prefix + sql_body(s@.take(i + 1)));
            }
            seg = i + 1;
        }
        i = i + 1;
    }
    let rest = s.substring_char(seg, n);
    r.append(rest);
    r.append("'");
    proof {
        let mid = s@.subrange(seg as int, n as int);
        lemma_sql_body_plain(mid);
        assert(s@ =~= s@.take(seg as int) + mid);
        lemma_sql_body_concat(s@.take(seg as int), mid);
        assert(r@ =~= spec_quote_literal(s@));
    }
    r
}

/// The decimal digit `d` (0 to 9).
pub open spec fn digit_char(d: nat) -> char {
    if d == 0 {
        '0'
    } else if d == 1 {
        '1'
    } else if d == 2 {
        '2'
    } else if d == 3 {
        '3'
    } else if d == 4 {
        '4'
    } else if d == 5 {
        '5'
    } else if d == 6 {
        '6'
    } else if d == 7 {
        '7'
    } else if d == 8 {
        '8'
    } else {
        '9'
    }
}

/// Decimal notation of a natural number, without leading zeros.
pub open spec fn decimal(n: nat) -> Seq<char>
    decreases n,
{
    if n < 10 {
        seq![digit_char(n)]
    } else {
        decimal(n / 10).push(digit_char(n % 10))
    }
}

fn digit_str(d: u32) -> (r: &'static str)
    requires
        d < 10,
    ensures
        r@ == seq![digit_char(d as nat)],
{
    proof {
        reveal_strlit("0");
        reveal_strlit("1");
        reveal_strlit("2");
        reveal_strlit("3");
        reveal_strlit("4");
        reveal_strlit("5");
        reveal_strlit("6");
        reveal_strlit("7");
        reveal_strlit("8");
        reveal_strlit("9");
    }
    if d == 0 {
        "0"
    } else if d == 1 {
        "1"
    } else if d == 2 {
        "2"
    } else if d == 3 {
        "3"
    } else if d == 4 {
        "4"
    } else if d == 5 {
        "5"
    } else if d == 6 {
        "6"
    } else if d == 7 {
        "7"
    } else if d == 8 {
        "8"
    } else {
        "9"
    }
}

/// Decimal notation of `n`.
pub fn decimal_string(n: u32) -> (r: String)
    ensures
        r@ == decimal(n as nat),
    decreases n,
{
    if n < 10 {
        String::from_str(digit_str(n))
    } else {
        let mut s = decimal_string(n / 10);
        s.append(digit_str(n % 10));
        s
    }
}

} // verus!
