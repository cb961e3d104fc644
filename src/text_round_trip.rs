//! Reading back the text that the formatter writes.
use vstd::prelude::*;
use crate::config::{ScriptConfig, TaggedValue};
use crate::format::{
    arg_text, args_text, display_name, line_depth, next_depth, render, render_step, render_text,
    schema_of, spaces, INDENT_SPACES,
};
use crate::parser::{ArgVal, IdentView, InstrView};
use crate::rebuilder::{digits_value, is_digit, CallView, ParsedArg};
use crate::round_trip::{
    call_arg_of, call_args_of, call_of, calls_of, catalog_consistent, lemma_digits_of, law_round_trip,
    law_values_round_trip, instr_fits, flat, records_of,
};
use crate::endian::Endian;
use crate::parser::decode_script;
use crate::rebuilder::encode_program;
use crate::script::{
    byte_string, enclosed, find_char, has_prefix, hex_bytes, hex_val, is_hex, is_space, parse_arg,
    parse_args, parse_i32, parse_line, parse_lines, parse_script_text, split_args, split_on,
    split_state, split_step, trim, trim_end, trim_start, unescape, SplitState,
};
use crate::text::{char_of, decimal_of, digit_char, digits_of, hex_digit, hex_upper};

verus! {

/// A decimal number reads back as itself.
pub proof fn lemma_parse_decimal(n: i32)
    ensures
        parse_i32(decimal_of(n as int)) == Some(n),
{
    let s = decimal_of(n as int);
    if n < 0 {
        let d = digits_of((-(n as int)) as nat);
        lemma_digits_of((-(n as int)) as nat);
        assert(s.skip(1) =~= d);
        assert(s[0] == '-');
    } else {
        let d = digits_of(n as nat);
        lemma_digits_of(n as nat);
        assert(is_digit(d[0]));
    }
}

proof fn lemma_hex_digit(d: nat)
    requires
        d < 16,
    ensures
        is_hex(hex_digit(d)),
        hex_val(hex_digit(d)) == d,
{
    if d < 10 {
        assert(digit_char(d) as u32 == 48 + d);
    } else {
        assert(char_of((55 + d) as u8) as u32 == 55 + d);
    }
}

proof fn lemma_hex_upper_shape(b: Seq<u8>)
    ensures
        hex_upper(b).len() == 2 * b.len(),
        forall|i: int|
            0 <= i < b.len() ==> hex_upper(b)[2 * i] == hex_digit((b[i] / 16) as nat) && hex_upper(
                b,
            )[2 * i + 1] == hex_digit((b[i] % 16) as nat),
    decreases b.len(),
{
    if b.len() > 0 {
        lemma_hex_upper_shape(b.drop_last());
        let h = hex_upper(b);
        let h0 = hex_upper(b.drop_last());
        assert forall|i: int| 0 <= i < b.len() implies h[2 * i] == hex_digit((b[i] / 16) as nat)
            && h[2 * i + 1] == hex_digit((b[i] % 16) as nat) by {
            if i < b.len() - 1 {
                assert(b.drop_last()[i] == b[i]);
                assert(h[2 * i] == h0[2 * i]);
                assert(h[2 * i + 1] == h0[2 * i + 1]);
            }
        }
    }
}

/// Upper-case hex digits read back as the bytes they were written for.
pub proof fn lemma_hex_round_trip(b: Seq<u8>)
    ensures
        hex_bytes(hex_upper(b)) == Some(b),
{
    lemma_hex_upper_shape(b);
    let h = hex_upper(b);
    assert forall|i: int| 0 <= i < h.len() implies is_hex(#[trigger] h[i]) by {
        let j = i / 2;
        if i % 2 == 0 {
            assert(i == 2 * j);
            lemma_hex_digit((b[j] / 16) as nat);
        } else {
            assert(i == 2 * j + 1);
            lemma_hex_digit((b[j] % 16) as nat);
        }
    }
    let r = Seq::new((h.len() / 2) as nat, |i: int| (16 * hex_val(h[2 * i]) + hex_val(h[2 * i + 1])) as u8);
    assert forall|i: int| 0 <= i < b.len() implies r[i] == b[i] by {
        lemma_hex_digit((b[i] / 16) as nat);
        lemma_hex_digit((b[i] % 16) as nat);
        let x = b[i];
        assert(16 * (x / 16) + x % 16 == x);
    }
    assert(r =~= b);
}

/// The state of the argument splitter after `s`, starting from `st`.
pub open spec fn split_from(st: SplitState, s: Seq<char>) -> SplitState
    decreases s.len(),
{
    if s.len() == 0 {
        st
    } else {
        split_step(split_from(st, s.drop_last()), s.last())
    }
}

pub open spec fn split_start() -> SplitState {
    SplitState { parts: seq![Seq::empty()], quoted: false, escaped: false, depth: 0 }
}

pub proof fn lemma_split_state_from(s: Seq<char>)
    ensures
        split_state(s) == split_from(split_start(), s),
    decreases s.len(),
{
    if s.len() > 0 {
        lemma_split_state_from(s.drop_last());
    }
}

pub proof fn lemma_split_concat(st: SplitState, a: Seq<char>, b: Seq<char>)
    ensures
        split_from(st, a + b) == split_from(split_from(st, a), b),
    decreases b.len(),
{
    if b.len() == 0 {
        assert(a + b =~= a);
    } else {
        lemma_split_concat(st, a, b.drop_last());
        assert((a + b).drop_last() =~= a + b.drop_last());
        assert((a + b).last() == b.last());
    }
}

/// The splitter's state with `x` added to the argument it is building.
pub open spec fn extend(st: SplitState, x: Seq<char>) -> SplitState {
    SplitState { parts: st.parts.update(st.parts.len() - 1, st.parts.last() + x), ..st }
}

/// Characters that change the splitter's state outside quotes.
pub open spec fn structural(c: char) -> bool {
    c == ',' || c == '(' || c == ')' || c == '\'' || c == '\\'
}

/// Text without parentheses, quotes or backslashes; commas allowed.
pub open spec fn paren_safe(x: Seq<char>) -> bool {
    forall|i: int| 0 <= i < x.len() ==> #[trigger] x[i] != '(' && x[i] != ')' && x[i] != '\''
        && x[i] != '\\'
}

/// Text without any character that changes the splitter's state.
pub open spec fn plain(x: Seq<char>) -> bool {
    forall|i: int| 0 <= i < x.len() ==> !structural(#[trigger] x[i])
}

/// Text inside quotes where each backslash comes just before a quote and each
/// quote just after a backslash.
pub open spec fn quote_safe(x: Seq<char>) -> bool {
    &&& forall|i: int| 0 <= i < x.len() && #[trigger] x[i] == '\\' ==> i + 1 < x.len() && x[i + 1] == '\''
    &&& forall|i: int| 0 <= i < x.len() && #[trigger] x[i] == '\'' ==> i > 0 && x[i - 1] == '\\'
}

pub open spec fn clean(st: SplitState) -> bool {
    st.parts.len() > 0 && !st.quoted && !st.escaped && st.depth == 0
}

/// Text that the splitter takes into the current argument, from any clean state
/// back to it.
pub open spec fn balanced(x: Seq<char>) -> bool {
    forall|st: SplitState| #[trigger] clean(st) ==> split_from(st, x) == extend(st, x)
}

proof fn lemma_extend_push(st: SplitState, x: Seq<char>, c: char)
    requires
        st.parts.len() > 0,
    ensures
        (SplitState { parts: crate::script::append_char(extend(st, x), c), ..extend(st, x) }) == extend(
            st,
            x.push(c),
        ),
{
    assert(crate::script::append_char(extend(st, x), c) =~= extend(st, x.push(c)).parts);
}

/// Outside quotes and inside parentheses, text without parentheses, quotes or
/// backslashes goes into the current argument.
pub proof fn lemma_paren_safe(st: SplitState, x: Seq<char>)
    requires
        st.parts.len() > 0,
        !st.quoted,
        !st.escaped,
        st.depth > 0,
        paren_safe(x),
    ensures
        split_from(st, x) == extend(st, x),
    decreases x.len(),
{
    if x.len() == 0 {
        assert(st.parts.last() + x =~= st.parts.last());
        assert(st.parts.update(st.parts.len() - 1, st.parts.last()) =~= st.parts);
    } else {
        assert forall|i: int| 0 <= i < x.drop_last().len() implies #[trigger] x.drop_last()[i] != '('
            && x.drop_last()[i] != ')' && x.drop_last()[i] != '\'' && x.drop_last()[i] != '\\' by {
            assert(x.drop_last()[i] == x[i]);
        }
        lemma_paren_safe(st, x.drop_last());
        assert(x[x.len() - 1] == x.last());
        lemma_extend_push(st, x.drop_last(), x.last());
        assert(x.drop_last().push(x.last()) =~= x);
    }
}

/// Outside quotes, text without any state-changing character goes into the
/// current argument.
pub proof fn lemma_plain(st: SplitState, x: Seq<char>)
    requires
        st.parts.len() > 0,
        !st.quoted,
        !st.escaped,
        plain(x),
    ensures
        split_from(st, x) == extend(st, x),
    decreases x.len(),
{
    if x.len() == 0 {
        assert(st.parts.last() + x =~= st.parts.last());
        assert(st.parts.update(st.parts.len() - 1, st.parts.last()) =~= st.parts);
    } else {
        assert forall|i: int| 0 <= i < x.drop_last().len() implies !structural(#[trigger] x.drop_last()[i]) by {
            assert(x.drop_last()[i] == x[i]);
        }
        lemma_plain(st, x.drop_last());
        assert(x[x.len() - 1] == x.last());
        lemma_extend_push(st, x.drop_last(), x.last());
        assert(x.drop_last().push(x.last()) =~= x);
    }
}

/// Inside quotes, text where backslashes and quotes come in escaped pairs goes
/// into the current argument, and the quotes stay open.
proof fn lemma_quoted_prefix(st: SplitState, x: Seq<char>, k: int)
    requires
        st.parts.len() > 0,
        st.quoted,
        !st.escaped,
        quote_safe(x),
        0 <= k <= x.len(),
    ensures
        split_from(st, x.take(k)) == (SplitState {
            escaped: k > 0 && x[k - 1] == '\\',
            ..extend(st, x.take(k))
        }),
    decreases k,
{
    if k == 0 {
        assert(x.take(0) =~= Seq::<char>::empty());
        assert(st.parts.last() + x.take(0) =~= st.parts.last());
        assert(st.parts.update(st.parts.len() - 1, st.parts.last()) =~= st.parts);
    } else {
        lemma_quoted_prefix(st, x, k - 1);
        assert(x.take(k).drop_last() =~= x.take(k - 1));
        assert(x.take(k).last() == x[k - 1]);
        lemma_extend_push(st, x.take(k - 1), x[k - 1]);
        assert(x.take(k - 1).push(x[k - 1]) =~= x.take(k));
        if k >= 2 && x[k - 2] == '\\' {
            assert(x[k - 1] == '\'');
        }
        if x[k - 1] == '\'' {
            assert(k >= 2 && x[k - 2] == '\\');
        }
    }
}

/// A quoted text, with the quotes: it opens and closes them.
pub proof fn lemma_quoted(x: Seq<char>)
    requires
        quote_safe(x),
    ensures
        balanced(seq!['\''] + x + seq!['\'']),
{
    assert forall|st: SplitState| #[trigger] clean(st) implies split_from(st, seq!['\''] + x + seq!['\''])
        == extend(st, seq!['\''] + x + seq!['\'']) by {
        let q = seq!['\''];
        lemma_split_concat(st, q + x, q);
        lemma_split_concat(st, q, x);
        assert(q.drop_last() =~= Seq::<char>::empty());
        assert(q.last() == '\'');
        assert(split_from(st, q) == split_step(split_from(st, q.drop_last()), q.last()));
        let st1 = split_from(st, q);
        assert(split_from(st, Seq::<char>::empty()) == st);
        assert(st1 == SplitState { quoted: true, ..extend(st, q) }) by {
            assert(st.parts.last() + q =~= st.parts.last().push('\''));
            assert(crate::script::append_char(st, '\'') =~= extend(st, q).parts);
        }
        lemma_quoted_prefix(st1, x, x.len() as int);
        assert(x.take(x.len() as int) =~= x);
        if x.len() > 0 {
            assert(x[x.len() - 1] != '\\');
        }
        let st2 = split_from(st1, x);
        assert(st2 == SplitState { quoted: true, escaped: false, ..extend(st1, x) });
        assert(split_from(st2, q) == split_step(split_from(st2, q.drop_last()), q.last()));
        assert(split_from(st2, q.drop_last()) == st2);
        assert(st1.parts.last() + x =~= st.parts.last() + (q + x));
        assert(extend(st1, x).parts =~= extend(st, q + x).parts);
        assert(st2.parts.last().push('\'') =~= st.parts.last() + (q + x + q));
        assert(crate::script::append_char(st2, '\'') =~= extend(st, q + x + q).parts);
    }
}

/// Parentheses around text without parentheses, quotes or backslashes.
pub proof fn lemma_parens(x: Seq<char>)
    requires
        paren_safe(x),
    ensures
        balanced(seq!['('] + x + seq![')']),
{
    assert forall|st: SplitState| #[trigger] clean(st) implies split_from(st, seq!['('] + x + seq![')'])
        == extend(st, seq!['('] + x + seq![')']) by {
        let o = seq!['('];
        let c = seq![')'];
        lemma_split_concat(st, o + x, c);
        lemma_split_concat(st, o, x);
        assert(o.drop_last() =~= Seq::<char>::empty());
        assert(c.drop_last() =~= Seq::<char>::empty());
        assert(o.last() == '(');
        assert(c.last() == ')');
        assert(split_from(st, o) == split_step(split_from(st, o.drop_last()), o.last()));
        let st1 = split_from(st, o);
        assert(split_from(st, Seq::<char>::empty()) == st);
        assert(st1 == SplitState { depth: 1, ..extend(st, o) }) by {
            assert(st.parts.last() + o =~= st.parts.last().push('('));
            assert(crate::script::append_char(st, '(') =~= extend(st, o).parts);
        }
        lemma_paren_safe(st1, x);
        let st2 = split_from(st1, x);
        assert(split_from(st2, Seq::<char>::empty()) == st2);
        assert(split_from(st2, c) == split_step(split_from(st2, c.drop_last()), c.last()));
        assert(split_from(st2, c.drop_last()) == st2);
        assert(st1.parts.last() + x =~= st.parts.last() + (o + x));
        assert(extend(st1, x).parts =~= extend(st, o + x).parts);
        assert(st2.parts.last().push(')') =~= st.parts.last() + (o + x + c));
        assert(crate::script::append_char(st2, ')') =~= extend(st, o + x + c).parts);
    }
}

pub proof fn lemma_plain_balanced(x: Seq<char>)
    requires
        plain(x),
    ensures
        balanced(x),
{
    assert forall|st: SplitState| #[trigger] clean(st) implies split_from(st, x) == extend(st, x) by {
        lemma_plain(st, x);
    }
}

pub proof fn lemma_balanced_concat(a: Seq<char>, b: Seq<char>)
    requires
        balanced(a),
        balanced(b),
    ensures
        balanced(a + b),
{
    assert forall|st: SplitState| #[trigger] clean(st) implies split_from(st, a + b) == extend(st, a + b) by {
        lemma_split_concat(st, a, b);
        let st1 = split_from(st, a);
        assert(split_from(st, a) == extend(st, a));
        assert(clean(st1));
        assert(split_from(st1, b) == extend(st1, b));
        assert(st1.parts.last() + b =~= st.parts.last() + (a + b));
        assert(extend(st1, b).parts =~= extend(st, a + b).parts);
    }
}

/// A name that reads back as itself: no character that the text form gives a
/// meaning, no line break or colon, no space at either end.
pub open spec fn word(w: Seq<char>) -> bool {
    &&& w.len() > 0
    &&& plain(w)
    &&& forall|i: int| 0 <= i < w.len() ==> #[trigger] w[i] != '\n' && w[i] != ':'
    &&& !is_space(w[0])
    &&& !is_space(w.last())
}

/// Text of a fixed string that reads back as itself: escaped quotes only,
/// characters below 256, no line break.
pub open spec fn string_safe(s: Seq<char>) -> bool {
    &&& quote_safe(s)
    &&& forall|i: int| 0 <= i < s.len() ==> (#[trigger] s[i] as u32) < 256 && s[i] != '\n'
}

/// An argument whose text reads back as the call argument it stands for.
pub open spec fn arg_safe(cfg: ScriptConfig, a: ArgVal) -> bool {
    match a {
        ArgVal::String16(s) => string_safe(s),
        ArgVal::String32(s) => string_safe(s),
        ArgVal::AccessedValue(TaggedValue::Variable(v)) => cfg.variables().contains_key(v) ==> word(
            cfg.variables()[v],
        ) && parse_i32(cfg.variables()[v]) is None,
        ArgVal::Enum(name, v) => cfg.enum_map(name) matches Some(m) && (m.contains_key(v) ==> word(
            m[v],
        )),
        _ => true,
    }
}

pub open spec fn no_newline(t: Seq<char>) -> bool {
    forall|i: int| 0 <= i < t.len() ==> #[trigger] t[i] != '\n'
}

/// Text that sits in a line as one argument: it splits as one piece, has no
/// space at either end and no line break.
pub open spec fn arg_piece(t: Seq<char>) -> bool {
    &&& t.len() > 0
    &&& balanced(t)
    &&& !is_space(t[0])
    &&& !is_space(t.last())
    &&& no_newline(t)
}

proof fn lemma_trim_same(x: Seq<char>)
    requires
        x.len() > 0,
        !is_space(x[0]),
        !is_space(x.last()),
    ensures
        trim(x) == x,
{
}

proof fn lemma_not_prefix(t: Seq<char>, p: Seq<char>, i: int, c: char)
    requires
        0 <= i < p.len(),
        i < t.len() ==> t[i] != p[i],
    ensures
        !has_prefix(t, p),
        enclosed(t, p, c) is None,
{
    if has_prefix(t, p) {
        assert(t.take(p.len() as int)[i] == t[i]);
    }
}

proof fn lemma_decimal_shape(n: int)
    requires
        i32::MIN <= n <= i32::MAX,
    ensures
        decimal_of(n).len() > 0,
        is_digit(decimal_of(n)[0]) || decimal_of(n)[0] == '-',
        decimal_of(n).len() >= 2 ==> is_digit(decimal_of(n)[1]),
        is_digit(decimal_of(n).last()),
        plain(decimal_of(n)),
        forall|i: int| 0 <= i < decimal_of(n).len() ==> #[trigger] decimal_of(n)[i] != '\n' && decimal_of(n)[i]
            != ' ' && decimal_of(n)[i] != ',' && decimal_of(n)[i] != 'x',
{
    let m: nat = if n < 0 { (-n) as nat } else { n as nat };
    lemma_digits_of(m);
    let d = digits_of(m);
    let t = decimal_of(n);
    if n < 0 {
        assert forall|i: int| 0 <= i < t.len() implies t[i] == '-' || is_digit(#[trigger] t[i]) by {
            if i > 0 {
                assert(t[i] == d[i - 1]);
            }
        }
    } else {
        assert(t == d);
    }
    assert(forall|i: int| 0 <= i < t.len() ==> t[i] == '-' || is_digit(#[trigger] t[i]));
}

proof fn lemma_arg_text_number(cfg: ScriptConfig, a: ArgVal)
    requires
        arg_safe(cfg, a),
        arg_text(cfg, a) is Ok,
    ensures
        (a matches ArgVal::Number(n)) ==> arg_piece(arg_text(cfg, a)->Ok_0) && parse_arg(arg_text(cfg, a)->Ok_0) == Some(
            call_arg_of(cfg, a),
        ),
{
    reveal_strlit("s32'");
    reveal_strlit("s16'");
    reveal_strlit("0x");
    reveal_strlit("(");
    reveal_strlit(")");
    reveal_strlit("'");
    reveal_strlit("Mem(");
    reveal_strlit("Val(");
    reveal_strlit("BadTag(");
    reveal_strlit(", ");
    let t = arg_text(cfg, a)->Ok_0;
    match a {
        ArgVal::Number(n) => {
            lemma_decimal_shape(n as int);
            lemma_parse_decimal(n);
            lemma_plain_balanced(t);
            lemma_not_prefix(t, "s32'"@, 0, '\'');
            lemma_not_prefix(t, "s16'"@, 0, '\'');
            lemma_not_prefix(t, "0x"@, 1, ' ');
            lemma_not_prefix(t, "("@, 0, ')');
            lemma_not_prefix(t, "Mem("@, 0, ')');
            lemma_not_prefix(t, "Val("@, 0, ')');
            lemma_not_prefix(t, "BadTag("@, 0, ')');
        },
        _ => {},
    }
}

proof fn lemma_arg_text_literal(cfg: ScriptConfig, a: ArgVal)
    requires
        arg_safe(cfg, a),
        arg_text(cfg, a) is Ok,
    ensures
        (a matches ArgVal::AccessedValue(TaggedValue::Literal(v))) ==> arg_piece(arg_text(cfg, a)->Ok_0) && parse_arg(arg_text(cfg, a)->Ok_0) == Some(
            call_arg_of(cfg, a),
        ),
{
    reveal_strlit("s32'");
    reveal_strlit("s16'");
    reveal_strlit("0x");
    reveal_strlit("(");
    reveal_strlit(")");
    reveal_strlit("'");
    reveal_strlit("Mem(");
    reveal_strlit("Val(");
    reveal_strlit("BadTag(");
    reveal_strlit(", ");
    let t = arg_text(cfg, a)->Ok_0;
    match a {
        ArgVal::AccessedValue(TaggedValue::Literal(v)) => {
            let d = decimal_of(v as int);
            lemma_decimal_shape(v as int);
            lemma_parse_decimal(v);
            assert(t == "Val("@ + d + ")"@);
            assert(t =~= seq!['V', 'a', 'l'] + (seq!['('] + d + seq![')']));
            assert(t.take(4) =~= "Val("@);
            assert(t.last() == ')');
            lemma_word_paren(seq!['V', 'a', 'l'], d);
            lemma_not_prefix(t, "s32'"@, 0, '\'');
            lemma_not_prefix(t, "s16'"@, 0, '\'');
            lemma_not_prefix(t, "0x"@, 0, ' ');
            lemma_not_prefix(t, "("@, 0, ')');
            lemma_not_prefix(t, "Mem("@, 0, ')');
            assert(t.subrange(4, t.len() - 1) =~= d);
            lemma_trim_same(d);
        },
        _ => {},
    }
}

proof fn lemma_arg_text_variable(cfg: ScriptConfig, a: ArgVal)
    requires
        arg_safe(cfg, a),
        arg_text(cfg, a) is Ok,
    ensures
        (a matches ArgVal::AccessedValue(TaggedValue::Variable(v))) ==> arg_piece(arg_text(cfg, a)->Ok_0) && parse_arg(arg_text(cfg, a)->Ok_0) == Some(
            call_arg_of(cfg, a),
        ),
{
    reveal_strlit("s32'");
    reveal_strlit("s16'");
    reveal_strlit("0x");
    reveal_strlit("(");
    reveal_strlit(")");
    reveal_strlit("'");
    reveal_strlit("Mem(");
    reveal_strlit("Val(");
    reveal_strlit("BadTag(");
    reveal_strlit(", ");
    let t = arg_text(cfg, a)->Ok_0;
    match a {
        ArgVal::AccessedValue(TaggedValue::Variable(v)) => {
            let inner = if cfg.variables().contains_key(v) {
                cfg.variables()[v]
            } else {
                decimal_of(v as int)
            };
            if cfg.variables().contains_key(v) {
                assert(plain(inner));
            } else {
                lemma_decimal_shape(v as int);
                lemma_parse_decimal(v);
            }
            assert(t == "Mem("@ + inner + ")"@);
            assert(t =~= seq!['M', 'e', 'm'] + (seq!['('] + inner + seq![')']));
            assert(t.take(4) =~= "Mem("@);
            assert(t.last() == ')');
            lemma_word_paren(seq!['M', 'e', 'm'], inner);
            lemma_not_prefix(t, "s32'"@, 0, '\'');
            lemma_not_prefix(t, "s16'"@, 0, '\'');
            lemma_not_prefix(t, "0x"@, 0, ' ');
            lemma_not_prefix(t, "("@, 0, ')');
            assert(t.subrange(4, t.len() - 1) =~= inner);
            lemma_trim_same(inner);
        },
        _ => {},
    }
}

proof fn lemma_arg_text_improper(cfg: ScriptConfig, a: ArgVal)
    requires
        arg_safe(cfg, a),
        arg_text(cfg, a) is Ok,
    ensures
        (a matches ArgVal::AccessedValue(TaggedValue::Improper { tag, value })) ==> arg_piece(arg_text(cfg, a)->Ok_0) && parse_arg(arg_text(cfg, a)->Ok_0) == Some(
            call_arg_of(cfg, a),
        ),
{
    reveal_strlit("s32'");
    reveal_strlit("s16'");
    reveal_strlit("0x");
    reveal_strlit("(");
    reveal_strlit(")");
    reveal_strlit("'");
    reveal_strlit("Mem(");
    reveal_strlit("Val(");
    reveal_strlit("BadTag(");
    reveal_strlit(", ");
    let t = arg_text(cfg, a)->Ok_0;
    match a {
        ArgVal::AccessedValue(TaggedValue::Improper { tag, value }) => {
            let d1 = decimal_of(tag as int);
            let d2 = decimal_of(value as int);
            lemma_decimal_shape(tag as int);
            lemma_decimal_shape(value as int);
            lemma_parse_decimal(tag);
            lemma_parse_decimal(value);
            let inner = d1 + seq![',', ' '] + d2;
            assert(t == "BadTag("@ + d1 + ", "@ + d2 + ")"@);
            assert(t =~= seq!['B', 'a', 'd', 'T', 'a', 'g'] + (seq!['('] + inner + seq![')']));
            assert(t.take(7) =~= "BadTag("@);
            assert(t.last() == ')');
            assert forall|i: int| 0 <= i < inner.len() implies #[trigger] inner[i] != '(' && inner[i]
                != ')' && inner[i] != '\'' && inner[i] != '\\' by {
                if i < d1.len() {
                    assert(inner[i] == d1[i]);
                    assert(!structural(d1[i]));
                } else if i >= d1.len() + 2 {
                    assert(inner[i] == d2[i - d1.len() - 2]);
                    assert(!structural(d2[i - d1.len() - 2]));
                }
            }
            lemma_parens(inner);
            assert(plain(seq!['B', 'a', 'd', 'T', 'a', 'g']));
            lemma_plain_balanced(seq!['B', 'a', 'd', 'T', 'a', 'g']);
            lemma_balanced_concat(seq!['B', 'a', 'd', 'T', 'a', 'g'], seq!['('] + inner + seq![')']);
            lemma_not_prefix(t, "s32'"@, 0, '\'');
            lemma_not_prefix(t, "s16'"@, 0, '\'');
            lemma_not_prefix(t, "0x"@, 0, ' ');
            lemma_not_prefix(t, "("@, 0, ')');
            lemma_not_prefix(t, "Mem("@, 0, ')');
            lemma_not_prefix(t, "Val("@, 0, ')');
            assert(t.subrange(7, t.len() - 1) =~= inner);
            lemma_split_pair(d1, d2);
            assert(seq![' '] + d2 == inner.subrange(d1.len() as int + 1, inner.len() as int));
            lemma_trim_same(d1);
            lemma_trim_same(d2);
            assert(trim(seq![' '] + d2) == trim(d2)) by {
                assert((seq![' '] + d2).skip(1) =~= d2);
            }
        },
        _ => {},
    }
}

proof fn lemma_arg_text_enum(cfg: ScriptConfig, a: ArgVal)
    requires
        arg_safe(cfg, a),
        arg_text(cfg, a) is Ok,
    ensures
        (a matches ArgVal::Enum(name, v)) ==> arg_piece(arg_text(cfg, a)->Ok_0) && parse_arg(arg_text(cfg, a)->Ok_0) == Some(
            call_arg_of(cfg, a),
        ),
{
    reveal_strlit("s32'");
    reveal_strlit("s16'");
    reveal_strlit("0x");
    reveal_strlit("(");
    reveal_strlit(")");
    reveal_strlit("'");
    reveal_strlit("Mem(");
    reveal_strlit("Val(");
    reveal_strlit("BadTag(");
    reveal_strlit(", ");
    let t = arg_text(cfg, a)->Ok_0;
    match a {
        ArgVal::Enum(name, v) => {
            let m = cfg.enum_map(name)->0;
            if m.contains_key(v) {
                let w = m[v];
                assert(t == "("@ + w + ")"@);
                assert(t =~= seq!['('] + w + seq![')']);
                assert(t.take(1) =~= "("@);
                assert(t.last() == ')');
                lemma_parens(w);
                lemma_not_prefix(t, "s32'"@, 0, '\'');
                lemma_not_prefix(t, "s16'"@, 0, '\'');
                lemma_not_prefix(t, "0x"@, 0, ' ');
                assert(t.subrange(1, t.len() - 1) =~= w);
                lemma_trim_same(w);
            } else {
                lemma_decimal_shape(v as int);
                lemma_parse_decimal(v);
                lemma_plain_balanced(t);
                lemma_not_prefix(t, "s32'"@, 0, '\'');
                lemma_not_prefix(t, "s16'"@, 0, '\'');
                lemma_not_prefix(t, "0x"@, 1, ' ');
                lemma_not_prefix(t, "("@, 0, ')');
                lemma_not_prefix(t, "Mem("@, 0, ')');
                lemma_not_prefix(t, "Val("@, 0, ')');
                lemma_not_prefix(t, "BadTag("@, 0, ')');
            }
        },
        _ => {},
    }
}

proof fn lemma_arg_text_raw(cfg: ScriptConfig, a: ArgVal)
    requires
        arg_safe(cfg, a),
        arg_text(cfg, a) is Ok,
    ensures
        (a matches ArgVal::Unknown(b)) ==> arg_piece(arg_text(cfg, a)->Ok_0) && parse_arg(arg_text(cfg, a)->Ok_0) == Some(
            call_arg_of(cfg, a),
        ),
{
    reveal_strlit("s32'");
    reveal_strlit("s16'");
    reveal_strlit("0x");
    reveal_strlit("(");
    reveal_strlit(")");
    reveal_strlit("'");
    reveal_strlit("Mem(");
    reveal_strlit("Val(");
    reveal_strlit("BadTag(");
    reveal_strlit(", ");
    let t = arg_text(cfg, a)->Ok_0;
    match a {
        ArgVal::Unknown(b) => {
            let h = hex_upper(b);
            lemma_hex_round_trip(b);
            lemma_hex_plain(b);
            assert(t == "0x"@ + h);
            assert(t =~= seq!['0', 'x'] + h);
            assert(t.take(2) =~= "0x"@);
            assert(plain(t)) by {
                assert forall|i: int| 0 <= i < t.len() implies !structural(#[trigger] t[i]) by {
                    if i >= 2 {
                        assert(t[i] == h[i - 2]);
                    }
                }
            }
            lemma_plain_balanced(t);
            lemma_not_prefix(t, "s32'"@, 0, '\'');
            lemma_not_prefix(t, "s16'"@, 0, '\'');
            assert(t.skip(2) =~= h);
            if h.len() > 0 {
                assert(t.last() == h.last());
            }
        },
        _ => {},
    }
}

proof fn lemma_arg_text_string16(cfg: ScriptConfig, a: ArgVal)
    requires
        arg_safe(cfg, a),
        arg_text(cfg, a) is Ok,
    ensures
        (a matches ArgVal::String16(x)) ==> arg_piece(arg_text(cfg, a)->Ok_0) && parse_arg(arg_text(cfg, a)->Ok_0) == Some(
            call_arg_of(cfg, a),
        ),
{
    reveal_strlit("s32'");
    reveal_strlit("s16'");
    reveal_strlit("0x");
    reveal_strlit("(");
    reveal_strlit(")");
    reveal_strlit("'");
    reveal_strlit("Mem(");
    reveal_strlit("Val(");
    reveal_strlit("BadTag(");
    reveal_strlit(", ");
    let t = arg_text(cfg, a)->Ok_0;
    match a {
        ArgVal::String16(x) => {
            lemma_string_piece(x, '1', '6');
            assert(t == "s16'"@ + x + "'"@);
            assert(t =~= seq!['s', '1', '6'] + (seq!['\''] + x + seq!['\'']));
            assert("s16'"@ =~= seq!['s', '1', '6', '\'']);
            lemma_not_prefix(t, "s32'"@, 1, '\'');
            assert(t.subrange(4, t.len() - 1) =~= x);
        },
        _ => {},
    }
}

proof fn lemma_arg_text_string32(cfg: ScriptConfig, a: ArgVal)
    requires
        arg_safe(cfg, a),
        arg_text(cfg, a) is Ok,
    ensures
        (a matches ArgVal::String32(x)) ==> arg_piece(arg_text(cfg, a)->Ok_0) && parse_arg(arg_text(cfg, a)->Ok_0) == Some(
            call_arg_of(cfg, a),
        ),
{
    reveal_strlit("s32'");
    reveal_strlit("s16'");
    reveal_strlit("0x");
    reveal_strlit("(");
    reveal_strlit(")");
    reveal_strlit("'");
    reveal_strlit("Mem(");
    reveal_strlit("Val(");
    reveal_strlit("BadTag(");
    reveal_strlit(", ");
    let t = arg_text(cfg, a)->Ok_0;
    match a {
        ArgVal::String32(x) => {
            lemma_string_piece(x, '3', '2');
            assert(t == "s32'"@ + x + "'"@);
            assert(t =~= seq!['s', '3', '2'] + (seq!['\''] + x + seq!['\'']));
            assert("s32'"@ =~= seq!['s', '3', '2', '\'']);
            assert(t.subrange(4, t.len() - 1) =~= x);
        },

        _ => {},
    }
}

/// The text of a safe argument sits in a line as one argument and reads back as
/// the call argument it stands for.
pub proof fn lemma_arg_text(cfg: ScriptConfig, a: ArgVal)
    requires
        arg_safe(cfg, a),
        arg_text(cfg, a) is Ok,
    ensures
        arg_piece(arg_text(cfg, a)->Ok_0),
        parse_arg(arg_text(cfg, a)->Ok_0) == Some(call_arg_of(cfg, a)),
{
    lemma_arg_text_number(cfg, a);
    lemma_arg_text_literal(cfg, a);
    lemma_arg_text_variable(cfg, a);
    lemma_arg_text_improper(cfg, a);
    lemma_arg_text_enum(cfg, a);
    lemma_arg_text_raw(cfg, a);
    lemma_arg_text_string16(cfg, a);
    lemma_arg_text_string32(cfg, a);
}

/// A plain word before text in parentheses.
proof fn lemma_word_paren(head: Seq<char>, inner: Seq<char>)
    requires
        plain(head),
        plain(inner),
    ensures
        balanced(head + (seq!['('] + inner + seq![')'])),
{
    lemma_parens(inner);
    lemma_plain_balanced(head);
    lemma_balanced_concat(head, seq!['('] + inner + seq![')']);
}

/// Two numbers separated by a comma and a space split at the comma.
proof fn lemma_split_pair(d1: Seq<char>, d2: Seq<char>)
    requires
        forall|i: int| 0 <= i < d1.len() ==> #[trigger] d1[i] != ',',
        forall|i: int| 0 <= i < d2.len() ==> #[trigger] d2[i] != ',',
    ensures
        split_on(d1 + seq![',', ' '] + d2, ',') == seq![d1, seq![' '] + d2],
{
    lemma_split_no_sep(d1, ',');
    let a = d1 + seq![','];
    assert(a.drop_last() =~= d1);
    assert(split_on(a, ',') == seq![d1, Seq::<char>::empty()]) by {
        assert(split_on(d1, ',') == seq![d1]);
        assert(seq![d1].push(Seq::<char>::empty()) =~= seq![d1, Seq::<char>::empty()]);
    }
    lemma_split_append(a, seq![' '] + d2, ',');
    assert(d1 + seq![',', ' '] + d2 =~= a + (seq![' '] + d2));
    assert(seq![d1, Seq::<char>::empty()].update(1, Seq::<char>::empty() + (seq![' '] + d2)) =~= seq![
        d1,
        seq![' '] + d2,
    ]);
}

/// Splitting text without the separator gives it whole.
proof fn lemma_split_no_sep(x: Seq<char>, sep: char)
    requires
        forall|i: int| 0 <= i < x.len() ==> #[trigger] x[i] != sep,
    ensures
        split_on(x, sep) == seq![x],
    decreases x.len(),
{
    if x.len() > 0 {
        assert forall|i: int| 0 <= i < x.drop_last().len() implies #[trigger] x.drop_last()[i] != sep by {
            assert(x.drop_last()[i] == x[i]);
        }
        lemma_split_no_sep(x.drop_last(), sep);
        assert(x[x.len() - 1] == x.last());
        assert(x.drop_last().push(x.last()) =~= x);
        assert(seq![x.drop_last()].update(0, x.drop_last().push(x.last())) =~= seq![x]);
    } else {
        assert(x =~= Seq::<char>::empty());
    }
}

/// Text without the separator extends the last piece.
pub proof fn lemma_split_append(a: Seq<char>, c: Seq<char>, sep: char)
    requires
        forall|i: int| 0 <= i < c.len() ==> #[trigger] c[i] != sep,
    ensures
        split_on(a + c, sep) == split_on(a, sep).update(
            split_on(a, sep).len() - 1,
            split_on(a, sep).last() + c,
        ),
        split_on(a, sep).len() > 0,
    decreases c.len(),
{
    lemma_split_len(a, sep);
    if c.len() == 0 {
        assert(a + c =~= a);
        assert(split_on(a, sep).last() + c =~= split_on(a, sep).last());
        assert(split_on(a, sep).update(split_on(a, sep).len() - 1, split_on(a, sep).last()) =~= split_on(a, sep));
    } else {
        assert forall|i: int| 0 <= i < c.drop_last().len() implies #[trigger] c.drop_last()[i] != sep by {
            assert(c.drop_last()[i] == c[i]);
        }
        lemma_split_append(a, c.drop_last(), sep);
        assert((a + c).drop_last() =~= a + c.drop_last());
        assert((a + c).last() == c.last());
        assert(c[c.len() - 1] == c.last());
        let r = split_on(a, sep);
        assert((r.last() + c.drop_last()).push(c.last()) =~= r.last() + c);
        assert(r.update(r.len() - 1, r.last() + c.drop_last()).update(r.len() - 1, r.last() + c) =~= r.update(
            r.len() - 1,
            r.last() + c,
        ));
    }
}

pub proof fn lemma_split_len(a: Seq<char>, sep: char)
    ensures
        split_on(a, sep).len() > 0,
    decreases a.len(),
{
    if a.len() > 0 {
        lemma_split_len(a.drop_last(), sep);
    }
}

proof fn lemma_hex_plain(b: Seq<u8>)
    ensures
        forall|i: int| 0 <= i < hex_upper(b).len() ==> !structural(#[trigger] hex_upper(b)[i])
            && hex_upper(b)[i] != '\n' && hex_upper(b)[i] != ' ',
{
    lemma_hex_upper_shape(b);
    let h = hex_upper(b);
    assert forall|i: int| 0 <= i < h.len() implies !structural(#[trigger] h[i]) && h[i] != '\n' && h[i]
        != ' ' by {
        let j = i / 2;
        if i % 2 == 0 {
            assert(i == 2 * j);
            lemma_hex_digit((b[j] / 16) as nat);
        } else {
            assert(i == 2 * j + 1);
            lemma_hex_digit((b[j] % 16) as nat);
        }
    }
}

/// The text of a fixed string sits in a line as one argument and reads back as
/// its bytes.
proof fn lemma_string_piece(x: Seq<char>, c1: char, c2: char)
    requires
        string_safe(x),
        c1 == '1' || c1 == '3',
        c2 == '6' || c2 == '2',
    ensures
        ({
            let t = seq!['s', c1, c2] + (seq!['\''] + x + seq!['\'']);
            &&& arg_piece(t)
            &&& enclosed(t, seq!['s', c1, c2, '\''], '\'') == Some(x)
            &&& byte_string(unescape(x)) is Some
        }),
{
    let t = seq!['s', c1, c2] + (seq!['\''] + x + seq!['\'']);
    lemma_quoted(x);
    assert(plain(seq!['s', c1, c2]));
    lemma_plain_balanced(seq!['s', c1, c2]);
    lemma_balanced_concat(seq!['s', c1, c2], seq!['\''] + x + seq!['\'']);
    assert forall|i: int| 0 <= i < t.len() implies #[trigger] t[i] != '\n' by {
        if 4 <= i < t.len() - 1 {
            assert(t[i] == x[i - 4]);
        }
    }
    assert(t.take(4) =~= seq!['s', c1, c2, '\'']);
    assert(t.subrange(4, t.len() - 1) =~= x);
    lemma_unescape_small(x);
}

/// Unescaping keeps characters below 256 below 256.
proof fn lemma_unescape_small(x: Seq<char>)
    requires
        forall|i: int| 0 <= i < x.len() ==> (#[trigger] x[i] as u32) < 256,
    ensures
        byte_string(unescape(x)) is Some,
        forall|i: int| 0 <= i < unescape(x).len() ==> (#[trigger] unescape(x)[i] as u32) < 256,
    decreases x.len(),
{
    if x.len() > 0 {
        let k: int = if x.len() >= 2 && x[0] == '\\' && x[1] == '\'' { 2 } else { 1 };
        assert forall|i: int| 0 <= i < x.skip(k).len() implies (#[trigger] x.skip(k)[i] as u32) < 256 by {
            assert(x.skip(k)[i] == x[i + k]);
        }
        lemma_unescape_small(x.skip(k));
        let u = unescape(x);
        assert forall|i: int| 0 <= i < u.len() implies (#[trigger] u[i] as u32) < 256 by {
            if i > 0 {
                assert(u[i] == unescape(x.skip(k))[i - 1]);
            }
        }
    }
}

/// The pieces that the splitter makes of the text of `vals`: the first argument's
/// text, then each later one after a space.
pub open spec fn pieces(cfg: ScriptConfig, vals: Seq<ArgVal>) -> Seq<Seq<char>>
    decreases vals.len(),
{
    if vals.len() <= 1 {
        vals.map_values(|a: ArgVal| arg_text(cfg, a)->Ok_0)
    } else {
        pieces(cfg, vals.drop_last()).push(seq![' '] + arg_text(cfg, vals.last())->Ok_0)
    }
}

pub open spec fn args_safe(cfg: ScriptConfig, vals: Seq<ArgVal>) -> bool {
    forall|i: int| 0 <= i < vals.len() ==> arg_safe(cfg, #[trigger] vals[i])
}

/// The text of safe arguments splits into their pieces, reads back as their call
/// arguments, and has no line break and no space at either end.
proof fn lemma_args_text(cfg: ScriptConfig, vals: Seq<ArgVal>)
    requires
        vals.len() > 0,
        args_safe(cfg, vals),
        args_text(cfg, vals) is Ok,
    ensures
        ({
            let t = args_text(cfg, vals)->Ok_0;
            &&& split_from(split_start(), t) == (SplitState {
                parts: pieces(cfg, vals),
                quoted: false,
                escaped: false,
                depth: 0,
            })
            &&& parse_args(pieces(cfg, vals)) == Some(call_args_of(cfg, vals))
            &&& t.len() > 0
            &&& !is_space(t[0])
            &&& !is_space(t.last())
            &&& no_newline(t)
        }),
    decreases vals.len(),
{
    let t = args_text(cfg, vals)->Ok_0;
    let last = vals.last();
    assert(vals[vals.len() - 1] == last);
    assert(arg_safe(cfg, last));
    let dl = vals.drop_last();
    assert(args_text(cfg, dl) is Ok);
    assert(arg_text(cfg, last) is Ok);
    lemma_arg_text(cfg, last);
    let x = arg_text(cfg, last)->Ok_0;
    let st0 = split_start();
    if vals.len() == 1 {
        assert(dl =~= Seq::<ArgVal>::empty());
        assert(t == x);
        assert(clean(st0));
        assert(split_from(st0, x) == extend(st0, x));
        assert(extend(st0, x).parts =~= seq![x]);
        assert(pieces(cfg, vals) =~= seq![x]);
        assert(seq![x].drop_last() =~= Seq::<Seq<char>>::empty());
        assert(call_args_of(cfg, vals) =~= seq![call_arg_of(cfg, last)]);
        assert(trim(x) == x);
        assert(Seq::<ParsedArg>::empty().push(call_arg_of(cfg, last)) =~= seq![call_arg_of(cfg, last)]);
        assert(no_newline(t));
        assert(seq![x].last() == x);
        assert(parse_args(Seq::<Seq<char>>::empty()) == Some(Seq::<ParsedArg>::empty()));
        assert(parse_args(seq![x]) == Some(Seq::<ParsedArg>::empty().push(call_arg_of(cfg, last))));
        assert(parse_args(pieces(cfg, vals)) == Some(call_args_of(cfg, vals)));
        assert(split_from(st0, t) == (SplitState { parts: pieces(cfg, vals), quoted: false, escaped: false, depth: 0 }));
    } else {
        assert forall|i: int| 0 <= i < dl.len() implies arg_safe(cfg, #[trigger] dl[i]) by {
            assert(dl[i] == vals[i]);
        }
        lemma_args_text(cfg, dl);
        let t0 = args_text(cfg, dl)->Ok_0;
        assert(t == t0 + seq![',', ' '] + x) by {
            reveal_strlit(", ");
            assert(", "@ =~= seq![',', ' ']);
        }
        let st1 = split_from(st0, t0);
        let tail = seq![','] + (seq![' '] + x);
        assert(t0 + seq![',', ' '] + x =~= t0 + tail);
        lemma_split_concat(st0, t0, tail);
        lemma_split_concat(st1, seq![','], seq![' '] + x);
        assert(seq![','].drop_last() =~= Seq::<char>::empty());
        assert(split_from(st1, seq![',']) == split_step(split_from(st1, seq![','].drop_last()), ','));
        let st2 = split_from(st1, seq![',']);
        assert(st2 == SplitState { parts: st1.parts.push(Seq::empty()), ..st1 });
        assert(plain(seq![' ']));
        lemma_plain_balanced(seq![' ']);
        lemma_balanced_concat(seq![' '], x);
        assert(clean(st2));
        assert(split_from(st2, seq![' '] + x) == extend(st2, seq![' '] + x));
        assert(Seq::<char>::empty() + (seq![' '] + x) =~= seq![' '] + x);
        assert(extend(st2, seq![' '] + x).parts =~= pieces(cfg, vals));
        assert(pieces(cfg, vals).drop_last() =~= pieces(cfg, dl));
        assert(trim(seq![' '] + x) == x) by {
            assert((seq![' '] + x).skip(1) =~= x);
            assert((seq![' '] + x)[0] == ' ');
            assert(trim_start(seq![' '] + x) == trim_start(x));
            assert(trim_start(x) == x);
            assert(trim_end(x) == x);
        }
        assert(call_args_of(cfg, vals) =~= call_args_of(cfg, dl).push(call_arg_of(cfg, last)));
        assert forall|i: int| 0 <= i < t.len() implies #[trigger] t[i] != '\n' by {
            if i < t0.len() {
                assert(t[i] == t0[i]);
            } else if i >= t0.len() + 2 {
                assert(t[i] == x[i - t0.len() - 2]);
            }
        }
        assert(no_newline(t));
        assert(t[0] == t0[0]);
        assert(t.last() == x.last());
        assert(parse_args(pieces(cfg, vals)) == Some(call_args_of(cfg, vals)));
        assert(split_from(st0, t) == (SplitState { parts: pieces(cfg, vals), quoted: false, escaped: false, depth: 0 }));
    }
}

proof fn lemma_trim_spaces(k: nat, x: Seq<char>)
    ensures
        trim_start(spaces(k) + x) == trim_start(x),
    decreases k,
{
    if k > 0 {
        assert((spaces(k) + x).skip(1) =~= spaces((k - 1) as nat) + x);
        assert((spaces(k) + x)[0] == ' ');
        lemma_trim_spaces((k - 1) as nat, x);
    } else {
        assert(spaces(0) + x =~= x);
    }
}

proof fn lemma_find_char(a: Seq<char>, b: Seq<char>, c: char)
    requires
        forall|i: int| 0 <= i < a.len() ==> #[trigger] a[i] != c,
    ensures
        find_char(a + b, c) == a.len() + find_char(b, c),
    decreases a.len(),
{
    if a.len() > 0 {
        assert forall|i: int| 0 <= i < a.skip(1).len() implies #[trigger] a.skip(1)[i] != c by {
            assert(a.skip(1)[i] == a[i + 1]);
        }
        lemma_find_char(a.skip(1), b, c);
        assert((a + b).skip(1) =~= a.skip(1) + b);
        assert((a + b)[0] == a[0]);
    } else {
        assert(a + b =~= b);
    }
}

/// A line of an indented name, a colon and the text of safe arguments reads back
/// as the call of that name with those arguments.
proof fn lemma_line(cfg: ScriptConfig, k: nat, name: Seq<char>, vals: Seq<ArgVal>)
    requires
        word(name),
        args_safe(cfg, vals),
        args_text(cfg, vals) is Ok,
    ensures
        parse_line(spaces(k) + name + ": "@ + args_text(cfg, vals)->Ok_0) == Some(
            Some(CallView { name, args: call_args_of(cfg, vals) }),
        ),
        no_newline(spaces(k) + name + ": "@ + args_text(cfg, vals)->Ok_0),
{
    reveal_strlit(": ");
    let t = args_text(cfg, vals)->Ok_0;
    let x = name + seq![':', ' '] + t;
    let l = spaces(k) + name + ": "@ + t;
    assert(": "@ =~= seq![':', ' ']);
    assert(l =~= spaces(k) + x);
    lemma_trim_spaces(k, x);
    assert(x[0] == name[0]);
    assert(trim_start(x) == x);
    if vals.len() > 0 {
        lemma_args_text(cfg, vals);
    } else {
        assert(t =~= Seq::<char>::empty());
    }
    let r = if vals.len() > 0 { seq![' '] + t } else { Seq::<char>::empty() };
    let tt = name + seq![':'] + r;
    if vals.len() > 0 {
        assert(x =~= tt);
        assert(x.last() == t.last());
        assert(trim_end(x) == x);
    } else {
        assert(x =~= (name + seq![':']).push(' '));
        assert(x.drop_last() =~= name + seq![':']);
        assert(trim_end(x) == trim_end(name + seq![':']));
        assert((name + seq![':']).last() == ':');
        assert(trim_end(name + seq![':']) == name + seq![':']);
        assert(name + seq![':'] =~= tt);
    }
    assert(trim(l) == tt);
    assert(forall|i: int| 0 <= i < name.len() ==> #[trigger] name[i] != ':');
    lemma_find_char(name, seq![':'] + r, ':');
    assert(tt =~= name + (seq![':'] + r));
    assert(find_char(seq![':'] + r, ':') == 0);
    assert(tt.take(name.len() as int) =~= name);
    lemma_trim_same(name);
    assert(tt.skip(name.len() as int + 1) =~= r);
    if vals.len() > 0 {
        assert(trim(r) == t) by {
            assert(r.skip(1) =~= t);
            assert(r[0] == ' ');
            assert(trim_start(r) == trim_start(t));
            assert(trim_start(t) == t);
            assert(trim_end(t) == t);
        }
        lemma_split_state_from(t);
        assert(split_args(t) == pieces(cfg, vals));
    } else {
        assert(trim(r) =~= Seq::<char>::empty());
        assert(call_args_of(cfg, vals) =~= Seq::<ParsedArg>::empty());
    }
    assert forall|i: int| 0 <= i < l.len() implies #[trigger] l[i] != '\n' by {
        if i >= k {
            let j = i - k;
            assert(l[i] == x[j]);
            if j < name.len() {
                assert(x[j] == name[j]);
            } else if j >= name.len() + 2 {
                assert(x[j] == t[j - name.len() - 2]);
            }
        }
    }
}

/// What a decoded instruction needs for its line to read back as its call.
pub open spec fn instr_safe(cfg: ScriptConfig, v: InstrView) -> bool {
    &&& match v.identifier {
        IdentView::Name(n) => word(n),
        IdentView::Id(id) => cfg.schema(id) is None || cfg.schema(id)->0.name.len() == 0,
    }
    &&& args_safe(cfg, v.args)
}

proof fn lemma_unknown_word(id: u32)
    ensures
        word("Unknown"@ + decimal_of(id as int)),
{
    reveal_strlit("Unknown");
    let d = decimal_of(id as int);
    assert(d == digits_of(id as nat));
    lemma_digits_of(id as nat);
    let w = "Unknown"@ + d;
    assert("Unknown"@ =~= seq!['U', 'n', 'k', 'n', 'o', 'w', 'n']);
    assert forall|i: int| 0 <= i < w.len() implies !structural(#[trigger] w[i]) && w[i] != '\n' && w[i]
        != ':' by {
        if i >= 7 {
            assert(w[i] == d[i - 7]);
            assert(is_digit(d[i - 7]));
        }
    }
    assert(w.last() == d.last());
    assert(is_digit(d[d.len() - 1]));
}

/// The display name of a safe instruction is the name its call reads back with.
proof fn lemma_display_name(cfg: ScriptConfig, v: InstrView)
    requires
        instr_safe(cfg, v),
        schema_of(cfg, v.identifier) is Ok,
    ensures
        display_name(schema_of(cfg, v.identifier)->Ok_0.1, schema_of(cfg, v.identifier)->Ok_0.0)
            == call_of(cfg, v).name,
        word(call_of(cfg, v).name),
{
    match v.identifier {
        IdentView::Name(n) => {},
        IdentView::Id(id) => {
            lemma_unknown_word(id);
        },
    }
}

proof fn lemma_parse_lines_prefix(l1: Seq<Seq<char>>, l2: Seq<Seq<char>>, n: nat)
    requires
        n <= l1.len(),
        n <= l2.len(),
        forall|i: int| 0 <= i < n ==> l1[i] == l2[i],
    ensures
        parse_lines(l1, n) == parse_lines(l2, n),
    decreases n,
{
    if n > 0 {
        lemma_parse_lines_prefix(l1, l2, (n - 1) as nat);
    }
}

/// The text of safe instructions splits into lines that read back as their calls.
proof fn lemma_render_lines(cfg: ScriptConfig, lim: nat, p: Seq<InstrView>)
    requires
        forall|i: int| 0 <= i < p.len() ==> instr_safe(cfg, #[trigger] p[i]),
        render(cfg, lim, p) is Ok,
    ensures
        ({
            let l = split_on(render(cfg, lim, p)->Ok_0.0, '\n');
            &&& l.len() > 0
            &&& l.last() == Seq::<char>::empty()
            &&& parse_lines(l, l.len()) == Ok::<Seq<CallView>, crate::error::ErrorView>(calls_of(cfg, p))
        }),
    decreases p.len(),
{
    if p.len() == 0 {
        assert(calls_of(cfg, p) =~= Seq::<CallView>::empty());
        let l = split_on(Seq::<char>::empty(), '\n');
        assert(l == seq![Seq::<char>::empty()]);
        assert(parse_lines(l, 0) == Ok::<Seq<CallView>, crate::error::ErrorView>(Seq::empty()));
        assert(trim(Seq::<char>::empty()) =~= Seq::<char>::empty());
    } else {
        let init = p.drop_last();
        let v = p.last();
        assert(p[p.len() - 1] == v);
        assert forall|i: int| 0 <= i < init.len() implies instr_safe(cfg, #[trigger] init[i]) by {
            assert(init[i] == p[i]);
        }
        assert(render(cfg, lim, init) is Ok);
        lemma_render_lines(cfg, lim, init);
        let (text0, depth) = render(cfg, lim, init)->Ok_0;
        let l0 = split_on(text0, '\n');
        let (id, sch) = schema_of(cfg, v.identifier)->Ok_0;
        lemma_display_name(cfg, v);
        let name = call_of(cfg, v).name;
        let d = line_depth(sch.block, depth);
        let k = (INDENT_SPACES as nat) * (if d < lim { d } else { lim });
        assert(args_text(cfg, v.args) is Ok);
        lemma_line(cfg, k, name, v.args);
        let line = spaces(k) + name + ": "@ + args_text(cfg, v.args)->Ok_0;
        assert(line == spaces(k) + display_name(sch, id) + ": "@ + args_text(cfg, v.args)->Ok_0);
        let step = render_step(cfg, lim, depth, v)->Ok_0.0;
        let text = render(cfg, lim, p)->Ok_0.0;
        assert(text == text0 + step);
        lemma_split_append(text0, line, '\n');
        let la = split_on(text0 + line, '\n');
        assert(la == l0.update(l0.len() - 1, l0.last() + line));
        assert(l0.last() + line =~= line);
        let nl = seq!['\n'];
        reveal_strlit("\n");
        assert("\n"@ =~= nl);
        let lb = split_on(text0 + line + nl, '\n');
        assert((text0 + line + nl).drop_last() =~= text0 + line);
        assert(lb == la.push(Seq::<char>::empty()));
        let calls0 = calls_of(cfg, init);
        assert(calls_of(cfg, p) =~= calls0.push(call_of(cfg, v)));
        assert(call_of(cfg, v) == CallView { name, args: call_args_of(cfg, v.args) });
        let j = l0.len() - 1;
        lemma_parse_lines_prefix(l0, lb, j as nat);
        assert(parse_lines(l0, l0.len()) == parse_lines(l0, j as nat)) by {
            assert(trim(l0[j]) =~= Seq::<char>::empty());
        }
        assert(lb[j] == line);
        assert(parse_lines(lb, (j + 1) as nat) == Ok::<Seq<CallView>, crate::error::ErrorView>(calls_of(cfg, p)));
        assert(trim(Seq::<char>::empty()) =~= Seq::<char>::empty());
        assert(lb.last() == Seq::<char>::empty());
        assert(parse_lines(lb, lb.len()) == Ok::<Seq<CallView>, crate::error::ErrorView>(calls_of(cfg, p)));
        if step == line + nl {
            assert(text =~= text0 + line + nl);
        } else {
            assert(step == line + nl + nl);
            assert(text =~= text0 + line + nl + nl);
            let lc = split_on(text0 + line + nl + nl, '\n');
            assert((text0 + line + nl + nl).drop_last() =~= text0 + line + nl);
            assert(lc == lb.push(Seq::<char>::empty()));
            lemma_parse_lines_prefix(lb, lc, lb.len());
            assert(lc[lb.len() as int] == Seq::<char>::empty());
        }
    }
}

/// The text of safe instructions reads back as the calls of those instructions.
pub proof fn law_text_round_trip(cfg: ScriptConfig, lim: nat, p: Seq<InstrView>)
    requires
        forall|i: int| 0 <= i < p.len() ==> instr_safe(cfg, #[trigger] p[i]),
        render_text(cfg, lim, p) is Ok,
    ensures
        parse_script_text(render_text(cfg, lim, p)->Ok_0) == Ok::<Seq<CallView>, crate::error::ErrorView>(
            calls_of(cfg, p),
        ),
{
    lemma_render_lines(cfg, lim, p);
}

/// Decoding a script, writing it as text, reading the text back, encoding it and
/// decoding the result gives the same instructions, and so the same text. This
/// holds for catalogs whose instructions can be written as text and read back,
/// for scripts of at least one instruction that fit the format's 32-bit offsets,
/// and for instructions whose names and strings read back as themselves.
pub proof fn law_format_round_trip(cfg: ScriptConfig, e: Endian, lim: nat, b: Seq<u8>)
    requires
        catalog_consistent(cfg),
        b.len() <= u32::MAX,
        decode_script(cfg, e, b) is Ok,
        decode_script(cfg, e, b)->Ok_0.len() > 0,
        forall|i: int|
            0 <= i < decode_script(cfg, e, b)->Ok_0.len() ==> instr_safe(
                cfg,
                #[trigger] decode_script(cfg, e, b)->Ok_0[i],
            ),
        render_text(cfg, lim, decode_script(cfg, e, b)->Ok_0) is Ok,
    ensures
        ({
            let p = decode_script(cfg, e, b)->Ok_0;
            let text = render_text(cfg, lim, p)->Ok_0;
            &&& parse_script_text(text) == Ok::<Seq<CallView>, crate::error::ErrorView>(calls_of(cfg, p))
            &&& encode_program(cfg, e, calls_of(cfg, p)) matches Ok(out) && decode_script(cfg, e, out)
                == Ok::<Seq<InstrView>, crate::error::ErrorView>(p) && render_text(
                cfg,
                lim,
                decode_script(cfg, e, out)->Ok_0,
            ) == Ok::<Seq<char>, crate::error::ErrorView>(text)
        }),
{
    let p = decode_script(cfg, e, b)->Ok_0;
    law_text_round_trip(cfg, lim, p);
    law_round_trip(cfg, e, b);
}

/// Instructions that records of a fixed-size catalog decode to, rendered as
/// text: the text reads back as their calls, those encode to a script, and that
/// script decodes to the same instructions and renders as the same text. This
/// holds where there is at least one instruction, the records fit the format's
/// 32-bit offsets, and names and strings read back as themselves.
pub proof fn law_sequence_round_trip(cfg: ScriptConfig, e: Endian, lim: nat, p: Seq<InstrView>)
    requires
        catalog_consistent(cfg),
        p.len() > 0,
        forall|i: int| 0 <= i < p.len() ==> instr_fits(cfg, #[trigger] p[i]) && instr_safe(cfg, p[i]),
        flat(records_of(cfg, e, p)).len() <= u32::MAX,
        render_text(cfg, lim, p) is Ok,
    ensures
        ({
            let text = render_text(cfg, lim, p)->Ok_0;
            &&& parse_script_text(text) == Ok::<Seq<CallView>, crate::error::ErrorView>(calls_of(cfg, p))
            &&& encode_program(cfg, e, calls_of(cfg, p)) matches Ok(out) && decode_script(cfg, e, out)
                == Ok::<Seq<InstrView>, crate::error::ErrorView>(p) && render_text(
                cfg,
                lim,
                decode_script(cfg, e, out)->Ok_0,
            ) == Ok::<Seq<char>, crate::error::ErrorView>(text)
        }),
{
    law_text_round_trip(cfg, lim, p);
    law_values_round_trip(cfg, e, p);
}

} // verus!
