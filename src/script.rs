//! The text form of a script: one instruction call per line, `Name: arg, arg`.
use vstd::prelude::*;
use crate::config::ScriptConfig;
use crate::endian::Endian;
use crate::error::{BBScriptError, ErrorView};
use crate::rebuilder::{
    assemble_script, bytes_result, calls_view, digits_value, encode_program, is_digit,
    BBSFunction, CallView, ParsedArg, ParserValue,
};
use crate::text::push_char;

verus! {

broadcast use vstd::string::group_string_axioms;

pub open spec fn is_space(c: char) -> bool {
    c == ' ' || c == '\t' || c == '\r'
}

/// `s` without its leading spaces.
pub open spec fn trim_start(s: Seq<char>) -> Seq<char>
    decreases s.len(),
{
    if s.len() > 0 && is_space(s[0]) {
        trim_start(s.skip(1))
    } else {
        s
    }
}

/// `s` without its trailing spaces.
pub open spec fn trim_end(s: Seq<char>) -> Seq<char>
    decreases s.len(),
{
    if s.len() > 0 && is_space(s.last()) {
        trim_end(s.drop_last())
    } else {
        s
    }
}

pub open spec fn trim(s: Seq<char>) -> Seq<char> {
    trim_end(trim_start(s))
}

/// The pieces of `s` between the separators `sep`.
pub open spec fn split_on(s: Seq<char>, sep: char) -> Seq<Seq<char>>
    decreases s.len(),
{
    if s.len() == 0 {
        seq![Seq::empty()]
    } else {
        let r = split_on(s.drop_last(), sep);
        if s.last() == sep {
            r.push(Seq::empty())
        } else {
            r.update(r.len() - 1, r.last().push(s.last()))
        }
    }
}

/// Where the splitting of an argument list stands: the arguments so far, the
/// last one still growing, and whether it is inside quotes, after a backslash
/// there, or inside parentheses.
pub struct SplitState {
    pub parts: Seq<Seq<char>>,
    pub quoted: bool,
    pub escaped: bool,
    pub depth: nat,
}

pub open spec fn append_char(st: SplitState, c: char) -> Seq<Seq<char>> {
    st.parts.update(st.parts.len() - 1, st.parts.last().push(c))
}

/// The state after one more character: a comma outside quotes and parentheses
/// starts a new argument.
pub open spec fn split_step(st: SplitState, c: char) -> SplitState {
    if st.quoted {
        if st.escaped {
            SplitState { parts: append_char(st, c), escaped: false, ..st }
        } else if c == '\\' {
            SplitState { parts: append_char(st, c), escaped: true, ..st }
        } else if c == '\'' {
            SplitState { parts: append_char(st, c), quoted: false, ..st }
        } else {
            SplitState { parts: append_char(st, c), ..st }
        }
    } else if c == '\'' {
        SplitState { parts: append_char(st, c), quoted: true, ..st }
    } else if c == '(' {
        SplitState { parts: append_char(st, c), depth: st.depth + 1, ..st }
    } else if c == ')' {
        SplitState {
            parts: append_char(st, c),
            depth: if st.depth > 0 {
                (st.depth - 1) as nat
            } else {
                0
            },
            ..st
        }
    } else if c == ',' && st.depth == 0 {
        SplitState { parts: st.parts.push(Seq::empty()), ..st }
    } else {
        SplitState { parts: append_char(st, c), ..st }
    }
}

pub open spec fn split_state(s: Seq<char>) -> SplitState
    decreases s.len(),
{
    if s.len() == 0 {
        SplitState { parts: seq![Seq::empty()], quoted: false, escaped: false, depth: 0 }
    } else {
        split_step(split_state(s.drop_last()), s.last())
    }
}

/// The arguments of an argument list.
pub open spec fn split_args(s: Seq<char>) -> Seq<Seq<char>> {
    split_state(s).parts
}

/// `s` with each backslash-quote replaced by a quote.
pub open spec fn unescape(s: Seq<char>) -> Seq<char>
    decreases s.len(),
{
    if s.len() == 0 {
        Seq::empty()
    } else if s.len() >= 2 && s[0] == '\\' && s[1] == '\'' {
        seq!['\''] + unescape(s.skip(2))
    } else {
        seq![s[0]] + unescape(s.skip(1))
    }
}

/// The bytes of characters below 256, one each.
pub open spec fn byte_string(s: Seq<char>) -> Option<Seq<u8>> {
    if forall|i: int| 0 <= i < s.len() ==> (s[i] as u32) < 256 {
        Some(s.map_values(|c: char| #[verifier::truncate] ((c as u32) as u8)))
    } else {
        None
    }
}

pub open spec fn hex_val(c: char) -> nat {
    if '0' <= c <= '9' {
        (c as nat - 48) as nat
    } else if 'a' <= c <= 'f' {
        (c as nat - 87) as nat
    } else {
        (c as nat - 55) as nat
    }
}

pub open spec fn is_hex(c: char) -> bool {
    ('0' <= c <= '9') || ('a' <= c <= 'f') || ('A' <= c <= 'F')
}

/// The bytes written as pairs of hex digits.
pub open spec fn hex_bytes(s: Seq<char>) -> Option<Seq<u8>> {
    if s.len() % 2 == 0 && forall|i: int| 0 <= i < s.len() ==> is_hex(#[trigger] s[i]) {
        Some(
            Seq::new(
                (s.len() / 2) as nat,
                |i: int| (16 * hex_val(s[2 * i]) + hex_val(s[2 * i + 1])) as u8,
            ),
        )
    } else {
        None
    }
}

/// An `i32` written in decimal, with an optional sign.
pub open spec fn parse_i32(s: Seq<char>) -> Option<i32> {
    let neg = s.len() > 0 && s[0] == '-';
    let d = if s.len() > 0 && (s[0] == '+' || s[0] == '-') {
        s.skip(1)
    } else {
        s
    };
    let v: int = if neg {
        -(digits_value(d) as int)
    } else {
        digits_value(d) as int
    };
    if d.len() > 0 && (forall|i: int| 0 <= i < d.len() ==> is_digit(#[trigger] d[i])) && i32::MIN
        <= v <= i32::MAX {
        Some(v as i32)
    } else {
        None
    }
}

pub open spec fn has_prefix(s: Seq<char>, p: Seq<char>) -> bool {
    s.len() >= p.len() && s.take(p.len() as int) == p
}

/// The text between `open` and a closing `close` that ends `t`.
pub open spec fn enclosed(t: Seq<char>, open: Seq<char>, close: char) -> Option<Seq<char>> {
    if t.len() >= open.len() + 1 && has_prefix(t, open) && t.last() == close {
        Some(t.subrange(open.len() as int, t.len() - 1))
    } else {
        None
    }
}

/// The argument written as `t`, without surrounding spaces.
pub open spec fn parse_arg(t: Seq<char>) -> Option<ParsedArg> {
    if let Some(inner) = enclosed(t, "s32'"@, '\'') {
        match byte_string(unescape(inner)) {
            Some(b) => Some(ParsedArg::String32(b)),
            None => None,
        }
    } else if let Some(inner) = enclosed(t, "s16'"@, '\'') {
        match byte_string(unescape(inner)) {
            Some(b) => Some(ParsedArg::String16(b)),
            None => None,
        }
    } else if has_prefix(t, "0x"@) {
        match hex_bytes(t.skip(2)) {
            Some(b) => Some(ParsedArg::Raw(b)),
            None => None,
        }
    } else if let Some(inner) = enclosed(t, "("@, ')') {
        if trim(inner).len() > 0 {
            Some(ParsedArg::Named(trim(inner)))
        } else {
            None
        }
    } else if let Some(inner) = enclosed(t, "Mem("@, ')') {
        match parse_i32(trim(inner)) {
            Some(v) => Some(ParsedArg::Mem(v)),
            None => if trim(inner).len() > 0 {
                Some(ParsedArg::NamedMem(trim(inner)))
            } else {
                None
            },
        }
    } else if let Some(inner) = enclosed(t, "Val("@, ')') {
        match parse_i32(trim(inner)) {
            Some(v) => Some(ParsedArg::Val(v)),
            None => None,
        }
    } else if let Some(inner) = enclosed(t, "BadTag("@, ')') {
        let halves = split_on(inner, ',');
        if halves.len() == 2 {
            match (parse_i32(trim(halves[0])), parse_i32(trim(halves[1]))) {
                (Some(tag), Some(v)) => Some(ParsedArg::BadTag(tag, v)),
                _ => None,
            }
        } else {
            None
        }
    } else {
        match parse_i32(t) {
            Some(v) => Some(ParsedArg::Number(v)),
            None => None,
        }
    }
}

/// The arguments written as `parts`; `None` where one is not an argument.
pub open spec fn parse_args(parts: Seq<Seq<char>>) -> Option<Seq<ParsedArg>>
    decreases parts.len(),
{
    if parts.len() == 0 {
        Some(Seq::empty())
    } else {
        match (parse_args(parts.drop_last()), parse_arg(trim(parts.last()))) {
            (Some(a), Some(x)) => Some(a.push(x)),
            _ => None,
        }
    }
}

/// The first position of `c` in `s`, or its length.
pub open spec fn find_char(s: Seq<char>, c: char) -> nat
    decreases s.len(),
{
    if s.len() == 0 || s[0] == c {
        0
    } else {
        1 + find_char(s.skip(1), c)
    }
}

/// What one line holds: `Some(None)` for a blank line, `Some(Some(call))` for a
/// call, `None` for anything else.
pub open spec fn parse_line(l: Seq<char>) -> Option<Option<CallView>> {
    let t = trim(l);
    if t.len() == 0 {
        Some(None)
    } else {
        let k = find_char(t, ':');
        let name = trim(t.take(k as int));
        if k >= t.len() || name.len() == 0 {
            None
        } else {
            let rest = trim(t.skip(k as int + 1));
            if rest.len() == 0 {
                Some(Some(CallView { name, args: Seq::empty() }))
            } else {
                match parse_args(split_args(rest)) {
                    Some(args) => Some(Some(CallView { name, args })),
                    None => None,
                }
            }
        }
    }
}

/// The calls of the first `n` lines, or the number of the first line that is
/// neither blank nor a call.
pub open spec fn parse_lines(lines: Seq<Seq<char>>, n: nat) -> Result<Seq<CallView>, ErrorView>
    decreases n,
{
    if n == 0 {
        Ok(Seq::empty())
    } else {
        match parse_lines(lines, (n - 1) as nat) {
            Err(x) => Err(x),
            Ok(calls) => match parse_line(lines[n - 1]) {
                None => Err(ErrorView::SyntaxError((n as int) as usize)),
                Some(None) => Ok(calls),
                Some(Some(c)) => Ok(calls.push(c)),
            },
        }
    }
}

/// The calls of a script's text.
pub open spec fn parse_script_text(text: Seq<char>) -> Result<Seq<CallView>, ErrorView> {
    parse_lines(split_on(text, '\n'), split_on(text, '\n').len())
}

pub open spec fn char_lists(v: Seq<Vec<char>>) -> Seq<Seq<char>> {
    v.map_values(|x: Vec<char>| x@)
}

/// The characters of `s`.
fn chars_of(s: &str) -> (r: Vec<char>)
    ensures
        r@ == s@,
{
    let mut v: Vec<char> = Vec::new();
    for c in it: s.chars()
        invariant
            v@ == it.seq().take(it.index() as int),
            it.seq() == s@,
    {
        v.push(c);
        assert(v@ =~= it.seq().take(it.index() + 1));
    }
    assert(v@ =~= s@);
    v
}

/// The text of the characters from `lo` to `hi`.
fn string_of(s: &Vec<char>, lo: usize, hi: usize) -> (r: String)
    requires
        lo <= hi <= s@.len(),
    ensures
        r@ == s@.subrange(lo as int, hi as int),
{
    let mut out = String::new();
    let mut i = lo;
    assert(out@ =~= s@.subrange(lo as int, lo as int));
    while i < hi
        invariant
            lo <= i <= hi <= s@.len(),
            out@ == s@.subrange(lo as int, i as int),
        decreases hi - i,
    {
        push_char(&mut out, s[i]);
        i = i + 1;
        assert(out@ =~= s@.subrange(lo as int, i as int));
    }
    out
}

/// The range of `s` from `lo` to `hi` without its surrounding spaces.
fn trimmed(s: &Vec<char>, lo: usize, hi: usize) -> (r: (usize, usize))
    requires
        lo <= hi <= s@.len(),
    ensures
        lo <= r.0 <= r.1 <= hi,
        s@.subrange(r.0 as int, r.1 as int) == trim(s@.subrange(lo as int, hi as int)),
{
    let mut i = lo;
    while i < hi && (s[i] == ' ' || s[i] == '\t' || s[i] == '\r')
        invariant
            lo <= i <= hi <= s@.len(),
            trim_start(s@.subrange(lo as int, hi as int)) == trim_start(s@.subrange(i as int, hi as int)),
        decreases hi - i,
    {
        assert(s@.subrange(i as int, hi as int).skip(1) =~= s@.subrange(i + 1, hi as int));
        i = i + 1;
    }
    let mut j = hi;
    while j > i && (s[j - 1] == ' ' || s[j - 1] == '\t' || s[j - 1] == '\r')
        invariant
            lo <= i <= j <= hi <= s@.len(),
            trim_start(s@.subrange(lo as int, hi as int)) == s@.subrange(i as int, hi as int),
            trim(s@.subrange(lo as int, hi as int)) == trim_end(s@.subrange(i as int, j as int)),
        decreases j - i,
    {
        assert(s@.subrange(i as int, j as int).drop_last() =~= s@.subrange(i as int, j - 1));
        j = j - 1;
    }
    (i, j)
}

/// Splits the characters from `lo` to `hi` at each `sep`.
#[verifier::loop_isolation(false)]
fn split_chars(s: &Vec<char>, lo: usize, hi: usize, sep: char) -> (r: Vec<Vec<char>>)
    requires
        lo <= hi <= s@.len(),
    ensures
        char_lists(r@) == split_on(s@.subrange(lo as int, hi as int), sep),
{
    let mut r: Vec<Vec<char>> = Vec::new();
    r.push(Vec::new());
    let mut i = lo;
    assert(char_lists(r@) =~= split_on(s@.subrange(lo as int, lo as int), sep));
    while i < hi
        invariant
            lo <= i <= hi,
            r@.len() > 0,
            char_lists(r@) == split_on(s@.subrange(lo as int, i as int), sep),
        decreases hi - i,
    {
        let c = s[i];
        if c == sep {
            r.push(Vec::new());
        } else {
            let last = r.len() - 1;
            r[last].push(c);
        }
        i = i + 1;
        proof {
            let t = s@.subrange(lo as int, i as int);
            assert(t.drop_last() =~= s@.subrange(lo as int, i - 1));
            assert(char_lists(r@) =~= split_on(t, sep));
        }
    }
    r
}

/// Splits an argument list at its commas outside quotes and parentheses.
#[verifier::loop_isolation(false)]
fn split_arg_list(s: &Vec<char>, lo: usize, hi: usize) -> (r: Vec<Vec<char>>)
    requires
        lo <= hi <= s@.len(),
    ensures
        char_lists(r@) == split_args(s@.subrange(lo as int, hi as int)),
{
    let mut parts: Vec<Vec<char>> = Vec::new();
    parts.push(Vec::new());
    let mut quoted = false;
    let mut escaped = false;
    let mut depth: usize = 0;
    let mut i = lo;
    assert(char_lists(parts@) =~= split_state(s@.subrange(lo as int, lo as int)).parts);
    while i < hi
        invariant
            lo <= i <= hi,
            parts@.len() > 0,
            depth <= i - lo,
            split_state(s@.subrange(lo as int, i as int)) == (SplitState {
                parts: char_lists(parts@),
                quoted,
                escaped,
                depth: depth as nat,
            }),
        decreases hi - i,
    {
        let c = s[i];
        let last = parts.len() - 1;
        if quoted {
            parts[last].push(c);
            if escaped {
                escaped = false;
            } else if c == '\\' {
                escaped = true;
            } else if c == '\'' {
                quoted = false;
            }
        } else if c == '\'' {
            parts[last].push(c);
            quoted = true;
        } else if c == '(' {
            parts[last].push(c);
            depth = depth + 1;
        } else if c == ')' {
            parts[last].push(c);
            if depth > 0 {
                depth = depth - 1;
            }
        } else if c == ',' && depth == 0 {
            parts.push(Vec::new());
        } else {
            parts[last].push(c);
        }
        i = i + 1;
        proof {
            let t = s@.subrange(lo as int, i as int);
            assert(t.drop_last() =~= s@.subrange(lo as int, i - 1));
            assert(char_lists(parts@) =~= split_state(t).parts);
        }
    }
    parts
}

/// The characters from `lo` to `hi` with escaped quotes replaced by quotes.
#[verifier::loop_isolation(false)]
fn unescape_chars(s: &Vec<char>, lo: usize, hi: usize) -> (r: Vec<char>)
    requires
        lo <= hi <= s@.len(),
    ensures
        r@ == unescape(s@.subrange(lo as int, hi as int)),
{
    let mut out: Vec<char> = Vec::new();
    let mut i = lo;
    assert(out@ + unescape(s@.subrange(lo as int, hi as int)) =~= unescape(s@.subrange(lo as int, hi as int)));
    while i < hi
        invariant
            lo <= i <= hi,
            unescape(s@.subrange(lo as int, hi as int)) == out@ + unescape(s@.subrange(i as int, hi as int)),
        decreases hi - i,
    {
        let t = Ghost(s@.subrange(i as int, hi as int));
        if hi - i >= 2 && s[i] == '\\' && s[i + 1] == '\'' {
            out.push('\'');
            proof {
                assert(t@.skip(2) =~= s@.subrange(i + 2, hi as int));
                assert(out@ + unescape(s@.subrange(i + 2, hi as int)) =~= out@.drop_last() + unescape(t@));
            }
            i = i + 2;
        } else {
            out.push(s[i]);
            proof {
                assert(t@.skip(1) =~= s@.subrange(i + 1, hi as int));
                assert(out@ + unescape(s@.subrange(i + 1, hi as int)) =~= out@.drop_last() + unescape(t@));
            }
            i = i + 1;
        }
    }
    assert(s@.subrange(i as int, hi as int) =~= Seq::<char>::empty());
    assert(out@ + Seq::<char>::empty() =~= out@);
    out
}

/// One byte for each character below 256.
fn chars_to_bytes(s: &Vec<char>) -> (r: Option<Vec<u8>>)
    ensures
        match byte_string(s@) {
            Some(b) => r matches Some(v) && v@ == b,
            None => r is None,
        },
{
    let mut v: Vec<u8> = Vec::new();
    let mut i: usize = 0;
    while i < s.len()
        invariant
            i <= s@.len(),
            v@.len() == i,
            forall|j: int| 0 <= j < i ==> (s@[j] as u32) < 256 && v@[j] as u32 == s@[j] as u32,
        decreases s@.len() - i,
    {
        let c = s[i];
        if (c as u32) >= 256 {
            return None;
        }
        let code = c as u32;
        let b = code as u8;
        v.push(b);
        i = i + 1;
    }
    assert forall|j: int| 0 <= j < v@.len() implies v@[j] == #[verifier::truncate] ((s@[j] as u32) as u8) by {
        let x = v@[j];
        let y = s@[j] as u32;
        assert(x as u32 == y);
        assert(x == #[verifier::truncate] (y as u8)) by (bit_vector)
            requires
                x as u32 == y,
        ;
    }
    assert(v@ =~= s@.map_values(|c: char| #[verifier::truncate] ((c as u32) as u8)));
    Some(v)
}

/// Relies on hex::decode: pairs of hex digits of either case, each pair one byte;
/// an error for an odd length or any other character.
#[verifier::external_body]
fn decode_hex(s: &str) -> (r: Option<Vec<u8>>)
    ensures
        match hex_bytes(s@) {
            Some(b) => r matches Some(v) && v@ == b,
            None => r is None,
        },
{
    hex::decode(s).ok()
}

/// Relies on i32's `FromStr`: decimal digits with an optional sign, accepted where
/// the value fits in an `i32`.
#[verifier::external_body]
fn parse_decimal_i32(s: &str) -> (r: Option<i32>)
    ensures
        r == parse_i32(s@),
{
    s.parse::<i32>().ok()
}

/// Whether the characters from `lo` to `hi` start with `p`.
fn starts_with(s: &Vec<char>, lo: usize, hi: usize, p: &str) -> (r: bool)
    requires
        lo <= hi <= s@.len(),
    ensures
        r == has_prefix(s@.subrange(lo as int, hi as int), p@),
{
    let n = p.unicode_len();
    if hi - lo < n {
        return false;
    }
    let mut k: usize = 0;
    while k < n
        invariant
            k <= n,
            n == p@.len(),
            lo + n <= hi <= s@.len(),
            forall|j: int| 0 <= j < k ==> s@[lo + j] == p@[j],
        decreases n - k,
    {
        if s[lo + k] != p.get_char(k) {
            proof {
                assert(s@.subrange(lo as int, hi as int).take(n as int)[k as int] != p@[k as int]);
            }
            return false;
        }
        k = k + 1;
    }
    assert(s@.subrange(lo as int, hi as int).take(n as int) =~= p@);
    true
}

/// The range inside `open` and a closing `close` that end the characters from
/// `lo` to `hi`.
fn enclosed_range(s: &Vec<char>, lo: usize, hi: usize, open: &str, close: char) -> (r: Option<
    (usize, usize),
>)
    requires
        lo <= hi <= s@.len(),
    ensures
        match enclosed(s@.subrange(lo as int, hi as int), open@, close) {
            Some(inner) => r matches Some((a, b)) && lo <= a <= b <= hi && s@.subrange(
                a as int,
                b as int,
            ) == inner,
            None => r is None,
        },
{
    let n = open.unicode_len();
    if hi - lo >= n && hi - lo - n >= 1 && starts_with(s, lo, hi, open) && s[hi - 1] == close {
        assert(s@.subrange(lo as int, hi as int).subrange(n as int, hi - lo - 1) =~= s@.subrange(
            lo + n,
            hi - 1,
        ));
        Some((lo + n, hi - 1))
    } else {
        None
    }
}

pub open spec fn arg_result(r: Option<ParserValue>) -> Option<ParsedArg> {
    match r {
        Some(v) => Some(v@),
        None => None,
    }
}

/// The argument written as the characters from `lo` to `hi`.
fn parse_argument_text(s: &Vec<char>, lo: usize, hi: usize) -> (r: Option<ParserValue>)
    requires
        lo <= hi <= s@.len(),
    ensures
        arg_result(r) == parse_arg(s@.subrange(lo as int, hi as int)),
{
    let ghost t = s@.subrange(lo as int, hi as int);
    if let Some((a, b)) = enclosed_range(s, lo, hi, "s32'", '\'') {
        let inner = unescape_chars(s, a, b);
        return match chars_to_bytes(&inner) {
            Some(v) => Some(ParserValue::String32(v)),
            None => None,
        };
    }
    if let Some((a, b)) = enclosed_range(s, lo, hi, "s16'", '\'') {
        let inner = unescape_chars(s, a, b);
        return match chars_to_bytes(&inner) {
            Some(v) => Some(ParserValue::String16(v)),
            None => None,
        };
    }
    if starts_with(s, lo, hi, "0x") {
        proof {
            reveal_strlit("0x");
        }
        let digits = string_of(s, lo + 2, hi);
        assert(digits@ =~= t.skip(2));
        return match decode_hex(digits.as_str()) {
            Some(v) => Some(ParserValue::Raw(v)),
            None => None,
        };
    }
    if let Some((a, b)) = enclosed_range(s, lo, hi, "(", ')') {
        let (x, y) = trimmed(s, a, b);
        if y > x {
            return Some(ParserValue::Named(string_of(s, x, y)));
        }
        return None;
    }
    if let Some((a, b)) = enclosed_range(s, lo, hi, "Mem(", ')') {
        let (x, y) = trimmed(s, a, b);
        let text = string_of(s, x, y);
        return match parse_decimal_i32(text.as_str()) {
            Some(v) => Some(ParserValue::Mem(v)),
            None => if y > x {
                Some(ParserValue::NamedMem(text))
            } else {
                None
            },
        };
    }
    if let Some((a, b)) = enclosed_range(s, lo, hi, "Val(", ')') {
        let (x, y) = trimmed(s, a, b);
        let text = string_of(s, x, y);
        return match parse_decimal_i32(text.as_str()) {
            Some(v) => Some(ParserValue::Val(v)),
            None => None,
        };
    }
    if let Some((a, b)) = enclosed_range(s, lo, hi, "BadTag(", ')') {
        let halves = split_chars(s, a, b, ',');
        if halves.len() != 2 {
            return None;
        }
        let first = &halves[0];
        let second = &halves[1];
        let (x0, y0) = trimmed(first, 0, first.len());
        let (x1, y1) = trimmed(second, 0, second.len());
        assert(first@.subrange(0, first@.len() as int) =~= first@);
        assert(second@.subrange(0, second@.len() as int) =~= second@);
        let tag = parse_decimal_i32(string_of(first, x0, y0).as_str());
        let value = parse_decimal_i32(string_of(second, x1, y1).as_str());
        return match (tag, value) {
            (Some(tag), Some(value)) => Some(ParserValue::BadTag(tag, value)),
            _ => None,
        };
    }
    match parse_decimal_i32(string_of(s, lo, hi).as_str()) {
        Some(v) => Some(ParserValue::Number(v)),
        None => None,
    }
}

pub open spec fn line_result(r: Result<Option<BBSFunction>, ()>) -> Option<Option<CallView>> {
    match r {
        Err(()) => None,
        Ok(None) => Some(None),
        Ok(Some(f)) => Some(Some(f@)),
    }
}

/// What one line holds.
#[verifier::loop_isolation(false)]
fn parse_line_text(l: &Vec<char>) -> (r: Result<Option<BBSFunction>, ()>)
    ensures
        line_result(r) == parse_line(l@),
{
    let (a, b) = trimmed(l, 0, l.len());
    assert(l@.subrange(0, l@.len() as int) =~= l@);
    let ghost t = l@.subrange(a as int, b as int);
    if a == b {
        return Ok(None);
    }
    let mut j = a;
    while j < b && l[j] != ':'
        invariant
            a <= j <= b,
            find_char(t, ':') == (j - a) + find_char(l@.subrange(j as int, b as int), ':'),
        decreases b - j,
    {
        assert(l@.subrange(j as int, b as int).skip(1) =~= l@.subrange(j + 1, b as int));
        j = j + 1;
    }
    if j >= b {
        return Err(());
    }
    let (na, nb) = trimmed(l, a, j);
    assert(t.take(j - a) =~= l@.subrange(a as int, j as int));
    if na == nb {
        return Err(());
    }
    let name = string_of(l, na, nb);
    let (ra, rb) = trimmed(l, j + 1, b);
    assert(t.skip(j - a + 1) =~= l@.subrange(j + 1, b as int));
    if ra == rb {
        let args: Vec<ParserValue> = Vec::new();
        assert(crate::rebuilder::parsed_views(args@) =~= Seq::<ParsedArg>::empty());
        return Ok(Some(BBSFunction { name, args }));
    }
    let parts = split_arg_list(l, ra, rb);
    let ghost ps = char_lists(parts@);
    let mut args: Vec<ParserValue> = Vec::new();
    let mut i: usize = 0;
    assert(ps.take(0) =~= Seq::<Seq<char>>::empty());
    assert(crate::rebuilder::parsed_views(args@) =~= Seq::<ParsedArg>::empty());
    while i < parts.len()
        invariant
            i <= parts@.len(),
            ps == char_lists(parts@),
            parse_args(ps.take(i as int)) == Some(crate::rebuilder::parsed_views(args@)),
        decreases parts@.len() - i,
    {
        let part = &parts[i];
        let (x, y) = trimmed(part, 0, part.len());
        assert(part@.subrange(0, part@.len() as int) =~= part@);
        proof {
            assert(ps.take(i + 1).drop_last() =~= ps.take(i as int));
            assert(ps.take(i + 1).last() == part@);
        }
        match parse_argument_text(part, x, y) {
            Some(v) => {
                args.push(v);
                assert(crate::rebuilder::parsed_views(args@) =~= crate::rebuilder::parsed_views(
                    args@.drop_last(),
                ).push(v@));
            },
            None => {
                proof {
                    lemma_parse_args_none(ps, i + 1);
                }
                return Err(());
            },
        }
        i = i + 1;
    }
    assert(ps.take(i as int) =~= ps);
    Ok(Some(BBSFunction { name, args }))
}

/// Once a prefix of the arguments is not all arguments, neither are all of them.
proof fn lemma_parse_args_none(parts: Seq<Seq<char>>, i: int)
    requires
        0 <= i <= parts.len(),
        parse_args(parts.take(i)) is None,
    ensures
        parse_args(parts) is None,
    decreases parts.len() - i,
{
    if i < parts.len() {
        assert(parts.take(i + 1).drop_last() =~= parts.take(i));
        lemma_parse_args_none(parts, i + 1);
    } else {
        assert(parts.take(i) =~= parts);
    }
}

/// Once a prefix of the lines has an error, so have all of them.
proof fn lemma_parse_lines_err(lines: Seq<Seq<char>>, i: nat, n: nat)
    requires
        i <= n,
        parse_lines(lines, i) is Err,
    ensures
        parse_lines(lines, n) == parse_lines(lines, i),
    decreases n - i,
{
    if i < n {
        lemma_parse_lines_err(lines, i, (n - 1) as nat);
    }
}

pub open spec fn calls_result(r: Result<Vec<BBSFunction>, BBScriptError>) -> Result<
    Seq<CallView>,
    ErrorView,
> {
    match r {
        Ok(v) => Ok(calls_view(v@)),
        Err(x) => Err(x@),
    }
}

/// The calls of a script's text: blank lines are skipped; any other line that
/// is not a call is an error with its number.
#[verifier::loop_isolation(false)]
pub fn parse_script(text: &String) -> (r: Result<Vec<BBSFunction>, BBScriptError>)
    ensures
        calls_result(r) == parse_script_text(text@),
{
    let chars = chars_of(text.as_str());
    let lines = split_chars(&chars, 0, chars.len(), '\n');
    assert(chars@.subrange(0, chars@.len() as int) =~= text@);
    let ghost ls = char_lists(lines@);
    let mut calls: Vec<BBSFunction> = Vec::new();
    let mut i: usize = 0;
    assert(calls_view(calls@) =~= Seq::<CallView>::empty());
    while i < lines.len()
        invariant
            i <= lines@.len(),
            ls == char_lists(lines@),
            ls == split_on(text@, '\n'),
            parse_lines(ls, i as nat) == Ok::<Seq<CallView>, ErrorView>(calls_view(calls@)),
        decreases lines@.len() - i,
    {
        assert(ls[i as int] == lines@[i as int]@);
        match parse_line_text(&lines[i]) {
            Err(()) => {
                proof {
                    lemma_parse_lines_err(ls, (i + 1) as nat, ls.len());
                }
                return Err(BBScriptError::SyntaxError(i + 1));
            },
            Ok(None) => {
                assert(parse_lines(ls, (i + 1) as nat) == Ok::<Seq<CallView>, ErrorView>(calls_view(calls@)));
            },
            Ok(Some(f)) => {
                let ghost before = calls_view(calls@);
                calls.push(f);
                assert(calls_view(calls@) =~= before.push(f@));
                assert(parse_lines(ls, (i + 1) as nat) == Ok::<Seq<CallView>, ErrorView>(before.push(f@)));
            },
        }
        i = i + 1;
    }
    Ok(calls)
}

/// Encodes a script's text: its calls, then the jump table and records they give.
pub fn rebuild_bbscript(db: &ScriptConfig, script: &String, e: Endian) -> (r: Result<
    Vec<u8>,
    BBScriptError,
>)
    requires
        db.names_unique(),
    ensures
        bytes_result(r) == match parse_script_text(script@) {
            Ok(calls) => encode_program(*db, e, calls),
            Err(x) => Err(x),
        },
{
    let program = parse_script(script)?;
    assemble_script(&program, db, e)
}

} // verus!
