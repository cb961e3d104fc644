//! Decoding, writing as text, reading back and encoding again gives the same
//! instructions.
use vstd::prelude::*;
use crate::config::{args_size, sized_arg_list, value_named, ArgKind, ScriptConfig, TaggedValue};
use crate::endian::{i32_bytes, i32_of, lemma_i32_round_trip, lemma_u32_round_trip, u32_bytes, u32_of, Endian};
use crate::error::ErrorView;
use crate::parser::{
    buf_text, byte_text, classify, escaped_text, trim_zeros, decode_arg, decode_args, decode_record, decode_script,
    decode_stream, ident_of, jump_count_sum, jump_table_size, ArgVal, IdentView, InstrView,
};
use crate::rebuilder::{
    counts_bytes, digits_value, encode_arg, encode_args, encode_call, encode_calls,
    encode_program, first_index, fixed_string, is_digit, padded, parse_u32, parsed_size, resolve,
    strip_unknown, tables_bytes, CallView, EncodeState, ParsedArg,
};
use crate::text::decimal_of;
use crate::script::{byte_string, unescape};
use crate::text::{char_of, digit_char, digits_of};

verus! {

pub open spec fn chars_of_bytes(b: Seq<u8>) -> Seq<char> {
    b.map_values(|x: u8| char_of(x))
}

proof fn lemma_char_of(x: u8)
    ensures
        char_of(x) as u32 == x as u32,
        (char_of(x) == '\'') <==> x == 39,
        (char_of(x) == '\\') <==> x == 92,
{
}

/// Unescaping text piece by piece, where no piece after the first starts with a quote.
proof fn lemma_unescape_concat(x: Seq<char>, y: Seq<char>)
    requires
        y.len() == 0 || y[0] != '\'',
    ensures
        unescape(x + y) == unescape(x) + unescape(y),
    decreases x.len(),
{
    if x.len() == 0 {
        assert(x + y =~= y);
        assert(unescape(x) =~= Seq::<char>::empty());
        assert(Seq::<char>::empty() + unescape(y) =~= unescape(y));
    } else if x.len() >= 2 && x[0] == '\\' && x[1] == '\'' {
        assert((x + y).skip(2) =~= x.skip(2) + y);
        lemma_unescape_concat(x.skip(2), y);
        assert(seq!['\''] + (unescape(x.skip(2)) + unescape(y)) =~= (seq!['\''] + unescape(
            x.skip(2),
        )) + unescape(y));
    } else {
        assert((x + y).skip(1) =~= x.skip(1) + y);
        assert((x + y)[0] == x[0]);
        if x.len() == 1 {
            assert(x.skip(1) =~= Seq::<char>::empty());
        } else {
            assert((x + y)[1] == x[1]);
        }
        lemma_unescape_concat(x.skip(1), y);
        assert(seq![x[0]] + (unescape(x.skip(1)) + unescape(y)) =~= (seq![x[0]] + unescape(
            x.skip(1),
        )) + unescape(y));
    }
}

/// Escaped text, unescaped, is the bytes as characters.
pub proof fn lemma_unescape_escaped(b: Seq<u8>)
    ensures
        unescape(escaped_text(b)) == chars_of_bytes(b),
    decreases b.len(),
{
    if b.len() == 0 {
        assert(unescape(Seq::<char>::empty()) =~= chars_of_bytes(b));
    } else {
        let x = b.last();
        lemma_unescape_escaped(b.drop_last());
        lemma_char_of(x);
        let t = byte_text(x);
        lemma_unescape_concat(escaped_text(b.drop_last()), t);
        if x == 39 {
            assert(t.skip(2) =~= Seq::<char>::empty());
            assert(unescape(t.skip(2)) =~= Seq::<char>::empty());
            assert(unescape(t) =~= seq!['\'']);
        } else {
            assert(t.skip(1) =~= Seq::<char>::empty());
            assert(unescape(t.skip(1)) =~= Seq::<char>::empty());
            assert(unescape(t) =~= seq![char_of(x)]);
        }
        assert(chars_of_bytes(b) =~= chars_of_bytes(b.drop_last()) + seq![char_of(x)]);
    }
}

/// Characters made from bytes give those bytes back.
pub proof fn lemma_byte_string_of_chars(b: Seq<u8>)
    ensures
        byte_string(chars_of_bytes(b)) == Some(b),
{
    let s = chars_of_bytes(b);
    assert forall|i: int| 0 <= i < s.len() implies (s[i] as u32) < 256 by {
        lemma_char_of(b[i]);
    }
    assert forall|i: int| 0 <= i < s.len() implies #[verifier::truncate] ((s[i] as u32) as u8) == b[i] by {
        lemma_char_of(b[i]);
        let x = b[i];
        let y = s[i] as u32;
        assert(#[verifier::truncate] (y as u8) == x) by (bit_vector)
            requires
                y == x as u32,
        ;
    }
    assert(s.map_values(|c: char| #[verifier::truncate] ((c as u32) as u8)) =~= b);
}

pub proof fn lemma_trim_zeros_len(b: Seq<u8>)
    ensures
        trim_zeros(b).len() <= b.len(),
        trim_zeros(trim_zeros(b)) == trim_zeros(b),
    decreases b.len(),
{
    if b.len() > 0 && b.last() == 0 {
        lemma_trim_zeros_len(b.drop_last());
    }
}

/// Padding with zero bytes changes nothing once trailing zero bytes are dropped.
pub proof fn lemma_trim_zeros_padded(x: Seq<u8>, n: nat)
    requires
        x.len() <= n,
    ensures
        trim_zeros(padded(x, n)) == trim_zeros(x),
    decreases n - x.len(),
{
    if x.len() < n {
        let p = padded(x, n);
        assert(p.drop_last() =~= padded(x, (n - 1) as nat));
        assert(p.last() == 0u8);
        lemma_trim_zeros_padded(x, (n - 1) as nat);
    } else {
        assert(padded(x, n) =~= x);
    }
}

/// The digits of a number are digits, and their value is the number.
pub proof fn lemma_digits_of(n: nat)
    ensures
        digits_of(n).len() > 0,
        forall|i: int| 0 <= i < digits_of(n).len() ==> is_digit(#[trigger] digits_of(n)[i]),
        digits_value(digits_of(n)) == n,
    decreases n,
{
    let c = digit_char(n % 10);
    lemma_char_of((48 + n % 10) as u8);
    assert(c as u32 == 48 + n % 10);
    assert(c as nat == 48 + n % 10);
    assert(is_digit(c));
    if n >= 10 {
        lemma_digits_of(n / 10);
        let d = digits_of(n);
        assert(d.drop_last() =~= digits_of(n / 10));
        assert forall|i: int| 0 <= i < d.len() implies is_digit(#[trigger] d[i]) by {
            if i < d.len() - 1 {
                assert(d[i] == digits_of(n / 10)[i]);
            }
        }
        assert(d.last() == c);
        assert(digits_value(d) == digits_value(digits_of(n / 10)) * 10 + (c as nat - 48) as nat);
        assert(n == (n / 10) * 10 + n % 10) by (nonlinear_arith);
    } else {
        let d = digits_of(n);
        assert(d == seq![c]);
        assert(d.drop_last() =~= Seq::<char>::empty());
        assert(digits_value(Seq::<char>::empty()) == 0);
        assert(digits_value(d) == (c as nat - 48) as nat);
        assert forall|i: int| 0 <= i < d.len() implies is_digit(#[trigger] d[i]) by {
            assert(d[i] == c);
        }
    }
}

/// `Unknown` and the decimal digits of an opcode read back as that opcode.
pub proof fn lemma_unknown_name(id: u32)
    ensures
        parse_u32(strip_unknown("Unknown"@ + digits_of(id as nat))) == Some(id),
{
    reveal_strlit("Unknown");
    let d = digits_of(id as nat);
    lemma_digits_of(id as nat);
    let s = "Unknown"@ + d;
    assert(s.take(7) =~= "Unknown"@);
    assert(s.skip(7) =~= d);
    assert(is_digit(d[0]));
    if d.len() >= 7 {
        assert(d.take(7)[0] != "Unknown"@[0]);
    }
    assert(strip_unknown(d) == d);
    assert(strip_unknown(s) == d);
}

/// The bytes that the text of a fixed string is read back as.
pub open spec fn text_bytes(s: Seq<char>) -> Seq<u8> {
    match byte_string(unescape(s)) {
        Some(b) => b,
        None => Seq::empty(),
    }
}

/// The call argument that the text of a decoded argument reads back as.
pub open spec fn call_arg_of(cfg: ScriptConfig, a: ArgVal) -> ParsedArg {
    match a {
        ArgVal::Unknown(b) => ParsedArg::Raw(b),
        ArgVal::Number(n) => ParsedArg::Number(n),
        ArgVal::String16(s) => ParsedArg::String16(text_bytes(s)),
        ArgVal::String32(s) => ParsedArg::String32(text_bytes(s)),
        ArgVal::AccessedValue(TaggedValue::Literal(v)) => ParsedArg::Val(v),
        ArgVal::AccessedValue(TaggedValue::Variable(v)) => if cfg.variables().contains_key(v) {
            ParsedArg::NamedMem(cfg.variables()[v])
        } else {
            ParsedArg::Mem(v)
        },
        ArgVal::AccessedValue(TaggedValue::Improper { tag, value }) => ParsedArg::BadTag(tag, value),
        ArgVal::Enum(name, v) => match cfg.enum_map(name) {
            Some(m) => if m.contains_key(v) {
                ParsedArg::Named(m[v])
            } else {
                ParsedArg::Number(v)
            },
            None => ParsedArg::Number(v),
        },
    }
}

pub open spec fn call_args_of(cfg: ScriptConfig, vals: Seq<ArgVal>) -> Seq<ParsedArg> {
    vals.map_values(|a: ArgVal| call_arg_of(cfg, a))
}

/// No two numbers share a name.
pub open spec fn injective(m: Map<i32, Seq<char>>) -> bool {
    forall|a: i32, b: i32|
        #![trigger m[a], m[b]]
        m.contains_key(a) && m.contains_key(b) && m[a] == m[b] ==> a == b
}

/// The catalog's name tables pair each name with one number: bimaps do.
pub open spec fn tables_injective(cfg: ScriptConfig) -> bool {
    &&& injective(cfg.variables())
    &&& forall|name: Seq<char>| #[trigger]
        cfg.enum_map(name) is Some ==> injective(cfg.enum_map(name)->0)
}

proof fn lemma_value_named_injective(m: Map<i32, Seq<char>>, v: i32)
    requires
        injective(m),
        m.contains_key(v),
    ensures
        value_named(m, m[v]) == Some(v),
{
    let w = choose|w: i32| m.contains_key(w) && m[w] == m[v];
    assert(m[w] == m[v]);
}

proof fn lemma_two_numbers(e: Endian, t: i32, v: i32)
    ensures
        ({
            let x = i32_bytes(e, t) + i32_bytes(e, v);
            &&& x.len() == 8
            &&& i32_of(e, x.subrange(0, 4)) == t
            &&& i32_of(e, x.subrange(4, 8)) == v
        }),
{
    lemma_i32_round_trip(e, t);
    lemma_i32_round_trip(e, v);
    let x = i32_bytes(e, t) + i32_bytes(e, v);
    assert(x.subrange(0, 4) =~= i32_bytes(e, t));
    assert(x.subrange(4, 8) =~= i32_bytes(e, v));
}

/// A fixed string's text, read back and encoded again, decodes to the same text.
proof fn lemma_fixed_string_round_trip(b: Seq<u8>, n: nat)
    requires
        b.len() == n,
    ensures
        fixed_string(text_bytes(buf_text(b)), n) matches Ok(x) && x.len() == n && buf_text(x)
            == buf_text(b),
{
    let t = trim_zeros(b);
    lemma_unescape_escaped(t);
    lemma_byte_string_of_chars(t);
    assert(text_bytes(buf_text(b)) == t);
    lemma_trim_zeros_len(b);
    lemma_trim_zeros_padded(t, n);
}

/// An argument decoded from bytes, written as text and read back, encodes to
/// bytes of the same length that decode to the same argument.
pub proof fn lemma_arg_round_trip(
    cfg: ScriptConfig,
    e: Endian,
    declared: Seq<ArgKind>,
    id: u32,
    index: nat,
    t: ArgKind,
    b: Seq<u8>,
)
    requires
        b.len() == t.size(),
        t is Enum ==> index < declared.len() && declared[index as int] == t,
        tables_injective(cfg),
    ensures
        ({
            let c = call_arg_of(cfg, decode_arg(cfg, e, t, b));
            &&& c.size() == t.size()
            &&& encode_arg(cfg, e, declared, id, index, c) matches Ok(x) && x.len() == t.size()
                && decode_arg(cfg, e, t, x) == decode_arg(cfg, e, t, b)
        }),
{
    match t {
        ArgKind::Unknown(_) => {},
        ArgKind::String16 => {
            lemma_fixed_string_round_trip(b, 16);
        },
        ArgKind::String32 => {
            lemma_fixed_string_round_trip(b, 32);
        },
        ArgKind::Number => {
            lemma_i32_round_trip(e, i32_of(e, b));
        },
        ArgKind::Enum(name) => {
            let v = i32_of(e, b);
            lemma_i32_round_trip(e, v);
            if let Some(m) = cfg.enum_map(name) {
                if m.contains_key(v) {
                    lemma_value_named_injective(m, v);
                }
            }
        },
        ArgKind::AccessedValue => {
            let tag = i32_of(e, b.subrange(0, 4));
            let value = i32_of(e, b.subrange(4, 8));
            match classify(cfg.literal_tag, cfg.variable_tag, tag, value) {
                TaggedValue::Literal(v) => {
                    lemma_two_numbers(e, cfg.literal_tag, v);
                },
                TaggedValue::Variable(v) => {
                    lemma_two_numbers(e, cfg.variable_tag, v);
                    if cfg.variables().contains_key(v) {
                        lemma_value_named_injective(cfg.variables(), v);
                    }
                },
                TaggedValue::Improper { tag, value } => {
                    lemma_two_numbers(e, tag, value);
                },
            }
        },
    }
}

/// The decoded values of a list of argument types: one for each type.
pub proof fn lemma_decode_args_len(cfg: ScriptConfig, e: Endian, ts: Seq<ArgKind>, b: Seq<u8>)
    ensures
        decode_args(cfg, e, ts, b).len() == ts.len(),
    decreases ts.len(),
{
    if ts.len() > 0 {
        let n = args_size(ts.drop_last()) as int;
        lemma_decode_args_len(cfg, e, ts.drop_last(), b.subrange(0, n));
    }
}

/// The argument types `ts` agree with the declared types `declared` where they name an enum.
pub open spec fn enums_declared(ts: Seq<ArgKind>, declared: Seq<ArgKind>) -> bool {
    forall|i: int| 0 <= i < ts.len() && #[trigger] ts[i] is Enum ==> i < declared.len() && declared[i] == ts[i]
}

/// Arguments decoded from bytes, written as text and read back, encode to bytes of
/// the same length that decode to the same arguments.
pub proof fn lemma_args_round_trip(
    cfg: ScriptConfig,
    e: Endian,
    declared: Seq<ArgKind>,
    id: u32,
    ts: Seq<ArgKind>,
    b: Seq<u8>,
)
    requires
        b.len() == args_size(ts),
        enums_declared(ts, declared),
        tables_injective(cfg),
    ensures
        ({
            let vals = decode_args(cfg, e, ts, b);
            let calls = call_args_of(cfg, vals);
            &&& parsed_size(calls) == args_size(ts)
            &&& encode_args(cfg, e, declared, id, calls) matches Ok(x) && x.len() == args_size(ts)
                && decode_args(cfg, e, ts, x) == vals
        }),
    decreases ts.len(),
{
    let vals = decode_args(cfg, e, ts, b);
    let calls = call_args_of(cfg, vals);
    if ts.len() == 0 {
        assert(calls =~= Seq::<ParsedArg>::empty());
    } else {
        let ts0 = ts.drop_last();
        let n = args_size(ts0) as int;
        let last = ts.last();
        let b0 = b.subrange(0, n);
        let b1 = b.subrange(n, n + last.size());
        assert forall|i: int| 0 <= i < ts0.len() && #[trigger] ts0[i] is Enum implies i < declared.len()
            && declared[i] == ts0[i] by {
            assert(ts[i] == ts0[i]);
        }
        lemma_args_round_trip(cfg, e, declared, id, ts0, b0);
        let vals0 = decode_args(cfg, e, ts0, b0);
        lemma_decode_args_len(cfg, e, ts0, b0);
        assert(vals == vals0.push(decode_arg(cfg, e, last, b1)));
        assert(calls.drop_last() =~= call_args_of(cfg, vals0));
        assert(ts[ts.len() - 1] == last);
        lemma_arg_round_trip(cfg, e, declared, id, (ts.len() - 1) as nat, last, b1);
        let x0 = encode_args(cfg, e, declared, id, call_args_of(cfg, vals0))->Ok_0;
        let x1 = encode_arg(cfg, e, declared, id, (ts.len() - 1) as nat, calls.last())->Ok_0;
        let x = x0 + x1;
        assert(encode_args(cfg, e, declared, id, calls) == Ok::<Seq<u8>, crate::error::ErrorView>(x));
        assert(x.subrange(0, n) =~= x0);
        assert(x.subrange(n, n + last.size()) =~= x1);
    }
}

/// The call that the text of a decoded instruction reads back as.
pub open spec fn call_of(cfg: ScriptConfig, v: InstrView) -> CallView {
    CallView {
        name: match v.identifier {
            IdentView::Name(n) => n,
            IdentView::Id(id) => "Unknown"@ + decimal_of(id as int),
        },
        args: call_args_of(cfg, v.args),
    }
}

/// A fixed-size catalog whose instructions can all be written as text and read
/// back: names unique, name tables one to one, every declared size large enough
/// for the opcode and the declared arguments, and no name that reads as the
/// `Unknown` name of an unnamed opcode.
pub open spec fn catalog_consistent(cfg: ScriptConfig) -> bool {
    &&& !cfg.spec_is_unsized()
    &&& cfg.names_unique()
    &&& tables_injective(cfg)
    &&& forall|id: u32| #[trigger]
        cfg.schema(id) is Some ==> cfg.schema(id)->0.size is Some && cfg.schema(id)->0.size->0 >= 4
            && args_size(cfg.schema(id)->0.args) <= cfg.schema(id)->0.size->0 - 4
    &&& forall|id: u32| #[trigger]
        cfg.schema(id) is Some && cfg.schema(id)->0.name.len() == 0 ==> cfg.id_named(
            "Unknown"@ + decimal_of(id as int),
        ) is None
}

/// Where all arguments encode, each one does.
proof fn lemma_encode_args_each(
    cfg: ScriptConfig,
    e: Endian,
    declared: Seq<ArgKind>,
    id: u32,
    args: Seq<ParsedArg>,
    i: int,
)
    requires
        encode_args(cfg, e, declared, id, args) is Ok,
        0 <= i < args.len(),
    ensures
        encode_arg(cfg, e, declared, id, i as nat, args[i]) is Ok,
    decreases args.len(),
{
    if i < args.len() - 1 {
        assert(args.drop_last()[i] == args[i]);
        lemma_encode_args_each(cfg, e, declared, id, args.drop_last(), i);
    }
}

/// An instruction decoded from a record, written as text and read back, encodes to
/// a record of the same size that decodes to the same instruction, whatever follows it.
pub proof fn lemma_record_round_trip(cfg: ScriptConfig, e: Endian, id: u32, body: Seq<u8>, rest: Seq<u8>)
    requires
        catalog_consistent(cfg),
        cfg.schema(id) is Some,
        body.len() == cfg.schema(id)->0.size->0 - 4,
    ensures
        ({
            let s = cfg.schema(id)->0;
            let ts = sized_arg_list(s.size->0, s.args);
            let v = InstrView { identifier: ident_of(s.name, id), args: decode_args(cfg, e, ts, body) };
            encode_call(cfg, e, call_of(cfg, v)) matches Ok((rec, j)) && rec.len() == s.size->0
                && decode_record(cfg, e, rec + rest) == Ok::<(InstrView, nat), ErrorView>(
                (v, rec.len()),
            ) && (j matches Some((jid, name)) ==> jid == id && name.len() == 32
                && cfg.spec_is_jump_entry_id(id))
        }),
{
    reveal(decode_record);
    reveal(encode_call);
    let s = cfg.schema(id)->0;
    let size = s.size->0;
    let ts = sized_arg_list(size, s.args);
    let body_v = decode_args(cfg, e, ts, body);
    let v = InstrView { identifier: ident_of(s.name, id), args: body_v };
    let c = call_of(cfg, v);
    if args_size(s.args) != size - 4 {
        assert(ts.drop_last() =~= s.args);
    }
    assert(args_size(ts) == size - 4);
    assert forall|i: int| 0 <= i < ts.len() && #[trigger] ts[i] is Enum implies i < s.args.len()
        && s.args[i] == ts[i] by {
        if i >= s.args.len() {
            assert(ts[i] == ArgKind::Unknown((size - 4 - args_size(s.args)) as nat));
        }
    }
    lemma_args_round_trip(cfg, e, s.args, id, ts, body);
    if s.name.len() > 0 {
        let other = choose|other: u32| #[trigger]
            cfg.schema(other) is Some && cfg.schema(other)->0.name == s.name;
        assert(cfg.schema(other) is Some && cfg.schema(id) is Some);
        assert(other == id);
        assert(resolve(cfg, c) == Ok::<(u32, crate::config::InstructionSchema), ErrorView>((id, s)));
    } else {
        lemma_unknown_name(id);
        assert(decimal_of(id as int) == digits_of(id as nat));
        assert(resolve(cfg, c) == Ok::<(u32, crate::config::InstructionSchema), ErrorView>((id, s)));
    }
    let x = encode_args(cfg, e, s.args, id, c.args)->Ok_0;
    let rec = u32_bytes(e, id) + x;
    lemma_u32_round_trip(e, id);
    let all = rec + rest;
    assert(all.subrange(0, 4) =~= u32_bytes(e, id));
    assert(all.subrange(4, size as int) =~= x);
    if c.args.len() > 0 && c.args[0] is String32 {
        lemma_encode_args_each(cfg, e, s.args, id, c.args, 0);
    }
}

pub open spec fn calls_of(cfg: ScriptConfig, p: Seq<InstrView>) -> Seq<CallView> {
    p.map_values(|v: InstrView| call_of(cfg, v))
}

/// The record that an instruction's text encodes to.
pub open spec fn record_of(cfg: ScriptConfig, e: Endian, v: InstrView) -> Seq<u8> {
    encode_call(cfg, e, call_of(cfg, v))->Ok_0.0
}

pub open spec fn records_of(cfg: ScriptConfig, e: Endian, p: Seq<InstrView>) -> Seq<Seq<u8>> {
    p.map_values(|v: InstrView| record_of(cfg, e, v))
}

/// Byte sequences one after another.
pub open spec fn flat(recs: Seq<Seq<u8>>) -> Seq<u8>
    decreases recs.len(),
{
    if recs.len() == 0 {
        Seq::empty()
    } else {
        flat(recs.drop_last()) + recs.last()
    }
}

proof fn lemma_flat_front(a: Seq<u8>, r: Seq<Seq<u8>>)
    ensures
        flat(seq![a] + r) == a + flat(r),
    decreases r.len(),
{
    if r.len() == 0 {
        assert(seq![a] + r =~= seq![a]);
        assert(seq![a].drop_last() =~= Seq::<Seq<u8>>::empty());
        assert(flat(Seq::<Seq<u8>>::empty()) =~= Seq::<u8>::empty());
        assert(r =~= Seq::<Seq<u8>>::empty());
        assert(a + Seq::<u8>::empty() =~= a);
        assert(Seq::<u8>::empty() + a =~= a);
    } else {
        lemma_flat_front(a, r.drop_last());
        assert((seq![a] + r).drop_last() =~= seq![a] + r.drop_last());
        assert((seq![a] + r).last() == r.last());
        assert(a + flat(r.drop_last()) + r.last() =~= a + (flat(r.drop_last()) + r.last()));
    }
}

proof fn lemma_flat_prefix(r: Seq<Seq<u8>>, k: int)
    requires
        0 <= k <= r.len(),
    ensures
        flat(r.take(k)).len() <= flat(r).len(),
    decreases r.len() - k,
{
    if k < r.len() {
        lemma_flat_prefix(r, k + 1);
        assert(r.take(k + 1).drop_last() =~= r.take(k));
    } else {
        assert(r.take(k) =~= r);
    }
}

/// What holds of the call read back from each decoded instruction.
pub open spec fn calls_encode(cfg: ScriptConfig, e: Endian, p: Seq<InstrView>) -> bool {
    forall|i: int|
        0 <= i < p.len() ==> (encode_call(cfg, e, #[trigger] call_of(cfg, p[i])) matches Ok((rec, j))
            && rec.len() >= 4 && (j matches Some((jid, name)) ==> name.len() == 32
            && cfg.spec_is_jump_entry_id(jid)))
}

/// The instructions of a stream, read back from text, encode to records that
/// decode to them again.
proof fn lemma_stream_round_trip(cfg: ScriptConfig, e: Endian, b: Seq<u8>)
    requires
        catalog_consistent(cfg),
        decode_stream(cfg, e, b) is Ok,
    ensures
        ({
            let p = decode_stream(cfg, e, b)->Ok_0;
            let recs = records_of(cfg, e, p);
            &&& calls_encode(cfg, e, p)
            &&& flat(recs).len() == b.len()
            &&& b.len() >= 4 * p.len()
            &&& decode_stream(cfg, e, flat(recs)) == Ok::<Seq<InstrView>, ErrorView>(p)
        }),
    decreases b.len(),
{
    reveal(decode_stream);
    let p = decode_stream(cfg, e, b)->Ok_0;
    let recs = records_of(cfg, e, p);
    if b.len() == 0 {
        assert(p =~= Seq::<InstrView>::empty());
        assert(recs =~= Seq::<Seq<u8>>::empty());
    } else {
        reveal(decode_record);
        let (v0, n) = decode_record(cfg, e, b)->Ok_0;
        let rest = b.subrange(n as int, b.len() as int);
        lemma_stream_round_trip(cfg, e, rest);
        let tail = decode_stream(cfg, e, rest)->Ok_0;
        assert(p == seq![v0] + tail);
        let id = u32_of(e, b.subrange(0, 4));
        let s = cfg.schema(id)->0;
        let size = s.size->0;
        let ts = sized_arg_list(size, s.args);
        if args_size(s.args) != size - 4 {
            assert(ts.drop_last() =~= s.args);
        }
        assert(n == size);
        let body = b.subrange(4, size as int);
        let tail_recs = records_of(cfg, e, tail);
        lemma_record_round_trip(cfg, e, id, body, flat(tail_recs));
        assert(v0 == InstrView { identifier: ident_of(s.name, id), args: decode_args(cfg, e, ts, body) });
        let rec0 = record_of(cfg, e, v0);
        assert(recs =~= seq![rec0] + tail_recs);
        lemma_flat_front(rec0, tail_recs);
        let all = rec0 + flat(tail_recs);
        assert(all.subrange(n as int, all.len() as int) =~= flat(tail_recs));
        assert forall|i: int| 0 <= i < p.len() implies (encode_call(cfg, e, #[trigger] call_of(cfg, p[i])) matches Ok((rec, j))
            && rec.len() >= 4 && (j matches Some((jid, name)) ==> name.len() == 32
            && cfg.spec_is_jump_entry_id(jid))) by {
            if i > 0 {
                assert(p[i] == tail[i - 1]);
                assert(call_of(cfg, tail[i - 1]) == call_of(cfg, p[i]));
            }
        }
    }
}

pub open spec fn sum_counts(c: Seq<nat>) -> nat
    decreases c.len(),
{
    if c.len() == 0 {
        0
    } else {
        sum_counts(c.drop_last()) + c.last()
    }
}

/// Every table position holds a whole number of entries, and no count is larger
/// than the calls encoded so far.
pub open spec fn tables_fit(st: EncodeState, n: nat, k: nat) -> bool {
    &&& st.counts.len() == n
    &&& st.tables.len() == n
    &&& forall|q: int| 0 <= q < n ==> #[trigger] st.tables[q].len() == 36 * st.counts[q] && st.counts[q] <= k
}

proof fn lemma_tables_fit_more(st: EncodeState, st2: EncodeState, n: nat, k: nat)
    requires
        k >= 1,
        tables_fit(st, n, (k - 1) as nat),
        st2.counts == st.counts,
        st2.tables == st.tables,
    ensures
        tables_fit(st2, n, k),
{
    assert forall|r: int| 0 <= r < n implies #[trigger] st2.tables[r].len() == 36 * st2.counts[r]
        && st2.counts[r] <= k by {
        assert(st.tables[r].len() == 36 * st.counts[r]);
    }
}

proof fn lemma_tables_fit_entry(
    st: EncodeState,
    st2: EncodeState,
    n: nat,
    k: nat,
    q: int,
    name: Seq<u8>,
    tail: Seq<u8>,
)
    requires
        k >= 1,
        0 <= q < n,
        name.len() == 32,
        tail.len() == 4,
        tables_fit(st, n, (k - 1) as nat),
        st2.counts == st.counts.update(q, st.counts[q] + 1),
        st2.tables == st.tables.update(q, st.tables[q] + name + tail),
    ensures
        tables_fit(st2, n, k),
{
    assert forall|r: int| 0 <= r < n implies #[trigger] st2.tables[r].len() == 36 * st2.counts[r]
        && st2.counts[r] <= k by {
        assert(st.tables[r].len() == 36 * st.counts[r]);
    }
}

proof fn lemma_first_index_bound(ids: Seq<u32>, id: u32)
    requires
        ids.contains(id),
    ensures
        0 <= first_index(ids, id) < ids.len(),
    decreases ids.len(),
{
    if ids[0] != id {
        let j = choose|j: int| 0 <= j < ids.len() && ids[j] == id;
        assert(ids.drop_first()[j - 1] == id);
        lemma_first_index_bound(ids.drop_first(), id);
    }
}

/// Encoding the calls read back from the first `k` instructions succeeds, with
/// the records one after another and a whole entry for each jump table count.
#[verifier::rlimit(60)]
proof fn lemma_encode_calls_ok(cfg: ScriptConfig, e: Endian, p: Seq<InstrView>, k: nat)
    requires
        k <= p.len(),
        calls_encode(cfg, e, p),
        flat(records_of(cfg, e, p)).len() <= u32::MAX,
        4 * p.len() <= u32::MAX,
    ensures
        encode_calls(cfg, e, calls_of(cfg, p).take(k as int)) matches Ok(st) && st.stream == flat(
            records_of(cfg, e, p).take(k as int),
        ) && tables_fit(st, cfg.jump_table_ids@.len(), k),
    decreases k,
{
    let calls = calls_of(cfg, p);
    let recs = records_of(cfg, e, p);
    let n = cfg.jump_table_ids@.len();
    if k == 0 {
        assert(calls.take(0) =~= Seq::<CallView>::empty());
        assert(recs.take(0) =~= Seq::<Seq<u8>>::empty());
    } else {
        lemma_encode_calls_ok(cfg, e, p, (k - 1) as nat);
        assert(calls.take(k as int).drop_last() =~= calls.take(k - 1));
        assert(recs.take(k as int).drop_last() =~= recs.take(k - 1));
        let c = call_of(cfg, p[k - 1]);
        assert(calls.take(k as int).last() == c);
        assert(recs.take(k as int).last() == record_of(cfg, e, p[k - 1]));
        let st = encode_calls(cfg, e, calls.take(k - 1))->Ok_0;
        assert(encode_call(cfg, e, c) is Ok);
        let (rec, j) = encode_call(cfg, e, c)->Ok_0;
        assert(rec == record_of(cfg, e, p[k - 1]));
        assert(flat(recs.take(k as int)) == st.stream + rec);
        lemma_flat_prefix(recs, k - 1);
        match j {
            None => {
                let st2 = EncodeState { stream: st.stream + rec, counts: st.counts, tables: st.tables };
                assert(encode_calls(cfg, e, calls.take(k as int)) == Ok::<EncodeState, ErrorView>(st2));
                lemma_tables_fit_more(st, st2, n, k);
            },
            Some((id, name)) => {
                lemma_first_index_bound(cfg.jump_table_ids@, id);
                let q = first_index(cfg.jump_table_ids@, id);
                let offset = st.stream.len();
                assert(offset <= u32::MAX);
                assert(st.tables[q].len() == 36 * st.counts[q] && st.counts[q] <= k - 1);
                assert(st.counts[q] < u32::MAX);
                let entry = name + u32_bytes(e, offset as u32);
                lemma_u32_round_trip(e, offset as u32);
                let st2 = EncodeState {
                    stream: st.stream + rec,
                    counts: st.counts.update(q, st.counts[q] + 1),
                    tables: st.tables.update(q, st.tables[q] + name + u32_bytes(e, offset as u32)),
                };
                assert(encode_calls(cfg, e, calls.take(k as int)) == Ok::<EncodeState, ErrorView>(st2));
                lemma_tables_fit_entry(st, st2, n, k, q, name, u32_bytes(e, offset as u32));
            },
        }
    }
}

proof fn lemma_counts_bytes(e: Endian, c: Seq<nat>, i: int)
    requires
        0 <= i < c.len(),
        forall|q: int| 0 <= q < c.len() ==> #[trigger] c[q] <= u32::MAX,
    ensures
        counts_bytes(e, c).len() == 4 * c.len(),
        u32_of(e, counts_bytes(e, c).subrange(4 * i, 4 * i + 4)) == c[i],
    decreases c.len(),
{
    let cb = counts_bytes(e, c);
    lemma_u32_round_trip(e, c.last() as u32);
    if c.len() == 1 {
        assert(c.drop_last() =~= Seq::<nat>::empty());
        assert(cb.subrange(0, 4) =~= u32_bytes(e, c.last() as u32));
    } else {
        if i < c.len() - 1 {
            lemma_counts_bytes(e, c.drop_last(), i);
            assert(cb.subrange(4 * i, 4 * i + 4) =~= counts_bytes(e, c.drop_last()).subrange(4 * i, 4 * i + 4));
        } else {
            lemma_counts_bytes(e, c.drop_last(), 0);
            assert(cb.subrange(4 * i, 4 * i + 4) =~= u32_bytes(e, c.last() as u32));
        }
    }
}

proof fn lemma_jump_sum(e: Endian, c: Seq<nat>, b: Seq<u8>, k: nat)
    requires
        k <= c.len(),
        forall|q: int| 0 <= q < c.len() ==> #[trigger] c[q] <= u32::MAX,
        b.len() >= 4 * c.len(),
        b.subrange(0, 4 * c.len() as int) == counts_bytes(e, c),
    ensures
        jump_count_sum(e, b, k) == sum_counts(c.take(k as int)),
    decreases k,
{
    if k == 0 {
        assert(c.take(0) =~= Seq::<nat>::empty());
    } else {
        lemma_jump_sum(e, c, b, (k - 1) as nat);
        lemma_counts_bytes(e, c, k - 1);
        let i = k - 1;
        assert(b.subrange(4 * i, 4 * i + 4) =~= counts_bytes(e, c).subrange(4 * i, 4 * i + 4));
        assert(c.take(k as int).drop_last() =~= c.take(k - 1));
    }
}

proof fn lemma_tables_len(t: Seq<Seq<u8>>, c: Seq<nat>)
    requires
        t.len() == c.len(),
        forall|q: int| 0 <= q < t.len() ==> #[trigger] t[q].len() == 36 * c[q],
    ensures
        tables_bytes(t).len() == 36 * sum_counts(c),
    decreases t.len(),
{
    if t.len() > 0 {
        lemma_tables_len(t.drop_last(), c.drop_last());
        assert(t.last().len() == 36 * c.last());
    }
}

/// Decoding a script, writing it as text, reading the text back and encoding it
/// gives a script that decodes to the same instructions. This holds for catalogs
/// whose instructions can be written as text and read back, and for scripts that
/// hold at least one instruction (an empty script has no room after its jump
/// table) and fit the format's 32-bit offsets.
pub proof fn law_round_trip(cfg: ScriptConfig, e: Endian, b: Seq<u8>)
    requires
        catalog_consistent(cfg),
        b.len() <= u32::MAX,
        decode_script(cfg, e, b) is Ok,
        decode_script(cfg, e, b)->Ok_0.len() > 0,
    ensures
        ({
            let p = decode_script(cfg, e, b)->Ok_0;
            encode_program(cfg, e, calls_of(cfg, p)) matches Ok(out) && decode_script(cfg, e, out)
                == Ok::<Seq<InstrView>, ErrorView>(p)
        }),
{
    let p = decode_script(cfg, e, b)->Ok_0;
    let n = cfg.jump_table_ids@.len();
    let counts_len = 4 * n;
    let size = jump_table_size(cfg, e, b);
    let stream = b.subrange(counts_len + size as int, b.len() as int);
    assert(decode_stream(cfg, e, stream) == Ok::<Seq<InstrView>, ErrorView>(p));
    lemma_stream_round_trip(cfg, e, stream);
    let calls = calls_of(cfg, p);
    let recs = records_of(cfg, e, p);
    lemma_encode_calls_ok(cfg, e, p, p.len());
    assert(calls.take(p.len() as int) =~= calls);
    assert(recs.take(p.len() as int) =~= recs);
    let st = encode_calls(cfg, e, calls)->Ok_0;
    let w = flat(recs);
    assert(w.len() > 0) by {
        assert(recs.len() > 0);
        assert(recs.last().len() >= 4) by {
            assert(calls_encode(cfg, e, p));
            assert(recs.last() == record_of(cfg, e, p[p.len() - 1]));
        }
        assert(w == flat(recs.drop_last()) + recs.last());
    }
    assert forall|q: int| 0 <= q < st.counts.len() implies #[trigger] st.counts[q] <= u32::MAX by {
        assert(st.tables[q].len() == 36 * st.counts[q]);
    }
    let cb = counts_bytes(e, st.counts);
    let tb = tables_bytes(st.tables);
    let out = cb + tb + w;
    if n > 0 {
        lemma_counts_bytes(e, st.counts, 0);
    } else {
        assert(st.counts =~= Seq::<nat>::empty());
        assert(cb =~= Seq::<u8>::empty());
    }
    assert(out.subrange(0, 4 * n as int) =~= cb);
    lemma_jump_sum(e, st.counts, out, n);
    assert(st.counts.take(n as int) =~= st.counts);
    lemma_tables_len(st.tables, st.counts);
    assert(out.subrange(4 * n as int + 36 * sum_counts(st.counts) as int, out.len() as int) =~= w);
}

/// Text of a fixed string of at most `n` bytes, written the one way decoding
/// writes it: no zero byte at its end, each quote escaped.
pub open spec fn string_fits(s: Seq<char>, n: nat) -> bool {
    byte_string(unescape(s)) matches Some(b) && b.len() <= n && trim_zeros(b) == b && escaped_text(b) == s
}

/// An argument value that bytes of type `t` decode to.
pub open spec fn arg_fits(cfg: ScriptConfig, t: ArgKind, a: ArgVal) -> bool {
    match (t, a) {
        (ArgKind::Unknown(n), ArgVal::Unknown(b)) => b.len() == n,
        (ArgKind::Number, ArgVal::Number(_)) => true,
        (ArgKind::Enum(name), ArgVal::Enum(other, _)) => name == other,
        (ArgKind::String16, ArgVal::String16(s)) => string_fits(s, 16),
        (ArgKind::String32, ArgVal::String32(s)) => string_fits(s, 32),
        (ArgKind::AccessedValue, ArgVal::AccessedValue(TaggedValue::Literal(_))) => true,
        (ArgKind::AccessedValue, ArgVal::AccessedValue(TaggedValue::Variable(_))) => cfg.variable_tag
            != cfg.literal_tag,
        (ArgKind::AccessedValue, ArgVal::AccessedValue(TaggedValue::Improper { tag, value: _ })) => tag
            != cfg.literal_tag && tag != cfg.variable_tag,
        _ => false,
    }
}

/// The opcode an identifier names.
pub open spec fn ident_id(cfg: ScriptConfig, ident: IdentView) -> u32 {
    match ident {
        IdentView::Name(n) => cfg.id_named(n)->0,
        IdentView::Id(id) => id,
    }
}

/// An instruction of a fixed-size catalog that a record decodes to: an opcode the
/// catalog has, named as decoding names it, with one fitting value for each
/// argument type decoding uses for it.
pub open spec fn instr_fits(cfg: ScriptConfig, v: InstrView) -> bool {
    &&& match v.identifier {
        IdentView::Name(n) => cfg.id_named(n) is Some,
        IdentView::Id(id) => cfg.schema(id) is Some && cfg.schema(id)->0.name.len() == 0,
    }
    &&& ({
        let s = cfg.schema(ident_id(cfg, v.identifier))->0;
        let ts = sized_arg_list(s.size->0, s.args);
        &&& v.args.len() == ts.len()
        &&& forall|i: int| 0 <= i < ts.len() ==> arg_fits(cfg, #[trigger] ts[i], v.args[i])
    })
}

/// A fitting argument, written as text and read back, encodes to bytes of its
/// type's size that decode to it.
proof fn lemma_arg_from_value(
    cfg: ScriptConfig,
    e: Endian,
    declared: Seq<ArgKind>,
    id: u32,
    index: nat,
    t: ArgKind,
    a: ArgVal,
)
    requires
        arg_fits(cfg, t, a),
        t is Enum ==> index < declared.len() && declared[index as int] == t,
        tables_injective(cfg),
    ensures
        ({
            let c = call_arg_of(cfg, a);
            &&& c.size() == t.size()
            &&& encode_arg(cfg, e, declared, id, index, c) matches Ok(x) && x.len() == t.size()
                && decode_arg(cfg, e, t, x) == a
        }),
{
    match a {
        ArgVal::Number(n) => {
            lemma_i32_round_trip(e, n);
        },
        ArgVal::Enum(name, v) => {
            lemma_i32_round_trip(e, v);
            if let Some(m) = cfg.enum_map(name) {
                if m.contains_key(v) {
                    lemma_value_named_injective(m, v);
                }
            }
        },
        ArgVal::String16(s) => {
            let b = byte_string(unescape(s))->0;
            lemma_trim_zeros_padded(b, 16);
        },
        ArgVal::String32(s) => {
            let b = byte_string(unescape(s))->0;
            lemma_trim_zeros_padded(b, 32);
        },
        ArgVal::AccessedValue(TaggedValue::Literal(v)) => {
            lemma_two_numbers(e, cfg.literal_tag, v);
        },
        ArgVal::AccessedValue(TaggedValue::Variable(v)) => {
            lemma_two_numbers(e, cfg.variable_tag, v);
            if cfg.variables().contains_key(v) {
                lemma_value_named_injective(cfg.variables(), v);
            }
        },
        ArgVal::AccessedValue(TaggedValue::Improper { tag, value }) => {
            lemma_two_numbers(e, tag, value);
        },
        ArgVal::Unknown(_) => {},
    }
}

/// Fitting arguments, written as text and read back, encode to bytes that decode
/// to them.
proof fn lemma_args_from_values(
    cfg: ScriptConfig,
    e: Endian,
    declared: Seq<ArgKind>,
    id: u32,
    ts: Seq<ArgKind>,
    vals: Seq<ArgVal>,
)
    requires
        vals.len() == ts.len(),
        forall|i: int| 0 <= i < ts.len() ==> arg_fits(cfg, #[trigger] ts[i], vals[i]),
        enums_declared(ts, declared),
        tables_injective(cfg),
    ensures
        ({
            let calls = call_args_of(cfg, vals);
            &&& parsed_size(calls) == args_size(ts)
            &&& encode_args(cfg, e, declared, id, calls) matches Ok(x) && x.len() == args_size(ts)
                && decode_args(cfg, e, ts, x) == vals
        }),
    decreases ts.len(),
{
    let calls = call_args_of(cfg, vals);
    if ts.len() == 0 {
        assert(calls =~= Seq::<ParsedArg>::empty());
        assert(vals =~= Seq::<ArgVal>::empty());
    } else {
        let ts0 = ts.drop_last();
        let vals0 = vals.drop_last();
        let n = args_size(ts0) as int;
        let last = ts.last();
        assert forall|i: int| 0 <= i < ts0.len() implies arg_fits(cfg, #[trigger] ts0[i], vals0[i]) by {
            assert(ts[i] == ts0[i] && vals[i] == vals0[i]);
        }
        assert forall|i: int| 0 <= i < ts0.len() && #[trigger] ts0[i] is Enum implies i < declared.len()
            && declared[i] == ts0[i] by {
            assert(ts[i] == ts0[i]);
        }
        lemma_args_from_values(cfg, e, declared, id, ts0, vals0);
        assert(ts[ts.len() - 1] == last);
        assert(arg_fits(cfg, ts[ts.len() - 1], vals[ts.len() - 1]));
        lemma_arg_from_value(cfg, e, declared, id, (ts.len() - 1) as nat, last, vals.last());
        assert(calls.drop_last() =~= call_args_of(cfg, vals0));
        let x0 = encode_args(cfg, e, declared, id, call_args_of(cfg, vals0))->Ok_0;
        let x1 = encode_arg(cfg, e, declared, id, (ts.len() - 1) as nat, calls.last())->Ok_0;
        let x = x0 + x1;
        assert(encode_args(cfg, e, declared, id, calls) == Ok::<Seq<u8>, ErrorView>(x));
        assert(x.subrange(0, n) =~= x0);
        assert(x.subrange(n, n + last.size()) =~= x1);
        assert(decode_args(cfg, e, ts, x) =~= vals0.push(vals.last()));
        assert(vals0.push(vals.last()) =~= vals);
    }
}

/// A fitting instruction, written as text and read back, encodes to a record of
/// its declared size that decodes to it, whatever follows it.
proof fn lemma_record_from_value(cfg: ScriptConfig, e: Endian, v: InstrView, rest: Seq<u8>)
    requires
        catalog_consistent(cfg),
        instr_fits(cfg, v),
    ensures
        encode_call(cfg, e, call_of(cfg, v)) matches Ok((rec, j)) && rec.len() >= 4 && decode_record(
            cfg,
            e,
            rec + rest,
        ) == Ok::<(InstrView, nat), ErrorView>((v, rec.len())) && (j matches Some((jid, name))
            ==> name.len() == 32 && cfg.spec_is_jump_entry_id(jid)),
{
    reveal(decode_record);
    reveal(encode_call);
    let id = ident_id(cfg, v.identifier);
    match v.identifier {
        IdentView::Name(n) => {
            assert(cfg.schema(id) is Some && cfg.schema(id)->0.name == n);
        },
        IdentView::Id(_) => {},
    }
    let s = cfg.schema(id)->0;
    let size = s.size->0;
    let ts = sized_arg_list(size, s.args);
    let c = call_of(cfg, v);
    assert(v.identifier == ident_of(s.name, id));
    if args_size(s.args) != size - 4 {
        assert(ts.drop_last() =~= s.args);
    }
    assert(args_size(ts) == size - 4);
    assert forall|i: int| 0 <= i < ts.len() && #[trigger] ts[i] is Enum implies i < s.args.len()
        && s.args[i] == ts[i] by {
        if i >= s.args.len() {
            assert(ts[i] == ArgKind::Unknown((size - 4 - args_size(s.args)) as nat));
        }
    }
    lemma_args_from_values(cfg, e, s.args, id, ts, v.args);
    if s.name.len() > 0 {
        let other = choose|other: u32| #[trigger]
            cfg.schema(other) is Some && cfg.schema(other)->0.name == s.name;
        assert(cfg.schema(other) is Some && cfg.schema(id) is Some);
        assert(other == id);
        assert(resolve(cfg, c) == Ok::<(u32, crate::config::InstructionSchema), ErrorView>((id, s)));
    } else {
        lemma_unknown_name(id);
        assert(decimal_of(id as int) == digits_of(id as nat));
        assert(resolve(cfg, c) == Ok::<(u32, crate::config::InstructionSchema), ErrorView>((id, s)));
    }
    let x = encode_args(cfg, e, s.args, id, c.args)->Ok_0;
    let rec = u32_bytes(e, id) + x;
    lemma_u32_round_trip(e, id);
    let all = rec + rest;
    assert(all.subrange(0, 4) =~= u32_bytes(e, id));
    assert(all.subrange(4, size as int) =~= x);
    if c.args.len() > 0 && c.args[0] is String32 {
        lemma_encode_args_each(cfg, e, s.args, id, c.args, 0);
    }
}

/// Fitting instructions, written as text and read back, encode to records that
/// decode to them.
proof fn lemma_values_stream(cfg: ScriptConfig, e: Endian, p: Seq<InstrView>)
    requires
        catalog_consistent(cfg),
        forall|i: int| 0 <= i < p.len() ==> instr_fits(cfg, #[trigger] p[i]),
    ensures
        calls_encode(cfg, e, p),
        decode_stream(cfg, e, flat(records_of(cfg, e, p))) == Ok::<Seq<InstrView>, ErrorView>(p),
        flat(records_of(cfg, e, p)).len() >= 4 * p.len(),
    decreases p.len(),
{
    reveal(decode_stream);
    let recs = records_of(cfg, e, p);
    if p.len() == 0 {
        assert(recs =~= Seq::<Seq<u8>>::empty());
        assert(p =~= Seq::<InstrView>::empty());
    } else {
        let v0 = p[0];
        let tail = p.drop_first();
        assert forall|i: int| 0 <= i < tail.len() implies instr_fits(cfg, #[trigger] tail[i]) by {
            assert(tail[i] == p[i + 1]);
        }
        lemma_values_stream(cfg, e, tail);
        let tail_recs = records_of(cfg, e, tail);
        lemma_record_from_value(cfg, e, v0, flat(tail_recs));
        let rec0 = record_of(cfg, e, v0);
        assert(recs =~= seq![rec0] + tail_recs);
        lemma_flat_front(rec0, tail_recs);
        let all = rec0 + flat(tail_recs);
        assert(all.subrange(rec0.len() as int, all.len() as int) =~= flat(tail_recs));
        assert(p =~= seq![v0] + tail);
        assert forall|i: int| 0 <= i < p.len() implies (encode_call(cfg, e, #[trigger] call_of(cfg, p[i])) matches Ok((rec, j))
            && rec.len() >= 4 && (j matches Some((jid, name)) ==> name.len() == 32
            && cfg.spec_is_jump_entry_id(jid))) by {
            if i > 0 {
                assert(p[i] == tail[i - 1]);
                assert(call_of(cfg, tail[i - 1]) == call_of(cfg, p[i]));
            }
        }
    }
}

/// Instructions that records of a fixed-size catalog decode to, written as text,
/// read back and encoded, give a script that decodes to the same instructions.
/// This holds where there is at least one instruction (an empty script has no
/// room after its jump table) and the records fit the format's 32-bit offsets.
pub proof fn law_values_round_trip(cfg: ScriptConfig, e: Endian, p: Seq<InstrView>)
    requires
        catalog_consistent(cfg),
        p.len() > 0,
        forall|i: int| 0 <= i < p.len() ==> instr_fits(cfg, #[trigger] p[i]),
        flat(records_of(cfg, e, p)).len() <= u32::MAX,
    ensures
        encode_program(cfg, e, calls_of(cfg, p)) matches Ok(out) && decode_script(cfg, e, out)
            == Ok::<Seq<InstrView>, ErrorView>(p),
{
    let n = cfg.jump_table_ids@.len();
    lemma_values_stream(cfg, e, p);
    let calls = calls_of(cfg, p);
    let recs = records_of(cfg, e, p);
    lemma_encode_calls_ok(cfg, e, p, p.len());
    assert(calls.take(p.len() as int) =~= calls);
    assert(recs.take(p.len() as int) =~= recs);
    let st = encode_calls(cfg, e, calls)->Ok_0;
    let w = flat(recs);
    assert forall|q: int| 0 <= q < st.counts.len() implies #[trigger] st.counts[q] <= u32::MAX by {
        assert(st.tables[q].len() == 36 * st.counts[q]);
    }
    let cb = counts_bytes(e, st.counts);
    let tb = tables_bytes(st.tables);
    let out = cb + tb + w;
    if n > 0 {
        lemma_counts_bytes(e, st.counts, 0);
    } else {
        assert(st.counts =~= Seq::<nat>::empty());
        assert(cb =~= Seq::<u8>::empty());
    }
    assert(out.subrange(0, 4 * n as int) =~= cb);
    lemma_jump_sum(e, st.counts, out, n);
    assert(st.counts.take(n as int) =~= st.counts);
    lemma_tables_len(st.tables, st.counts);
    assert(out.subrange(4 * n as int + 36 * sum_counts(st.counts) as int, out.len() as int) =~= w);
}

} // verus!
