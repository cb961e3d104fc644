//! Encoding instruction calls into a script: records, and the jump table before them.
use vstd::prelude::*;
use crate::config::{
    kinds, nameless_schema, ArgKind, ArgType, GenericInstruction, InstructionSchema, ScriptConfig,
    UnsizedInstruction, value_named, STRING16_SIZE, STRING32_SIZE,
};
use crate::endian::{i32_bytes, push_i32, push_u32, u32_bytes, Endian};
use crate::error::{BBScriptError, ErrorView};

verus! {

/// An argument as a script's text gives it.
#[derive(Debug)]
pub enum ParserValue {
    /// The bytes of a 32-byte string, escapes removed, not yet padded.
    String32(Vec<u8>),
    /// The bytes of a 16-byte string, escapes removed, not yet padded.
    String16(Vec<u8>),
    /// A variant of the enum that the instruction declares at this position.
    Named(String),
    Number(i32),
    /// Bytes written as they are.
    Raw(Vec<u8>),
    /// A variable by name.
    NamedMem(String),
    /// A variable by number.
    Mem(i32),
    /// A literal.
    Val(i32),
    /// A tag and a value written as they are.
    BadTag(i32, i32),
}

pub enum ParsedArg {
    String32(Seq<u8>),
    String16(Seq<u8>),
    Named(Seq<char>),
    Number(i32),
    Raw(Seq<u8>),
    NamedMem(Seq<char>),
    Mem(i32),
    Val(i32),
    BadTag(i32, i32),
}

impl View for ParserValue {
    type V = ParsedArg;

    open spec fn view(&self) -> ParsedArg {
        match self {
            ParserValue::String32(b) => ParsedArg::String32(b@),
            ParserValue::String16(b) => ParsedArg::String16(b@),
            ParserValue::Named(s) => ParsedArg::Named(s@),
            ParserValue::Number(n) => ParsedArg::Number(*n),
            ParserValue::Raw(b) => ParsedArg::Raw(b@),
            ParserValue::NamedMem(s) => ParsedArg::NamedMem(s@),
            ParserValue::Mem(n) => ParsedArg::Mem(*n),
            ParserValue::Val(n) => ParsedArg::Val(*n),
            ParserValue::BadTag(t, v) => ParsedArg::BadTag(*t, *v),
        }
    }
}

impl ParsedArg {
    /// The bytes the argument takes in a record.
    pub open spec fn size(self) -> nat {
        match self {
            ParsedArg::String32(_) => 32,
            ParsedArg::String16(_) => 16,
            ParsedArg::Raw(b) => b.len(),
            ParsedArg::Mem(_) => 8,
            ParsedArg::NamedMem(_) => 8,
            ParsedArg::Val(_) => 8,
            ParsedArg::BadTag(_, _) => 8,
            ParsedArg::Named(_) => 4,
            ParsedArg::Number(_) => 4,
        }
    }

    /// The argument type a call gives an opcode that the catalog lacks.
    pub open spec fn kind(self) -> ArgKind {
        match self {
            ParsedArg::String32(_) => ArgKind::String32,
            ParsedArg::String16(_) => ArgKind::String16,
            ParsedArg::Named(_) => ArgKind::Number,
            ParsedArg::Number(_) => ArgKind::Number,
            ParsedArg::Raw(b) => ArgKind::Unknown(b.len()),
            ParsedArg::NamedMem(_) => ArgKind::AccessedValue,
            ParsedArg::Mem(_) => ArgKind::AccessedValue,
            ParsedArg::Val(_) => ArgKind::AccessedValue,
            ParsedArg::BadTag(_, _) => ArgKind::AccessedValue,
        }
    }
}

/// The bytes the arguments take.
pub open spec fn parsed_size(args: Seq<ParsedArg>) -> nat
    decreases args.len(),
{
    if args.len() == 0 {
        0
    } else {
        parsed_size(args.drop_last()) + args.last().size()
    }
}

pub open spec fn parsed_views(args: Seq<ParserValue>) -> Seq<ParsedArg> {
    args.map_values(|a: ParserValue| a@)
}

/// One instruction call of a script's text.
#[derive(Debug)]
pub struct BBSFunction {
    pub name: String,
    pub args: Vec<ParserValue>,
}

pub struct CallView {
    pub name: Seq<char>,
    pub args: Seq<ParsedArg>,
}

impl View for BBSFunction {
    type V = CallView;

    open spec fn view(&self) -> CallView {
        CallView { name: self.name@, args: parsed_views(self.args@) }
    }
}

impl ParserValue {
    /// The argument type of this argument where the catalog declares none: a named
    /// variant counts as a number, and then fails to encode for want of an enum.
    pub fn to_arg_type(&self) -> (r: ArgType)
        ensures
            r@ == self@.kind(),
    {
        match self {
            ParserValue::String32(_) => ArgType::String32,
            ParserValue::String16(_) => ArgType::String16,
            ParserValue::Named(_) => ArgType::Number,
            ParserValue::Number(_) => ArgType::Number,
            ParserValue::Raw(data) => ArgType::Unknown(data.len()),
            ParserValue::NamedMem(_) => ArgType::AccessedValue,
            ParserValue::Mem(_) => ArgType::AccessedValue,
            ParserValue::Val(_) => ArgType::AccessedValue,
            ParserValue::BadTag(_, _) => ArgType::AccessedValue,
        }
    }

    pub fn size(&self) -> (r: usize)
        ensures
            r == self@.size(),
    {
        match self {
            ParserValue::String32(_) => 32,
            ParserValue::String16(_) => 16,
            ParserValue::Raw(bytes) => bytes.len(),
            ParserValue::Mem(_) => 8,
            ParserValue::NamedMem(_) => 8,
            ParserValue::Val(_) => 8,
            ParserValue::BadTag(_, _) => 8,
            ParserValue::Named(_) => 4,
            ParserValue::Number(_) => 4,
        }
    }
}

/// The bytes of the call's arguments, computed without overflow.
fn args_bytes(args: &Vec<ParserValue>) -> (r: u128)
    ensures
        r == parsed_size(parsed_views(args@)),
        r <= 0xFFFF_FFFF_FFFF_FFFF_0000_0000_0000_0000,
{
    let mut sum: u128 = 0;
    let mut i: usize = 0;
    while i < args.len()
        invariant
            i <= args@.len(),
            sum == parsed_size(parsed_views(args@.take(i as int))),
            sum <= i * 0x1_0000_0000_0000_0000,
        decreases args@.len() - i,
    {
        proof {
            assert(parsed_views(args@.take(i + 1)).drop_last() =~= parsed_views(args@.take(i as int)));
        }
        sum = sum + args[i].size() as u128;
        i = i + 1;
    }
    assert(args@.take(i as int) =~= args@);
    let len = args.len();
    assert(sum <= 0xFFFF_FFFF_FFFF_FFFF_0000_0000_0000_0000) by (nonlinear_arith)
        requires
            sum <= i * 0x1_0000_0000_0000_0000,
            i == len,
            len <= 0xFFFF_FFFF_FFFF_FFFF,
    ;
    sum
}

impl BBSFunction {
    /// The size of the call's record in a fixed-size catalog: the opcode and the
    /// arguments, or `usize::MAX` where that is larger.
    pub fn total_size(&self) -> (r: usize)
        ensures
            r == if 4 + parsed_size(self@.args) <= usize::MAX {
                4 + parsed_size(self@.args)
            } else {
                usize::MAX as nat
            },
    {
        let n = args_bytes(&self.args);
        if n <= usize::MAX as u128 - 4 {
            (n + 4) as usize
        } else {
            usize::MAX
        }
    }
}

/// `b` padded with zero bytes to `n` bytes.
pub open spec fn padded(b: Seq<u8>, n: nat) -> Seq<u8> {
    b + Seq::new((n - b.len()) as nat, |i: int| 0u8)
}

/// The bytes of a fixed string of `n` bytes, or an error where `b` is longer.
pub open spec fn fixed_string(b: Seq<u8>, n: nat) -> Result<Seq<u8>, ErrorView> {
    if b.len() > n {
        Err(ErrorView::StringTooLong(b.len() as usize, n as usize))
    } else {
        Ok(padded(b, n))
    }
}

/// The bytes of argument `index` of a call to opcode `id` whose declared argument
/// types are `declared`.
pub open spec fn encode_arg(
    cfg: ScriptConfig,
    e: Endian,
    declared: Seq<ArgKind>,
    id: u32,
    index: nat,
    a: ParsedArg,
) -> Result<Seq<u8>, ErrorView> {
    match a {
        ParsedArg::String32(b) => fixed_string(b, 32),
        ParsedArg::String16(b) => fixed_string(b, 16),
        ParsedArg::Raw(b) => Ok(b),
        ParsedArg::Number(n) => Ok(i32_bytes(e, n)),
        ParsedArg::Named(variant) => if index < declared.len() && declared[index as int] is Enum {
            let name = declared[index as int]->Enum_0;
            match match cfg.enum_map(name) {
                Some(m) => value_named(m, variant),
                None => None,
            } {
                Some(v) => Ok(i32_bytes(e, v)),
                None => Err(ErrorView::NoAssociatedValue(variant, name)),
            }
        } else {
            Err(ErrorView::NoEnum(index as usize, id))
        },
        ParsedArg::Mem(v) => Ok(i32_bytes(e, cfg.variable_tag) + i32_bytes(e, v)),
        ParsedArg::NamedMem(name) => match value_named(cfg.variables(), name) {
            Some(v) => Ok(i32_bytes(e, cfg.variable_tag) + i32_bytes(e, v)),
            None => Err(ErrorView::NoVariableName(name)),
        },
        ParsedArg::Val(v) => Ok(i32_bytes(e, cfg.literal_tag) + i32_bytes(e, v)),
        ParsedArg::BadTag(t, v) => Ok(i32_bytes(e, t) + i32_bytes(e, v)),
    }
}

/// The bytes of a call's arguments, one after another; the first error where one
/// cannot be encoded.
pub open spec fn encode_args(
    cfg: ScriptConfig,
    e: Endian,
    declared: Seq<ArgKind>,
    id: u32,
    args: Seq<ParsedArg>,
) -> Result<Seq<u8>, ErrorView>
    decreases args.len(),
{
    if args.len() == 0 {
        Ok(Seq::empty())
    } else {
        match encode_args(cfg, e, declared, id, args.drop_last()) {
            Err(x) => Err(x),
            Ok(b) => match encode_arg(cfg, e, declared, id, (args.len() - 1) as nat, args.last()) {
                Err(x) => Err(x),
                Ok(a) => Ok(b + a),
            },
        }
    }
}

/// `s` without the leading repetitions of `Unknown`.
pub open spec fn strip_unknown(s: Seq<char>) -> Seq<char>
    decreases s.len(),
{
    if s.len() >= 7 && s.take(7) == "Unknown"@ {
        strip_unknown(s.skip(7))
    } else {
        s
    }
}

pub open spec fn is_digit(c: char) -> bool {
    '0' <= c <= '9'
}

/// The value of a string of decimal digits.
pub open spec fn digits_value(s: Seq<char>) -> nat
    decreases s.len(),
{
    if s.len() == 0 {
        0
    } else {
        digits_value(s.drop_last()) * 10 + (s.last() as nat - 48) as nat
    }
}

/// A `u32` written in decimal, with an optional leading plus sign.
pub open spec fn parse_u32(s: Seq<char>) -> Option<u32> {
    let d = if s.len() > 0 && s[0] == '+' {
        s.skip(1)
    } else {
        s
    };
    if d.len() > 0 && (forall|i: int| 0 <= i < d.len() ==> is_digit(#[trigger] d[i]))
        && digits_value(d) <= u32::MAX {
        Some(digits_value(d) as u32)
    } else {
        None
    }
}

/// The opcode and schema a call names: an instruction of that name, or else the
/// opcode `N` of a name `UnknownN`; an opcode that a dynamic-size catalog lacks
/// takes its argument types from the call.
pub open spec fn resolve(cfg: ScriptConfig, c: CallView) -> Result<
    (u32, InstructionSchema),
    ErrorView,
> {
    match cfg.id_named(c.name) {
        Some(id) => Ok((id, cfg.schema(id)->0)),
        None => match parse_u32(strip_unknown(c.name)) {
            None => Err(ErrorView::UnknownInstructionName(c.name)),
            Some(id) => match cfg.schema(id) {
                Some(s) => Ok((id, s)),
                None => if cfg.spec_is_unsized() {
                    Ok((id, nameless_schema(c.args.map_values(|a: ParsedArg| a.kind()))))
                } else {
                    Err(ErrorView::UnknownInstructionID(id))
                },
            },
        },
    }
}

/// The record of a call, and the opcode and name of its jump table entry if it
/// makes one.
#[verifier::opaque]
pub open spec fn encode_call(cfg: ScriptConfig, e: Endian, c: CallView) -> Result<
    (Seq<u8>, Option<(u32, Seq<u8>)>),
    ErrorView,
> {
    match resolve(cfg, c) {
        Err(x) => Err(x),
        Ok((id, s)) => {
            let total = 4 + parsed_size(c.args);
            if s.size is Some && total != s.size->0 {
                Err(ErrorView::IncorrectFunctionSize(c.name, total as usize, s.size->0 as usize))
            } else if cfg.spec_is_unsized() && total + 4 > u32::MAX {
                Err(ErrorView::StreamTooLarge((total + 4) as usize))
            } else {
                match encode_args(cfg, e, s.args, id, c.args) {
                    Err(x) => Err(x),
                    Ok(body) => {
                        let header = if cfg.spec_is_unsized() {
                            u32_bytes(e, id) + u32_bytes(e, (total + 4) as u32)
                        } else {
                            u32_bytes(e, id)
                        };
                        let jump = if cfg.spec_is_jump_entry_id(id) && c.args.len() > 0
                            && c.args[0] is String32 {
                            Some((id, padded(c.args[0]->String32_0, 32)))
                        } else {
                            None
                        };
                        Ok((header + body, jump))
                    },
                }
            }
        },
    }
}

/// The first position of `id` in `ids`.
pub open spec fn first_index(ids: Seq<u32>, id: u32) -> int
    decreases ids.len(),
{
    if ids.len() == 0 || ids[0] == id {
        0
    } else {
        1 + first_index(ids.drop_first(), id)
    }
}

/// What encoding builds: the records, and for each position of the catalog's
/// jump table list the number and the bytes of its entries.
pub struct EncodeState {
    pub stream: Seq<u8>,
    pub counts: Seq<nat>,
    pub tables: Seq<Seq<u8>>,
}

/// The state after encoding `calls`, or the first error.
pub open spec fn encode_calls(cfg: ScriptConfig, e: Endian, calls: Seq<CallView>) -> Result<
    EncodeState,
    ErrorView,
>
    decreases calls.len(),
{
    if calls.len() == 0 {
        let n = cfg.jump_table_ids@.len();
        Ok(
            EncodeState {
                stream: Seq::empty(),
                counts: Seq::new(n, |i: int| 0nat),
                tables: Seq::new(n, |i: int| Seq::<u8>::empty()),
            },
        )
    } else {
        match encode_calls(cfg, e, calls.drop_last()) {
            Err(x) => Err(x),
            Ok(st) => match encode_call(cfg, e, calls.last()) {
                Err(x) => Err(x),
                Ok((record, None)) => Ok(
                    EncodeState { stream: st.stream + record, counts: st.counts, tables: st.tables },
                ),
                Ok((record, Some((id, name)))) => {
                    let k = first_index(cfg.jump_table_ids@, id);
                    let offset = st.stream.len();
                    if offset > u32::MAX {
                        Err(ErrorView::StreamTooLarge(offset as usize))
                    } else if st.counts[k] >= u32::MAX {
                        Err(ErrorView::StreamTooLarge(st.counts[k] as usize))
                    } else {
                        Ok(
                            EncodeState {
                                stream: st.stream + record,
                                counts: st.counts.update(k, st.counts[k] + 1),
                                tables: st.tables.update(
                                    k,
                                    st.tables[k] + name + u32_bytes(e, offset as u32),
                                ),
                            },
                        )
                    }
                },
            },
        }
    }
}

/// The counts of a jump table, one four-byte field each.
pub open spec fn counts_bytes(e: Endian, counts: Seq<nat>) -> Seq<u8>
    decreases counts.len(),
{
    if counts.len() == 0 {
        Seq::empty()
    } else {
        counts_bytes(e, counts.drop_last()) + u32_bytes(e, counts.last() as u32)
    }
}

/// The entries of a jump table, position by position.
pub open spec fn tables_bytes(tables: Seq<Seq<u8>>) -> Seq<u8>
    decreases tables.len(),
{
    if tables.len() == 0 {
        Seq::empty()
    } else {
        tables_bytes(tables.drop_last()) + tables.last()
    }
}

/// The whole script for `calls`: the jump table's counts, its entries, then the records.
pub open spec fn encode_program(cfg: ScriptConfig, e: Endian, calls: Seq<CallView>) -> Result<
    Seq<u8>,
    ErrorView,
> {
    match encode_calls(cfg, e, calls) {
        Err(x) => Err(x),
        Ok(st) => Ok(counts_bytes(e, st.counts) + tables_bytes(st.tables) + st.stream),
    }
}

pub open spec fn calls_view(calls: Seq<BBSFunction>) -> Seq<CallView> {
    calls.map_values(|c: BBSFunction| c@)
}

pub open spec fn bytes_result(r: Result<Vec<u8>, BBScriptError>) -> Result<Seq<u8>, ErrorView> {
    match r {
        Ok(b) => Ok(b@),
        Err(x) => Err(x@),
    }
}

/// Relies on u32's `FromStr`: decimal digits with an optional leading plus sign,
/// accepted where the value fits in a `u32`.
#[verifier::external_body]
fn parse_decimal_u32(s: &str) -> (r: Option<u32>)
    ensures
        r == parse_u32(s@),
{
    s.parse::<u32>().ok()
}

/// Whether the seven characters at `at` spell `Unknown`.
fn unknown_at(s: &str, at: usize) -> (r: bool)
    requires
        at + 7 <= s@.len() <= usize::MAX,
    ensures
        r == (s@.subrange(at as int, at + 7) == "Unknown"@),
{
    proof {
        reveal_strlit("Unknown");
    }
    let r = s.get_char(at) == 'U' && s.get_char(at + 1) == 'n' && s.get_char(at + 2) == 'k'
        && s.get_char(at + 3) == 'n' && s.get_char(at + 4) == 'o' && s.get_char(at + 5) == 'w'
        && s.get_char(at + 6) == 'n';
    assert(r ==> s@.subrange(at as int, at + 7) =~= "Unknown"@);
    proof {
        if s@.subrange(at as int, at + 7) == "Unknown"@ {
            assert(s@.subrange(at as int, at + 7)[0] == 'U');
            assert(s@.subrange(at as int, at + 7)[1] == 'n');
            assert(s@.subrange(at as int, at + 7)[2] == 'k');
            assert(s@.subrange(at as int, at + 7)[3] == 'n');
            assert(s@.subrange(at as int, at + 7)[4] == 'o');
            assert(s@.subrange(at as int, at + 7)[5] == 'w');
            assert(s@.subrange(at as int, at + 7)[6] == 'n');
        }
    }
    r
}

/// The opcode written as `UnknownN`.
fn unknown_id(name: &String) -> (r: Option<u32>)
    ensures
        r == parse_u32(strip_unknown(name@)),
{
    let s = name.as_str();
    let n = s.unicode_len();
    let mut start: usize = 0;
    assert(name@.skip(0) =~= name@);
    while n - start >= 7 && unknown_at(s, start)
        invariant
            start <= n,
            n == s@.len(),
            s@ == name@,
            strip_unknown(name@) == strip_unknown(name@.skip(start as int)),
        decreases n - start,
    {
        proof {
            let t = name@.skip(start as int);
            assert(t.take(7) =~= name@.subrange(start as int, start + 7));
            assert(t.skip(7) =~= name@.skip(start + 7));
        }
        start = start + 7;
    }
    proof {
        let t = name@.skip(start as int);
        if t.len() >= 7 {
            assert(t.take(7) =~= name@.subrange(start as int, start + 7));
        }
    }
    let rest = s.substring_char(start, n);
    assert(rest@ =~= name@.skip(start as int));
    parse_decimal_u32(rest)
}

/// Appends a fixed string of `n` bytes.
fn push_fixed_string(out: &mut Vec<u8>, b: &Vec<u8>, n: usize) -> (r: Result<(), BBScriptError>)
    ensures
        match fixed_string(b@, n as nat) {
            Ok(x) => r is Ok && final(out)@ == old(out)@ + x,
            Err(x) => r matches Err(y) && y@ == x && final(out)@ == old(out)@,
        },
{
    if b.len() > n {
        return Err(BBScriptError::StringTooLong(b.len(), n));
    }
    let mut i: usize = 0;
    while i < b.len()
        invariant
            i <= b@.len(),
            out@ == old(out)@ + b@.take(i as int),
        decreases b@.len() - i,
    {
        out.push(b[i]);
        i = i + 1;
        assert(out@ =~= old(out)@ + b@.take(i as int));
    }
    let mut k: usize = b.len();
    while k < n
        invariant
            b@.len() <= k <= n,
            out@ == old(out)@ + b@ + Seq::new((k - b@.len()) as nat, |j: int| 0u8),
        decreases n - k,
    {
        out.push(0u8);
        k = k + 1;
        assert(out@ =~= old(out)@ + b@ + Seq::new((k - b@.len()) as nat, |j: int| 0u8));
    }
    assert(out@ =~= old(out)@ + padded(b@, n as nat));
    Ok(())
}

impl ScriptConfig {
    /// Appends the bytes of argument `index` of a call to the instruction `info`.
    fn encode_argument(
        &self,
        e: Endian,
        info: &GenericInstruction,
        index: usize,
        arg: &ParserValue,
        out: &mut Vec<u8>,
    ) -> (r: Result<(), BBScriptError>)
        ensures
            match encode_arg(*self, e, info.schema().args, info.spec_id(), index as nat, arg@) {
                Ok(x) => r is Ok && final(out)@ == old(out)@ + x,
                Err(x) => r matches Err(y) && y@ == x,
            },
    {
        match arg {
            ParserValue::String32(string) => push_fixed_string(out, string, STRING32_SIZE),
            ParserValue::String16(string) => push_fixed_string(out, string, STRING16_SIZE),
            ParserValue::Raw(data) => {
                let mut i: usize = 0;
                while i < data.len()
                    invariant
                        i <= data@.len(),
                        out@ == old(out)@ + data@.take(i as int),
                    decreases data@.len() - i,
                {
                    out.push(data[i]);
                    i = i + 1;
                    assert(out@ =~= old(out)@ + data@.take(i as int));
                }
                assert(data@.take(i as int) =~= data@);
                Ok(())
            },
            ParserValue::Number(num) => {
                push_i32(e, out, *num);
                Ok(())
            },
            ParserValue::Named(variant) => {
                let declared = info.args();
                let enum_name = if index < declared.len() {
                    match &declared[index] {
                        ArgType::Enum(name) => name.clone(),
                        _ => {
                            return Err(BBScriptError::NoEnum(index, info.id()));
                        },
                    }
                } else {
                    return Err(BBScriptError::NoEnum(index, info.id()));
                };
                match self.get_enum_value(enum_name.clone(), variant.clone()) {
                    Some(value) => {
                        push_i32(e, out, value);
                        Ok(())
                    },
                    None => Err(BBScriptError::NoAssociatedValue(variant.clone(), enum_name)),
                }
            },
            ParserValue::Mem(var_id) => {
                push_i32(e, out, self.variable_tag);
                push_i32(e, out, *var_id);
                assert(out@ =~= old(out)@ + (i32_bytes(e, self.variable_tag) + i32_bytes(e, *var_id)));
                Ok(())
            },
            ParserValue::NamedMem(var_name) => {
                match self.get_variable_by_name(var_name.clone()) {
                    Some(var_id) => {
                        push_i32(e, out, self.variable_tag);
                        push_i32(e, out, var_id);
                        assert(out@ =~= old(out)@ + (i32_bytes(e, self.variable_tag) + i32_bytes(e, var_id)));
                        Ok(())
                    },
                    None => Err(BBScriptError::NoVariableName(var_name.clone())),
                }
            },
            ParserValue::Val(val) => {
                push_i32(e, out, self.literal_tag);
                push_i32(e, out, *val);
                assert(out@ =~= old(out)@ + (i32_bytes(e, self.literal_tag) + i32_bytes(e, *val)));
                Ok(())
            },
            ParserValue::BadTag(tag, val) => {
                push_i32(e, out, *tag);
                push_i32(e, out, *val);
                assert(out@ =~= old(out)@ + (i32_bytes(e, *tag) + i32_bytes(e, *val)));
                Ok(())
            },
        }
    }

    /// The opcode and schema a call names.
    fn resolve_call(&self, call: &BBSFunction) -> (r: Result<GenericInstruction, BBScriptError>)
        requires
            self.names_unique(),
        ensures
            match resolve(*self, call@) {
                Ok((id, s)) => r matches Ok(g) && g.spec_id() == id && g.schema() == s
                    && (g is Sized <==> s.size is Some),
                Err(x) => r matches Err(y) && y@ == x,
            },
    {
        if let Some(i) = self.get_by_name(&call.name) {
            return Ok(i);
        }
        match unknown_id(&call.name) {
            None => Err(BBScriptError::UnknownInstructionName(call.name.clone())),
            Some(id) => match self.get_by_id(id) {
                Some(i) => Ok(i),
                None => {
                    if self.is_unsized() {
                        let mut args: Vec<ArgType> = Vec::new();
                        let mut j: usize = 0;
                        while j < call.args.len()
                            invariant
                                j <= call.args@.len(),
                                args@.len() == j,
                                forall|i: int| 0 <= i < j ==> (#[trigger] args@[i])@ == call.args@[i]@.kind(),
                            decreases call.args@.len() - j,
                        {
                            args.push(call.args[j].to_arg_type());
                            j = j + 1;
                        }
                        assert(kinds(args@) =~= parsed_views(call.args@).map_values(
                            |a: ParsedArg| a.kind(),
                        ));
                        Ok(GenericInstruction::Unsized(id, UnsizedInstruction::from_parsed(args)))
                    } else {
                        Err(BBScriptError::UnknownInstructionID(id))
                    }
                },
            },
        }
    }
}

/// Once a prefix of the arguments cannot be encoded, neither can all of them.
proof fn lemma_encode_args_err(
    cfg: ScriptConfig,
    e: Endian,
    declared: Seq<ArgKind>,
    id: u32,
    args: Seq<ParsedArg>,
    i: int,
)
    requires
        0 <= i <= args.len(),
        encode_args(cfg, e, declared, id, args.take(i)) is Err,
    ensures
        encode_args(cfg, e, declared, id, args) == encode_args(cfg, e, declared, id, args.take(i)),
    decreases args.len() - i,
{
    if i < args.len() {
        assert(args.take(i + 1).drop_last() =~= args.take(i));
        lemma_encode_args_err(cfg, e, declared, id, args, i + 1);
    } else {
        assert(args.take(i) =~= args);
    }
}

/// Once a prefix of the calls cannot be encoded, neither can all of them.
pub proof fn lemma_encode_calls_err(cfg: ScriptConfig, e: Endian, calls: Seq<CallView>, i: int)
    requires
        0 <= i <= calls.len(),
        encode_calls(cfg, e, calls.take(i)) is Err,
    ensures
        encode_calls(cfg, e, calls) == encode_calls(cfg, e, calls.take(i)),
    decreases calls.len() - i,
{
    if i < calls.len() {
        assert(calls.take(i + 1).drop_last() =~= calls.take(i));
        lemma_encode_calls_err(cfg, e, calls, i + 1);
    } else {
        assert(calls.take(i) =~= calls);
    }
}

/// The first position of `id` is `k` where no earlier position holds it.
proof fn lemma_first_index(ids: Seq<u32>, id: u32, k: int)
    requires
        0 <= k < ids.len(),
        ids[k] == id,
        forall|j: int| 0 <= j < k ==> ids[j] != id,
    ensures
        first_index(ids, id) == k,
    decreases k,
{
    if k > 0 {
        lemma_first_index(ids.drop_first(), id, k - 1);
    }
}

/// The first position of `id` in `ids`.
fn position_of(ids: &Vec<u32>, id: u32) -> (k: usize)
    requires
        ids@.contains(id),
    ensures
        k == first_index(ids@, id),
        k < ids@.len(),
{
    let mut k: usize = 0;
    while k < ids.len()
        invariant
            k <= ids@.len(),
            ids@.contains(id),
            forall|j: int| 0 <= j < k ==> ids@[j] != id,
        decreases ids@.len() - k,
    {
        if ids[k] == id {
            proof {
                lemma_first_index(ids@, id, k as int);
            }
            return k;
        }
        k = k + 1;
    }
    assert(false);
    0
}

pub open spec fn jump_view(j: Option<(u32, Vec<u8>)>) -> Option<(u32, Seq<u8>)> {
    match j {
        Some((id, name)) => Some((id, name@)),
        None => None,
    }
}

pub open spec fn counts_view(c: Seq<u32>) -> Seq<nat> {
    c.map_values(|x: u32| x as nat)
}

pub open spec fn tables_view(t: Seq<Vec<u8>>) -> Seq<Seq<u8>> {
    t.map_values(|x: Vec<u8>| x@)
}

impl ScriptConfig {
    /// The record of one call, and its jump table entry if it makes one.
    #[verifier::loop_isolation(false)]
    fn encode_instruction(&self, e: Endian, call: &BBSFunction) -> (r: Result<
        (Vec<u8>, Option<(u32, Vec<u8>)>),
        BBScriptError,
    >)
        requires
            self.names_unique(),
        ensures
            match encode_call(*self, e, call@) {
                Ok((rec, j)) => r matches Ok((v, jj)) && v@ == rec && jump_view(jj) == j,
                Err(x) => r matches Err(y) && y@ == x,
            },
            r matches Ok((_, Some((jid, _)))) ==> self.spec_is_jump_entry_id(jid),
    {
        reveal(encode_call);
        let info = match self.resolve_call(call) {
            Ok(i) => i,
            Err(x) => {
                return Err(x);
            },
        };
        let total = args_bytes(&call.args) + 4;
        if let Some(size) = info.size() {
            if total != size as u128 {
                return Err(BBScriptError::IncorrectFunctionSize(call.name.clone(), total as usize, size));
            }
        }
        let is_unsized = self.is_unsized();
        if is_unsized && total > u32::MAX as u128 - 4 {
            return Err(BBScriptError::StreamTooLarge((total + 4) as usize));
        }
        let id = info.id();
        let mut record: Vec<u8> = Vec::new();
        push_u32(e, &mut record, id);
        if is_unsized {
            push_u32(e, &mut record, (total + 4) as u32);
        }
        let ghost header = record@;
        let ghost args = parsed_views(call.args@);
        let ghost declared = info.schema().args;
        let mut jump_name: Option<Vec<u8>> = None;
        let mut j: usize = 0;
        assert(args.take(0) =~= Seq::<ParsedArg>::empty());
        assert(header + Seq::<u8>::empty() =~= header);
        while j < call.args.len()
            invariant
                j <= call.args@.len(),
                args == parsed_views(call.args@),
                encode_args(*self, e, declared, id, args.take(j as int)) matches Ok(b)
                    && record@ == header + b,
                j == 0 ==> jump_name is None,
                j > 0 ==> match call.args@[0]@ {
                    ParsedArg::String32(b) => jump_name matches Some(v) && v@ == padded(b, 32),
                    _ => jump_name is None,
                },
            decreases call.args@.len() - j,
        {
            let ghost before = record@;
            let res = self.encode_argument(e, &info, j, &call.args[j], &mut record);
            proof {
                assert(args.take(j + 1).drop_last() =~= args.take(j as int));
                assert(args.take(j + 1).last() == call.args@[j as int]@);
            }
            match res {
                Err(x) => {
                    proof {
                        lemma_encode_args_err(*self, e, declared, id, args, j + 1);
                    }
                    return Err(x);
                },
                Ok(()) => {},
            }
            if j == 0 {
                match &call.args[0] {
                    ParserValue::String32(b) => {
                        let mut name: Vec<u8> = Vec::new();
                        let _ = push_fixed_string(&mut name, b, STRING32_SIZE);
                        assert(name@ =~= padded(b@, 32));
                        jump_name = Some(name);
                    },
                    _ => {},
                }
            }
            proof {
                let b = encode_args(*self, e, declared, id, args.take(j as int))->Ok_0;
                assert(args[j as int] == call.args@[j as int]@);
                let a = encode_arg(*self, e, declared, id, j as nat, args[j as int])->Ok_0;
                assert(before == header + b);
                assert(record@ == before + a);
                assert(record@ =~= header + (b + a));
            }
            j = j + 1;
        }
        assert(args.take(j as int) =~= args);
        let jump = if call.args.len() > 0 && self.is_jump_entry_id(id) {
            match jump_name {
                Some(name) => Some((id, name)),
                None => None,
            }
        } else {
            None
        };
        Ok((record, jump))
    }
}

/// The jump table being built: for each opcode of the catalog's list, in its
/// order, the number of entries and their bytes.
pub struct JumpTable {
    ids: Vec<u32>,
    counts: Vec<u32>,
    tables: Vec<Vec<u8>>,
}

impl JumpTable {
    pub closed spec fn spec_ids(&self) -> Seq<u32> {
        self.ids@
    }

    pub closed spec fn spec_counts(&self) -> Seq<nat> {
        counts_view(self.counts@)
    }

    pub closed spec fn spec_tables(&self) -> Seq<Seq<u8>> {
        tables_view(self.tables@)
    }

    pub closed spec fn wf(&self) -> bool {
        &&& self.counts@.len() == self.ids@.len()
        &&& self.tables@.len() == self.ids@.len()
    }

    /// An empty table for these opcodes.
    pub fn new(ids: &Vec<u32>) -> (r: JumpTable)
        ensures
            r.wf(),
            r.spec_ids() == ids@,
            r.spec_counts() == Seq::new(ids@.len(), |i: int| 0nat),
            r.spec_tables() == Seq::new(ids@.len(), |i: int| Seq::<u8>::empty()),
    {
        let n = ids.len();
        let mut counts: Vec<u32> = Vec::new();
        let mut tables: Vec<Vec<u8>> = Vec::new();
        let mut k: usize = 0;
        while k < n
            invariant
                k <= n,
                n == ids@.len(),
                counts@.len() == k,
                tables@.len() == k,
                forall|j: int| 0 <= j < k ==> counts@[j] == 0,
                forall|j: int| 0 <= j < k ==> tables@[j]@ == Seq::<u8>::empty(),
            decreases n - k,
        {
            counts.push(0);
            let t: Vec<u8> = Vec::new();
            assert(t@ =~= Seq::<u8>::empty());
            tables.push(t);
            k = k + 1;
        }
        let mut copy: Vec<u32> = Vec::new();
        let mut k: usize = 0;
        while k < n
            invariant
                k <= n,
                n == ids@.len(),
                copy@ == ids@.take(k as int),
            decreases n - k,
        {
            copy.push(ids[k]);
            k = k + 1;
            assert(copy@ =~= ids@.take(k as int));
        }
        assert(ids@.take(n as int) =~= ids@);
        let r = JumpTable { ids: copy, counts, tables };
        assert(r.spec_counts() =~= Seq::new(n as nat, |i: int| 0nat));
        assert(r.spec_tables() =~= Seq::new(n as nat, |i: int| Seq::<u8>::empty()));
        r
    }

    /// Adds an entry for an instruction of opcode `id` named `name` at `offset` of
    /// the records.
    pub fn add_entry(&mut self, e: Endian, id: u32, offset: usize, name: Vec<u8>) -> (r: Result<
        (),
        BBScriptError,
    >)
        requires
            old(self).wf(),
            old(self).spec_ids().contains(id),
        ensures
            final(self).wf(),
            final(self).spec_ids() == old(self).spec_ids(),
            ({
                let k = first_index(old(self).spec_ids(), id);
                if offset > u32::MAX {
                    r matches Err(x) && x@ == ErrorView::StreamTooLarge(offset)
                } else if old(self).spec_counts()[k] >= u32::MAX {
                    r matches Err(x) && x@ == ErrorView::StreamTooLarge(
                        old(self).spec_counts()[k] as usize,
                    )
                } else {
                    r is Ok && final(self).spec_counts() == old(self).spec_counts().update(
                        k,
                        old(self).spec_counts()[k] + 1,
                    ) && final(self).spec_tables() == old(self).spec_tables().update(
                        k,
                        old(self).spec_tables()[k] + name@ + u32_bytes(e, offset as u32),
                    )
                }
            }),
    {
        let pos = position_of(&self.ids, id);
        if offset > u32::MAX as usize {
            return Err(BBScriptError::StreamTooLarge(offset));
        }
        if self.counts[pos] == u32::MAX {
            return Err(BBScriptError::StreamTooLarge(self.counts[pos] as usize));
        }
        let ghost old_tables = self.tables@;
        let ghost old_counts = self.counts@;
        let mut entry: Vec<u8> = name;
        push_u32(e, &mut entry, offset as u32);
        let ghost entry_bytes = entry@;
        self.tables[pos].append(&mut entry);
        let c = self.counts[pos] + 1;
        self.counts.set(pos, c);
        proof {
            assert(self.tables@[pos as int]@ == old_tables[pos as int]@ + entry_bytes);
            assert(self.tables@[pos as int]@ =~= old_tables[pos as int]@ + name@ + u32_bytes(e, offset as u32));
            assert(counts_view(self.counts@) =~= counts_view(old_counts).update(
                pos as int,
                (old_counts[pos as int] + 1) as nat,
            ));
            assert(tables_view(self.tables@) =~= tables_view(old_tables).update(
                pos as int,
                old_tables[pos as int]@ + name@ + u32_bytes(e, offset as u32),
            ));
        }
        Ok(())
    }

    /// The table's bytes: the counts, then the entries.
    pub fn to_bytes(&self, e: Endian) -> (r: Vec<u8>)
        ensures
            r@ == counts_bytes(e, self.spec_counts()) + tables_bytes(self.spec_tables()),
    {
        table_bytes(e, &self.counts, &self.tables)
    }
}

/// Encodes instruction calls into a script: the jump table, then the records.
pub fn assemble_script(program: &Vec<BBSFunction>, db: &ScriptConfig, e: Endian) -> (r: Result<
    Vec<u8>,
    BBScriptError,
>)
    requires
        db.names_unique(),
    ensures
        bytes_result(r) == encode_program(*db, e, calls_view(program@)),
{
    let ghost calls = calls_view(program@);
    let mut table = JumpTable::new(&db.jump_table_ids);
    let mut script: Vec<u8> = Vec::new();
    assert(calls.take(0) =~= Seq::<CallView>::empty());
    let mut i: usize = 0;
    while i < program.len()
        invariant
            i <= program@.len(),
            calls == calls_view(program@),
            table.wf(),
            table.spec_ids() == db.jump_table_ids@,
            db.names_unique(),
            encode_calls(*db, e, calls.take(i as int)) == Ok::<EncodeState, ErrorView>(
                EncodeState {
                    stream: script@,
                    counts: table.spec_counts(),
                    tables: table.spec_tables(),
                },
            ),
        decreases program@.len() - i,
    {
        proof {
            assert(calls.take(i + 1).drop_last() =~= calls.take(i as int));
            assert(calls.take(i + 1).last() == program@[i as int]@);
        }
        match db.encode_instruction(e, &program[i]) {
            Err(x) => {
                proof {
                    lemma_encode_calls_err(*db, e, calls, i + 1);
                }
                return Err(x);
            },
            Ok((record, jump)) => {
                match jump {
                    None => {},
                    Some((id, name)) => {
                        let offset = script.len();
                        match table.add_entry(e, id, offset, name) {
                            Ok(()) => {},
                            Err(x) => {
                                proof {
                                    lemma_encode_calls_err(*db, e, calls, i + 1);
                                }
                                return Err(x);
                            },
                        }
                    },
                }
                let mut record = record;
                script.append(&mut record);
            },
        }
        i = i + 1;
    }
    assert(calls.take(i as int) =~= calls);
    let mut result = table.to_bytes(e);
    result.append(&mut script);
    Ok(result)
}

/// The jump table: the counts, then the entries position by position.
fn table_bytes(e: Endian, counts: &Vec<u32>, tables: &Vec<Vec<u8>>) -> (r: Vec<u8>)
    ensures
        r@ == counts_bytes(e, counts_view(counts@)) + tables_bytes(tables_view(tables@)),
{
    let mut result: Vec<u8> = Vec::new();
    let mut k: usize = 0;
    assert(counts_view(counts@).take(0) =~= Seq::<nat>::empty());
    while k < counts.len()
        invariant
            k <= counts@.len(),
            result@ == counts_bytes(e, counts_view(counts@).take(k as int)),
        decreases counts@.len() - k,
    {
        push_u32(e, &mut result, counts[k]);
        k = k + 1;
        proof {
            let cv = counts_view(counts@);
            assert(cv.take(k as int).drop_last() =~= cv.take(k - 1));
        }
    }
    assert(counts_view(counts@).take(k as int) =~= counts_view(counts@));
    let ghost head = result@;
    let mut k: usize = 0;
    assert(tables_view(tables@).take(0) =~= Seq::<Seq<u8>>::empty());
    assert(head + Seq::<u8>::empty() =~= head);
    while k < tables.len()
        invariant
            k <= tables@.len(),
            result@ == head + tables_bytes(tables_view(tables@).take(k as int)),
        decreases tables@.len() - k,
    {
        let t = &tables[k];
        let mut j: usize = 0;
        let ghost before = result@;
        while j < t.len()
            invariant
                j <= t@.len(),
                result@ == before + t@.take(j as int),
            decreases t@.len() - j,
        {
            result.push(t[j]);
            j = j + 1;
            assert(result@ =~= before + t@.take(j as int));
        }
        assert(t@.take(j as int) =~= t@);
        k = k + 1;
        proof {
            let tv = tables_view(tables@);
            assert(tv.take(k as int).drop_last() =~= tv.take(k - 1));
            assert(result@ =~= head + tables_bytes(tv.take(k as int)));
        }
    }
    assert(tables_view(tables@).take(k as int) =~= tables_view(tables@));
    result
}

} // verus!
