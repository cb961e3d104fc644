//! Decoding a script: the jump table, then records of instructions.
use vstd::prelude::*;
use crate::config::{
    args_size, kinds, nameless_schema, sized_arg_list, unsized_arg_list, ArgKind, ArgType,
    InstructionInfo, InstructionSchema, ScriptConfig, TaggedValue, BBSNumber,
};
use crate::endian::{i32_of, read_i32, read_u32, u32_of, Endian};
use crate::error::{BBScriptError, ErrorView};
use crate::text::{char_of, digits_of, push_char, push_digits};

verus! {

broadcast use vstd::std_specs::hash::group_hash_axioms;

/// Bytes of one jump table entry: a 32-byte name and a 4-byte offset.
pub const JUMP_ENTRY_LENGTH: usize = 0x24;

/// Raw argument bytes, stored inline when short.
#[verifier::external_body]
#[derive(Debug)]
pub struct ByteList {
    inner: smallvec::SmallVec<[u8; 16]>,
}

/// The bytes that a `ByteList` holds, in order.
pub uninterp spec fn byte_items(v: ByteList) -> Seq<u8>;

impl View for ByteList {
    type V = Seq<u8>;

    open spec fn view(&self) -> Seq<u8> {
        byte_items(*self)
    }
}

impl ByteList {
    /// Relies on smallvec::SmallVec::from_vec: the list holds the bytes of `v` in order.
    #[verifier::external_body]
    pub(crate) fn from_vec(v: Vec<u8>) -> (r: ByteList)
        ensures
            byte_items(r) == v@,
    {
        ByteList { inner: smallvec::SmallVec::from_vec(v) }
    }

    /// Relies on smallvec::SmallVec::as_slice: the bytes of the list in order.
    #[verifier::external_body]
    pub(crate) fn as_slice(&self) -> (r: &[u8])
        ensures
            r@ == byte_items(*self),
    {
        self.inner.as_slice()
    }

    pub fn to_vec(&self) -> (r: Vec<u8>)
        ensures
            r@ == self@,
    {
        let s = self.as_slice();
        let mut v: Vec<u8> = Vec::new();
        let mut i: usize = 0;
        while i < s.len()
            invariant
                i <= s@.len(),
                v@ == s@.take(i as int),
            decreases s@.len() - i,
        {
            v.push(s[i]);
            i = i + 1;
            assert(v@ =~= s@.take(i as int));
        }
        assert(s@.take(i as int) =~= s@);
        v
    }
}

/// A decoded argument.
#[derive(Debug)]
pub enum ArgValue {
    Unknown(ByteList),
    Number(BBSNumber),
    String16(String),
    String32(String),
    AccessedValue(TaggedValue),
    /// The enum's name and the number.
    Enum(String, BBSNumber),
}

/// `ArgValue` with bytes and text as sequences.
pub enum ArgVal {
    Unknown(Seq<u8>),
    Number(BBSNumber),
    String16(Seq<char>),
    String32(Seq<char>),
    AccessedValue(TaggedValue),
    Enum(Seq<char>, BBSNumber),
}

impl View for ArgValue {
    type V = ArgVal;

    open spec fn view(&self) -> ArgVal {
        match self {
            ArgValue::Unknown(b) => ArgVal::Unknown(b@),
            ArgValue::Number(n) => ArgVal::Number(*n),
            ArgValue::String16(s) => ArgVal::String16(s@),
            ArgValue::String32(s) => ArgVal::String32(s@),
            ArgValue::AccessedValue(t) => ArgVal::AccessedValue(*t),
            ArgValue::Enum(s, n) => ArgVal::Enum(s@, *n),
        }
    }
}

/// The argument values of one instruction, stored inline when few.
#[verifier::external_body]
#[derive(Debug)]
pub struct ArgValues {
    inner: smallvec::SmallVec<[ArgValue; 8]>,
}

/// The values that an `ArgValues` holds, in order.
pub uninterp spec fn arg_value_items(v: ArgValues) -> Seq<ArgValue>;

/// The views of a list of argument values.
pub open spec fn vals(s: Seq<ArgValue>) -> Seq<ArgVal> {
    s.map_values(|a: ArgValue| a@)
}

impl View for ArgValues {
    type V = Seq<ArgVal>;

    open spec fn view(&self) -> Seq<ArgVal> {
        vals(arg_value_items(*self))
    }
}

impl ArgValues {
    /// Relies on smallvec::SmallVec::from_vec: the list holds the items of `v` in order.
    #[verifier::external_body]
    pub(crate) fn from_vec(v: Vec<ArgValue>) -> (r: ArgValues)
        ensures
            arg_value_items(r) == v@,
    {
        ArgValues { inner: smallvec::SmallVec::from_vec(v) }
    }

    /// Relies on smallvec::SmallVec::as_slice: the items of the list in order.
    #[verifier::external_body]
    pub(crate) fn as_slice(&self) -> (r: &[ArgValue])
        ensures
            r@ == arg_value_items(*self),
    {
        self.inner.as_slice()
    }

    pub fn len(&self) -> (r: usize)
        ensures
            r == self@.len(),
    {
        self.as_slice().len()
    }

    pub fn get(&self, i: usize) -> (r: &ArgValue)
        requires
            i < self@.len(),
        ensures
            r@ == self@[i as int],
    {
        &self.as_slice()[i]
    }
}

/// How a decoded instruction is named: by the catalog's name, or by its opcode.
#[derive(Debug)]
pub enum InstructionIdentifier {
    Name(String),
    Id(u32),
}

pub enum IdentView {
    Name(Seq<char>),
    Id(u32),
}

impl View for InstructionIdentifier {
    type V = IdentView;

    open spec fn view(&self) -> IdentView {
        match self {
            InstructionIdentifier::Name(s) => IdentView::Name(s@),
            InstructionIdentifier::Id(id) => IdentView::Id(*id),
        }
    }
}

/// One decoded instruction.
#[derive(Debug)]
pub struct InstructionValue {
    pub identifier: InstructionIdentifier,
    pub args: ArgValues,
}

pub struct InstrView {
    pub identifier: IdentView,
    pub args: Seq<ArgVal>,
}

impl View for InstructionValue {
    type V = InstrView;

    open spec fn view(&self) -> InstrView {
        InstrView { identifier: self.identifier@, args: self.args@ }
    }
}

/// The text of one byte of a fixed string: the quote escaped with a backslash,
/// any other byte as the character of that code.
pub open spec fn byte_text(x: u8) -> Seq<char> {
    if x == 39 {
        seq!['\\', '\'']
    } else {
        seq![char_of(x)]
    }
}

/// The text of bytes, one after another.
pub open spec fn escaped_text(b: Seq<u8>) -> Seq<char>
    decreases b.len(),
{
    if b.len() == 0 {
        Seq::empty()
    } else {
        escaped_text(b.drop_last()) + byte_text(b.last())
    }
}

/// `b` without its trailing zero bytes.
pub open spec fn trim_zeros(b: Seq<u8>) -> Seq<u8>
    decreases b.len(),
{
    if b.len() > 0 && b.last() == 0 {
        trim_zeros(b.drop_last())
    } else {
        b
    }
}

/// The text of a fixed string: its bytes up to the zero bytes that pad it.
pub open spec fn buf_text(b: Seq<u8>) -> Seq<char> {
    escaped_text(trim_zeros(b))
}

/// What an `AccessedValue` with this tag and value means.
pub open spec fn classify(literal_tag: i32, variable_tag: i32, tag: i32, value: i32) -> TaggedValue {
    if tag == literal_tag {
        TaggedValue::Literal(value)
    } else if tag == variable_tag {
        TaggedValue::Variable(value)
    } else {
        TaggedValue::Improper { tag, value }
    }
}

/// The value of an argument of type `t` held by the bytes `b`, as many as `t` takes.
pub open spec fn decode_arg(cfg: ScriptConfig, e: Endian, t: ArgKind, b: Seq<u8>) -> ArgVal {
    match t {
        ArgKind::Unknown(_) => ArgVal::Unknown(b),
        ArgKind::String16 => ArgVal::String16(buf_text(b)),
        ArgKind::String32 => ArgVal::String32(buf_text(b)),
        ArgKind::Number => ArgVal::Number(i32_of(e, b)),
        ArgKind::Enum(name) => ArgVal::Enum(name, i32_of(e, b)),
        ArgKind::AccessedValue => ArgVal::AccessedValue(
            classify(
                cfg.literal_tag,
                cfg.variable_tag,
                i32_of(e, b.subrange(0, 4)),
                i32_of(e, b.subrange(4, 8)),
            ),
        ),
    }
}

/// The values of arguments of types `ts` held one after another by `b`.
pub open spec fn decode_args(cfg: ScriptConfig, e: Endian, ts: Seq<ArgKind>, b: Seq<u8>) -> Seq<
    ArgVal,
>
    decreases ts.len(),
{
    if ts.len() == 0 {
        Seq::empty()
    } else {
        let n = args_size(ts.drop_last()) as int;
        decode_args(cfg, e, ts.drop_last(), b.subrange(0, n)).push(
            decode_arg(cfg, e, ts.last(), b.subrange(n, n + ts.last().size())),
        )
    }
}

/// How a record of an opcode with this catalog name is identified.
pub open spec fn ident_of(name: Seq<char>, id: u32) -> IdentView {
    if name.len() > 0 {
        IdentView::Name(name)
    } else {
        IdentView::Id(id)
    }
}

/// The instruction at the start of `b` and the bytes its record takes.
#[verifier::opaque]
pub open spec fn decode_record(cfg: ScriptConfig, e: Endian, b: Seq<u8>) -> Result<
    (InstrView, nat),
    ErrorView,
> {
    if cfg.spec_is_unsized() {
        if b.len() < 8 {
            Err(ErrorView::UnexpectedEnd)
        } else {
            let id = u32_of(e, b.subrange(0, 4));
            let d = u32_of(e, b.subrange(4, 8)) as int;
            let s = match cfg.schema(id) {
                Some(s) => s,
                None => nameless_schema(Seq::empty()),
            };
            let known = args_size(s.args);
            if known > d - 8 {
                Err(ErrorView::ArgumentsExceedSize(id, known as usize, d as usize))
            } else if b.len() < d {
                Err(ErrorView::UnexpectedEnd)
            } else {
                Ok(
                    (
                        InstrView {
                            identifier: ident_of(s.name, id),
                            args: decode_args(cfg, e, unsized_arg_list(d, s.args), b.subrange(8, d)),
                        },
                        d as nat,
                    ),
                )
            }
        }
    } else {
        if b.len() < 4 {
            Err(ErrorView::UnexpectedEnd)
        } else {
            let id = u32_of(e, b.subrange(0, 4));
            match cfg.schema(id) {
                None => Err(ErrorView::UnknownInstructionID(id)),
                Some(s) => {
                    let list = sized_arg_list(s.size->0, s.args);
                    let total = 4 + args_size(list);
                    if b.len() < total {
                        Err(ErrorView::UnexpectedEnd)
                    } else {
                        Ok(
                            (
                                InstrView {
                                    identifier: ident_of(s.name, id),
                                    args: decode_args(cfg, e, list, b.subrange(4, total as int)),
                                },
                                total,
                            ),
                        )
                    }
                },
            }
        }
    }
}

/// The instructions of the records that make up `b`.
#[verifier::opaque]
pub open spec fn decode_stream(cfg: ScriptConfig, e: Endian, b: Seq<u8>) -> Result<
    Seq<InstrView>,
    ErrorView,
>
    decreases b.len(),
{
    if b.len() == 0 {
        Ok(Seq::empty())
    } else {
        match decode_record(cfg, e, b) {
            Err(x) => Err(x),
            Ok((v, n)) => if 0 < n <= b.len() {
                match decode_stream(cfg, e, b.subrange(n as int, b.len() as int)) {
                    Ok(rest) => Ok(seq![v] + rest),
                    Err(x) => Err(x),
                }
            } else {
                Err(ErrorView::UnexpectedEnd)
            },
        }
    }
}

/// The sum of the first `n` counts of a jump table.
pub open spec fn jump_count_sum(e: Endian, b: Seq<u8>, n: nat) -> nat
    decreases n,
{
    if n == 0 {
        0
    } else {
        jump_count_sum(e, b, (n - 1) as nat) + u32_of(
            e,
            b.subrange(4 * (n - 1), 4 * (n - 1) + 4),
        ) as nat
    }
}

/// The bytes the jump table at the start of `b` takes after its counts.
pub open spec fn jump_table_size(cfg: ScriptConfig, e: Endian, b: Seq<u8>) -> nat {
    36 * jump_count_sum(e, b, cfg.jump_table_ids@.len())
}

/// The instructions of a whole script: a jump table, then records.
pub open spec fn decode_script(cfg: ScriptConfig, e: Endian, b: Seq<u8>) -> Result<
    Seq<InstrView>,
    ErrorView,
> {
    let counts = 4 * cfg.jump_table_ids@.len();
    if b.len() < counts {
        Err(ErrorView::UnexpectedEnd)
    } else {
        let size = jump_table_size(cfg, e, b);
        if size >= b.len() - counts {
            Err(ErrorView::IncorrectJumpTableSize(digits_of(size)))
        } else {
            decode_stream(cfg, e, b.subrange(counts + size as int, b.len() as int))
        }
    }
}

pub open spec fn program_view(v: Seq<InstructionValue>) -> Seq<InstrView> {
    v.map_values(|i: InstructionValue| i@)
}

pub open spec fn program_result(r: Result<Vec<InstructionValue>, BBScriptError>) -> Result<
    Seq<InstrView>,
    ErrorView,
> {
    match r {
        Ok(v) => Ok(program_view(v@)),
        Err(x) => Err(x@),
    }
}

pub open spec fn record_result(r: Result<(InstructionValue, usize), BBScriptError>) -> Result<
    (InstrView, nat),
    ErrorView,
> {
    match r {
        Ok((v, n)) => Ok((v@, n as nat)),
        Err(x) => Err(x@),
    }
}

/// The bytes before `i` in a list of argument types take no more than the list.
pub proof fn lemma_args_size_prefix(s: Seq<ArgKind>, i: int)
    requires
        0 <= i <= s.len(),
    ensures
        args_size(s.take(i)) <= args_size(s),
    decreases s.len() - i,
{
    if i < s.len() {
        lemma_args_size_prefix(s, i + 1);
        assert(s.take(i + 1).drop_last() =~= s.take(i));
    } else {
        assert(s.take(i) =~= s);
    }
}

/// The arguments decoded for a dynamic-size record take all of its bytes after
/// the header.
pub proof fn lemma_unsized_list_size(d: int, args: Seq<ArgKind>)
    requires
        args_size(args) <= d - 8,
    ensures
        args_size(unsized_arg_list(d, args)) == d - 8,
{
    if args_size(args) != d - 8 {
        assert(unsized_arg_list(d, args).drop_last() =~= args);
    }
}

/// The decoded program `p` followed by what decoding the rest gives.
pub open spec fn prepend(p: Seq<InstrView>, r: Result<Seq<InstrView>, ErrorView>) -> Result<
    Seq<InstrView>,
    ErrorView,
> {
    match r {
        Ok(rest) => Ok(p + rest),
        Err(x) => Err(x),
    }
}

/// Decoding a stream that starts with a record of `n` bytes decoding to `v`.
proof fn lemma_stream_step(cfg: ScriptConfig, e: Endian, b: Seq<u8>, p: Seq<InstrView>, v: InstrView, n: nat)
    requires
        b.len() > 0,
        0 < n <= b.len(),
        decode_record(cfg, e, b) == Ok::<(InstrView, nat), ErrorView>((v, n)),
    ensures
        prepend(p, decode_stream(cfg, e, b)) == prepend(
            p.push(v),
            decode_stream(cfg, e, b.subrange(n as int, b.len() as int)),
        ),
{
    reveal(decode_stream);
    assert(decode_record(cfg, e, b) matches Ok((v1, n1)) && v1 == v && n1 == n);
    match decode_stream(cfg, e, b.subrange(n as int, b.len() as int)) {
        Ok(rest) => {
            assert(decode_stream(cfg, e, b) == Ok::<Seq<InstrView>, ErrorView>(seq![v] + rest));
            assert(p + (seq![v] + rest) =~= p.push(v) + rest);
        },
        Err(x) => {
            assert(decode_stream(cfg, e, b) == Err::<Seq<InstrView>, ErrorView>(x));
        },
    }
}

/// The text of the bytes from `start` to `end` of a fixed string.
fn process_string_buf(buf: &[u8], start: usize, end: usize) -> (r: String)
    requires
        start <= end <= buf@.len(),
    ensures
        r@ == buf_text(buf@.subrange(start as int, end as int)),
{
    let mut stop = end;
    while stop > start && buf[stop - 1] == 0
        invariant
            start <= stop <= end <= buf@.len(),
            trim_zeros(buf@.subrange(start as int, end as int)) == trim_zeros(
                buf@.subrange(start as int, stop as int),
            ),
        decreases stop - start,
    {
        assert(buf@.subrange(start as int, stop as int).drop_last() =~= buf@.subrange(
            start as int,
            stop - 1,
        ));
        stop = stop - 1;
    }
    assert(trim_zeros(buf@.subrange(start as int, stop as int)) == buf@.subrange(
        start as int,
        stop as int,
    ));
    let mut s = String::new();
    let mut i: usize = start;
    assert(buf@.subrange(start as int, start as int) =~= Seq::<u8>::empty());
    while i < stop
        invariant
            start <= i <= stop <= end <= buf@.len(),
            s@ == escaped_text(buf@.subrange(start as int, i as int)),
        decreases stop - i,
    {
        let x = buf[i];
        if x == 39 {
            push_char(&mut s, '\\');
            push_char(&mut s, '\'');
        } else {
            push_char(&mut s, x as char);
        }
        proof {
            let t = buf@.subrange(start as int, i + 1);
            assert(t.drop_last() =~= buf@.subrange(start as int, i as int));
            assert(s@ =~= escaped_text(t));
        }
        i = i + 1;
    }
    s
}

impl ScriptConfig {
    /// Decodes one argument of type `arg_type` from the bytes at `pos`.
    pub fn parse_argument(&self, e: Endian, arg_type: &ArgType, input: &[u8], pos: usize) -> (r:
        ArgValue)
        requires
            pos + arg_type@.size() <= input@.len(),
        ensures
            r@ == decode_arg(
                *self,
                e,
                arg_type@,
                input@.subrange(pos as int, pos + arg_type@.size()),
            ),
    {
        let len = input.len();
        match arg_type {
            ArgType::Unknown(n) => {
                let mut v: Vec<u8> = Vec::new();
                let mut i: usize = 0;
                while i < *n
                    invariant
                        i <= *n,
                        len == input@.len(),
                        pos + *n <= input@.len(),
                        v@ == input@.subrange(pos as int, pos + i),
                    decreases *n - i,
                {
                    v.push(input[pos + i]);
                    i = i + 1;
                    assert(v@ =~= input@.subrange(pos as int, pos + i));
                }
                ArgValue::Unknown(ByteList::from_vec(v))
            },
            ArgType::String16 => ArgValue::String16(process_string_buf(input, pos, pos + 16)),
            ArgType::String32 => ArgValue::String32(process_string_buf(input, pos, pos + 32)),
            ArgType::Number => ArgValue::Number(read_i32(e, input, pos)),
            ArgType::Enum(s) => ArgValue::Enum(s.clone(), read_i32(e, input, pos)),
            ArgType::AccessedValue => {
                let tag = read_i32(e, input, pos);
                let value = read_i32(e, input, pos + 4);
                proof {
                    let b = input@.subrange(pos as int, pos + 8);
                    assert(b.subrange(0, 4) =~= input@.subrange(pos as int, pos + 4));
                    assert(b.subrange(4, 8) =~= input@.subrange(pos + 4, pos + 8));
                }
                if tag == self.literal_tag {
                    ArgValue::AccessedValue(TaggedValue::Literal(value))
                } else if tag == self.variable_tag {
                    ArgValue::AccessedValue(TaggedValue::Variable(value))
                } else {
                    ArgValue::AccessedValue(TaggedValue::Improper { tag, value })
                }
            },
        }
    }

    /// Decodes arguments of types `list` one after another from `pos`.
    fn parse_args(&self, e: Endian, list: &[ArgType], input: &[u8], pos: usize) -> (r: ArgValues)
        requires
            pos + args_size(kinds(list@)) <= input@.len(),
        ensures
            r@ == decode_args(
                *self,
                e,
                kinds(list@),
                input@.subrange(pos as int, pos + args_size(kinds(list@))),
            ),
    {
        let ghost ks = kinds(list@);
        let len = input.len();
        let mut out: Vec<ArgValue> = Vec::new();
        let mut p: usize = pos;
        let mut i: usize = 0;
        while i < list.len()
            invariant
                i <= list@.len(),
                ks == kinds(list@),
                len == input@.len(),
                pos + args_size(ks) <= input@.len(),
                p == pos + args_size(ks.take(i as int)),
                vals(out@) == decode_args(
                    *self,
                    e,
                    ks.take(i as int),
                    input@.subrange(pos as int, p as int),
                ),
            decreases list@.len() - i,
        {
            proof {
                lemma_args_size_prefix(ks, i + 1);
                assert(ks.take(i + 1).drop_last() =~= ks.take(i as int));
                assert(ks.take(i + 1).last() == list@[i as int]@);
            }
            let a = self.parse_argument(e, &list[i], input, p);
            let n = list[i].size();
            let ghost old_p = p;
            out.push(a);
            p = p + n;
            i = i + 1;
            proof {
                let b = input@.subrange(pos as int, p as int);
                assert(b.subrange(0, old_p - pos) =~= input@.subrange(pos as int, old_p as int));
                assert(b.subrange(old_p - pos, p - pos) =~= input@.subrange(old_p as int, p as int));
                assert(vals(out@) =~= decode_args(*self, e, ks.take(i as int), b));
            }
        }
        assert(ks.take(i as int) =~= ks);
        ArgValues::from_vec(out)
    }

    /// Decodes the record at `pos`.
    fn parse_record(&self, e: Endian, input: &[u8], pos: usize) -> (r: Result<
        (InstructionValue, usize),
        BBScriptError,
    >)
        requires
            pos <= input@.len(),
        ensures
            record_result(r) == decode_record(
                *self,
                e,
                input@.subrange(pos as int, input@.len() as int),
            ),
    {
        reveal(decode_record);
        let ghost b = input@.subrange(pos as int, input@.len() as int);
        let len = input.len();
        match &self.instructions {
            InstructionInfo::Unsized(m) => {
                if len - pos < 8 {
                    return Err(BBScriptError::UnexpectedEnd);
                }
                let id = read_u32(e, input, pos);
                let d = read_u32(e, input, pos + 4);
                proof {
                    assert(b.subrange(0, 4) =~= input@.subrange(pos as int, pos + 4));
                    assert(b.subrange(4, 8) =~= input@.subrange(pos + 4, pos + 8));
                }
                let found = m.get(&id);
                let fresh = crate::config::UnsizedInstruction::new();
                let instruction = match found {
                    Some(i) => i,
                    None => &fresh,
                };
                let ghost s = instruction@;
                let list = match instruction.args_with_known_size(id, d as usize) {
                    Ok(list) => list,
                    Err(x) => {
                        return Err(x);
                    },
                };
                if ((len - pos) as u64) < d as u64 {
                    return Err(BBScriptError::UnexpectedEnd);
                }
                let identifier = match instruction.name() {
                    Some(name) => InstructionIdentifier::Name(name),
                    None => InstructionIdentifier::Id(id),
                };
                proof {
                    lemma_unsized_list_size(d as int, s.args);
                }
                let args = self.parse_args(e, list.as_slice(), input, pos + 8);
                proof {
                    assert(b.subrange(8, d as int) =~= input@.subrange(pos + 8, pos + d));
                }
                Ok((InstructionValue { identifier, args }, d as usize))
            },
            InstructionInfo::Sized(m) => {
                if len - pos < 4 {
                    return Err(BBScriptError::UnexpectedEnd);
                }
                let id = read_u32(e, input, pos);
                proof {
                    assert(b.subrange(0, 4) =~= input@.subrange(pos as int, pos + 4));
                }
                let instruction = match m.get(&id) {
                    Some(i) => i,
                    None => {
                        return Err(BBScriptError::UnknownInstructionID(id));
                    },
                };
                let list = instruction.args();
                let known = crate::config::known_size(list.as_slice());
                if ((len - pos) as u128) - 4 < known {
                    return Err(BBScriptError::UnexpectedEnd);
                }
                let total = 4 + known as usize;
                let identifier = match instruction.name() {
                    Some(name) => InstructionIdentifier::Name(name),
                    None => InstructionIdentifier::Id(id),
                };
                let args = self.parse_args(e, list.as_slice(), input, pos + 4);
                proof {
                    assert(b.subrange(4, total as int) =~= input@.subrange(pos + 4, pos + total));
                }
                Ok((InstructionValue { identifier, args }, total))
            },
        }
    }

    /// Decodes the records from `start` to the end of `input`.
    fn parse_script(&self, e: Endian, input: &[u8], start: usize) -> (r: Result<
        Vec<InstructionValue>,
        BBScriptError,
    >)
        requires
            start <= input@.len(),
        ensures
            program_result(r) == decode_stream(
                *self,
                e,
                input@.subrange(start as int, input@.len() as int),
            ),
    {
        let mut program: Vec<InstructionValue> = Vec::new();
        let mut pos = start;
        let ghost all = input@.subrange(start as int, input@.len() as int);
        assert(prepend(Seq::empty(), decode_stream(*self, e, all)) == decode_stream(*self, e, all)) by {
            match decode_stream(*self, e, all) {
                Ok(rest) => { assert(Seq::<InstrView>::empty() + rest =~= rest); },
                Err(_) => {},
            }
        }
        assert(program_view(program@) =~= Seq::<InstrView>::empty());
        while pos < input.len()
            invariant
                start <= pos <= input@.len(),
                all == input@.subrange(start as int, input@.len() as int),
                decode_stream(*self, e, all) == prepend(
                    program_view(program@),
                    decode_stream(*self, e, input@.subrange(pos as int, input@.len() as int)),
                ),
            decreases input@.len() - pos,
        {
            let ghost here = input@.subrange(pos as int, input@.len() as int);
            match self.parse_record(e, input, pos) {
                Err(x) => {
                    proof {
                        reveal(decode_stream);
                    }
                    return Err(x);
                },
                Ok((v, n)) => {
                    if n == 0 || n > input.len() - pos {
                        proof {
                            reveal(decode_stream);
                        }
                        return Err(BBScriptError::UnexpectedEnd);
                    }
                    proof {
                        lemma_stream_step(*self, e, here, program_view(program@), v@, n as nat);
                        assert(here.subrange(n as int, here.len() as int) =~= input@.subrange(pos + n, input@.len() as int));
                        assert(program_view(program@.push(v)) =~= program_view(program@).push(v@));
                    }
                    program.push(v);
                    pos = pos + n;
                },
            }
        }
        proof {
            reveal(decode_stream);
            assert(input@.subrange(pos as int, input@.len() as int) =~= Seq::<u8>::empty());
            assert(program_view(program@) + Seq::<InstrView>::empty() =~= program_view(program@));
        }
        Ok(program)
    }

    /// Decodes a script: skips its jump table, then decodes its records.
    pub fn parse(&self, e: Endian, input: &[u8]) -> (r: Result<Vec<InstructionValue>, BBScriptError>)
        ensures
            program_result(r) == decode_script(*self, e, input@),
    {
        let n = self.jump_table_ids.len();
        let len = input.len();
        if len / 4 < n {
            return Err(BBScriptError::UnexpectedEnd);
        }
        let counts = 4 * n;
        let mut sum: u128 = 0;
        let mut j: usize = 0;
        while j < n
            invariant
                j <= n,
                n == self.jump_table_ids@.len(),
                counts == 4 * n,
                counts <= len,
                len == input@.len(),
                sum == jump_count_sum(e, input@, j as nat),
                sum <= j * 0x1_0000_0000,
            decreases n - j,
        {
            let c = read_u32(e, input, 4 * j);
            sum = sum + c as u128;
            j = j + 1;
        }
        let size: u128 = 36 * sum;
        if size >= (len - counts) as u128 {
            let mut text = String::new();
            push_digits(&mut text, size);
            assert(text@ =~= digits_of(size as nat));
            return Err(BBScriptError::IncorrectJumpTableSize(text));
        }
        self.parse_script(e, input, counts + size as usize)
    }
}

} // verus!
