//! Rendering decoded instructions as indented text.
use vstd::prelude::*;
use crate::config::{
    nameless_schema, CodeBlock, GenericInstruction, InstructionSchema, ScriptConfig, TaggedValue,
    UnsizedInstruction,
};
use crate::endian::Endian;
use crate::error::{BBScriptError, ErrorView};
use crate::parser::{
    decode_script, program_result, program_view, ArgVal, ArgValue, IdentView, InstrView,
    InstructionIdentifier, InstructionValue,
};
use crate::text::{decimal_of, encode_hex_upper, hex_upper, push_char, push_decimal};

verus! {

/// Spaces of indentation for each level of nesting.
pub const INDENT_SPACES: usize = 2;

/// The text of one argument.
pub open spec fn arg_text(cfg: ScriptConfig, a: ArgVal) -> Result<Seq<char>, ErrorView> {
    match a {
        ArgVal::Unknown(b) => Ok("0x"@ + hex_upper(b)),
        ArgVal::Number(n) => Ok(decimal_of(n as int)),
        ArgVal::String16(s) => Ok("s16'"@ + s + "'"@),
        ArgVal::String32(s) => Ok("s32'"@ + s + "'"@),
        ArgVal::AccessedValue(TaggedValue::Improper { tag, value }) => Ok(
            "BadTag("@ + decimal_of(tag as int) + ", "@ + decimal_of(value as int) + ")"@,
        ),
        ArgVal::AccessedValue(TaggedValue::Variable(v)) => Ok(
            "Mem("@ + (if cfg.variables().contains_key(v) {
                cfg.variables()[v]
            } else {
                decimal_of(v as int)
            }) + ")"@,
        ),
        ArgVal::AccessedValue(TaggedValue::Literal(v)) => Ok("Val("@ + decimal_of(v as int) + ")"@),
        ArgVal::Enum(name, v) => match cfg.enum_map(name) {
            Some(m) => if m.contains_key(v) {
                Ok("("@ + m[v] + ")"@)
            } else {
                Ok(decimal_of(v as int))
            },
            None => Err(ErrorView::BadEnumReference(name)),
        },
    }
}

/// The texts of the arguments, separated by a comma and a space; the first error
/// where an argument has no text.
pub open spec fn args_text(cfg: ScriptConfig, args: Seq<ArgVal>) -> Result<Seq<char>, ErrorView>
    decreases args.len(),
{
    if args.len() == 0 {
        Ok(Seq::empty())
    } else {
        match args_text(cfg, args.drop_last()) {
            Err(x) => Err(x),
            Ok(t) => match arg_text(cfg, args.last()) {
                Err(x) => Err(x),
                Ok(a) => Ok(
                    if args.len() == 1 {
                        a
                    } else {
                        t + ", "@ + a
                    },
                ),
            },
        }
    }
}

/// The opcode and schema that an identifier names in the catalog; an opcode that
/// a dynamic-size catalog lacks is shown as a nameless instruction outside blocks.
pub open spec fn schema_of(cfg: ScriptConfig, ident: IdentView) -> Result<
    (u32, InstructionSchema),
    ErrorView,
> {
    match ident {
        IdentView::Name(n) => match cfg.id_named(n) {
            Some(id) => Ok((id, cfg.schema(id)->0)),
            None => Err(ErrorView::UnknownInstructionName(n)),
        },
        IdentView::Id(id) => match cfg.schema(id) {
            Some(s) => Ok((id, s)),
            None => if cfg.spec_is_unsized() {
                Ok((id, nameless_schema(Seq::empty())))
            } else {
                Err(ErrorView::UnknownInstructionID(id))
            },
        },
    }
}

/// The name shown for an instruction: its catalog name, or `Unknown` and its opcode.
pub open spec fn display_name(s: InstructionSchema, id: u32) -> Seq<char> {
    if s.name.len() > 0 {
        s.name
    } else {
        "Unknown"@ + decimal_of(id as int)
    }
}

pub open spec fn spaces(n: nat) -> Seq<char> {
    Seq::new(n, |i: int| ' ')
}

/// The depth at which an instruction with role `block` is shown, given the depth
/// before it: an `End` closes a block before its own line.
pub open spec fn line_depth(block: CodeBlock, depth: nat) -> nat {
    if block == CodeBlock::End && depth > 0 {
        (depth - 1) as nat
    } else {
        depth
    }
}

/// The depth after an instruction: a `Begin` opens a block after its own line.
pub open spec fn next_depth(block: CodeBlock, depth: nat) -> nat {
    if block == CodeBlock::Begin {
        line_depth(block, depth) + 1
    } else {
        line_depth(block, depth)
    }
}

/// The text of one instruction at `depth` and the depth after it. A line that
/// closes the outermost block is followed by a blank line.
pub open spec fn render_step(cfg: ScriptConfig, limit: nat, depth: nat, v: InstrView) -> Result<
    (Seq<char>, nat),
    ErrorView,
> {
    match schema_of(cfg, v.identifier) {
        Err(x) => Err(x),
        Ok((id, s)) => match args_text(cfg, v.args) {
            Err(x) => Err(x),
            Ok(t) => {
                let d = line_depth(s.block, depth);
                let line = spaces((INDENT_SPACES as nat) * (if d < limit { d } else { limit })) + display_name(s, id)
                    + ": "@ + t + "\n"@;
                let ended = s.block == CodeBlock::End && depth == 1;
                Ok((if ended { line + "\n"@ } else { line }, next_depth(s.block, depth)))
            },
        },
    }
}

/// The text of a program and the depth after it.
pub open spec fn render(cfg: ScriptConfig, limit: nat, prog: Seq<InstrView>) -> Result<
    (Seq<char>, nat),
    ErrorView,
>
    decreases prog.len(),
{
    if prog.len() == 0 {
        Ok((Seq::empty(), 0))
    } else {
        match render(cfg, limit, prog.drop_last()) {
            Err(x) => Err(x),
            Ok((text, depth)) => match render_step(cfg, limit, depth, prog.last()) {
                Err(x) => Err(x),
                Ok((t, d)) => Ok((text + t, d)),
            },
        }
    }
}

/// The text of a program alone.
pub open spec fn render_text(cfg: ScriptConfig, limit: nat, prog: Seq<InstrView>) -> Result<
    Seq<char>,
    ErrorView,
> {
    match render(cfg, limit, prog) {
        Ok((text, _)) => Ok(text),
        Err(x) => Err(x),
    }
}

pub open spec fn text_result(r: Result<String, BBScriptError>) -> Result<Seq<char>, ErrorView> {
    match r {
        Ok(s) => Ok(s@),
        Err(x) => Err(x@),
    }
}

/// Appends the spaces of `levels` levels of indentation.
fn push_indent(out: &mut String, levels: usize)
    ensures
        final(out)@ == old(out)@ + spaces((INDENT_SPACES as nat) * (levels as nat)),
{
    let mut i: usize = 0;
    while i < levels
        invariant
            i <= levels,
            out@ == old(out)@ + spaces((INDENT_SPACES as nat) * (i as nat)),
        decreases levels - i,
    {
        let mut k: usize = 0;
        while k < INDENT_SPACES
            invariant
                k <= INDENT_SPACES,
                out@ == old(out)@ + spaces((INDENT_SPACES as nat) * (i as nat) + (k as nat)),
            decreases INDENT_SPACES - k,
        {
            push_char(out, ' ');
            k = k + 1;
            assert(out@ =~= old(out)@ + spaces((INDENT_SPACES as nat) * (i as nat) + (k as nat)));
        }
        i = i + 1;
        assert((INDENT_SPACES as nat) * (i as nat) == (INDENT_SPACES as nat) * ((i - 1) as nat) + (INDENT_SPACES as nat));
    }
}

/// Once a prefix of the arguments has no text, neither have all of them.
proof fn lemma_args_text_err(cfg: ScriptConfig, args: Seq<ArgVal>, i: int)
    requires
        0 <= i <= args.len(),
        args_text(cfg, args.take(i)) is Err,
    ensures
        args_text(cfg, args) == args_text(cfg, args.take(i)),
    decreases args.len() - i,
{
    if i < args.len() {
        assert(args.take(i + 1).drop_last() =~= args.take(i));
        lemma_args_text_err(cfg, args, i + 1);
    } else {
        assert(args.take(i) =~= args);
    }
}

/// Once a prefix of a program has no text, neither has all of it.
proof fn lemma_render_err(cfg: ScriptConfig, limit: nat, prog: Seq<InstrView>, i: int)
    requires
        0 <= i <= prog.len(),
        render(cfg, limit, prog.take(i)) is Err,
    ensures
        render(cfg, limit, prog) == render(cfg, limit, prog.take(i)),
    decreases prog.len() - i,
{
    if i < prog.len() {
        assert(prog.take(i + 1).drop_last() =~= prog.take(i));
        lemma_render_err(cfg, limit, prog, i + 1);
    } else {
        assert(prog.take(i) =~= prog);
    }
}

/// Appends the text of one argument.
fn arg_to_string(config: &ScriptConfig, arg: &ArgValue, out: &mut String) -> (r: Result<(), BBScriptError>)
    ensures
        match arg_text(*config, arg@) {
            Ok(t) => r is Ok && final(out)@ == old(out)@ + t,
            Err(x) => r matches Err(y) && y@ == x,
        },
{
    match arg {
        ArgValue::Unknown(data) => {
            out.append("0x");
            let h = encode_hex_upper(data.as_slice());
            out.append(h.as_str());
            assert(final(out)@ =~= old(out)@ + ("0x"@ + hex_upper(data@)));
        },
        ArgValue::Number(num) => {
            push_decimal(out, *num as i64);
        },
        ArgValue::String16(s) => {
            out.append("s16'");
            out.append(s.as_str());
            out.append("'");
            assert(final(out)@ =~= old(out)@ + ("s16'"@ + s@ + "'"@));
        },
        ArgValue::String32(s) => {
            out.append("s32'");
            out.append(s.as_str());
            out.append("'");
            assert(final(out)@ =~= old(out)@ + ("s32'"@ + s@ + "'"@));
        },
        ArgValue::AccessedValue(TaggedValue::Improper { tag, value }) => {
            out.append("BadTag(");
            push_decimal(out, *tag as i64);
            out.append(", ");
            push_decimal(out, *value as i64);
            out.append(")");
            assert(final(out)@ =~= old(out)@ + ("BadTag("@ + decimal_of(*tag as int) + ", "@
                + decimal_of(*value as int) + ")"@));
        },
        ArgValue::AccessedValue(TaggedValue::Variable(val)) => {
            out.append("Mem(");
            match config.get_variable_name(*val) {
                Some(name) => out.append(name.as_str()),
                None => push_decimal(out, *val as i64),
            }
            out.append(")");
            assert(final(out)@ =~= old(out)@ + ("Mem("@ + (if config.variables().contains_key(*val) {
                config.variables()[*val]
            } else {
                decimal_of(*val as int)
            }) + ")"@));
        },
        ArgValue::AccessedValue(TaggedValue::Literal(val)) => {
            out.append("Val(");
            push_decimal(out, *val as i64);
            out.append(")");
            assert(final(out)@ =~= old(out)@ + ("Val("@ + decimal_of(*val as int) + ")"@));
        },
        ArgValue::Enum(name, val) => {
            match config.enum_name_of(name, *val) {
                Err(()) => {
                    return Err(BBScriptError::BadEnumReference(name.clone()));
                },
                Ok(Some(variant)) => {
                    out.append("(");
                    out.append(variant.as_str());
                    out.append(")");
                    assert(final(out)@ =~= old(out)@ + ("("@ + variant@ + ")"@));
                },
                Ok(None) => {
                    push_decimal(out, *val as i64);
                },
            }
        },
    }
    Ok(())
}

/// Appends the texts of the arguments, separated by a comma and a space.
fn push_args(config: &ScriptConfig, args: &crate::parser::ArgValues, line: &mut String) -> (r: Result<
    (),
    BBScriptError,
>)
    ensures
        match args_text(*config, args@) {
            Ok(t) => r is Ok && final(line)@ == old(line)@ + t,
            Err(x) => r matches Err(y) && y@ == x,
        },
{
    let ghost head = line@;
    let n = args.len();
    let mut j: usize = 0;
    assert(args@.take(0) =~= Seq::<ArgVal>::empty());
    assert(head + Seq::<char>::empty() =~= head);
    while j < n
        invariant
            j <= n,
            n == args@.len(),
            args_text(*config, args@.take(j as int)) matches Ok(t) && line@ == head + t,
        decreases n - j,
    {
        if j > 0 {
            line.append(", ");
        }
        let res = arg_to_string(config, args.get(j), line);
        proof {
            assert(args@.take(j + 1).drop_last() =~= args@.take(j as int));
            assert(args@.take(j + 1).last() == args@[j as int]);
        }
        match res {
            Err(x) => {
                proof {
                    lemma_args_text_err(*config, args@, j + 1);
                }
                return Err(x);
            },
            Ok(()) => {},
        }
        proof {
            let t = args_text(*config, args@.take(j as int))->Ok_0;
            let a = arg_text(*config, args@[j as int])->Ok_0;
            if j > 0 {
                assert(line@ =~= head + (t + ", "@ + a));
            } else {
                assert(t =~= Seq::<char>::empty());
                assert(line@ =~= head + a);
            }
        }
        j = j + 1;
    }
    assert(args@.take(n as int) =~= args@);
    Ok(())
}

impl ScriptConfig {
    /// The catalog entry that a decoded identifier names.
    fn info_of(&self, identifier: &InstructionIdentifier) -> (r: Result<
        crate::config::GenericInstruction,
        BBScriptError,
    >)
        requires
            self.names_unique(),
        ensures
            match schema_of(*self, identifier@) {
                Ok((id, s)) => r matches Ok(g) && g.spec_id() == id && g.schema() == s,
                Err(x) => r matches Err(y) && y@ == x,
            },
    {
        match identifier {
            InstructionIdentifier::Name(name) => match self.get_by_name(name) {
                Some(g) => Ok(g),
                None => Err(BBScriptError::UnknownInstructionName(name.clone())),
            },
            InstructionIdentifier::Id(id) => match self.get_by_id(*id) {
                Some(g) => Ok(g),
                None => if self.is_unsized() {
                    Ok(GenericInstruction::Unsized(*id, UnsizedInstruction::new()))
                } else {
                    Err(BBScriptError::UnknownInstructionID(*id))
                },
            },
        }
    }

    /// Renders decoded instructions as text, one line each, indented by block
    /// depth up to `indent_limit` levels.
    #[verifier::loop_isolation(false)]
    pub fn format_program(&self, program: &Vec<InstructionValue>, indent_limit: usize) -> (r: Result<
        String,
        BBScriptError,
    >)
        requires
            self.names_unique(),
        ensures
            text_result(r) == render_text(*self, indent_limit as nat, program_view(program@)),
    {
        let ghost prog = program_view(program@);
        let mut out = String::new();
        let mut indent: usize = 0;
        let mut k: usize = 0;
        assert(prog.take(0) =~= Seq::<InstrView>::empty());
        assert(out@ =~= Seq::<char>::empty());
        while k < program.len()
            invariant
                k <= program@.len(),
                prog == program_view(program@),
                indent <= k,
                render(*self, indent_limit as nat, prog.take(k as int)) == Ok::<(Seq<char>, nat), ErrorView>(
                    (out@, indent as nat),
                ),
                self.names_unique(),
            decreases program@.len() - k,
        {
            let instruction = &program[k];
            proof {
                assert(prog.take(k + 1).drop_last() =~= prog.take(k as int));
                assert(prog.take(k + 1).last() == instruction@);
            }
            let info = match self.info_of(&instruction.identifier) {
                Ok(g) => g,
                Err(x) => {
                    proof {
                        lemma_render_err(*self, indent_limit as nat, prog, k + 1);
                    }
                    return Err(x);
                },
            };
            let block = info.block_type();
            let depth = indent;
            let mut block_ended = false;
            if block == CodeBlock::End && indent > 0 {
                indent = indent - 1;
                if indent == 0 {
                    block_ended = true;
                }
            }
            let mut line = String::new();
            let shown = if indent < indent_limit {
                indent
            } else {
                indent_limit
            };
            push_indent(&mut line, shown);
            match info.name() {
                Some(name) => line.append(name.as_str()),
                None => {
                    line.append("Unknown");
                    push_decimal(&mut line, info.id() as i64);
                },
            }
            line.append(": ");
            let args = &instruction.args;
            match push_args(self, args, &mut line) {
                Ok(()) => {},
                Err(x) => {
                    proof {
                        lemma_render_err(*self, indent_limit as nat, prog, k + 1);
                    }
                    return Err(x);
                },
            }
            line.append("\n");
            if block == CodeBlock::Begin {
                indent = indent + 1;
            }
            if block_ended {
                line.append("\n");
            }
            proof {
                let s = info.schema();
                let t = args_text(*self, args@)->Ok_0;
                let d = line_depth(s.block, depth as nat);
                let lim = if d < indent_limit { d } else { indent_limit as nat };
                let expect = spaces((INDENT_SPACES as nat) * lim) + display_name(s, info.spec_id()) + ": "@ + t + "\n"@;
                if block_ended {
                    assert(line@ =~= expect + "\n"@);
                } else {
                    assert(line@ =~= expect);
                }
            }
            let ghost before_out = out@;
            out.append(line.as_str());
            k = k + 1;
            proof {
                assert(out@ == before_out + line@);
            }
        }
        assert(prog.take(k as int) =~= prog);
        Ok(out)
    }

    /// Decodes a script and renders it as text.
    pub fn parse_to_string(&self, e: Endian, input: &[u8], indent_limit: usize) -> (r: Result<
        String,
        BBScriptError,
    >)
        requires
            self.names_unique(),
        ensures
            text_result(r) == match decode_script(*self, e, input@) {
                Ok(p) => render_text(*self, indent_limit as nat, p),
                Err(x) => Err(x),
            },
    {
        let program = self.parse(e, input)?;
        self.format_program(&program, indent_limit)
    }
}

} // verus!
