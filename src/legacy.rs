//! The older catalog format, where each instruction lists its arguments as a
//! string such as `16s32si`, and its conversion to the current schema.
use vstd::prelude::*;
use crate::config::{kinds, ArgKind, ArgType, SizedInstruction};
use crate::text::{push_char, push_digits, digits_of};

verus! {

/// An argument of the older format.
#[derive(Debug, Clone, Copy, PartialEq, Eq, Structural)]
pub enum Arg {
    String16,
    String32,
    Int,
    Unknown(u32),
}

/// Block roles of the older format: a jump table entry was a role of its own.
#[derive(Debug, Clone, Copy, PartialEq, Eq, Structural)]
pub enum CodeBlock {
    Begin,
    BeginJumpEntry,
    End,
    NoBlock,
}

/// An instruction of the older format.
#[derive(Debug)]
pub struct Function {
    pub id: u32,
    pub size: u32,
    pub args: String,
    pub name: String,
    pub code_block: CodeBlock,
}

pub open spec fn arg_size(a: Arg) -> nat {
    match a {
        Arg::String16 => 16,
        Arg::String32 => 32,
        Arg::Int => 4,
        Arg::Unknown(n) => n as nat,
    }
}

/// The arguments an argument string lists: `i` a number, `16s` and `32s`
/// strings; anything else is skipped.
pub open spec fn listed_args(s: Seq<char>) -> Seq<Arg>
    decreases s.len(),
{
    if s.len() == 0 {
        Seq::empty()
    } else if s[0] == 'i' {
        seq![Arg::Int] + listed_args(s.skip(1))
    } else if s.len() >= 3 && s[0] == '1' && s[1] == '6' && s[2] == 's' {
        seq![Arg::String16] + listed_args(s.skip(3))
    } else if s.len() >= 3 && s[0] == '3' && s[1] == '2' && s[2] == 's' {
        seq![Arg::String32] + listed_args(s.skip(3))
    } else {
        listed_args(s.skip(1))
    }
}

pub open spec fn listed_size(a: Seq<Arg>) -> nat
    decreases a.len(),
{
    if a.len() == 0 {
        0
    } else {
        arg_size(a[0]) + listed_size(a.skip(1))
    }
}

/// The listed arguments, and one unknown argument with the bytes of the record
/// that they leave over.
pub open spec fn function_args(f: Function) -> Seq<Arg> {
    let listed = listed_args(f.args@);
    let known = listed_size(listed);
    if f.size >= 4 && known < f.size - 4 {
        listed.push(Arg::Unknown((f.size - 4 - known) as u32))
    } else {
        listed
    }
}

proof fn lemma_listed_size_concat(a: Seq<Arg>, b: Seq<Arg>)
    ensures
        listed_size(a + b) == listed_size(a) + listed_size(b),
    decreases a.len(),
{
    if a.len() > 0 {
        lemma_listed_size_concat(a.skip(1), b);
        assert((a + b).skip(1) =~= a.skip(1) + b);
    } else {
        assert(a + b =~= b);
    }
}

impl Function {
    /// The arguments of the instruction.
    pub fn get_args(&self) -> (r: Vec<Arg>)
        ensures
            r@ == function_args(*self),
    {
        let s = self.args.as_str();
        let n = s.unicode_len();
        let mut out: Vec<Arg> = Vec::new();
        let mut size: u128 = 0;
        let mut i: usize = 0;
        assert(s@.skip(0) =~= s@);
        assert(out@ + listed_args(s@) =~= listed_args(s@));
        while i < n
            invariant
                i <= n,
                n == s@.len(),
                s@ == self.args@,
                out@ + listed_args(s@.skip(i as int)) == listed_args(s@),
                size == listed_size(out@),
                size <= 32 * i,
            decreases n - i,
        {
            let ghost rest = s@.skip(i as int);
            let c = s.get_char(i);
            assert(rest[0] == c);
            let ghost before = out@;
            let mut step: usize = 1;
            if c == 'i' {
                out.push(Arg::Int);
                size = size + 4;
            } else if n - i >= 3 && c == '1' && s.get_char(i + 1) == '6' && s.get_char(i + 2) == 's' {
                assert(rest[1] == '6' && rest[2] == 's');
                out.push(Arg::String16);
                size = size + 16;
                step = 3;
            } else if n - i >= 3 && c == '3' && s.get_char(i + 1) == '2' && s.get_char(i + 2) == 's' {
                assert(rest[1] == '2' && rest[2] == 's');
                out.push(Arg::String32);
                size = size + 32;
                step = 3;
            } else {
                proof {
                    if n - i >= 3 {
                        assert(rest[1] == s@[i + 1] && rest[2] == s@[i + 2]);
                    }
                }
            }
            proof {
                assert(rest.skip(step as int) =~= s@.skip(i + step));
                if out@.len() > before.len() {
                    let x = out@.last();
                    assert(out@ =~= before + seq![x]);
                    assert(listed_args(rest) == seq![x] + listed_args(rest.skip(step as int)));
                    assert(before + (seq![x] + listed_args(s@.skip(i + step))) =~= out@ + listed_args(
                        s@.skip(i + step),
                    ));
                    lemma_listed_size_concat(before, seq![x]);
                    assert(listed_size(seq![x]) == arg_size(x)) by {
                        assert(seq![x].skip(1) =~= Seq::<Arg>::empty());
                        assert(listed_size(Seq::<Arg>::empty()) == 0);
                        assert(listed_size(seq![x].skip(1)) == 0);
                    }
                } else {
                    assert(listed_args(rest) == listed_args(rest.skip(1)));
                }
            }
            i = i + step;
        }
        assert(s@.skip(n as int) =~= Seq::<char>::empty());
        assert(out@ + Seq::<Arg>::empty() =~= out@);
        if self.size >= 4 && size < (self.size - 4) as u128 {
            let left_over = self.size - 4 - size as u32;
            out.push(Arg::Unknown(left_over));
        }
        out
    }

    /// The name shown for the instruction: its name, or `Unknown` and its opcode.
    pub fn instruction_name(&self) -> (r: String)
        ensures
            r@ == if self.name@.len() == 0 {
                "Unknown"@ + digits_of(self.id as nat)
            } else {
                self.name@
            },
    {
        if self.name.as_str().unicode_len() == 0 {
            let mut s = String::new();
            s.append("Unknown");
            push_digits(&mut s, self.id as u128);
            assert(s@ =~= "Unknown"@ + digits_of(self.id as nat));
            s
        } else {
            self.name.clone()
        }
    }

    /// Whether the instruction is listed in the jump table.
    pub fn is_jump_entry(&self) -> (r: bool)
        ensures
            r == (self.code_block == CodeBlock::BeginJumpEntry),
    {
        self.code_block == CodeBlock::BeginJumpEntry
    }

    /// The instruction in the current schema: numbers for `i`, the unknown
    /// trailing argument left out (the record size implies it), and a jump
    /// table entry's role folded into `Begin`.
    pub fn to_sized(&self) -> (r: SizedInstruction)
        ensures
            r.size == self.size as usize,
            r.name@ == self.name@,
            r.code_block == match self.code_block {
                CodeBlock::Begin => crate::config::CodeBlock::Begin,
                CodeBlock::BeginJumpEntry => crate::config::CodeBlock::Begin,
                CodeBlock::End => crate::config::CodeBlock::End,
                CodeBlock::NoBlock => crate::config::CodeBlock::NoBlock,
            },
            r.args@ == current_args(function_args(*self)),
    {
        let args = self.get_args();
        let mut out: Vec<ArgType> = Vec::new();
        let mut i: usize = 0;
        assert(current_args(args@.take(0)) =~= Seq::<ArgKind>::empty());
        while i < args.len()
            invariant
                i <= args@.len(),
                kinds(out@) == current_args(args@.take(i as int)),
            decreases args@.len() - i,
        {
            let ghost before = out@;
            match args[i] {
                Arg::Int => out.push(ArgType::Number),
                Arg::String16 => out.push(ArgType::String16),
                Arg::String32 => out.push(ArgType::String32),
                Arg::Unknown(_) => {},
            }
            proof {
                assert(args@.take(i + 1).drop_last() =~= args@.take(i as int));
                assert(kinds(out@) =~= current_args(args@.take(i + 1)));
            }
            i = i + 1;
        }
        assert(args@.take(i as int) =~= args@);
        let block = match self.code_block {
            CodeBlock::Begin => crate::config::CodeBlock::Begin,
            CodeBlock::BeginJumpEntry => crate::config::CodeBlock::Begin,
            CodeBlock::End => crate::config::CodeBlock::End,
            CodeBlock::NoBlock => crate::config::CodeBlock::NoBlock,
        };
        SizedInstruction::new(self.size as usize, self.name.clone(), block, out, String::new())
    }
}

/// The current argument types of older arguments, unknown ones left out.
pub open spec fn current_args(a: Seq<Arg>) -> Seq<ArgKind>
    decreases a.len(),
{
    if a.len() == 0 {
        Seq::empty()
    } else {
        let rest = current_args(a.drop_last());
        match a.last() {
            Arg::Int => rest.push(ArgKind::Number),
            Arg::String16 => rest.push(ArgKind::String16),
            Arg::String32 => rest.push(ArgKind::String32),
            Arg::Unknown(_) => rest,
        }
    }
}

} // verus!
