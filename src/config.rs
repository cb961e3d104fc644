//! The instruction catalog: argument types, instruction schemas and the named
//! value tables of one game.
use vstd::prelude::*;
use std::collections::HashMap;
use bimap::BiHashMap;
use crate::error::BBScriptError;

verus! {

broadcast use vstd::std_specs::hash::group_hash_axioms;

pub type BBSNumber = i32;

/// Bytes of a `String16` argument.
pub const STRING16_SIZE: usize = 0x10;

/// Bytes of a `String32` argument.
pub const STRING32_SIZE: usize = 0x20;

/// The declared type of one argument.
#[derive(Debug, Clone, PartialEq, Eq)]
pub enum ArgType {
    /// Raw bytes of this length, not interpreted.
    Unknown(usize),
    /// A 16-byte string padded with zero bytes.
    String16,
    /// A 32-byte string padded with zero bytes.
    String32,
    Number,
    /// A number named through the catalog's value map of this name.
    Enum(String),
    /// A tag and a value, each a number: a literal, a variable or neither.
    AccessedValue,
}

/// `ArgType` with the enum name as characters.
pub enum ArgKind {
    Unknown(nat),
    String16,
    String32,
    Number,
    Enum(Seq<char>),
    AccessedValue,
}

impl View for ArgType {
    type V = ArgKind;

    open spec fn view(&self) -> ArgKind {
        match self {
            ArgType::Unknown(n) => ArgKind::Unknown(*n as nat),
            ArgType::String16 => ArgKind::String16,
            ArgType::String32 => ArgKind::String32,
            ArgType::Number => ArgKind::Number,
            ArgType::Enum(s) => ArgKind::Enum(s@),
            ArgType::AccessedValue => ArgKind::AccessedValue,
        }
    }
}

impl ArgKind {
    /// The bytes an argument of this type takes.
    pub open spec fn size(self) -> nat {
        match self {
            ArgKind::Unknown(n) => n,
            ArgKind::String16 => 16,
            ArgKind::String32 => 32,
            ArgKind::Number => 4,
            ArgKind::Enum(_) => 4,
            ArgKind::AccessedValue => 8,
        }
    }
}

/// The bytes that a list of arguments takes.
pub open spec fn args_size(s: Seq<ArgKind>) -> nat
    decreases s.len(),
{
    if s.len() == 0 {
        0
    } else {
        args_size(s.drop_last()) + s.last().size()
    }
}

/// The kinds of a list of argument types.
pub open spec fn kinds(s: Seq<ArgType>) -> Seq<ArgKind> {
    s.map_values(|a: ArgType| a@)
}

impl ArgType {
    /// The size of the argument type in bytes.
    pub fn size(&self) -> (r: usize)
        ensures
            r == self@.size(),
    {
        match self {
            ArgType::Unknown(n) => *n,
            ArgType::Number => 4,
            ArgType::Enum(_) => 4,
            ArgType::String16 => STRING16_SIZE,
            ArgType::String32 => STRING32_SIZE,
            ArgType::AccessedValue => 8,
        }
    }

    /// An equal argument type.
    pub fn copy(&self) -> (r: ArgType)
        ensures
            r@ == self@,
    {
        match self {
            ArgType::Unknown(n) => ArgType::Unknown(*n),
            ArgType::Number => ArgType::Number,
            ArgType::Enum(s) => ArgType::Enum(s.clone()),
            ArgType::String16 => ArgType::String16,
            ArgType::String32 => ArgType::String32,
            ArgType::AccessedValue => ArgType::AccessedValue,
        }
    }
}

/// The bytes the arguments of `args` take, computed without overflow.
pub fn known_size(args: &[ArgType]) -> (r: u128)
    ensures
        r == args_size(kinds(args@)),
{
    let mut sum: u128 = 0;
    let mut i: usize = 0;
    while i < args.len()
        invariant
            i <= args@.len(),
            sum == args_size(kinds(args@.take(i as int))),
            sum <= i * 0x1_0000_0000_0000_0000,
        decreases args@.len() - i,
    {
        let n = args[i].size();
        proof {
            let t = kinds(args@.take(i + 1));
            assert(t.drop_last() =~= kinds(args@.take(i as int)));
        }
        sum = sum + n as u128;
        i = i + 1;
    }
    assert(args@.take(i as int) =~= args@);
    sum
}

/// The list of argument types of an instruction, stored inline when short.
#[verifier::external_body]
#[derive(Debug)]
pub struct ArgTypes {
    inner: smallvec::SmallVec<[ArgType; 16]>,
}

/// The argument types that an `ArgTypes` holds, in order.
pub uninterp spec fn arg_type_items(v: ArgTypes) -> Seq<ArgType>;

impl View for ArgTypes {
    type V = Seq<ArgKind>;

    open spec fn view(&self) -> Seq<ArgKind> {
        kinds(arg_type_items(*self))
    }
}

impl ArgTypes {
    /// Relies on smallvec::SmallVec::from_vec: the list holds the items of `v` in order.
    #[verifier::external_body]
    pub(crate) fn from_vec(v: Vec<ArgType>) -> (r: ArgTypes)
        ensures
            arg_type_items(r) == v@,
    {
        ArgTypes { inner: smallvec::SmallVec::from_vec(v) }
    }

    /// Relies on smallvec::SmallVec::as_slice: the items of the list in order.
    #[verifier::external_body]
    pub(crate) fn as_slice(&self) -> (r: &[ArgType])
        ensures
            r@ == arg_type_items(*self),
    {
        self.inner.as_slice()
    }

    /// The argument types, as a vector.
    pub fn to_vec(&self) -> (r: Vec<ArgType>)
        ensures
            kinds(r@) == self@,
    {
        let s = self.as_slice();
        let mut v: Vec<ArgType> = Vec::new();
        let mut i: usize = 0;
        while i < s.len()
            invariant
                i <= s@.len(),
                s@ == arg_type_items(*self),
                v@.len() == i,
                forall|j: int| 0 <= j < i ==> v@[j]@ == s@[j]@,
            decreases s@.len() - i,
        {
            v.push(s[i].copy());
            i = i + 1;
        }
        assert(kinds(v@) =~= kinds(s@));
        v
    }

    /// An equal list.
    pub fn copy(&self) -> (r: ArgTypes)
        ensures
            r@ == self@,
    {
        ArgTypes::from_vec(self.to_vec())
    }
}

/// The role of an instruction in the block structure of a script.
#[derive(Debug, Clone, Copy, PartialEq, Eq, Structural)]
pub enum CodeBlock {
    Begin,
    End,
    NoBlock,
}

impl Default for CodeBlock {
    fn default() -> (r: Self)
        ensures
            r == CodeBlock::NoBlock,
    {
        CodeBlock::NoBlock
    }
}

/// The meaning of an `AccessedValue` argument, found from its tag.
#[derive(Debug, Clone, Copy, PartialEq, Eq, Structural)]
pub enum TaggedValue {
    Literal(BBSNumber),
    Variable(BBSNumber),
    /// A tag that is neither the literal tag nor the variable tag of the catalog.
    Improper { tag: BBSNumber, value: BBSNumber },
}

/// What the catalog says of one opcode.
pub struct InstructionSchema {
    /// Empty where the catalog gives no name.
    pub name: Seq<char>,
    /// The record size, in fixed-size catalogs.
    pub size: Option<nat>,
    pub block: CodeBlock,
    pub args: Seq<ArgKind>,
}

/// `n - k`, or zero where `k` is larger.
pub open spec fn sat_sub(n: int, k: int) -> nat {
    if n >= k {
        (n - k) as nat
    } else {
        0
    }
}

/// The arguments decoded for a fixed-size record of `size` bytes whose declared
/// arguments are `args`: those, and where they do not fill the record exactly,
/// one more unknown argument with the bytes that are left.
pub open spec fn sized_arg_list(size: nat, args: Seq<ArgKind>) -> Seq<ArgKind> {
    let known = args_size(args);
    let room = sat_sub(size as int, 4);
    if known == room {
        args
    } else {
        args.push(ArgKind::Unknown(sat_sub(room as int, known as int)))
    }
}

/// The arguments decoded for a dynamic-size record whose size field is `dynamic_size`,
/// where the declared arguments `args` fit in it.
pub open spec fn unsized_arg_list(dynamic_size: int, args: Seq<ArgKind>) -> Seq<ArgKind> {
    let known = args_size(args);
    if known == dynamic_size - 8 {
        args
    } else {
        args.push(ArgKind::Unknown((dynamic_size - 8 - known) as nat))
    }
}

/// An instruction of a fixed-size catalog.
#[derive(Debug)]
pub struct SizedInstruction {
    /// The size of a record, opcode included.
    pub size: usize,
    pub name: String,
    pub code_block: CodeBlock,
    pub args: ArgTypes,
    pub description: String,
}

impl View for SizedInstruction {
    type V = InstructionSchema;

    open spec fn view(&self) -> InstructionSchema {
        InstructionSchema {
            name: self.name@,
            size: Some(self.size as nat),
            block: self.code_block,
            args: self.args@,
        }
    }
}

/// `Some` of the name, or `None` where it is empty.
fn optional_name(name: &String) -> (r: Option<String>)
    ensures
        r is None <==> name@.len() == 0,
        r matches Some(s) ==> s@ == name@,
{
    if name.as_str().unicode_len() == 0 {
        None
    } else {
        Some(name.clone())
    }
}

impl SizedInstruction {
    pub fn new(
        size: usize,
        name: String,
        code_block: CodeBlock,
        args: Vec<ArgType>,
        description: String,
    ) -> (r: SizedInstruction)
        ensures
            r.size == size,
            r.name@ == name@,
            r.code_block == code_block,
            r.args@ == kinds(args@),
            r.description@ == description@,
    {
        SizedInstruction { size, name, code_block, args: ArgTypes::from_vec(args), description }
    }

    pub fn name(&self) -> (r: Option<String>)
        ensures
            r is None <==> self.name@.len() == 0,
            r matches Some(s) ==> s@ == self.name@,
    {
        optional_name(&self.name)
    }

    /// The argument types that a record of this instruction is decoded with.
    pub fn args(&self) -> (r: Vec<ArgType>)
        ensures
            kinds(r@) == sized_arg_list(self.size as nat, self.args@),
    {
        let mut args = self.args.to_vec();
        let known = known_size(args.as_slice());
        let room: u128 = if self.size >= 4 {
            (self.size - 4) as u128
        } else {
            0
        };
        if known != room {
            let left_over: usize = if room >= known {
                (room - known) as usize
            } else {
                0
            };
            args.push(ArgType::Unknown(left_over));
            assert(kinds(args@) =~= sized_arg_list(self.size as nat, self.args@));
        }
        args
    }

    pub fn copy(&self) -> (r: SizedInstruction)
        ensures
            r@ == self@,
    {
        SizedInstruction {
            size: self.size,
            name: self.name.clone(),
            code_block: self.code_block,
            args: self.args.copy(),
            description: self.description.clone(),
        }
    }
}

/// An instruction of a dynamic-size catalog.
#[derive(Debug)]
pub struct UnsizedInstruction {
    pub name: String,
    pub code_block: CodeBlock,
    pub args: ArgTypes,
    pub description: String,
}

impl View for UnsizedInstruction {
    type V = InstructionSchema;

    open spec fn view(&self) -> InstructionSchema {
        InstructionSchema { name: self.name@, size: None, block: self.code_block, args: self.args@ }
    }
}

/// The schema given to an opcode that a dynamic-size catalog lacks.
pub open spec fn nameless_schema(args: Seq<ArgKind>) -> InstructionSchema {
    InstructionSchema { name: Seq::empty(), size: None, block: CodeBlock::NoBlock, args }
}

impl UnsizedInstruction {
    /// A nameless instruction without declared arguments.
    pub fn new() -> (r: UnsizedInstruction)
        ensures
            r@ == nameless_schema(Seq::empty()),
    {
        let r = UnsizedInstruction {
            name: String::new(),
            code_block: CodeBlock::NoBlock,
            args: ArgTypes::from_vec(Vec::new()),
            description: String::new(),
        };
        assert(r.args@ =~= Seq::empty());
        assert(r.name@ =~= Seq::empty());
        r
    }

    /// A nameless instruction with these argument types.
    pub fn from_parsed(args: Vec<ArgType>) -> (r: UnsizedInstruction)
        ensures
            r@ == nameless_schema(kinds(args@)),
    {
        UnsizedInstruction {
            name: String::new(),
            code_block: CodeBlock::NoBlock,
            args: ArgTypes::from_vec(args),
            description: String::new(),
        }
    }

    pub fn with_schema(
        name: String,
        code_block: CodeBlock,
        args: Vec<ArgType>,
        description: String,
    ) -> (r: UnsizedInstruction)
        ensures
            r.name@ == name@,
            r.code_block == code_block,
            r.args@ == kinds(args@),
            r.description@ == description@,
    {
        UnsizedInstruction { name, code_block, args: ArgTypes::from_vec(args), description }
    }

    pub fn name(&self) -> (r: Option<String>)
        ensures
            r is None <==> self.name@.len() == 0,
            r matches Some(s) ==> s@ == self.name@,
    {
        optional_name(&self.name)
    }

    /// The argument types that a record with this size field is decoded with; an
    /// error naming opcode `id` where the declared arguments do not fit in it.
    pub fn args_with_known_size(&self, id: u32, dynamic_size: usize) -> (r: Result<
        Vec<ArgType>,
        BBScriptError,
    >)
        ensures
            args_size(self.args@) > dynamic_size - 8 <==> r is Err,
            r matches Ok(v) ==> kinds(v@) == unsized_arg_list(dynamic_size as int, self.args@),
            r matches Err(e) ==> e@ == crate::error::ErrorView::ArgumentsExceedSize(
                id,
                args_size(self.args@) as usize,
                dynamic_size,
            ),
    {
        let mut args = self.args.to_vec();
        let known = known_size(args.as_slice());
        if (dynamic_size as u128) < 8 || known > dynamic_size as u128 - 8 {
            return Err(BBScriptError::ArgumentsExceedSize(id, known as usize, dynamic_size));
        }
        let room = (dynamic_size - 8) as u128;
        if known != room {
            args.push(ArgType::Unknown((room - known) as usize));
            assert(kinds(args@) =~= unsized_arg_list(dynamic_size as int, self.args@));
        }
        Ok(args)
    }

    pub fn copy(&self) -> (r: UnsizedInstruction)
        ensures
            r@ == self@,
    {
        UnsizedInstruction {
            name: self.name.clone(),
            code_block: self.code_block,
            args: self.args.copy(),
            description: self.description.clone(),
        }
    }
}

/// The instructions of a catalog, keyed by opcode: all of fixed size, or all of
/// dynamic size.
#[derive(Debug)]
pub enum InstructionInfo {
    Sized(HashMap<u32, SizedInstruction>),
    Unsized(HashMap<u32, UnsizedInstruction>),
}

impl InstructionInfo {
    /// No two opcodes share a non-empty name.
    pub open spec fn names_unique(&self) -> bool {
        forall|a: u32, b: u32|
            #![trigger self.schema(a), self.schema(b)]
            self.schema(a) is Some && self.schema(b) is Some && self.schema(a)->0.name.len() > 0
                && self.schema(a)->0.name == self.schema(b)->0.name ==> a == b
    }

    /// A non-empty name that two opcodes share.
    pub open spec fn is_shared_name(&self, name: Seq<char>) -> bool {
        name.len() > 0 && exists|a: u32, b: u32|
            #![trigger self.schema(a), self.schema(b)]
            a != b && self.schema(a) is Some && self.schema(b) is Some && self.schema(a)->0.name
                == name && self.schema(b)->0.name == name
    }

    /// The opcodes and names of the instructions, each opcode once.
    fn entries(&self) -> (r: Vec<(u32, String)>)
        ensures
            forall|j: int|
                0 <= j < r@.len() ==> #[trigger] self.schema(r@[j].0) is Some && r@[j].1@
                    == self.schema(r@[j].0)->0.name,
            forall|id: u32| #[trigger]
                self.schema(id) is Some ==> exists|j: int| 0 <= j < r@.len() && r@[j].0 == id,
    {
        let mut r: Vec<(u32, String)> = Vec::new();
        match self {
            InstructionInfo::Sized(m) => {
                for pair in it: m.iter()
                    invariant
                        r@.len() == it.index(),
                        forall|j: int|
                            0 <= j < r@.len() ==> r@[j].0 == *it.seq()[j].0 && r@[j].1@ == (
                            *it.seq()[j].1).name@,
                {
                    let (k, v) = pair;
                    r.push((*k, v.name.clone()));
                }
            },
            InstructionInfo::Unsized(m) => {
                for pair in it: m.iter()
                    invariant
                        r@.len() == it.index(),
                        forall|j: int|
                            0 <= j < r@.len() ==> r@[j].0 == *it.seq()[j].0 && r@[j].1@ == (
                            *it.seq()[j].1).name@,
                {
                    let (k, v) = pair;
                    r.push((*k, v.name.clone()));
                }
            },
        }
        r
    }

    /// The schema of opcode `id`, if the catalog has it.
    pub open spec fn schema(&self, id: u32) -> Option<InstructionSchema> {
        match self {
            InstructionInfo::Sized(m) => if m@.contains_key(id) {
                Some(m@[id]@)
            } else {
                None
            },
            InstructionInfo::Unsized(m) => if m@.contains_key(id) {
                Some(m@[id]@)
            } else {
                None
            },
        }
    }
}

/// An instruction found in a catalog, with its opcode.
#[derive(Debug)]
pub enum GenericInstruction {
    Sized(u32, SizedInstruction),
    Unsized(u32, UnsizedInstruction),
}

impl GenericInstruction {
    pub open spec fn spec_id(&self) -> u32 {
        match self {
            GenericInstruction::Sized(id, _) => *id,
            GenericInstruction::Unsized(id, _) => *id,
        }
    }

    pub open spec fn schema(&self) -> InstructionSchema {
        match self {
            GenericInstruction::Sized(_, i) => i@,
            GenericInstruction::Unsized(_, i) => i@,
        }
    }

    pub fn id(&self) -> (r: u32)
        ensures
            r == self.spec_id(),
    {
        match self {
            GenericInstruction::Sized(id, _) => *id,
            GenericInstruction::Unsized(id, _) => *id,
        }
    }

    pub fn name(&self) -> (r: Option<String>)
        ensures
            r is None <==> self.schema().name.len() == 0,
            r matches Some(s) ==> s@ == self.schema().name,
    {
        match self {
            GenericInstruction::Sized(_, i) => i.name(),
            GenericInstruction::Unsized(_, i) => i.name(),
        }
    }

    /// The record size that a fixed-size catalog declares.
    pub fn size(&self) -> (r: Option<usize>)
        ensures
            r is Some <==> self.schema().size is Some,
            r matches Some(n) ==> self.schema().size == Some(n as nat),
    {
        match self {
            GenericInstruction::Sized(_, i) => Some(i.size),
            GenericInstruction::Unsized(_, _) => None,
        }
    }

    pub fn block_type(&self) -> (r: CodeBlock)
        ensures
            r == self.schema().block,
    {
        match self {
            GenericInstruction::Sized(_, i) => i.code_block,
            GenericInstruction::Unsized(_, i) => i.code_block,
        }
    }

    /// The argument types the catalog declares.
    pub fn args(&self) -> (r: &[ArgType])
        ensures
            kinds(r@) == self.schema().args,
    {
        match self {
            GenericInstruction::Sized(_, i) => i.args.as_slice(),
            GenericInstruction::Unsized(_, i) => i.args.as_slice(),
        }
    }
}

/// bimap's map with a unique right value for each left value and the reverse.
#[verifier::external_type_specification]
#[verifier::external_body]
#[verifier::reject_recursive_types(L)]
#[verifier::reject_recursive_types(R)]
#[verifier::reject_recursive_types(LS)]
#[verifier::reject_recursive_types(RS)]
pub struct ExBiHashMap<L, R, LS, RS>(BiHashMap<L, R, LS, RS>);

/// The pairs of number and name that a bimap holds, keyed by number.
pub uninterp spec fn named_pairs(m: BiHashMap<i32, String>) -> Map<i32, Seq<char>>;

/// Relies on bimap::BiHashMap::get_by_left: the name paired with `left`, if any.
#[verifier::external_body]
fn name_by_value(m: &BiHashMap<i32, String>, left: i32) -> (r: Option<String>)
    ensures
        r is Some <==> named_pairs(*m).contains_key(left),
        r matches Some(s) ==> s@ == named_pairs(*m)[left],
{
    m.get_by_left(&left).cloned()
}

/// Relies on bimap::BiHashMap::get_by_right: the number paired with `right`, if any;
/// a bimap pairs each name with one number at most.
#[verifier::external_body]
fn value_by_name(m: &BiHashMap<i32, String>, right: &str) -> (r: Option<i32>)
    ensures
        r matches Some(v) ==> named_pairs(*m).contains_key(v) && named_pairs(*m)[v] == right@,
        forall|v: i32|
            #[trigger] named_pairs(*m).contains_key(v) && named_pairs(*m)[v] == right@ ==> r
                == Some(v),
{
    m.get_by_right(right).copied()
}

/// A lookup that finds the number paired with `name` wherever there is one, and
/// no other, finds `value_named(m, name)`.
proof fn lemma_value_named(m: Map<i32, Seq<char>>, name: Seq<char>, r: Option<i32>)
    requires
        r matches Some(v) ==> m.contains_key(v) && m[v] == name,
        forall|v: i32| #[trigger] m.contains_key(v) && m[v] == name ==> r == Some(v),
    ensures
        r == value_named(m, name),
{
    if exists|v: i32| m.contains_key(v) && m[v] == name {
        let w = choose|v: i32| m.contains_key(v) && m[v] == name;
        assert(r == Some(w));
    }
}

/// `r` is a number that `m` pairs with `name`, and every number that `m` pairs
/// with `name` is `r`: so `r` is `None` exactly where none is.
pub open spec fn found_by_name(m: Map<i32, Seq<char>>, name: Seq<char>, r: Option<i32>) -> bool {
    &&& r matches Some(w) ==> m.contains_key(w) && m[w] == name
    &&& forall|v: i32| #[trigger] m.contains_key(v) && m[v] == name ==> r == Some(v)
}

/// A named table of enum values.
#[derive(Debug)]
pub struct NamedValueMap {
    pub name: String,
    pub values: BiHashMap<i32, String>,
}

/// The values of the first table named `name`.
pub open spec fn first_map(maps: Seq<NamedValueMap>, name: Seq<char>) -> Option<
    Map<i32, Seq<char>>,
>
    decreases maps.len(),
{
    if maps.len() == 0 {
        None
    } else if maps[0].name@ == name {
        Some(named_pairs(maps[0].values))
    } else {
        first_map(maps.drop_first(), name)
    }
}

/// The number paired with `name` in `m`, where it is paired with one.
pub open spec fn value_named(m: Map<i32, Seq<char>>, name: Seq<char>) -> Option<i32> {
    if exists|v: i32| m.contains_key(v) && m[v] == name {
        Some(choose|v: i32| m.contains_key(v) && m[v] == name)
    } else {
        None
    }
}

/// The catalog of one game.
#[derive(Debug)]
pub struct ScriptConfig {
    /// The opcodes whose instructions the jump table lists, in table order.
    pub jump_table_ids: Vec<u32>,
    /// The tag of an `AccessedValue` holding a literal.
    pub literal_tag: BBSNumber,
    /// The tag of an `AccessedValue` holding a variable.
    pub variable_tag: BBSNumber,
    /// Names of variables.
    pub named_variables: BiHashMap<BBSNumber, String>,
    /// Tables of enum values, looked up by name.
    pub named_value_maps: Vec<NamedValueMap>,
    pub instructions: InstructionInfo,
}

impl ScriptConfig {
    pub open spec fn schema(&self, id: u32) -> Option<InstructionSchema> {
        self.instructions.schema(id)
    }

    pub open spec fn spec_is_unsized(&self) -> bool {
        self.instructions is Unsized
    }

    /// No two opcodes share a non-empty name.
    pub open spec fn names_unique(&self) -> bool {
        self.instructions.names_unique()
    }

    /// The opcode whose schema has the non-empty name `name`.
    pub open spec fn id_named(&self, name: Seq<char>) -> Option<u32> {
        if name.len() > 0 && exists|id: u32| #[trigger]
            self.schema(id) is Some && self.schema(id)->0.name == name {
            Some(choose|id: u32| #[trigger] self.schema(id) is Some && self.schema(id)->0.name == name)
        } else {
            None
        }
    }

    pub open spec fn enum_map(&self, name: Seq<char>) -> Option<Map<i32, Seq<char>>> {
        first_map(self.named_value_maps@, name)
    }

    pub open spec fn variables(&self) -> Map<i32, Seq<char>> {
        named_pairs(self.named_variables)
    }

    pub open spec fn spec_is_jump_entry_id(&self, id: u32) -> bool {
        self.jump_table_ids@.contains(id)
    }

    /// The instruction with the non-empty name `name`.
    pub fn get_by_name(&self, name: &String) -> (r: Option<GenericInstruction>)
        requires
            self.names_unique(),
        ensures
            r is Some <==> self.id_named(name@) is Some,
            r matches Some(g) ==> g.spec_id() == self.id_named(name@)->0
                && self.schema(g.spec_id()) == Some(g.schema())
                && (g is Sized <==> !self.spec_is_unsized()),
    {
        if name.as_str().unicode_len() == 0 {
            return None;
        }
        match &self.instructions {
            InstructionInfo::Sized(m) => {
                let found = find_name_sized(m, name);
                match found {
                    Some(id) => {
                        let i = m.get(&id).unwrap();
                        proof {
                            assert(self.schema(id) is Some && self.schema(id)->0.name == name@);
                        }
                        Some(GenericInstruction::Sized(id, i.copy()))
                    },
                    None => None,
                }
            },
            InstructionInfo::Unsized(m) => {
                let found = find_name_unsized(m, name);
                match found {
                    Some(id) => {
                        let i = m.get(&id).unwrap();
                        proof {
                            assert(self.schema(id) is Some && self.schema(id)->0.name == name@);
                        }
                        Some(GenericInstruction::Unsized(id, i.copy()))
                    },
                    None => None,
                }
            },
        }
    }

    /// The instruction of opcode `id`.
    pub fn get_by_id(&self, id: u32) -> (r: Option<GenericInstruction>)
        ensures
            r is Some <==> self.schema(id) is Some,
            r matches Some(g) ==> g.spec_id() == id && self.schema(id) == Some(g.schema())
                && (g is Sized <==> !self.spec_is_unsized()),
    {
        match &self.instructions {
            InstructionInfo::Sized(m) => match m.get(&id) {
                Some(i) => Some(GenericInstruction::Sized(id, i.copy())),
                None => None,
            },
            InstructionInfo::Unsized(m) => match m.get(&id) {
                Some(i) => Some(GenericInstruction::Unsized(id, i.copy())),
                None => None,
            },
        }
    }

    /// The value of `variant` in the enum table `enum_name`.
    pub fn get_enum_value(&self, enum_name: String, variant: String) -> (r: Option<BBSNumber>)
        ensures
            r == match self.enum_map(enum_name@) {
                Some(m) => value_named(m, variant@),
                None => None,
            },
            match self.enum_map(enum_name@) {
                Some(m) => found_by_name(m, variant@, r),
                None => r is None,
            },
    {
        let mut i: usize = 0;
        assert(self.named_value_maps@.subrange(0, self.named_value_maps@.len() as int) =~= self.named_value_maps@);
        while i < self.named_value_maps.len()
            invariant
                i <= self.named_value_maps@.len(),
                self.enum_map(enum_name@) == first_map(
                    self.named_value_maps@.subrange(i as int, self.named_value_maps@.len() as int),
                    enum_name@,
                ),
            decreases self.named_value_maps@.len() - i,
        {
            let ghost rest = self.named_value_maps@.subrange(i as int, self.named_value_maps@.len() as int);
            if self.named_value_maps[i].name == enum_name {
                let r = value_by_name(&self.named_value_maps[i].values, variant.as_str());
                proof {
                    lemma_value_named(named_pairs(self.named_value_maps@[i as int].values), variant@, r);
                }
                return r;
            }
            proof {
                assert(rest.drop_first() =~= self.named_value_maps@.subrange(i + 1, self.named_value_maps@.len() as int));
            }
            i = i + 1;
        }
        None
    }

    /// The number of the variable named `variable_name`.
    pub fn get_variable_by_name(&self, variable_name: String) -> (r: Option<BBSNumber>)
        ensures
            r == value_named(self.variables(), variable_name@),
            found_by_name(self.variables(), variable_name@, r),
    {
        let r = value_by_name(&self.named_variables, variable_name.as_str());
        proof {
            lemma_value_named(self.variables(), variable_name@, r);
        }
        r
    }

    /// The name of variable `value`, if it has one.
    pub fn get_variable_name(&self, value: BBSNumber) -> (r: Option<String>)
        ensures
            r is Some <==> self.variables().contains_key(value),
            r matches Some(s) ==> s@ == self.variables()[value],
    {
        name_by_value(&self.named_variables, value)
    }

    /// Whether the catalog's records carry a size field.
    pub fn is_unsized(&self) -> (r: bool)
        ensures
            r == self.spec_is_unsized(),
    {
        match &self.instructions {
            InstructionInfo::Sized(_) => false,
            InstructionInfo::Unsized(_) => true,
        }
    }

    /// Whether instructions of opcode `id` are listed in the jump table.
    pub fn is_jump_entry_id(&self, id: u32) -> (r: bool)
        ensures
            r == self.spec_is_jump_entry_id(id),
    {
        let mut i: usize = 0;
        while i < self.jump_table_ids.len()
            invariant
                i <= self.jump_table_ids@.len(),
                forall|j: int| 0 <= j < i ==> self.jump_table_ids@[j] != id,
            decreases self.jump_table_ids@.len() - i,
        {
            if self.jump_table_ids[i] == id {
                return true;
            }
            i = i + 1;
        }
        false
    }
}

/// The opcode of an entry of `m` named `name`.
fn find_name_sized(m: &HashMap<u32, SizedInstruction>, name: &String) -> (r: Option<u32>)
    ensures
        r matches Some(id) ==> m@.contains_key(id) && m@[id].name@ == name@,
        r is None ==> forall|id: u32| m@.contains_key(id) ==> m@[id].name@ != name@,
{
    for pair in it: m.iter()
        invariant
            forall|j: int| 0 <= j < it.index() ==> (*it.seq()[j].1).name@ != name@,
    {
        let (k, v) = pair;
        if v.name == *name {
            return Some(*k);
        }
    }
    None
}

/// The opcode of an entry of `m` named `name`.
fn find_name_unsized(m: &HashMap<u32, UnsizedInstruction>, name: &String) -> (r: Option<u32>)
    ensures
        r matches Some(id) ==> m@.contains_key(id) && m@[id].name@ == name@,
        r is None ==> forall|id: u32| m@.contains_key(id) ==> m@[id].name@ != name@,
{
    for pair in it: m.iter()
        invariant
            forall|j: int| 0 <= j < it.index() ==> (*it.seq()[j].1).name@ != name@,
    {
        let (k, v) = pair;
        if v.name == *name {
            return Some(*k);
        }
    }
    None
}

impl ScriptConfig {
    /// The name of `value` in the enum table `enum_name`: `Err` where the catalog
    /// has no such table.
    pub fn enum_name_of(&self, enum_name: &String, value: BBSNumber) -> (r: Result<Option<String>, ()>)
        ensures
            match self.enum_map(enum_name@) {
                None => r is Err,
                Some(m) => r matches Ok(o) && (o is Some <==> m.contains_key(value))
                    && (o matches Some(s) ==> s@ == m[value]),
            },
    {
        let mut i: usize = 0;
        assert(self.named_value_maps@.subrange(0, self.named_value_maps@.len() as int) =~= self.named_value_maps@);
        while i < self.named_value_maps.len()
            invariant
                i <= self.named_value_maps@.len(),
                self.enum_map(enum_name@) == first_map(
                    self.named_value_maps@.subrange(i as int, self.named_value_maps@.len() as int),
                    enum_name@,
                ),
            decreases self.named_value_maps@.len() - i,
        {
            let ghost rest = self.named_value_maps@.subrange(i as int, self.named_value_maps@.len() as int);
            if self.named_value_maps[i].name == *enum_name {
                return Ok(name_by_value(&self.named_value_maps[i].values, value));
            }
            proof {
                assert(rest.drop_first() =~= self.named_value_maps@.subrange(i + 1, self.named_value_maps@.len() as int));
            }
            i = i + 1;
        }
        Err(())
    }
}

/// Whether `n` is one of the names in `names`.
pub open spec fn listed(names: Seq<String>, n: Seq<char>) -> bool {
    exists|k: int| 0 <= k < names.len() && (#[trigger] names[k])@ == n
}

proof fn lemma_listed_push(names: Seq<String>, x: String, n: Seq<char>)
    requires
        listed(names, n),
    ensures
        listed(names.push(x), n),
{
    let k = choose|k: int| 0 <= k < names.len() && (#[trigger] names[k])@ == n;
    assert(names.push(x)[k] == names[k]);
}

/// The names that more than one opcode has, each listed at least once.
fn shared_names(instructions: &InstructionInfo) -> (r: Vec<String>)
    ensures
        forall|j: int| 0 <= j < r@.len() ==> instructions.is_shared_name(#[trigger] r@[j]@),
        forall|n: Seq<char>| #[trigger] instructions.is_shared_name(n) ==> listed(r@, n),
{
    let entries = instructions.entries();
    let mut duplicates: Vec<String> = Vec::new();
    let mut a: usize = 0;
    while a < entries.len()
        invariant
            a <= entries@.len(),
            forall|j: int|
                0 <= j < entries@.len() ==> #[trigger] instructions.schema(entries@[j].0) is Some
                    && entries@[j].1@ == instructions.schema(entries@[j].0)->0.name,
            forall|j: int|
                0 <= j < duplicates@.len() ==> instructions.is_shared_name(#[trigger] duplicates@[j]@),
            forall|x: int, y: int|
                0 <= x < y < a && entries@[y].1@.len() > 0 && entries@[x].0 != entries@[y].0
                    && entries@[x].1@ == entries@[y].1@ ==> listed(duplicates@, #[trigger] entries@[y].1@)
                    && #[trigger] entries@[x].0 == entries@[x].0,
        decreases entries@.len() - a,
    {
        let name = &entries[a].1;
        if name.as_str().unicode_len() > 0 {
            let mut b: usize = 0;
            let mut found = false;
            while b < a && !found
                invariant
                    b <= a < entries@.len(),
                    name@ == entries@[a as int].1@,
                    name@.len() > 0,
                    forall|j: int|
                        0 <= j < entries@.len() ==> #[trigger] instructions.schema(entries@[j].0) is Some
                            && entries@[j].1@ == instructions.schema(entries@[j].0)->0.name,
                    forall|j: int|
                        0 <= j < duplicates@.len() ==> instructions.is_shared_name(#[trigger] duplicates@[j]@),
                    forall|x: int, y: int|
                        0 <= x < y < a && entries@[y].1@.len() > 0 && entries@[x].0 != entries@[y].0
                            && entries@[x].1@ == entries@[y].1@ ==> listed(duplicates@, #[trigger] entries@[y].1@)
                            && #[trigger] entries@[x].0 == entries@[x].0,
                    found ==> listed(duplicates@, name@),
                    !found ==> forall|x: int|
                        0 <= x < b ==> entries@[x].0 == entries@[a as int].0 || entries@[x].1@ != name@,
                decreases a - b,
            {
                if entries[b].0 != entries[a].0 && entries[b].1 == *name {
                    proof {
                        let ia = entries@[a as int].0;
                        let ib = entries@[b as int].0;
                        assert(instructions.schema(ia) is Some);
                        assert(instructions.schema(ib) is Some);
                        assert(instructions.is_shared_name(name@));
                    }
                    let ghost old_dups = duplicates@;
                    let copy = name.clone();
                    duplicates.push(copy);
                    proof {
                        assert(duplicates@[old_dups.len() as int]@ == name@);
                        assert forall|n: Seq<char>| listed(old_dups, n) implies listed(duplicates@, n) by {
                            lemma_listed_push(old_dups, copy, n);
                        }
                    }
                    found = true;
                }
                b = b + 1;
            }
        }
        a = a + 1;
    }
    proof {
        assert forall|n: Seq<char>| #[trigger] instructions.is_shared_name(n) implies listed(duplicates@, n) by {
            let (x, y) = choose|x: u32, y: u32|
                #![trigger instructions.schema(x), instructions.schema(y)]
                x != y && instructions.schema(x) is Some && instructions.schema(y) is Some
                    && instructions.schema(x)->0.name == n && instructions.schema(y)->0.name == n;
            let jx = choose|j: int| 0 <= j < entries@.len() && entries@[j].0 == x;
            let jy = choose|j: int| 0 <= j < entries@.len() && entries@[j].0 == y;
            assert(instructions.schema(entries@[jx].0) is Some);
            assert(instructions.schema(entries@[jy].0) is Some);
            if jx < jy {
                assert(entries@[jx].0 == entries@[jx].0);
            } else {
                assert(entries@[jy].0 == entries@[jy].0);
            }
        }
    }
    duplicates
}

/// Every fixed-size instruction has room for its opcode and its declared arguments.
impl InstructionInfo {
    pub open spec fn sizes_fit(&self) -> bool {
        forall|id: u32| #[trigger]
            self.schema(id) is Some && self.schema(id)->0.size is Some ==> self.schema(id)->0.size->0
                >= 4 && args_size(self.schema(id)->0.args) <= self.schema(id)->0.size->0 - 4
    }
}

/// An opcode of `m` whose declared arguments do not fit its size, with the bytes
/// they take.
fn find_oversized(m: &HashMap<u32, SizedInstruction>) -> (r: Option<(u32, u128)>)
    ensures
        r matches Some((id, known)) ==> m@.contains_key(id) && known == args_size(m@[id].args@)
            && !(m@[id].size >= 4 && known <= m@[id].size - 4),
        r is None ==> forall|id: u32|
            m@.contains_key(id) ==> m@[id].size >= 4 && args_size(m@[id].args@) <= m@[id].size - 4,
{
    for pair in it: m.iter()
        invariant
            forall|j: int|
                0 <= j < it.index() ==> (*it.seq()[j].1).size >= 4 && args_size((*it.seq()[j].1).args@)
                    <= (*it.seq()[j].1).size - 4,
    {
        let (k, v) = pair;
        let known = known_size(v.args.as_slice());
        if v.size < 4 || known > (v.size - 4) as u128 {
            return Some((*k, known));
        }
    }
    None
}

/// No two enum tables share a name.
pub open spec fn table_names_unique(maps: Seq<NamedValueMap>) -> bool {
    forall|i: int, j: int| 0 <= i < j < maps.len() ==> (#[trigger] maps[i]).name@ != (#[trigger] maps[j]).name@
}

/// A name that two enum tables share.
fn duplicate_table(maps: &Vec<NamedValueMap>) -> (r: Option<String>)
    ensures
        r matches Some(n) ==> exists|i: int, j: int|
            0 <= i < j < maps@.len() && (#[trigger] maps@[i]).name@ == n@ && (#[trigger] maps@[j]).name@ == n@,
        r is None <==> table_names_unique(maps@),
{
    let mut j: usize = 0;
    while j < maps.len()
        invariant
            j <= maps@.len(),
            forall|x: int, y: int| 0 <= x < y < j ==> (#[trigger] maps@[x]).name@ != (#[trigger] maps@[y]).name@,
        decreases maps@.len() - j,
    {
        let mut i: usize = 0;
        while i < j
            invariant
                i <= j < maps@.len(),
                forall|x: int, y: int| 0 <= x < y < j ==> (#[trigger] maps@[x]).name@ != (#[trigger] maps@[y]).name@,
                forall|x: int| 0 <= x < i ==> (#[trigger] maps@[x]).name@ != maps@[j as int].name@,
            decreases j - i,
        {
            if maps[i].name == maps[j].name {
                let n = maps[j].name.clone();
                proof {
                    assert(maps@[i as int].name@ == n@ && maps@[j as int].name@ == n@);
                }
                return Some(n);
            }
            i = i + 1;
        }
        j = j + 1;
    }
    None
}

impl ScriptConfig {
    /// A catalog of these parts. It is refused, in this order, where instruction
    /// names are shared (the error lists every shared name), where a fixed-size
    /// instruction has no room for its declared arguments (the error names the
    /// opcode, the bytes of the arguments and the declared size), and where two
    /// enum tables share a name.
    pub fn new(
        jump_table_ids: Vec<u32>,
        literal_tag: BBSNumber,
        variable_tag: BBSNumber,
        named_variables: BiHashMap<BBSNumber, String>,
        named_value_maps: Vec<NamedValueMap>,
        instructions: InstructionInfo,
    ) -> (r: Result<ScriptConfig, BBScriptError>)
        ensures
            r is Ok <==> instructions.names_unique() && instructions.sizes_fit() && table_names_unique(
                named_value_maps@,
            ),
            r matches Ok(c) ==> c.jump_table_ids@ == jump_table_ids@ && c.literal_tag == literal_tag
                && c.variable_tag == variable_tag && c.named_variables == named_variables
                && c.named_value_maps@ == named_value_maps@ && c.instructions == instructions,
            !instructions.names_unique() ==> (r matches Err(BBScriptError::ConfigDuplicateName(names))
                && names@.len() > 0 && (forall|j: int|
                0 <= j < names@.len() ==> instructions.is_shared_name(#[trigger] names@[j]@)) && (forall|
                n: Seq<char>,
            | #[trigger] instructions.is_shared_name(n) ==> listed(names@, n))),
            instructions.names_unique() && !instructions.sizes_fit() ==> (r matches Err(
                BBScriptError::ArgumentsExceedSize(id, known, size),
            ) && instructions.schema(id) is Some && instructions.schema(id)->0.size == Some(size as nat)
                && known == args_size(instructions.schema(id)->0.args) as usize && !(size >= 4 && args_size(
                instructions.schema(id)->0.args,
            ) <= size - 4)),
            instructions.names_unique() && instructions.sizes_fit() && !table_names_unique(
                named_value_maps@,
            ) ==> (r matches Err(BBScriptError::ConfigDuplicateEnum(n)) && exists|i: int, j: int|
                0 <= i < j < named_value_maps@.len() && (#[trigger] named_value_maps@[i]).name@ == n@
                    && (#[trigger] named_value_maps@[j]).name@ == n@),
    {
        let shared = shared_names(&instructions);
        proof {
            if !instructions.names_unique() {
                let (x, y) = choose|x: u32, y: u32|
                    #![trigger instructions.schema(x), instructions.schema(y)]
                    !(instructions.schema(x) is Some && instructions.schema(y) is Some
                        && instructions.schema(x)->0.name.len() > 0 && instructions.schema(x)->0.name
                        == instructions.schema(y)->0.name ==> x == y);
                assert(instructions.is_shared_name(instructions.schema(x)->0.name));
            }
            if shared@.len() > 0 {
                assert(instructions.is_shared_name(shared@[0]@));
            }
        }
        if shared.len() > 0 {
            return Err(BBScriptError::ConfigDuplicateName(shared));
        }
        if let InstructionInfo::Sized(m) = &instructions {
            if let Some((id, known)) = find_oversized(m) {
                let size = m.get(&id).unwrap().size;
                return Err(BBScriptError::ArgumentsExceedSize(id, known as usize, size));
            }
        }
        if let Some(n) = duplicate_table(&named_value_maps) {
            return Err(BBScriptError::ConfigDuplicateEnum(n));
        }
        Ok(
            ScriptConfig {
                jump_table_ids,
                literal_tag,
                variable_tag,
                named_variables,
                named_value_maps,
                instructions,
            },
        )
    }
}

} // verus!
