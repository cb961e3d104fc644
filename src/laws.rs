//! Properties of the codec that hold for every catalog and every input.
use vstd::prelude::*;
use crate::config::{args_size, sized_arg_list, ArgKind, InstructionInfo, InstructionSchema, ScriptConfig, TaggedValue};
use crate::endian::{i32_bytes, i32_of, lemma_i32_round_trip, u32_bytes, u32_of, Endian};
use crate::error::ErrorView;
use crate::parser::{
    classify, decode_arg, decode_args, decode_record, decode_script, decode_stream,
    jump_table_size, ArgVal, InstrView,
};
use crate::rebuilder::{encode_arg, encode_call, encode_calls, lemma_encode_calls_err, first_index, padded, encode_program, parsed_size, resolve, CallView, ParsedArg};
use crate::round_trip::lemma_decode_args_len;
use crate::text::digits_of;

verus! {

/// Decoding a stream never reports a jump table error.
proof fn lemma_stream_error_kind(cfg: ScriptConfig, e: Endian, b: Seq<u8>)
    ensures
        !(decode_stream(cfg, e, b) matches Err(ErrorView::IncorrectJumpTableSize(_))),
    decreases b.len(),
{
    reveal(decode_stream);
    reveal(decode_record);
    if b.len() > 0 {
        match decode_record(cfg, e, b) {
            Ok((v, n)) => {
                if 0 < n <= b.len() {
                    lemma_stream_error_kind(cfg, e, b.subrange(n as int, b.len() as int));
                }
            },
            Err(_) => {},
        }
    }
}

/// A script whose jump table would take at least all the bytes after its counts
/// fails with a jump table error naming that size; any other script gets past
/// the table, to the decoding of the records that follow it.
pub proof fn law_jump_table_size(cfg: ScriptConfig, e: Endian, b: Seq<u8>)
    requires
        b.len() >= 4 * cfg.jump_table_ids@.len(),
    ensures
        ({
            let counts = 4 * cfg.jump_table_ids@.len();
            let size = jump_table_size(cfg, e, b);
            &&& size >= b.len() - counts ==> decode_script(cfg, e, b) == Err::<Seq<InstrView>, ErrorView>(
                ErrorView::IncorrectJumpTableSize(digits_of(size)),
            )
            &&& size < b.len() - counts ==> decode_script(cfg, e, b) == decode_stream(
                cfg,
                e,
                b.subrange(counts + size as int, b.len() as int),
            )
            &&& (decode_script(cfg, e, b) matches Err(ErrorView::IncorrectJumpTableSize(_))) <==> size
                >= b.len() - counts
        }),
{
    let counts = 4 * cfg.jump_table_ids@.len();
    let size = jump_table_size(cfg, e, b);
    if size < b.len() - counts {
        lemma_stream_error_kind(cfg, e, b.subrange(counts + size as int, b.len() as int));
    }
}

/// In a fixed-size catalog, a single call whose size (opcode and arguments) is not
/// the size its instruction declares fails with an error naming both sizes.
pub proof fn law_size_mismatch(cfg: ScriptConfig, e: Endian, c: CallView)
    requires
        !cfg.spec_is_unsized(),
        resolve(cfg, c) is Ok,
        Some(4 + parsed_size(c.args)) != resolve(cfg, c)->Ok_0.1.size,
    ensures
        resolve(cfg, c)->Ok_0.1.size is Some,
        encode_call(cfg, e, c) == Err::<(Seq<u8>, Option<(u32, Seq<u8>)>), ErrorView>(
            ErrorView::IncorrectFunctionSize(
                c.name,
                (4 + parsed_size(c.args)) as usize,
                resolve(cfg, c)->Ok_0.1.size->0 as usize,
            ),
        ),
        encode_program(cfg, e, seq![c]) == Err::<Seq<u8>, ErrorView>(
            ErrorView::IncorrectFunctionSize(
                c.name,
                (4 + parsed_size(c.args)) as usize,
                resolve(cfg, c)->Ok_0.1.size->0 as usize,
            ),
        ),
{
    reveal(encode_call);
    let id = resolve(cfg, c)->Ok_0.0;
    if cfg.id_named(c.name) is Some {
        assert(cfg.schema(id) is Some);
    }
    assert(cfg.schema(id) is Some);
    assert(resolve(cfg, c)->Ok_0.1 == cfg.schema(id)->0);
    assert(cfg.schema(id)->0.size is Some);
    assert(seq![c].drop_last() =~= Seq::<CallView>::empty());
    assert(seq![c].last() == c);
    assert(encode_calls(cfg, e, Seq::<CallView>::empty()) is Ok);
    assert(encode_calls(cfg, e, seq![c]) is Err);
}

/// In a fixed-size catalog, the schema a call resolves to is the catalog's and
/// declares a size.
proof fn lemma_sized_schema(cfg: ScriptConfig, c: CallView)
    requires
        !cfg.spec_is_unsized(),
        resolve(cfg, c) is Ok,
    ensures
        resolve(cfg, c)->Ok_0.1.size is Some,
{
    let id = resolve(cfg, c)->Ok_0.0;
    if cfg.id_named(c.name) is Some {
        assert(cfg.schema(id) is Some);
    }
    assert(cfg.schema(id) is Some);
    assert(resolve(cfg, c)->Ok_0.1 == cfg.schema(id)->0);
}

/// In a fixed-size catalog, the first call of a program whose size is not the
/// size its instruction declares, after calls that all encode, makes the whole
/// program fail with an error naming both sizes: nothing is padded or cut.
pub proof fn law_size_mismatch_in_program(cfg: ScriptConfig, e: Endian, calls: Seq<CallView>, i: int)
    requires
        !cfg.spec_is_unsized(),
        0 <= i < calls.len(),
        encode_calls(cfg, e, calls.take(i)) is Ok,
        resolve(cfg, calls[i]) is Ok,
        Some(4 + parsed_size(calls[i].args)) != resolve(cfg, calls[i])->Ok_0.1.size,
    ensures
        encode_program(cfg, e, calls) == Err::<Seq<u8>, ErrorView>(
            ErrorView::IncorrectFunctionSize(
                calls[i].name,
                (4 + parsed_size(calls[i].args)) as usize,
                resolve(cfg, calls[i])->Ok_0.1.size->0 as usize,
            ),
        ),
{
    law_size_mismatch(cfg, e, calls[i]);
    assert(calls.take(i + 1).drop_last() =~= calls.take(i));
    assert(calls.take(i + 1).last() == calls[i]);
    assert(encode_calls(cfg, e, calls.take(i + 1)) is Err);
    lemma_encode_calls_err(cfg, e, calls, i + 1);
}

/// Where a program encodes, each of its calls does.
proof fn lemma_calls_encode_each(cfg: ScriptConfig, e: Endian, calls: Seq<CallView>, i: int)
    requires
        encode_calls(cfg, e, calls) is Ok,
        0 <= i < calls.len(),
    ensures
        encode_call(cfg, e, calls[i]) is Ok,
    decreases calls.len(),
{
    if i < calls.len() - 1 {
        assert(calls.drop_last()[i] == calls[i]);
        lemma_calls_encode_each(cfg, e, calls.drop_last(), i);
    }
}

/// In a fixed-size catalog, every call of a program that encodes has the size
/// its instruction declares.
pub proof fn law_sizes_match(cfg: ScriptConfig, e: Endian, calls: Seq<CallView>)
    requires
        !cfg.spec_is_unsized(),
        encode_program(cfg, e, calls) is Ok,
    ensures
        forall|i: int|
            0 <= i < calls.len() ==> resolve(cfg, #[trigger] calls[i]) is Ok && resolve(cfg, calls[i])->Ok_0.1.size
                == Some(4 + parsed_size(calls[i].args)),
{
    assert forall|i: int| 0 <= i < calls.len() implies resolve(cfg, #[trigger] calls[i]) is Ok && resolve(
        cfg,
        calls[i],
    )->Ok_0.1.size == Some(4 + parsed_size(calls[i].args)) by {
        lemma_calls_encode_each(cfg, e, calls, i);
        reveal(encode_call);
        lemma_sized_schema(cfg, calls[i]);
    }
}

/// Encoding call `i` of a program that encodes that far: the call makes a jump
/// table entry exactly where its opcode is listed for the jump table and its
/// first argument is a 32-byte string. Such an entry is added once, after the
/// entries before it, to the table of the opcode's first position in the list:
/// the string padded to 32 bytes, then the offset of the call's record among the
/// records, which is the length of the records before it. Other tables, and all
/// tables for a call without an entry, stay as they were; the record follows the
/// records before it.
pub proof fn law_jump_entry(cfg: ScriptConfig, e: Endian, calls: Seq<CallView>, i: int)
    requires
        0 <= i < calls.len(),
        encode_calls(cfg, e, calls.take(i + 1)) is Ok,
    ensures
        encode_calls(cfg, e, calls.take(i)) is Ok,
        encode_call(cfg, e, calls[i]) is Ok,
        resolve(cfg, calls[i]) is Ok,
        ({
            let before = encode_calls(cfg, e, calls.take(i))->Ok_0;
            let after = encode_calls(cfg, e, calls.take(i + 1))->Ok_0;
            let rec = encode_call(cfg, e, calls[i])->Ok_0.0;
            let j = encode_call(cfg, e, calls[i])->Ok_0.1;
            let id = resolve(cfg, calls[i])->Ok_0.0;
            let k = first_index(cfg.jump_table_ids@, id);
            &&& after.stream == before.stream + rec
            &&& (j is Some <==> cfg.spec_is_jump_entry_id(id) && calls[i].args.len() > 0
                && calls[i].args[0] is String32)
            &&& j is Some ==> before.stream.len() <= u32::MAX && after.counts == before.counts.update(
                k,
                before.counts[k] + 1,
            ) && after.tables == before.tables.update(
                k,
                before.tables[k] + padded(calls[i].args[0]->String32_0, 32) + u32_bytes(
                    e,
                    before.stream.len() as u32,
                ),
            )
            &&& j is None ==> after.counts == before.counts && after.tables == before.tables
        }),
{
    reveal(encode_call);
    assert(calls.take(i + 1).drop_last() =~= calls.take(i));
    assert(calls.take(i + 1).last() == calls[i]);
}

/// An `AccessedValue` always decodes, to exactly one of a literal (its tag is the
/// literal tag), a variable (the variable tag) or an improper value that keeps both
/// numbers; and an improper value written back as a bad tag gives the same bytes.
pub proof fn law_tag_totality(cfg: ScriptConfig, e: Endian, b: Seq<u8>)
    requires
        b.len() == 8,
    ensures
        ({
            let tag = i32_of(e, b.subrange(0, 4));
            let value = i32_of(e, b.subrange(4, 8));
            let t = classify(cfg.literal_tag, cfg.variable_tag, tag, value);
            &&& decode_arg(cfg, e, ArgKind::AccessedValue, b) == ArgVal::AccessedValue(t)
            &&& t == TaggedValue::Literal(value) <==> tag == cfg.literal_tag
            &&& t == TaggedValue::Variable(value) <==> (tag != cfg.literal_tag && tag
                == cfg.variable_tag)
            &&& t == (TaggedValue::Improper { tag, value }) <==> (tag != cfg.literal_tag && tag
                != cfg.variable_tag)
        }),
{
}

/// A bad tag and value are written as two numbers, and decode to the same tag and
/// value wherever the tag is neither of the catalog's tags.
pub proof fn law_improper_round_trip(
    cfg: ScriptConfig,
    e: Endian,
    declared: Seq<ArgKind>,
    id: u32,
    index: nat,
    tag: i32,
    value: i32,
)
    requires
        tag != cfg.literal_tag,
        tag != cfg.variable_tag,
    ensures
        encode_arg(cfg, e, declared, id, index, ParsedArg::BadTag(tag, value)) matches Ok(b) && b.len()
            == 8 && decode_arg(cfg, e, ArgKind::AccessedValue, b) == ArgVal::AccessedValue(
            TaggedValue::Improper { tag, value },
        ),
{
    lemma_i32_round_trip(e, tag);
    lemma_i32_round_trip(e, value);
    let b = i32_bytes(e, tag) + i32_bytes(e, value);
    assert(b.subrange(0, 4) =~= i32_bytes(e, tag));
    assert(b.subrange(4, 8) =~= i32_bytes(e, value));
}

/// In a fixed-size catalog, a record whose declared arguments leave bytes over gets
/// exactly one more, unknown, argument holding exactly those bytes; a record whose
/// declared arguments fill it gets none.
pub proof fn law_unknown_synthesis(cfg: ScriptConfig, e: Endian, b: Seq<u8>)
    requires
        !cfg.spec_is_unsized(),
        b.len() >= 4,
        cfg.schema(u32_of(e, b.subrange(0, 4))) is Some,
        cfg.schema(u32_of(e, b.subrange(0, 4)))->0.size->0 >= 4,
        b.len() >= cfg.schema(u32_of(e, b.subrange(0, 4)))->0.size->0,
        args_size(cfg.schema(u32_of(e, b.subrange(0, 4)))->0.args) <= cfg.schema(
            u32_of(e, b.subrange(0, 4)),
        )->0.size->0 - 4,
    ensures
        ({
            let s = cfg.schema(u32_of(e, b.subrange(0, 4)))->0;
            let size = s.size->0;
            let known = args_size(s.args);
            decode_record(cfg, e, b) matches Ok((v, n)) && n == size && if known < size - 4 {
                &&& v.args.len() == s.args.len() + 1
                &&& v.args.last() == ArgVal::Unknown(b.subrange(4 + known as int, size as int))
                &&& b.subrange(4 + known as int, size as int).len() == size - 4 - known
            } else {
                v.args.len() == s.args.len()
            }
        }),
{
    reveal(decode_record);
    let id = u32_of(e, b.subrange(0, 4));
    let s = cfg.schema(id)->0;
    let size = s.size->0;
    let known = args_size(s.args);
    let list = sized_arg_list(size, s.args);
    if known < size - 4 {
        assert(list.drop_last() =~= s.args);
        assert(args_size(list) == size - 4);
        let body = b.subrange(4, size as int);
        lemma_decode_args_len(cfg, e, list, body);
        assert(body.subrange(known as int, known + (size - 4 - known)) =~= b.subrange(4 + known as int, size as int));
    } else {
        lemma_decode_args_len(cfg, e, list, b.subrange(4, size as int));
    }
}

} // verus!
