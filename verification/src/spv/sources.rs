//! The source code that a module was made from.
use crate::ir::InternedStr;
use crate::order;
use crate::spv::grammar::{OperandKind, OP_SOURCE, OP_SOURCE_CONTINUED};
use crate::spv::ids::{AllocatedIds, IdMaps};
use crate::spv::literal::{encode_literal_string, literal_string};
use crate::spv::needs::{file_paths, source_paths};
use crate::spv::sections::{bare_inst, short};
use crate::spv::{
    inst_views, plain_inst, DebugSourceLang, DebugSources, Id, Imm, Inst, InstView, Operand,
};
use vstd::prelude::*;
use vstd::utf8::{encode_utf8, is_char_boundary};

verus! {

/// How many bytes of source code go into an `OpSourceContinued`. The maximum word count is
/// `2**16 - 1`, the first word is taken up by the opcode and word count, and one extra byte
/// is taken up by the nul byte at the end of the string.
pub const MAX_OP_SOURCE_CONT_CONTENTS_LEN: usize = (0xffff - 1) * 4 - 1;

/// How many bytes of source code go into an `OpSource`, which has 3 more operands than
/// `OpSourceContinued`, each of which takes up exactly one word.
pub const MAX_OP_SOURCE_CONTENTS_LEN: usize = (0xffff - 1) * 4 - 1 - 3 * 4;

/// The smaller of two numbers.
pub open spec fn min_len(a: nat, b: nat) -> int {
    if a <= b {
        a as int
    } else {
        b as int
    }
}

/// The bytes of source code that go into an `OpSource`.
pub open spec fn initial_chunk(bytes: Seq<u8>) -> Seq<u8> {
    bytes.take(min_len(bytes.len(), MAX_OP_SOURCE_CONTENTS_LEN as nat))
}

/// The bytes of source code that do not go into an `OpSource`.
pub open spec fn after_initial_chunk(bytes: Seq<u8>) -> Seq<u8> {
    bytes.skip(min_len(bytes.len(), MAX_OP_SOURCE_CONTENTS_LEN as nat))
}

/// The bytes of source code, where `bytes` are left over, that each `OpSourceContinued` holds.
pub open spec fn cont_chunks(bytes: Seq<u8>) -> Seq<Seq<u8>>
    decreases bytes.len(),
{
    if bytes.len() == 0 {
        seq![]
    } else {
        let n = min_len(bytes.len(), MAX_OP_SOURCE_CONT_CONTENTS_LEN as nat);
        seq![bytes.take(n)] + cont_chunks(bytes.skip(n))
    }
}

/// Whether none of the chunks that `bytes` are divided into ends inside a character.
pub open spec fn cont_chunks_whole(bytes: Seq<u8>) -> bool
    decreases bytes.len(),
{
    bytes.len() == 0 || {
        let n = min_len(bytes.len(), MAX_OP_SOURCE_CONT_CONTENTS_LEN as nat);
        is_char_boundary(bytes, n) && cont_chunks_whole(bytes.skip(n))
    }
}

/// Whether none of the chunks that the source code in a file is divided into ends inside a
/// character.
pub open spec fn chunks_whole(bytes: Seq<u8>) -> bool {
    &&& is_char_boundary(bytes, min_len(bytes.len(), MAX_OP_SOURCE_CONTENTS_LEN as nat))
    &&& cont_chunks_whole(after_initial_chunk(bytes))
}

/// The operands that give a source language.
pub open spec fn lang_operands(lang: DebugSourceLang) -> Seq<Operand> {
    seq![
        short(OperandKind::SourceLanguage, lang.lang),
        short(OperandKind::LiteralInteger, lang.version),
    ]
}

/// The instruction that holds the start of the source code in a file.
pub open spec fn initial_inst(lang: DebugSourceLang, file_id: Id, bytes: Seq<u8>) -> InstView {
    plain_inst(
        OP_SOURCE,
        lang_operands(lang) + seq![Operand::Id(OperandKind::IdRef, file_id)] + literal_string(
            initial_chunk(bytes),
        ),
    )
}

/// The instruction that holds a later part of the source code in a file.
pub open spec fn cont_inst(chunk: Seq<u8>) -> InstView {
    plain_inst(OP_SOURCE_CONTINUED, literal_string(chunk))
}

/// The instructions that hold the source code that is left over.
pub open spec fn cont_insts(bytes: Seq<u8>) -> Seq<InstView> {
    cont_chunks(bytes).map_values(|chunk: Seq<u8>| cont_inst(chunk))
}

/// The instructions that hold the source code in a file.
pub open spec fn file_insts(lang: DebugSourceLang, file_id: Id, bytes: Seq<u8>) -> Seq<InstView> {
    seq![initial_inst(lang, file_id, bytes)] + cont_insts(after_initial_chunk(bytes))
}

/// The instructions that hold the source code in several files.
pub open spec fn files_insts(
    lang: DebugSourceLang,
    files: Seq<(InternedStr, String)>,
    ids: IdMaps,
) -> Seq<InstView>
    decreases files.len(),
{
    if files.len() == 0 {
        seq![]
    } else {
        let (path, contents) = files.last();
        files_insts(lang, files.drop_last(), ids) + file_insts(
            lang,
            ids.debug_strings[path],
            encode_utf8(contents@),
        )
    }
}

/// The instructions for a source language. Where no file is known, the language still is.
pub open spec fn lang_insts(lang: DebugSourceLang, sources: DebugSources, ids: IdMaps) -> Seq<
    InstView,
> {
    if sources.file_contents@.len() == 0 {
        seq![plain_inst(OP_SOURCE, lang_operands(lang))]
    } else {
        files_insts(lang, sources.file_contents@, ids)
    }
}

/// The instructions for several source languages.
pub open spec fn source_insts(
    source_languages: Seq<(DebugSourceLang, DebugSources)>,
    ids: IdMaps,
) -> Seq<InstView>
    decreases source_languages.len(),
{
    if source_languages.len() == 0 {
        seq![]
    } else {
        let (lang, sources) = source_languages.last();
        source_insts(source_languages.drop_last(), ids) + lang_insts(lang, sources, ids)
    }
}

/// Whether none of the chunks that the source code in files is divided into ends inside a
/// character.
pub open spec fn files_whole(files: Seq<(InternedStr, String)>) -> bool {
    forall|i: int| 0 <= i < files.len() ==> chunks_whole(encode_utf8((#[trigger] files[i]).1@))
}

/// Whether none of the chunks that source code is divided into ends inside a character.
pub open spec fn sources_whole(source_languages: Seq<(DebugSourceLang, DebugSources)>) -> bool {
    forall|i: int|
        0 <= i < source_languages.len() ==> files_whole(
            (#[trigger] source_languages[i]).1.file_contents@,
        )
}

fn are_chunks_whole(contents: &str) -> (r: bool)
    ensures
        r == chunks_whole(encode_utf8(contents@)),
{
    let ghost bytes = encode_utf8(contents@);
    let n: usize = chunk_len(contents, MAX_OP_SOURCE_CONTENTS_LEN);
    if !contents.is_char_boundary(n) {
        return false;
    }
    let (_, contents_rest) = contents.split_at(n);
    let mut rest: &str = contents_rest;
    assert(encode_utf8(rest@) =~= after_initial_chunk(bytes));
    while rest.as_bytes().len() > 0
        invariant
            bytes == encode_utf8(contents@),
            chunks_whole(bytes) == cont_chunks_whole(after_initial_chunk(bytes)),
            cont_chunks_whole(encode_utf8(rest@)) == cont_chunks_whole(after_initial_chunk(bytes)),
        decreases encode_utf8(rest@).len(),
    {
        let ghost left = encode_utf8(rest@);
        let n: usize = chunk_len(rest, MAX_OP_SOURCE_CONT_CONTENTS_LEN);
        if !rest.is_char_boundary(n) {
            return false;
        }
        let (_, after) = rest.split_at(n);
        assert(encode_utf8(after@) =~= left.skip(n as int));
        rest = after;
    }
    true
}

fn are_files_whole(files: &Vec<(InternedStr, String)>) -> (r: bool)
    ensures
        r == files_whole(files@),
{
    let mut i: usize = 0;
    while i < files.len()
        invariant
            i <= files@.len(),
            forall|j: int| 0 <= j < i ==> chunks_whole(encode_utf8((#[trigger] files@[j]).1@)),
        decreases files@.len() - i,
    {
        if !are_chunks_whole(files[i].1.as_str()) {
            assert(!chunks_whole(encode_utf8(files@[i as int].1@)));
            return false;
        }
        i = i + 1;
    }
    true
}

/// Checks whether none of the chunks that source code is divided into ends inside a character.
pub(crate) fn are_sources_whole(source_languages: &Vec<(DebugSourceLang, DebugSources)>) -> (r: bool)
    ensures
        r == sources_whole(source_languages@),
{
    let mut i: usize = 0;
    while i < source_languages.len()
        invariant
            i <= source_languages@.len(),
            forall|j: int|
                0 <= j < i ==> files_whole((#[trigger] source_languages@[j]).1.file_contents@),
        decreases source_languages@.len() - i,
    {
        if !are_files_whole(&source_languages[i].1.file_contents) {
            assert(!files_whole(source_languages@[i as int].1.file_contents@));
            return false;
        }
        i = i + 1;
    }
    true
}

fn lang_inst(lang: DebugSourceLang) -> (inst: Inst)
    ensures
        inst@ == plain_inst(OP_SOURCE, lang_operands(lang)),
{
    let mut inst = bare_inst(OP_SOURCE);
    inst.operands.push(Operand::Imm(Imm::Short(OperandKind::SourceLanguage, lang.lang)));
    inst.operands.push(Operand::Imm(Imm::Short(OperandKind::LiteralInteger, lang.version)));
    assert(inst@ =~= plain_inst(OP_SOURCE, lang_operands(lang)));
    inst
}

/// The number of bytes of a string, or `max` if there are more.
fn chunk_len(s: &str, max: usize) -> (n: usize)
    ensures
        n == min_len(encode_utf8(s@).len(), max as nat),
{
    let len: usize = s.as_bytes().len();
    if len <= max {
        len
    } else {
        max
    }
}

/// Appends the instructions that hold the source code in a file.
fn push_file_insts(insts: &mut Vec<Inst>, lang: DebugSourceLang, file_id: Id, contents: &str)
    requires
        chunks_whole(encode_utf8(contents@)),
    ensures
        inst_views(final(insts)@) == inst_views(old(insts)@) + file_insts(
            lang,
            file_id,
            encode_utf8(contents@),
        ),
{
    let ghost before = inst_views(insts@);
    let ghost bytes = encode_utf8(contents@);
    let (contents_initial, contents_rest) = contents.split_at(
        chunk_len(contents, MAX_OP_SOURCE_CONTENTS_LEN),
    );
    let mut inst = lang_inst(lang);
    inst.operands.push(Operand::Id(OperandKind::IdRef, file_id));
    let mut literal = encode_literal_string(contents_initial);
    inst.operands.append(&mut literal);
    assert(encode_utf8(contents_initial@) =~= initial_chunk(bytes));
    assert(inst@ =~= initial_inst(lang, file_id, bytes));
    insts.push(inst);

    let ghost all = cont_insts(after_initial_chunk(bytes));
    let mut rest: &str = contents_rest;
    assert(encode_utf8(rest@) =~= after_initial_chunk(bytes));
    assert(inst_views(insts@) =~= before + seq![initial_inst(lang, file_id, bytes)]);
    let ghost mut done: Seq<InstView> = seq![];
    assert(all =~= done + cont_insts(encode_utf8(rest@)));
    assert(inst_views(insts@) =~= before + seq![initial_inst(lang, file_id, bytes)] + done);
    while rest.as_bytes().len() > 0
        invariant
            cont_chunks_whole(encode_utf8(rest@)),
            all == done + cont_insts(encode_utf8(rest@)),
            inst_views(insts@) == before + seq![initial_inst(lang, file_id, bytes)] + done,
        decreases encode_utf8(rest@).len(),
    {
        let ghost left = encode_utf8(rest@);
        let (cont_chunk, after) = rest.split_at(
            chunk_len(rest, MAX_OP_SOURCE_CONT_CONTENTS_LEN),
        );
        let ghost n = min_len(left.len(), MAX_OP_SOURCE_CONT_CONTENTS_LEN as nat);
        let mut inst = bare_inst(OP_SOURCE_CONTINUED);
        inst.operands = encode_literal_string(cont_chunk);
        assert(encode_utf8(cont_chunk@) =~= left.take(n));
        assert(encode_utf8(after@) =~= left.skip(n));
        assert(inst@ =~= cont_inst(left.take(n)));
        let ghost so_far = inst_views(insts@);
        insts.push(inst);
        rest = after;
        proof {
            assert(cont_insts(left) =~= seq![cont_inst(left.take(n))] + cont_insts(left.skip(n)));
            done = done + seq![cont_inst(left.take(n))];
            assert(all =~= done + cont_insts(encode_utf8(rest@)));
            assert(inst_views(insts@) =~= so_far + seq![cont_inst(left.take(n))]);
            assert(inst_views(insts@) =~= before + seq![initial_inst(lang, file_id, bytes)]
                + done);
        }
    }
    assert(cont_insts(encode_utf8(rest@)) =~= seq![]);
    assert(done =~= all);
    assert(inst_views(insts@) =~= before + file_insts(lang, file_id, bytes));
}

/// Lists the instructions for source languages.
pub(crate) fn list_source_insts(
    source_languages: &Vec<(DebugSourceLang, DebugSources)>,
    ids: &AllocatedIds,
) -> (insts: Vec<Inst>)
    requires
        sources_whole(source_languages@),
        source_paths(source_languages@).subset_of(ids.debug_strings@.dom()),
    ensures
        inst_views(insts@) == source_insts(source_languages@, ids@),
{
    let mut insts: Vec<Inst> = Vec::new();
    let mut i: usize = 0;
    assert(source_languages@.take(0) =~= seq![]);
    assert(inst_views(insts@) =~= seq![]);
    while i < source_languages.len()
        invariant
            i <= source_languages@.len(),
            sources_whole(source_languages@),
            source_paths(source_languages@).subset_of(ids.debug_strings@.dom()),
            inst_views(insts@) == source_insts(source_languages@.take(i as int), ids@),
        decreases source_languages@.len() - i,
    {
        let lang: DebugSourceLang = source_languages[i].0;
        let files = &source_languages[i].1.file_contents;
        let ghost before = inst_views(insts@);
        assert forall|k: int| 0 <= k < files@.len() implies ids.debug_strings@.contains_key(
            (#[trigger] files@[k]).0,
        ) by {
            assert(file_paths(source_languages@[i as int].1.file_contents@).contains(files@[k].0));
            assert(source_paths(source_languages@).contains(files@[k].0));
        }
        if files.len() == 0 {
            insts.push(lang_inst(lang));
            assert(inst_views(insts@) =~= before + lang_insts(
                lang,
                source_languages@[i as int].1,
                ids@,
            ));
        } else {
            let mut j: usize = 0;
            assert(files@.take(0) =~= seq![]);
            assert(inst_views(insts@) =~= before + files_insts(lang, files@.take(0), ids@));
            while j < files.len()
                invariant
                    j <= files@.len(),
                    forall|k: int|
                        0 <= k < files@.len() ==> ids.debug_strings@.contains_key(
                            (#[trigger] files@[k]).0,
                        ),
                    files_whole(files@),
                    inst_views(insts@) == before + files_insts(lang, files@.take(j as int), ids@),
                decreases files@.len() - j,
            {
                let file = &files[j];
                let file_id: Id = order::value_of(&ids.debug_strings, file.0);
                push_file_insts(&mut insts, lang, file_id, file.1.as_str());
                proof {
                    assert(files@.take(j + 1).drop_last() =~= files@.take(j as int));
                    assert(inst_views(insts@) =~= before + files_insts(
                        lang,
                        files@.take(j + 1),
                        ids@,
                    ));
                }
                j = j + 1;
            }
            assert(files@.take(j as int) =~= files@);
        }
        assert(source_languages@.take(i + 1).drop_last() =~= source_languages@.take(i as int));
        i = i + 1;
    }
    assert(source_languages@.take(i as int) =~= source_languages@);
    insts
}

} // verus!
