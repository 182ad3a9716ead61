//! What holds of the source code in lifted modules.
use crate::ir::InternedStr;
use crate::spv::ids::IdMaps;
use crate::spv::sources::{
    after_initial_chunk, cont_chunks, cont_inst, file_insts, files_insts, initial_chunk,
    initial_inst, lang_insts, source_insts, MAX_OP_SOURCE_CONTENTS_LEN,
    MAX_OP_SOURCE_CONT_CONTENTS_LEN,
};
use crate::spv::write::{all_fit, fits};
use crate::spv::{DebugSourceLang, DebugSources, Id, InstView};
use vstd::prelude::*;
use vstd::utf8::encode_utf8;

verus! {

/// Chunks, one after another.
pub open spec fn joined(chunks: Seq<Seq<u8>>) -> Seq<u8>
    decreases chunks.len(),
{
    if chunks.len() == 0 {
        seq![]
    } else {
        chunks[0] + joined(chunks.drop_first())
    }
}

/// The chunks that source code is divided into make up the source code, in its order, and
/// none of those after the first is empty.
pub proof fn law_chunks_make_up_contents(bytes: Seq<u8>)
    ensures
        initial_chunk(bytes) + joined(cont_chunks(after_initial_chunk(bytes))) == bytes,
        initial_chunk(bytes).len() <= MAX_OP_SOURCE_CONTENTS_LEN,
        forall|i: int|
            0 <= i < cont_chunks(after_initial_chunk(bytes)).len() ==> 0 < (
            #[trigger] cont_chunks(after_initial_chunk(bytes))[i]).len()
                <= MAX_OP_SOURCE_CONT_CONTENTS_LEN,
{
    lemma_cont_chunks(after_initial_chunk(bytes));
    assert(initial_chunk(bytes) + after_initial_chunk(bytes) =~= bytes);
}

proof fn lemma_cont_chunks(bytes: Seq<u8>)
    ensures
        joined(cont_chunks(bytes)) == bytes,
        forall|i: int|
            0 <= i < cont_chunks(bytes).len() ==> 0 < (#[trigger] cont_chunks(bytes)[i]).len()
                <= MAX_OP_SOURCE_CONT_CONTENTS_LEN,
    decreases bytes.len(),
{
    if bytes.len() == 0 {
        assert(joined(cont_chunks(bytes)) =~= bytes);
    } else {
        let max = MAX_OP_SOURCE_CONT_CONTENTS_LEN as int;
        let n = if bytes.len() <= max {
            bytes.len() as int
        } else {
            max
        };
        let rest = bytes.skip(n);
        lemma_cont_chunks(rest);
        assert(cont_chunks(bytes).drop_first() =~= cont_chunks(rest));
        assert(bytes.take(n) + rest =~= bytes);
        assert forall|i: int| 0 <= i < cont_chunks(bytes).len() implies 0 < (#[trigger] cont_chunks(
            bytes,
        )[i]).len() <= max by {
            if i > 0 {
                assert(cont_chunks(bytes)[i] == cont_chunks(rest)[i - 1]);
            }
        }
    }
}

/// The instructions that hold source code always fit, however long it is.
pub proof fn law_source_insts_fit(
    source_languages: Seq<(DebugSourceLang, DebugSources)>,
    ids: IdMaps,
)
    ensures
        all_fit(source_insts(source_languages, ids)),
    decreases source_languages.len(),
{
    if source_languages.len() > 0 {
        let (lang, sources) = source_languages.last();
        let before = source_insts(source_languages.drop_last(), ids);
        law_source_insts_fit(source_languages.drop_last(), ids);
        lemma_files_fit(lang, sources.file_contents@, ids);
        lemma_all_fit_add(before, lang_insts(lang, sources, ids));
    }
}

proof fn lemma_all_fit_add(a: Seq<InstView>, b: Seq<InstView>)
    requires
        all_fit(a),
        all_fit(b),
    ensures
        all_fit(a + b),
{
    assert forall|i: int| 0 <= i < (a + b).len() implies #[trigger] fits((a + b)[i]) by {
        if i < a.len() {
            assert(fits(a[i]));
        } else {
            assert(fits(b[i - a.len()]));
        }
    }
}

proof fn lemma_files_fit(lang: DebugSourceLang, files: Seq<(InternedStr, String)>, ids: IdMaps)
    ensures
        all_fit(files_insts(lang, files, ids)),
    decreases files.len(),
{
    if files.len() > 0 {
        let (path, contents) = files.last();
        lemma_files_fit(lang, files.drop_last(), ids);
        law_file_insts_fit(lang, ids.debug_strings[path], encode_utf8(contents@));
        lemma_all_fit_add(
            files_insts(lang, files.drop_last(), ids),
            file_insts(lang, ids.debug_strings[path], encode_utf8(contents@)),
        );
    }
}

/// The instructions that hold the source code in a file always fit, however long it is.
pub proof fn law_file_insts_fit(lang: DebugSourceLang, file_id: Id, bytes: Seq<u8>)
    ensures
        all_fit(file_insts(lang, file_id, bytes)),
{
    let rest = after_initial_chunk(bytes);
    let insts = file_insts(lang, file_id, bytes);
    law_chunks_make_up_contents(bytes);
    assert forall|i: int| 0 <= i < insts.len() implies #[trigger] fits(insts[i]) by {
        if i == 0 {
            assert(insts[i] == initial_inst(lang, file_id, bytes));
        } else {
            let chunk = cont_chunks(rest)[i - 1];
            assert(insts[i] == cont_inst(chunk));
            assert(chunk.len() <= MAX_OP_SOURCE_CONT_CONTENTS_LEN);
        }
    }
}

} // verus!
