//! That source code can be read from lifted modules.
use crate::ir::{InternedStr, Module};
use crate::spv::grammar::OP_SOURCE_CONTINUED;
use crate::spv::ids::IdMaps;
use crate::spv::laws::reading::{
    between_cuts, cut, hold_pieces, holds_piece, holds_text, language_pieces, languages_of,
    source_pieces, Numbering, ReadInst, SourcePiece,
};
use crate::spv::laws::seen::{all_seen, ids_numbered, lemma_text_seen, seen};
use crate::spv::literal::literal_string;
use crate::spv::needs::{file_paths, source_paths};
use crate::spv::sources::{
    after_initial_chunk, cont_chunks, cont_inst, file_insts, files_insts, initial_chunk,
    initial_inst, lang_insts, source_insts,
};
use crate::spv::write::operand_word;
use crate::spv::{DebugSourceLang, DebugSources, Operand};
use vstd::prelude::*;
use vstd::utf8::encode_utf8;

verus! {

/// The bytes of a file after a cut.
spec fn after_cut(text: Seq<u8>, k: int) -> Seq<u8> {
    if cut(k) <= text.len() {
        text.skip(cut(k))
    } else {
        seq![]
    }
}

/// Where the contents of a file are divided after the first chunk.
proof fn lemma_chunks(text: Seq<u8>, k: int)
    requires
        k >= 1,
        cut(k) <= text.len() || k == 1,
    ensures
        text.len() <= cut(k + cont_chunks(after_cut(text, k)).len()),
        cont_chunks(after_cut(text, k)).len() > 0 ==> cut(
            k + cont_chunks(after_cut(text, k)).len() - 1,
        ) < text.len(),
        forall|i: int|
            0 <= i < cont_chunks(after_cut(text, k)).len() ==> #[trigger] cont_chunks(
                after_cut(text, k),
            )[i] == between_cuts(text, k + i),
    decreases text.len() - cut(k),
{
    let rest = after_cut(text, k);
    let chunks = cont_chunks(rest);
    if rest.len() > 0 {
        if rest.len() <= 262135 {
            assert(cont_chunks(rest.skip(rest.len() as int)) =~= seq![]);
            assert(chunks =~= seq![rest.take(rest.len() as int)]);
            assert(chunks[0] =~= between_cuts(text, k));
        } else {
            lemma_chunks(text, k + 1);
            assert(rest.skip(262135) =~= after_cut(text, k + 1));
            let later = cont_chunks(after_cut(text, k + 1));
            assert(chunks =~= seq![rest.take(262135)] + later);
            assert(rest.take(262135) =~= between_cuts(text, k));
            assert forall|i: int| 0 <= i < chunks.len() implies #[trigger] chunks[i]
                == between_cuts(text, k + i) by {
                if i > 0 {
                    assert(chunks[i] == later[i - 1]);
                    assert(later[i - 1] == between_cuts(text, k + 1 + (i - 1)));
                }
            }
        }
    }
}

proof fn lemma_file_seen(
    lang: DebugSourceLang,
    path: InternedStr,
    contents: String,
    ids: IdMaps,
    n: Numbering,
)
    requires
        ids_numbered(ids, n),
        ids.debug_strings.contains_key(path),
    ensures
        holds_piece(
            all_seen(file_insts(lang, ids.debug_strings[path], encode_utf8(contents@))),
            (lang, Some((path, contents))),
            n,
        ),
{
    let text = encode_utf8(contents@);
    let file_id = ids.debug_strings[path];
    let insts = file_insts(lang, file_id, text);
    let group = all_seen(insts);
    let rest = after_initial_chunk(text);
    let chunks = cont_chunks(rest);
    let first = initial_inst(lang, file_id, text);
    let word = |o: Operand| operand_word(o);
    lemma_chunks(text, 1);
    assert(rest =~= after_cut(text, 1));
    assert(initial_chunk(text) =~= between_cuts(text, 0));
    lemma_text_seen(initial_chunk(text));
    assert(group[0] == seen(first));
    assert(group[0].args =~= first.operands.map_values(word));
    assert(group[0].args.skip(3) =~= literal_string(initial_chunk(text)).map_values(word));
    assert forall|k: int| 1 <= k < group.len() implies {
        &&& (#[trigger] group[k]).opcode == OP_SOURCE_CONTINUED
        &&& holds_text(group[k].args, between_cuts(text, k))
    } by {
        assert(insts[k] == cont_inst(chunks[k - 1]));
        assert(chunks[k - 1] == between_cuts(text, 1 + (k - 1)));
        lemma_text_seen(chunks[k - 1]);
        assert(group[k].args =~= literal_string(chunks[k - 1]).map_values(word));
    }
}

/// The files in a language, as pieces.
spec fn file_pieces(lang: DebugSourceLang, files: Seq<(InternedStr, String)>) -> Seq<SourcePiece> {
    files.map_values(|file: (InternedStr, String)| (lang, Some(file)))
}

proof fn lemma_files_seen(
    lang: DebugSourceLang,
    files: Seq<(InternedStr, String)>,
    ids: IdMaps,
    n: Numbering,
) -> (groups: Seq<Seq<ReadInst>>)
    requires
        ids_numbered(ids, n),
        file_paths(files).subset_of(ids.debug_strings.dom()),
    ensures
        hold_pieces(groups, file_pieces(lang, files), n),
        groups.flatten() == all_seen(files_insts(lang, files, ids)),
    decreases files.len(),
{
    if files.len() == 0 {
        let groups = Seq::<Seq<ReadInst>>::empty();
        assert(groups.flatten() =~= all_seen(files_insts(lang, files, ids)));
        groups
    } else {
        let rest = files.drop_last();
        let (path, contents) = files.last();
        assert forall|s: u32| file_paths(rest).contains(s) implies file_paths(files).contains(s) by {
            let i = choose|i: int| 0 <= i < rest.len() && (#[trigger] rest[i]).0 == s;
            assert(files[i].0 == s);
        }
        assert(files[files.len() - 1].0 == path);
        assert(file_paths(files).contains(path));
        assert(ids.debug_strings.contains_key(path));
        let before = lemma_files_seen(lang, rest, ids, n);
        lemma_file_seen(lang, path, contents, ids, n);
        let group = all_seen(file_insts(lang, ids.debug_strings[path], encode_utf8(contents@)));
        before.lemma_flatten_push(group);
        assert(file_pieces(lang, files) =~= file_pieces(lang, rest).push(
            (lang, Some((path, contents))),
        ));
        assert(all_seen(files_insts(lang, files, ids)) =~= all_seen(files_insts(lang, rest, ids))
            + group);
        before.push(group)
    }
}

proof fn lemma_lang_seen(
    lang: DebugSourceLang,
    sources: DebugSources,
    ids: IdMaps,
    n: Numbering,
) -> (groups: Seq<Seq<ReadInst>>)
    requires
        ids_numbered(ids, n),
        file_paths(sources.file_contents@).subset_of(ids.debug_strings.dom()),
    ensures
        hold_pieces(groups, language_pieces((lang, sources)), n),
        groups.flatten() == all_seen(lang_insts(lang, sources, ids)),
{
    if sources.file_contents@.len() == 0 {
        let group = all_seen(lang_insts(lang, sources, ids));
        let groups = seq![group];
        groups.lemma_flatten_one_element();
        assert(group[0].args =~= seq![lang.lang, lang.version]);
        groups
    } else {
        let groups = lemma_files_seen(lang, sources.file_contents@, ids, n);
        assert(language_pieces((lang, sources)) =~= file_pieces(lang, sources.file_contents@));
        groups
    }
}

proof fn lemma_languages_seen(
    languages: Seq<(DebugSourceLang, DebugSources)>,
    ids: IdMaps,
    n: Numbering,
) -> (groups: Seq<Seq<ReadInst>>)
    requires
        ids_numbered(ids, n),
        source_paths(languages).subset_of(ids.debug_strings.dom()),
    ensures
        hold_pieces(
            groups,
            languages.map_values(|l: (DebugSourceLang, DebugSources)| language_pieces(l)).flatten(),
            n,
        ),
        groups.flatten() == all_seen(source_insts(languages, ids)),
    decreases languages.len(),
{
    let f = |l: (DebugSourceLang, DebugSources)| language_pieces(l);
    if languages.len() == 0 {
        let groups = Seq::<Seq<ReadInst>>::empty();
        assert(groups.flatten() =~= all_seen(source_insts(languages, ids)));
        assert(languages.map_values(f).flatten() =~= seq![]);
        groups
    } else {
        let rest = languages.drop_last();
        let (lang, sources) = languages.last();
        assert forall|s: u32| source_paths(rest).contains(s) implies source_paths(
            languages,
        ).contains(s) by {
            let i = choose|i: int|
                0 <= i < rest.len() && file_paths(
                    (#[trigger] rest[i]).1.file_contents@,
                ).contains(s);
            assert(file_paths(languages[i].1.file_contents@).contains(s));
        }
        assert forall|s: u32| file_paths(sources.file_contents@).contains(s) implies source_paths(
            languages,
        ).contains(s) by {
            assert(file_paths(languages[languages.len() - 1].1.file_contents@).contains(s));
        }
        let before = lemma_languages_seen(rest, ids, n);
        let new = lemma_lang_seen(lang, sources, ids, n);
        vstd::seq_lib::lemma_flatten_concat(before, new);
        assert(languages.map_values(f) =~= rest.map_values(f).push(language_pieces((lang, sources))));
        rest.map_values(f).lemma_flatten_push(language_pieces((lang, sources)));
        assert(all_seen(source_insts(languages, ids)) =~= all_seen(source_insts(rest, ids))
            + all_seen(lang_insts(lang, sources, ids)));
        before + new
    }
}

/// The pieces of source code can be read from the instructions that hold them.
pub(crate) proof fn lemma_sources_seen(module: Module, n: Numbering) -> (groups: Seq<Seq<ReadInst>>)
    requires
        ids_numbered(module.new_ids(), n),
        source_paths(languages_of(module)).subset_of(module.new_ids().debug_strings.dom()),
    ensures
        hold_pieces(groups, source_pieces(module), n),
        groups.flatten() == all_seen(source_insts(languages_of(module), module.new_ids())),
{
    let f = |l: (DebugSourceLang, DebugSources)| language_pieces(l);
    let groups = lemma_languages_seen(languages_of(module), module.new_ids(), n);
    assert(source_pieces(module) =~= languages_of(module).map_values(f).flatten());
    groups
}

} // verus!
