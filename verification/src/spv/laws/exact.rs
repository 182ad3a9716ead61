//! That what a reader is said to find leaves nothing open.
use crate::ir::{Attr, InternedStr, Misc, Module};
use crate::order;
use crate::spv::laws::reading::{
    are_lines, attached, attrs_of, between_cuts, describes, each_interned, each_text, gives_line,
    goes_up, holds_piece, holds_text, imm_word, is_decoration, is_entry_point, is_execution_mode,
    is_first_line, is_input, is_name, is_own, line_in_force, numbers, own_insts, say_each, says,
    source_pieces, word_byte, Line, Numbering, Parts, ReadInst, SourcePiece,
};
use vstd::prelude::*;
use vstd::utf8::encode_utf8;

verus! {

/// There are no two numberings of what needs an ID.
pub proof fn law_one_numbering(module: Module, a: Numbering, b: Numbering)
    requires
        numbers(module, a),
        numbers(module, b),
    ensures
        a == b,
{
    lemma_same_list(a.imports, b.imports);
    lemma_same_list(a.strings, b.strings);
    lemma_same_list(a.outputs, b.outputs);
}

proof fn lemma_same_list(a: Seq<u32>, b: Seq<u32>)
    requires
        goes_up(a),
        goes_up(b),
        forall|x: u32| #[trigger] a.contains(x) <==> b.contains(x),
    ensures
        a == b,
{
    assert forall|x: u32| #[trigger] a.to_set().contains(x) <==> b.to_set().contains(x) by {
        assert(a.contains(x) <==> b.contains(x));
    }
    assert(a.to_set() =~= b.to_set());
    order::lemma_ascending_unique(a, b.to_set());
    order::lemma_ascending_unique(b, b.to_set());
}

/// What has a number has only one, and no other thing has the same.
pub proof fn law_numbers_tell_apart(n: Numbering, w: u32, v: u32, x: u32, y: u32)
    requires
        goes_up(n.imports),
        goes_up(n.strings),
        goes_up(n.outputs),
    ensures
        n.is_import(w, x) && n.is_import(v, y) ==> (w == v <==> x == y),
        n.is_string(w, x) && n.is_string(v, y) ==> (w == v <==> x == y),
        n.is_output(w, x) && n.is_output(v, y) ==> (w == v <==> x == y),
        n.is_import(w, x) && n.is_string(v, y) ==> w < v,
        n.is_string(w, x) && n.is_output(v, y) ==> w < v,
        n.is_import(w, x) && n.is_output(v, y) ==> w < v,
{
}

proof fn lemma_same_text(a: Seq<u32>, b: Seq<u32>, text: Seq<u8>)
    requires
        holds_text(a, text),
        holds_text(b, text),
    ensures
        a == b,
{
    assert forall|i: int| 0 <= i < a.len() implies a[i] == b[i] by {
        lemma_same_word(a[i], b[i]);
        assert(word_byte(a[i], 0) == word_byte(b[i], 0));
        assert(word_byte(a[i], 1) == word_byte(b[i], 1));
        assert(word_byte(a[i], 2) == word_byte(b[i], 2));
        assert(word_byte(a[i], 3) == word_byte(b[i], 3));
    }
    assert(a =~= b);
}

proof fn lemma_same_word(a: u32, b: u32)
    ensures
        word_byte(a, 0) == word_byte(b, 0) && word_byte(a, 1) == word_byte(b, 1) && word_byte(a, 2)
            == word_byte(b, 2) && word_byte(a, 3) == word_byte(b, 3) ==> a == b,
{
}

proof fn lemma_same_texts(opcode: int, texts: Seq<String>, a: Seq<ReadInst>, b: Seq<ReadInst>)
    requires
        each_text(a, opcode, texts),
        each_text(b, opcode, texts),
    ensures
        a == b,
{
    assert forall|i: int| 0 <= i < a.len() implies a[i] == b[i] by {
        lemma_same_text(a[i].args, b[i].args, encode_utf8(texts[i]@));
    }
    assert(a =~= b);
}

proof fn lemma_same_interned(
    opcode: int,
    names: Seq<InternedStr>,
    first: nat,
    strings: Seq<String>,
    a: Seq<ReadInst>,
    b: Seq<ReadInst>,
)
    requires
        each_interned(a, opcode, names, first, strings),
        each_interned(b, opcode, names, first, strings),
    ensures
        a == b,
{
    assert forall|i: int| 0 <= i < a.len() implies a[i] == b[i] by {
        let text = encode_utf8(strings[names[i] as int]@);
        lemma_same_text(a[i].args.skip(1), b[i].args.skip(1), text);
        lemma_same_after(a[i].args, b[i].args, 1);
    }
    assert(a =~= b);
}

/// Lists that are the same up to a point and after it.
proof fn lemma_same_after(a: Seq<u32>, b: Seq<u32>, n: int)
    requires
        0 <= n <= a.len(),
        n <= b.len(),
        a.skip(n) == b.skip(n),
        forall|i: int| 0 <= i < n ==> a[i] == b[i],
    ensures
        a == b,
{
    assert(a.len() == n + a.skip(n).len());
    assert(b.len() == n + b.skip(n).len());
    assert forall|i: int| 0 <= i < a.len() implies a[i] == b[i] by {
        if i >= n {
            assert(a[i] == a.skip(n)[i - n]);
            assert(b[i] == b.skip(n)[i - n]);
        }
    }
    assert(a =~= b);
}

proof fn lemma_same_saying(a: ReadInst, b: ReadInst, misc: Misc, attr: Attr, n: Numbering)
    requires
        goes_up(n.outputs),
        says(a, misc, attr, n),
        says(b, misc, attr, n),
    ensures
        a == b,
{
    assert forall|i: int| 0 <= i < a.args.len() implies a.args[i] == b.args[i] by {
        match attr {
            Attr::SpvEntryPoint { params, interface_ids } => {
                if 2 <= i <= params@.len() {
                    assert(a.args[1 + (i - 1)] == imm_word(params@[i - 1]));
                } else if i > params@.len() {
                    let k = i - 1 - params@.len();
                    let id = interface_ids@[k];
                    assert(n.is_output(a.args[1 + params@.len() + k], id));
                    assert(n.is_output(b.args[1 + params@.len() + k], id));
                }
            },
            Attr::SpvAnnotation { opcode, params } => {
                if i > 0 {
                    assert(a.args[1 + (i - 1)] == imm_word(params@[i - 1]));
                }
            },
            Attr::SpvDebugLine { .. } => {},
        }
    }
    assert(a.args =~= b.args);
}

proof fn lemma_same_section(
    list: Seq<(Misc, Attr)>,
    n: Numbering,
    a: Seq<ReadInst>,
    b: Seq<ReadInst>,
)
    requires
        goes_up(n.outputs),
        say_each(a, list, n),
        say_each(b, list, n),
    ensures
        a == b,
{
    assert forall|i: int| 0 <= i < a.len() implies a[i] == b[i] by {
        lemma_same_saying(a[i], b[i], list[i].0, list[i].1, n);
    }
    assert(a =~= b);
}

proof fn lemma_same_piece(piece: SourcePiece, n: Numbering, a: Seq<ReadInst>, b: Seq<ReadInst>)
    requires
        goes_up(n.strings),
        holds_piece(a, piece, n),
        holds_piece(b, piece, n),
    ensures
        a == b,
{
    match piece.1 {
        None => {
            assert(a[0].args =~= b[0].args);
        },
        Some((path, contents)) => {
            let text = encode_utf8(contents@);
            assert(a.len() == b.len());
            lemma_same_text(a[0].args.skip(3), b[0].args.skip(3), between_cuts(text, 0));
            lemma_same_after(a[0].args, b[0].args, 3);
            assert forall|k: int| 1 <= k < a.len() implies a[k] == b[k] by {
                lemma_same_text(a[k].args, b[k].args, between_cuts(text, k));
            }
        },
    }
    assert(a =~= b);
}

proof fn lemma_same_own(a: ReadInst, b: ReadInst, misc: Misc, n: Numbering)
    requires
        goes_up(n.imports),
        goes_up(n.outputs),
        is_own(a, misc, n),
        is_own(b, misc, n),
    ensures
        a == b,
{
    let ids = a.args.len() - misc.inputs@.len();
    assert forall|i: int| 0 <= i < a.args.len() implies a.args[i] == b.args[i] by {
        if i >= ids {
            let input = misc.inputs@[i - ids];
            assert(is_input(a.args[ids + (i - ids)], input, n));
            assert(is_input(b.args[ids + (i - ids)], input, n));
        }
    }
    assert(a.args =~= b.args);
}

proof fn lemma_same_line(a: Seq<Attr>, x: Option<Line>, y: Option<Line>)
    requires
        is_first_line(a, x),
        is_first_line(a, y),
    ensures
        x == y,
{
    if let Some((f, l, c)) = x {
        let i = choose|i: int|
            {
                &&& 0 <= i < a.len()
                &&& #[trigger] a[i] == (Attr::SpvDebugLine { file_path: f, line: l, col: c })
                &&& forall|k: int| 0 <= k < i ==> !(#[trigger] a[k] is SpvDebugLine)
            };
        assert(a[i] is SpvDebugLine);
        assert(y is Some);
    }
    if let Some((f, l, c)) = y {
        let i = choose|i: int|
            {
                &&& 0 <= i < a.len()
                &&& #[trigger] a[i] == (Attr::SpvDebugLine { file_path: f, line: l, col: c })
                &&& forall|k: int| 0 <= k < i ==> !(#[trigger] a[k] is SpvDebugLine)
            };
        assert(a[i] is SpvDebugLine);
        assert(x is Some);
    }
}

/// The instructions that a reader finds in a lifted module are determined by the module: no two
/// lists of instructions meet the description.
pub proof fn law_one_reading(
    module: Module,
    n: Numbering,
    m: Numbering,
    lines: Seq<Option<Line>>,
    others: Seq<Option<Line>>,
    a: Parts,
    b: Parts,
)
    requires
        numbers(module, n),
        numbers(module, m),
        are_lines(module, lines),
        are_lines(module, others),
        describes(module, n, lines, a),
        describes(module, m, others, b),
    ensures
        a.all() == b.all(),
{
    let dialect = module.dialect->Spv_0;
    let debug_info = module.debug_info->Spv_0;
    let strings = module.cx.strings@;
    let all = attached(module);
    let miscs = own_insts(module);
    law_one_numbering(module, n, m);
    assert forall|i: int| 0 <= i < lines.len() implies lines[i] == others[i] by {
        lemma_same_line(attrs_of(module, miscs[i]), lines[i], others[i]);
    }
    assert(lines =~= others);
    assert(a.capabilities =~= b.capabilities);
    lemma_same_texts(10, dialect.extensions@, a.extensions, b.extensions);
    lemma_same_interned(11, n.imports, 1, strings, a.imports, b.imports);
    lemma_same_section(
        all.filter(|a: (Misc, Attr)| is_entry_point(a.1)),
        n,
        a.entry_points,
        b.entry_points,
    );
    lemma_same_section(
        all.filter(|a: (Misc, Attr)| is_execution_mode(a.1)),
        n,
        a.execution_modes,
        b.execution_modes,
    );
    lemma_same_interned(7, n.strings, 1 + n.imports.len(), strings, a.strings, b.strings);
    assert forall|i: int| 0 <= i < a.sources.len() implies a.sources[i] == b.sources[i] by {
        lemma_same_piece(source_pieces(module)[i], n, a.sources[i], b.sources[i]);
    }
    assert(a.sources =~= b.sources);
    lemma_same_texts(
        4,
        debug_info.source_extensions@,
        a.source_extensions,
        b.source_extensions,
    );
    lemma_same_section(all.filter(|a: (Misc, Attr)| is_name(a.1)), n, a.names, b.names);
    lemma_same_texts(330, debug_info.module_processes@, a.processes, b.processes);
    lemma_same_section(
        all.filter(|a: (Misc, Attr)| is_decoration(a.1)),
        n,
        a.decorations,
        b.decorations,
    );
    assert forall|i: int| 0 <= i < a.body.len() implies a.body[i] == b.body[i] by {
        let g = a.body[i];
        let h = b.body[i];
        lemma_same_own(g.last(), h.last(), miscs[i], n);
        if lines[i] == line_in_force(miscs, lines, i) {
            assert(g =~= h);
        } else {
            assert(gives_line(g[0], lines[i], n) && gives_line(h[0], lines[i], n));
            assert(g[0].args =~= h[0].args);
            assert(g =~= h);
        }
    }
    assert(a.body =~= b.body);
}

} // verus!
