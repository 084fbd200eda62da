//! The library's global guarantees, stated and proved once: width bound,
//! content preservation, decoration fidelity, and suffix column alignment.

use vstd::prelude::*;

use crate::analysis::{BlockModel, block_of_group, blocks_of_groups, collect_blocks_s, groups_of,
    glue_first, lemma_split_ws_first, run_len_by, lemma_run_len_by, rest_words,
    lemma_rest_words_push, trimmed_lines};
use crate::optimize::{offsets_of, valid_path, is_edge, fits, line_cells, lemma_offsets_of};
use crate::reformat::{padded_line, section_lines_for_path, tmax_of, lemma_join_words_cells,
    lemma_path_nodes, lemma_path_increasing};
use crate::text::{text_cells, sum_lens, join_words, leading_ws, lemma_leading_ws_is, line_blank,
    split_ws, is_ws, sp_seq, char_cells, lemma_text_cells_add};

verus! {

/// The width of `n` spaces is `n` cells.
pub proof fn lemma_sp_cells(n: nat)
    ensures
        text_cells(sp_seq(n)) == n,
    decreases n,
{
    if n > 0 {
        lemma_sp_cells((n - 1) as nat);
        assert(sp_seq(n).drop_first() =~= sp_seq((n - 1) as nat));
        assert(sp_seq(n)[0] == ' ');
        assert(char_cells(' ') == 1);
    }
}

/// Width bound: every content line of a reformatted block either fits the
/// block's target width, so that its width beyond the decoration stays
/// within `tmax_of`, or it is a bail-out line made of one single word that
/// no break assignment could fit.
pub proof fn lemma_width_bound(
    b: BlockModel,
    max_length: int,
    last_line: bool,
    fit: bool,
    lines: Seq<Seq<char>>,
    t: int,
    p: Seq<usize>,
    k: int,
)
    requires
        section_lines_for_path(b, max_length, last_line, fit, lines, t, p),
        sum_lens(b.words) <= usize::MAX,
        b.words.len() <= usize::MAX,
        0 <= k < p.len() - 1,
    ensures
        text_cells(lines[k]) - text_cells(b.prefix) <= tmax_of(max_length, b) || p[k + 1] == p[k]
            + 1,
{
    let offs = offsets_of(b.words);
    lemma_offsets_of(b.words);
    assert(is_edge(offs, t as u128, true, p[k] as int, p[k + 1] as int));
    if fits(offs, t as u128, p[k] as int, p[k + 1] as int) {
        lemma_path_nodes(offs, t as u128, true, p, k + 1);
        lemma_join_words_cells(b.words, p[k] as int, p[k + 1] as int);
        let content = join_words(b.words.subrange(p[k] as int, p[k + 1] as int));
        lemma_text_cells_add(b.prefix, content);
        assert(lines[k] == b.prefix + content);
        assert(text_cells(content) == line_cells(offs, p[k] as int, p[k + 1] as int));
        assert(text_cells(content) <= t);
    }
}

/// Decoration fidelity: every content line of a block starts with the
/// block's prefix, and every padded line of a suffix-bearing block ends
/// with the block's suffix.
pub proof fn lemma_decoration(
    b: BlockModel,
    max_length: int,
    last_line: bool,
    fit: bool,
    lines: Seq<Seq<char>>,
    t: int,
    p: Seq<usize>,
    pad_col: int,
    k: int,
)
    requires
        section_lines_for_path(b, max_length, last_line, fit, lines, t, p),
        0 <= k < lines.len(),
    ensures
        k < p.len() - 1 ==> lines[k].len() >= b.prefix.len() && lines[k].take(
            b.prefix.len() as int,
        ) == b.prefix,
        b.suffix.len() > 0 ==> padded_line(lines[k], b, pad_col).len() >= b.suffix.len()
            && padded_line(lines[k], b, pad_col).skip(
            padded_line(lines[k], b, pad_col).len() - b.suffix.len(),
        ) == b.suffix,
{
    if k < p.len() - 1 {
        let content = join_words(b.words.subrange(p[k] as int, p[k + 1] as int));
        assert(lines[k] == b.prefix + content);
        assert((b.prefix + content).take(b.prefix.len() as int) =~= b.prefix);
    }
    if b.suffix.len() > 0 {
        let pl = padded_line(lines[k], b, pad_col);
        let pad = pad_col + text_cells(b.prefix) - text_cells(lines[k]);
        let padn: int = if pad < 0 {
            0
        } else if pad > usize::MAX as int {
            usize::MAX as int
        } else {
            pad
        };
        assert(pl == lines[k] + sp_seq(padn as nat) + b.suffix);
        assert(pl.skip(pl.len() - b.suffix.len()) =~= b.suffix);
    }
}

/// Suffix column alignment: every padded line whose content width does not
/// exceed the common column places its suffix exactly at display column
/// `pad_col` past the prefix width, so within one call all lines of blocks
/// sharing the decoration align.
pub proof fn lemma_suffix_alignment(b: BlockModel, l: Seq<char>, pad_col: int)
    requires
        b.suffix.len() > 0,
        text_cells(l) - text_cells(b.prefix) <= pad_col,
        pad_col + text_cells(b.prefix) - text_cells(l) <= usize::MAX,
    ensures
        text_cells(padded_line(l, b, pad_col)) - text_cells(b.suffix) == pad_col + text_cells(
            b.prefix,
        ),
{
    let pad = pad_col + text_cells(b.prefix) - text_cells(l);
    assert(0 <= pad <= usize::MAX);
    let pl = padded_line(l, b, pad_col);
    assert(pl == l + sp_seq(pad as nat) + b.suffix);
    lemma_text_cells_add(l + sp_seq(pad as nat), b.suffix);
    lemma_text_cells_add(l, sp_seq(pad as nat));
    lemma_sp_cells(pad as nat);
}

/// The segments of a break path, concatenated in order.
pub open spec fn segments_concat(ws: Seq<Seq<char>>, p: Seq<usize>) -> Seq<Seq<char>>
    decreases p.len(),
{
    if p.len() <= 1 {
        Seq::empty()
    } else {
        ws.subrange(p[0] as int, p[1] as int) + segments_concat(ws, p.drop_first())
    }
}

proof fn lemma_segments_concat_chain(ws: Seq<Seq<char>>, p: Seq<usize>)
    requires
        p.len() >= 1,
        forall|k: int| 0 <= k < p.len() - 1 ==> (#[trigger] p[k] as int) < p[k + 1] as int,
        forall|k: int| 0 <= k < p.len() ==> #[trigger] p[k] as int <= ws.len(),
    ensures
        segments_concat(ws, p) == ws.subrange(p[0] as int, p[p.len() - 1] as int),
        p[0] as int <= p[p.len() - 1] as int,
    decreases p.len(),
{
    if p.len() == 1 {
        assert(ws.subrange(p[0] as int, p[0] as int) =~= Seq::<Seq<char>>::empty());
    } else {
        let q = p.drop_first();
        assert(forall|k: int| 0 <= k < q.len() ==> #[trigger] q[k] == p[k + 1]);
        lemma_segments_concat_chain(ws, q);
        assert(q[0] == p[1] && q[q.len() - 1] == p[p.len() - 1]);
        assert((p[0] as int) < (p[1] as int));
        assert((p[1] as int) <= (p[p.len() - 1] as int));
        assert((p[p.len() - 1] as int) <= ws.len());
        assert(segments_concat(ws, p) == ws.subrange(p[0] as int, p[1] as int)
            + segments_concat(ws, q));
        assert(ws.subrange(p[0] as int, p[1] as int) + ws.subrange(
            p[1] as int,
            p[p.len() - 1] as int,
        ) =~= ws.subrange(p[0] as int, p[p.len() - 1] as int));
    }
}

/// Content preservation, emission half: the words of a block, split along
/// any valid break path, are exactly the block's words in order — every
/// word appears on exactly one line.
pub proof fn lemma_segments_cover(ws: Seq<Seq<char>>, target: u128, p: Seq<usize>)
    requires
        valid_path(offsets_of(ws), target, true, p),
    ensures
        segments_concat(ws, p) == ws,
{
    let offs = offsets_of(ws);
    assert forall|k: int| 0 <= k < p.len() - 1 implies (#[trigger] p[k] as int) < p[k
        + 1] as int by {
        lemma_path_increasing(offs, target, true, p, k, k + 1);
    }
    assert forall|k: int| 0 <= k < p.len() implies #[trigger] p[k] as int <= ws.len() by {
        lemma_path_nodes(offs, target, true, p, k);
    }
    lemma_segments_concat_chain(ws, p);
    assert(ws.subrange(p[0] as int, p[p.len() - 1] as int) =~= ws);
}

/// Every block collected under one decoration carries that decoration.
pub proof fn lemma_collect_decoration(lines: Seq<Seq<char>>, p: Seq<char>, s: Seq<char>)
    ensures
        forall|i: int|
            0 <= i < collect_blocks_s(lines, p, s).len() ==> (#[trigger] collect_blocks_s(
                lines,
                p,
                s,
            )[i]).prefix == p && collect_blocks_s(lines, p, s)[i].suffix == s,
{
    let gs = groups_of(trimmed_lines(lines, p.len(), s.len()));
    assert forall|i: int|
        0 <= i < collect_blocks_s(lines, p, s).len() implies (#[trigger] collect_blocks_s(
        lines,
        p,
        s,
    )[i]).prefix == p && collect_blocks_s(lines, p, s)[i].suffix == s by {
        assert(collect_blocks_s(lines, p, s)[i] == block_of_group(gs[i], p, s));
    }
}

/// Quote analysis never produces a suffix.
pub proof fn lemma_quote_blocks_no_suffix(lines: Seq<Seq<char>>, first: bool)
    ensures
        forall|i: int|
            0 <= i < crate::analysis::quote_blocks(lines, first).len() ==> (
            #[trigger] crate::analysis::quote_blocks(lines, first)[i]).suffix
                == Seq::<char>::empty(),
    decreases lines.len(),
{
    if lines.len() > 0 {
        let lv = crate::analysis::quote_level(lines[0]);
        crate::analysis::lemma_level_run(lines, lv);
        let k = crate::analysis::level_run(lines, lv) as int;
        let pfx: Seq<char> = if first && lv == 0 {
            Seq::empty()
        } else {
            crate::analysis::quote_sig(lines[0])
        };
        let head = collect_blocks_s(lines.take(k), pfx, Seq::empty());
        let tail = crate::analysis::quote_blocks(lines.skip(k), false);
        lemma_collect_decoration(lines.take(k), pfx, Seq::empty());
        lemma_quote_blocks_no_suffix(lines.skip(k), false);
        assert forall|i: int|
            0 <= i < (head + tail).len() implies (#[trigger] (head + tail)[i]).suffix
            == Seq::<char>::empty() by {
            if i < head.len() {
                assert((head + tail)[i] == head[i]);
            } else {
                assert((head + tail)[i] == tail[i - head.len()]);
            }
        }
    }
}

/// Whatever the strategy, all blocks of one analysis that carry a non-empty
/// suffix share one prefix and one suffix, so their padded lines align.
pub proof fn lemma_analysis_common_decoration(
    mode: crate::analysis::FormatMode,
    lines: Seq<Seq<char>>,
)
    ensures
        forall|i: int, j: int|
            #![trigger crate::analysis::analyze_s(mode, lines)[i], crate::analysis::analyze_s(mode, lines)[j]]
            0 <= i < crate::analysis::analyze_s(mode, lines).len() && 0 <= j
                < crate::analysis::analyze_s(mode, lines).len() && crate::analysis::analyze_s(
                mode,
                lines,
            )[i].suffix.len() > 0 ==> crate::analysis::analyze_s(mode, lines)[i].prefix
                == crate::analysis::analyze_s(mode, lines)[j].prefix && crate::analysis::analyze_s(
                mode,
                lines,
            )[i].suffix == crate::analysis::analyze_s(mode, lines)[j].suffix,
{
    let bs = crate::analysis::analyze_s(mode, lines);
    if mode is Code && crate::analysis::analyze_code_comments_s(lines) is Some {
        let f = lines[0];
        let st = crate::analysis::ascii_ws_run(f);
        let m = crate::analysis::style_len(f.skip(st as int));
        let pat = f.take((st + m + 1) as int);
        lemma_collect_decoration(lines, pat, Seq::empty());
    } else if crate::analysis::analyze_quotes_s(lines) is Some {
        lemma_quote_blocks_no_suffix(lines, true);
    } else {
        let p0 = crate::analysis::common_prefix(lines);
        let s0 = crate::analysis::common_suffix(lines);
        if p0 == s0 && p0.len() > 0 {
            lemma_collect_decoration(lines, Seq::empty(), Seq::empty());
        } else {
            lemma_collect_decoration(lines, p0, s0);
        }
    }
}

/// A blank line has no words.
pub proof fn lemma_split_ws_blank(l: Seq<char>)
    requires
        line_blank(l),
    ensures
        split_ws(l) == Seq::<Seq<char>>::empty(),
    decreases l.len(),
{
    if l.len() > 0 {
        assert(is_ws(l[0]));
        assert(forall|i: int| 0 <= i < l.drop_first().len() ==> l.drop_first()[i] == l[i + 1]);
        lemma_split_ws_blank(l.drop_first());
    }
}

/// The words of consecutive line groups concatenate.
pub proof fn lemma_rest_words_add(a: Seq<Seq<char>>, b: Seq<Seq<char>>)
    ensures
        rest_words(a + b) == rest_words(a) + rest_words(b),
    decreases b.len(),
{
    if b.len() == 0 {
        assert(a + b =~= a);
        assert(rest_words(a) + rest_words(b) =~= rest_words(a));
    } else {
        lemma_rest_words_add(a, b.drop_last());
        lemma_rest_words_push(a + b.drop_last(), b.last());
        assert((a + b.drop_last()).push(b.last()) =~= a + b);
        lemma_rest_words_push(b.drop_last(), b.last());
        assert(b.drop_last().push(b.last()) =~= b);
        assert(rest_words(a) + (rest_words(b.drop_last()) + split_ws(b.last())) =~= (rest_words(a)
            + rest_words(b.drop_last())) + split_ws(b.last()));
    }
}

proof fn lemma_rest_words_all_blank(g: Seq<Seq<char>>)
    requires
        forall|i: int| 0 <= i < g.len() ==> line_blank(#[trigger] g[i]),
    ensures
        rest_words(g) == Seq::<Seq<char>>::empty(),
    decreases g.len(),
{
    if g.len() > 0 {
        lemma_split_ws_blank(g[0]);
        assert(forall|i: int| 0 <= i < g.drop_first().len() ==> g.drop_first()[i] == g[i + 1]);
        lemma_rest_words_all_blank(g.drop_first());
        assert(rest_words(g) =~= Seq::<Seq<char>>::empty());
    }
}

/// The words of a block with the glued indentation stripped back off the
/// first word.
pub open spec fn core_words(b: BlockModel) -> Seq<Seq<char>> {
    if b.words.len() == 0 {
        b.words
    } else {
        b.words.update(0, b.words[0].skip(leading_ws(b.words[0]) as int))
    }
}

/// The core words of a list of blocks, in order.
pub open spec fn flatten_core(bs: Seq<BlockModel>) -> Seq<Seq<char>>
    decreases bs.len(),
{
    if bs.len() == 0 {
        Seq::empty()
    } else {
        core_words(bs[0]) + flatten_core(bs.drop_first())
    }
}

/// One group's block carries exactly the group's words: ungluing the
/// indentation from the first word recovers the plain word stream.
proof fn lemma_core_of_group(g: Seq<Seq<char>>, p: Seq<char>, s: Seq<char>)
    requires
        g.len() > 0,
        forall|i: int| 0 <= i < g.len() ==> line_blank(#[trigger] g[i]) == line_blank(g[0]),
    ensures
        core_words(block_of_group(g, p, s)) == rest_words(g),
{
    let b = block_of_group(g, p, s);
    if line_blank(g[0]) {
        lemma_rest_words_all_blank(g);
        assert(core_words(b) =~= Seq::<Seq<char>>::empty());
    } else {
        let g0 = g[0];
        let sp = split_ws(g0);
        lemma_split_ws_first(g0);
        let ind = leading_ws(g0) as int;
        let w0 = sp[0];
        let gl = glue_first(g0);
        crate::text::lemma_leading_ws(g0);
        // the line is not blank, so the leading whitespace ends before it does
        assert(ind < g0.len()) by {
            if ind == g0.len() {
                assert(forall|i: int| 0 <= i < g0.len() ==> is_ws(g0[i]));
            }
        }
        assert(gl == g0.take(ind + w0.len() as int));
        // the glued word starts with the indentation and continues with the
        // first word itself
        assert(forall|i: int| 0 <= i < ind ==> gl[i] == g0[i] && is_ws(gl[i]));
        assert(gl[ind] == g0[ind]);
        assert(!is_ws(gl[ind]));
        lemma_leading_ws_is(gl, ind);
        assert(gl.skip(ind) =~= g0.subrange(ind, ind + w0.len() as int));
        assert(gl.skip(ind) == w0);
        assert(b.words == sp.update(0, gl) + rest_words(g.drop_first()));
        assert(b.words[0] == gl);
        assert(core_words(b) == b.words.update(0, w0));
        assert(b.words.update(0, w0) =~= sp + rest_words(g.drop_first()));
        assert(rest_words(g) == split_ws(g[0]) + rest_words(g.drop_first()));
    }
}

proof fn lemma_content_groups(ls: Seq<Seq<char>>, p: Seq<char>, s: Seq<char>)
    ensures
        flatten_core(blocks_of_groups(groups_of(ls), p, s)) == rest_words(ls),
    decreases ls.len(),
{
    if ls.len() == 0 {
        assert(blocks_of_groups(groups_of(ls), p, s) =~= Seq::<BlockModel>::empty());
        assert(rest_words(ls) =~= Seq::<Seq<char>>::empty());
    } else {
        let bl = line_blank(ls[0]);
        lemma_run_len_by(ls, bl);
        let k = run_len_by(ls, bl) as int;
        let g = ls.take(k);
        assert(groups_of(ls) == seq![g] + groups_of(ls.skip(k)));
        assert(blocks_of_groups(seq![g] + groups_of(ls.skip(k)), p, s) =~= seq![
            block_of_group(g, p, s),
        ] + blocks_of_groups(groups_of(ls.skip(k)), p, s));
        let rest_bs = blocks_of_groups(groups_of(ls.skip(k)), p, s);
        assert((seq![block_of_group(g, p, s)] + rest_bs).drop_first() =~= rest_bs);
        assert(flatten_core(seq![block_of_group(g, p, s)] + rest_bs) == core_words(
            block_of_group(g, p, s),
        ) + flatten_core(rest_bs));
        assert(g[0] == ls[0]);
        assert(forall|i: int| 0 <= i < g.len() ==> line_blank(#[trigger] g[i]) == line_blank(g[0]));
        lemma_core_of_group(g, p, s);
        lemma_content_groups(ls.skip(k), p, s);
        lemma_rest_words_add(g, ls.skip(k));
        assert(g + ls.skip(k) =~= ls);
    }
}

/// Content preservation, analysis half: the core words of all collected
/// blocks, in order, are exactly the whitespace-separated words of the
/// trimmed input lines — nothing is lost, added, or reordered.
pub proof fn lemma_content_preserved(lines: Seq<Seq<char>>, p: Seq<char>, s: Seq<char>)
    ensures
        flatten_core(collect_blocks_s(lines, p, s)) == rest_words(
            trimmed_lines(lines, p.len(), s.len()),
        ),
{
    lemma_content_groups(trimmed_lines(lines, p.len(), s.len()), p, s);
}

} // verus!
