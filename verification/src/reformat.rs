//! The reformatter: drive the optimizer across an adaptive range of target
//! widths for every analyzed block, emit decorated lines, and compose the
//! final text with box suffixes aligned to a common column.

use vstd::prelude::*;

use pulldown_cmark::{Event, Options, Parser, Tag};

use crate::analysis::{Block, BlockModel, Input, analyze_s, blocks_view};
use crate::text::{
    sp_seq, text_cells, lines_of, join_words, join_lines, trim_end_s, sum_lens, lemma_vec_char_deep_view,
    lemma_lines_deep_len, lemma_lines_deep_index, lemma_text_cells_add, lemma_join_with_push,
    width_of, trim_end_vec, push_all, subvec, join_lines_string, spaces,
};
use crate::optimize::{
    offsets_of, valid_path, path_cost, is_edge, fits, line_cells, edge_cost, word_cells_prefix,
    solve, lemma_offsets_of, monotone,
};

pub use crate::analysis::FormatMode;

verus! {

/// The configuration of one reformatting call.
pub struct FormatOpts {
    /// The outermost target width in display cells.
    pub max_length: usize,
    /// Cells per tab for tab expansion.
    pub tab_width: usize,
    /// When false, the final line of a paragraph incurs no raggedness cost.
    pub last_line: bool,
    /// Enable adaptive target narrowing.
    pub reduce_jaggedness: bool,
    /// Which analysis strategy is attempted first.
    pub format_mode: FormatMode,
}

impl core::default::Default for FormatOpts {
    /// Width 72, tab width 4, free last line, no narrowing, plain text.
    fn default() -> (r: Self)
        ensures
            r.max_length == 72,
            r.tab_width == 4,
            !r.last_line,
            !r.reduce_jaggedness,
            r.format_mode is PlainText,
    {
        FormatOpts {
            max_length: 72,
            tab_width: 4,
            last_line: false,
            reduce_jaggedness: false,
            format_mode: FormatMode::PlainText,
        }
    }
}

impl FormatOpts {
    /// The default options with another target width.
    pub fn with_max_length(max_length: usize) -> (r: Self)
        ensures
            r.max_length == max_length,
            r.tab_width == 4,
            !r.last_line,
            !r.reduce_jaggedness,
            r.format_mode is PlainText,
    {
        FormatOpts {
            max_length,
            tab_width: 4,
            last_line: false,
            reduce_jaggedness: false,
            format_mode: FormatMode::PlainText,
        }
    }

    /// Options with every field supplied.
    pub fn new(
        max_length: usize,
        last_line: bool,
        reduce_jaggedness: bool,
        format_mode: FormatMode,
        tab_width: usize,
    ) -> (r: Self)
        ensures
            r.max_length == max_length,
            r.tab_width == tab_width,
            r.last_line == last_line,
            r.reduce_jaggedness == reduce_jaggedness,
            r.format_mode == format_mode,
    {
        FormatOpts { max_length, tab_width, last_line, reduce_jaggedness, format_mode }
    }
}

/// The text with every tab replaced by `tw` spaces.
pub open spec fn expand_tabs_s(s: Seq<char>, tw: nat) -> Seq<char>
    decreases s.len(),
{
    if s.len() == 0 {
        Seq::empty()
    } else if s[0] == '\t' {
        sp_seq(tw) + expand_tabs_s(s.drop_first(), tw)
    } else {
        seq![s[0]] + expand_tabs_s(s.drop_first(), tw)
    }
}

/// Tab expansion replaces every tab before analysis: no tab survives it.
pub proof fn lemma_expand_tabs_no_tabs(s: Seq<char>, tw: nat)
    ensures
        forall|k: int| 0 <= k < expand_tabs_s(s, tw).len() ==> expand_tabs_s(s, tw)[k] != '\t',
    decreases s.len(),
{
    if s.len() > 0 {
        lemma_expand_tabs_no_tabs(s.drop_first(), tw);
        let head: Seq<char> = if s[0] == '\t' {
            sp_seq(tw)
        } else {
            seq![s[0]]
        };
        assert forall|k: int|
            0 <= k < expand_tabs_s(s, tw).len() implies expand_tabs_s(s, tw)[k] != '\t' by {
            if k < head.len() {
                assert(expand_tabs_s(s, tw)[k] == head[k]);
            } else {
                assert(expand_tabs_s(s, tw)[k] == expand_tabs_s(s.drop_first(), tw)[k
                    - head.len()]);
            }
        }
    }
}

proof fn lemma_expand_tabs_push(s: Seq<char>, c: char, tw: nat)
    ensures
        expand_tabs_s(s.push(c), tw) == expand_tabs_s(s, tw) + (if c == '\t' {
            sp_seq(tw)
        } else {
            seq![c]
        }),
    decreases s.len(),
{
    let tail: Seq<char> = if c == '\t' {
        sp_seq(tw)
    } else {
        seq![c]
    };
    assert(s.push(c).len() == s.len() + 1);
    if s.len() == 0 {
        assert(s.push(c).drop_first() =~= Seq::<char>::empty());
        assert(s.push(c)[0] == c);
        assert(expand_tabs_s(Seq::<char>::empty(), tw) == Seq::<char>::empty());
        assert(tail + Seq::<char>::empty() =~= tail);
        assert(expand_tabs_s(s, tw) + tail =~= tail);
    } else {
        assert(s.push(c).drop_first() =~= s.drop_first().push(c));
        lemma_expand_tabs_push(s.drop_first(), c, tw);
        assert(s.push(c)[0] == s[0]);
        let head: Seq<char> = if s[0] == '\t' {
            sp_seq(tw)
        } else {
            seq![s[0]]
        };
        assert(expand_tabs_s(s.push(c), tw) == head + (expand_tabs_s(s.drop_first(), tw) + tail));
        assert(expand_tabs_s(s, tw) == head + expand_tabs_s(s.drop_first(), tw));
        assert(head + (expand_tabs_s(s.drop_first(), tw) + tail) =~= (head + expand_tabs_s(
            s.drop_first(),
            tw,
        )) + tail);
    }
}

/// Replace every tab by `tw` spaces.
pub fn expand_tabs(s: &Vec<char>, tw: usize) -> (r: Vec<char>)
    ensures
        r@ == expand_tabs_s(s@, tw as nat),
{
    let mut r: Vec<char> = Vec::new();
    let mut i: usize = 0;
    proof {
        assert(r@ =~= expand_tabs_s(s@.take(0), tw as nat));
        assert(s@.take(0) =~= Seq::<char>::empty());
    }
    while i < s.len()
        invariant
            i <= s@.len(),
            r@ == expand_tabs_s(s@.take(i as int), tw as nat),
        decreases s@.len() - i,
    {
        proof {
            lemma_expand_tabs_push(s@.take(i as int), s@[i as int], tw as nat);
            assert(s@.take(i as int).push(s@[i as int]) =~= s@.take(i + 1));
        }
        if s[i] == '\t' {
            let sp = spaces(tw);
            push_all(&mut r, &sp);
        } else {
            let ghost before = r@;
            r.push(s[i]);
            proof {
                assert(r@ =~= before + seq![s@[i as int]]);
            }
        }
        i = i + 1;
    }
    proof {
        assert(s@.take(s@.len() as int) =~= s@);
    }
    r
}

/// What the CommonMark gate decides for a paragraph text: whether its parse
/// begins with a paragraph start followed by a text event. The parse is a
/// function of the text alone.
pub uninterp spec fn md_plain_paragraph(s: Seq<char>) -> bool;

/// Relies on `pulldown_cmark::Parser::new_ext`: parsing the text as
/// CommonMark (with no extensions) and checking that its first two events
/// are the start of a paragraph and a text node.
#[verifier::external_body]
fn md_gate(input: &str) -> (r: bool)
    ensures
        r == md_plain_paragraph(input@),
{
    let mut parser = Parser::new_ext(input, Options::empty());
    let pair = (parser.next(), parser.next());
    matches!(pair, (Some(Event::Start(Tag::Paragraph)), Some(Event::Text(_))))
}

/// The target width available for a block's content: the overall width less
/// the decoration, at least one cell, and capped at `u32::MAX` cells so that
/// raggedness costs stay representable.
pub open spec fn tmax_of(max_length: int, b: BlockModel) -> int {
    let raw = max_length - text_cells(b.prefix) - text_cells(b.suffix);
    let clamped: int = if raw < 1 {
        1
    } else {
        raw
    };
    if clamped > u32::MAX as int {
        u32::MAX as int
    } else {
        clamped
    }
}

/// The lines of one reformatted block as laid out along break path `p`
/// chosen for target `t`: the path has minimal raggedness cost for that
/// target and avoids bail-out steps whenever any break assignment can; the
/// lines are one per consecutive pair of break points, each the prefix
/// followed by that segment's words joined by single spaces, and one
/// trailing line of the trimmed prefix when the block asks for a blank
/// separator.
pub open spec fn section_lines_for_path(
    b: BlockModel,
    max_length: int,
    last_line: bool,
    fit: bool,
    lines: Seq<Seq<char>>,
    t: int,
    p: Seq<usize>,
) -> bool {
    &&& valid_path(offsets_of(b.words), t as u128, true, p)
    &&& 0 <= t <= tmax_of(max_length, b)
    &&& !fit ==> t == tmax_of(max_length, b)
    &&& fit ==> tmax_of(max_length, b) / 2 <= t
    &&& (exists|q: Seq<usize>| #[trigger] valid_path(offsets_of(b.words), t as u128, false, q))
        ==> valid_path(offsets_of(b.words), t as u128, false, p)
    &&& forall|q: Seq<usize>|
        #[trigger] valid_path(offsets_of(b.words), t as u128, false, q) ==> path_cost(
            offsets_of(b.words),
            t as u128,
            last_line,
            q,
        ) >= path_cost(offsets_of(b.words), t as u128, last_line, p)
    &&& !(exists|q: Seq<usize>| #[trigger] valid_path(offsets_of(b.words), t as u128, false, q))
        ==> forall|q: Seq<usize>|
        #[trigger] valid_path(offsets_of(b.words), t as u128, true, q) ==> path_cost(
            offsets_of(b.words),
            t as u128,
            last_line,
            q,
        ) >= path_cost(offsets_of(b.words), t as u128, last_line, p)
    &&& lines.len() == p.len() - 1 + (if b.newline_after {
        1int
    } else {
        0int
    })
    &&& forall|k: int|
        0 <= k < p.len() - 1 ==> #[trigger] lines[k] == b.prefix + join_words(
            b.words.subrange(p[k] as int, p[k + 1] as int),
        )
    &&& b.newline_after ==> lines[lines.len() - 1] == trim_end_s(b.prefix)
}

/// The lines of one reformatted block, for some optimal break path.
pub open spec fn section_lines_ok(
    b: BlockModel,
    max_length: int,
    last_line: bool,
    fit: bool,
    lines: Seq<Seq<char>>,
    t: int,
) -> bool {
    exists|p: Seq<usize>| section_lines_for_path(b, max_length, last_line, fit, lines, t, p)
}

/// Nodes along a valid path strictly increase.
pub proof fn lemma_path_increasing(
    offs: Seq<u128>,
    target: u128,
    allow: bool,
    p: Seq<usize>,
    k1: int,
    k2: int,
)
    requires
        valid_path(offs, target, allow, p),
        0 <= k1 <= k2 < p.len(),
    ensures
        p[k1] <= p[k2],
        k1 < k2 ==> p[k1] < p[k2],
    decreases k2 - k1,
{
    if k1 < k2 {
        lemma_path_increasing(offs, target, allow, p, k1, k2 - 1);
        assert(is_edge(offs, target, allow, p[k2 - 1] as int, p[k2] as int));
    }
}

/// Every node of a valid path is a boundary index, and each node is at
/// least its position.
pub proof fn lemma_path_nodes(offs: Seq<u128>, target: u128, allow: bool, p: Seq<usize>, k: int)
    requires
        valid_path(offs, target, allow, p),
        0 <= k < p.len(),
    ensures
        p[k] as int <= offs.len() - 1,
        k <= p[k] as int,
{
    lemma_path_increasing(offs, target, allow, p, k, p.len() - 1);
    lemma_path_steps_ge(offs, target, allow, p, k);
}

proof fn lemma_path_steps_ge(offs: Seq<u128>, target: u128, allow: bool, p: Seq<usize>, k: int)
    requires
        valid_path(offs, target, allow, p),
        0 <= k < p.len(),
    ensures
        k <= p[k] as int,
    decreases k,
{
    if k > 0 {
        lemma_path_steps_ge(offs, target, allow, p, k - 1);
        assert(is_edge(offs, target, allow, p[k - 1] as int, p[k] as int));
    }
}

/// A valid path has no more nodes than there are boundaries.
pub proof fn lemma_path_len(offs: Seq<u128>, target: u128, allow: bool, p: Seq<usize>)
    requires
        valid_path(offs, target, allow, p),
    ensures
        p.len() <= offs.len(),
{
    lemma_path_steps_ge(offs, target, allow, p, p.len() - 1);
}

/// Each edge's cost is non-negative and at most `2^64`, so a path's cost is
/// bounded by its edge count times `2^64`.
pub proof fn lemma_path_cost_bound(offs: Seq<u128>, target: u128, last_line: bool, p: Seq<usize>)
    requires
        target <= u32::MAX as u128,
        monotone(offs),
        forall|k: int|
            0 <= k < p.len() - 1 ==> is_edge(
                offs,
                target,
                true,
                #[trigger] p[k] as int,
                p[k + 1] as int,
            ),
    ensures
        0 <= path_cost(offs, target, last_line, p),
        path_cost(offs, target, last_line, p) <= p.len() * 0x10000000000000000,
        p.len() >= 1 ==> path_cost(offs, target, last_line, p) <= (p.len() - 1)
            * 0x10000000000000000,
    decreases p.len(),
{
    if p.len() > 1 {
        let i = p[0] as int;
        let j = p[1] as int;
        assert(is_edge(offs, target, true, i, j));
        let ec = edge_cost(offs, target, last_line, i, j);
        if fits(offs, target, i, j) {
            assert(offs[i] <= offs[j]);
            let d = target - line_cells(offs, i, j);
            assert(0 <= d <= u32::MAX as int);
            assert(0 <= d * d <= 0x10000000000000000) by (nonlinear_arith)
                requires
                    0 <= d <= u32::MAX as int,
            ;
        }
        assert(0 <= ec <= 0x10000000000000000);
        let q = p.drop_first();
        assert(forall|k: int| 0 <= k < q.len() ==> #[trigger] q[k] == p[k + 1]);
        assert forall|k: int|
            0 <= k < q.len() - 1 implies is_edge(
            offs,
            target,
            true,
            #[trigger] q[k] as int,
            q[k + 1] as int,
        ) by {
            assert(is_edge(offs, target, true, p[k + 1] as int, p[k + 2] as int));
        }
        lemma_path_cost_bound(offs, target, last_line, q);
        assert(path_cost(offs, target, last_line, p) == ec + path_cost(
            offs,
            target,
            last_line,
            q,
        ));
        assert(q.len() == p.len() - 1);
        assert((p.len() - 1) * 0x10000000000000000 + 0x10000000000000000 == p.len()
            * 0x10000000000000000) by (nonlinear_arith);
        assert((p.len() - 2) * 0x10000000000000000 + 0x10000000000000000 == (p.len() - 1)
            * 0x10000000000000000) by (nonlinear_arith);
    }
}

/// The adjusted cost of a candidate path stays representable: the path cost
/// is bounded by the boundary count times `2^64`, and the narrowing penalty
/// by `2^64`.
proof fn lemma_adjusted_cost(wd: Seq<Seq<char>>, t: u128, tmax: u128, last_line: bool, p: Seq<usize>, c: u128)
    requires
        sum_lens(wd) <= usize::MAX,
        wd.len() <= usize::MAX,
        t <= tmax <= u32::MAX as u128,
        valid_path(offsets_of(wd), t, true, p),
        c as int == path_cost(offsets_of(wd), t, last_line, p),
    ensures
        c + (tmax - t) * (tmax - t) <= u128::MAX,
{
    let offs = offsets_of(wd);
    lemma_offsets_of(wd);
    lemma_path_len(offs, t, true, p);
    lemma_path_cost_bound(offs, t, last_line, p);
    let d = tmax - t;
    assert(d * d <= (u32::MAX as int) * (u32::MAX as int)) by (nonlinear_arith)
        requires
            0 <= d <= u32::MAX as int,
    ;
    assert(p.len() - 1 <= wd.len());
    assert((p.len() - 1) * 0x10000000000000000 <= (usize::MAX as int) * 0x10000000000000000)
        by (nonlinear_arith)
        requires
            p.len() - 1 <= usize::MAX as int,
    ;
    assert((usize::MAX as int) * 0x10000000000000000 + (u32::MAX as int) * (u32::MAX as int)
        <= u128::MAX as int);
}

/// Width of the words `[i, j)` joined by single spaces, via the boundary
/// offsets.
pub proof fn lemma_join_words_cells(ws: Seq<Seq<char>>, i: int, j: int)
    requires
        0 <= i < j <= ws.len(),
        sum_lens(ws) <= usize::MAX,
        ws.len() <= usize::MAX,
    ensures
        text_cells(join_words(ws.subrange(i, j))) == line_cells(offsets_of(ws), i, j),
    decreases j - i,
{
    let offs = offsets_of(ws);
    lemma_offsets_of(ws);
    if j == i + 1 {
        assert(ws.subrange(i, j) =~= seq![ws[i]]);
        assert(join_words(seq![ws[i]]) == ws[i]);
        assert(offs[j] as int == word_cells_prefix(ws, j));
        assert(offs[i] as int == word_cells_prefix(ws, i));
        assert(word_cells_prefix(ws, j) == word_cells_prefix(ws, i) + text_cells(ws[i]));
    } else {
        lemma_join_words_cells(ws, i, j - 1);
        assert(ws.subrange(i, j - 1).push(ws[j - 1]) =~= ws.subrange(i, j));
        lemma_join_with_push(ws.subrange(i, j - 1), ws[j - 1], ' ');
        assert(join_words(ws.subrange(i, j)) == join_words(ws.subrange(i, j - 1)) + seq![' ']
            + ws[j - 1]);
        lemma_text_cells_add(join_words(ws.subrange(i, j - 1)) + seq![' '], ws[j - 1]);
        lemma_text_cells_add(join_words(ws.subrange(i, j - 1)), seq![' ']);
        assert(seq![' '].drop_first() =~= Seq::<char>::empty());
        assert(text_cells(seq![' ']) == crate::text::char_cells(' ') + text_cells(
            Seq::<char>::empty(),
        ));
        assert(offs[j] as int == word_cells_prefix(ws, j));
        assert(word_cells_prefix(ws, j) == word_cells_prefix(ws, j - 1) + text_cells(ws[j - 1]));
        assert(offs[j - 1] as int == word_cells_prefix(ws, j - 1));
    }
}

/// The widest winning target over all blocks, or the default when there are
/// none.
pub open spec fn seq_max(ts: Seq<int>, dflt: int) -> int
    decreases ts.len(),
{
    if ts.len() == 0 {
        dflt
    } else if ts.len() == 1 {
        ts[0]
    } else if ts.last() > seq_max(ts.drop_last(), dflt) {
        ts.last()
    } else {
        seq_max(ts.drop_last(), dflt)
    }
}

/// A line with its block's suffix appended, padded so that the suffix sits
/// at the common column; lines of suffix-free blocks stay as they are. The
/// space count is capped at `usize::MAX`, which no real line reaches.
pub open spec fn padded_line(l: Seq<char>, b: BlockModel, pad_col: int) -> Seq<char> {
    if b.suffix.len() == 0 {
        l
    } else {
        let pad = pad_col + text_cells(b.prefix) - text_cells(l);
        let padn: int = if pad < 0 {
            0
        } else if pad > usize::MAX as int {
            usize::MAX as int
        } else {
            pad
        };
        l + sp_seq(padn as nat) + b.suffix
    }
}

/// The lines of one block, each padded for the common suffix column.
pub open spec fn padded_section(b: BlockModel, lines: Seq<Seq<char>>, pad_col: int) -> Seq<
    Seq<char>,
> {
    lines.map_values(|l: Seq<char>| padded_line(l, b, pad_col))
}

/// All output lines in order: each block's lines, padded.
pub open spec fn flatten_sections(
    blocks: Seq<BlockModel>,
    secs: Seq<Seq<Seq<char>>>,
    pad_col: int,
) -> Seq<Seq<char>>
    decreases secs.len(),
{
    if secs.len() == 0 || blocks.len() == 0 {
        Seq::empty()
    } else {
        padded_section(blocks[0], secs[0], pad_col) + flatten_sections(
            blocks.drop_first(),
            secs.drop_first(),
            pad_col,
        )
    }
}

/// What `Reformatter::reformatted` returns for a block list: per block a
/// line list laid out along some valid break path for some winning target,
/// all padded to the common suffix column (the widest winning target) and
/// joined by newlines.
pub open spec fn reformatted_ok(
    blocks: Seq<BlockModel>,
    max_length: int,
    last_line: bool,
    fit: bool,
    out: Seq<char>,
) -> bool {
    exists|secs: Seq<Seq<Seq<char>>>, ts: Seq<int>|
        {
            &&& secs.len() == blocks.len()
            &&& ts.len() == blocks.len()
            &&& (forall|b: int|
                0 <= b < blocks.len() ==> section_lines_ok(
                    #[trigger] blocks[b],
                    max_length,
                    last_line,
                    fit,
                    secs[b],
                    ts[b],
                ))
            &&& out == join_lines(flatten_sections(blocks, secs, seq_max(ts, max_length)))
        }
}

/// The staged reformatter: analysis happens in [`Reformatter::new`],
/// emission in [`Reformatter::reformatted`].
pub struct Reformatter {
    blocks: Vec<Block>,
    target: usize,
    last_line: bool,
    fit: bool,
}

impl Reformatter {
    /// The words of every analyzed block fit in memory together.
    #[verifier::type_invariant]
    spec fn wf(&self) -> bool {
        forall|b: int|
            0 <= b < self.blocks@.len() ==> sum_lens((#[trigger] self.blocks@[b])@.words)
                <= usize::MAX
    }

    /// The analyzed blocks.
    pub closed spec fn blocks_model(&self) -> Seq<BlockModel> {
        blocks_view(self.blocks@)
    }

    /// The overall target width.
    pub closed spec fn spec_target(&self) -> int {
        self.target as int
    }

    /// Whether the last line of a paragraph is penalized like the others.
    pub closed spec fn spec_last_line(&self) -> bool {
        self.last_line
    }

    /// Whether adaptive target narrowing is enabled.
    pub closed spec fn spec_fit(&self) -> bool {
        self.fit
    }

    /// Analyze `input` under the options' strategy order.
    pub fn new(opts: &FormatOpts, input: &str) -> (r: Reformatter)
        ensures
            r.blocks_model() == analyze_s(opts.format_mode, lines_of(input@)),
            r.spec_target() == opts.max_length,
            r.spec_last_line() == opts.last_line,
            r.spec_fit() == opts.reduce_jaggedness,
    {
        let input_data = Input::with_input(input);
        let blocks = input_data.analyze(opts.format_mode);
        Reformatter {
            blocks,
            target: opts.max_length,
            last_line: opts.last_line,
            fit: opts.reduce_jaggedness,
        }
    }

    /// Reformat one block: try each candidate target from the widest down,
    /// keep the break path with the strictly smallest adjusted cost, and
    /// emit one decorated line per segment.
    #[verifier::rlimit(60)]
    fn reformat_section(&self, block: &Block) -> (r: (Vec<Vec<char>>, usize))
        requires
            sum_lens(block@.words) <= usize::MAX,
        ensures
            section_lines_ok(
                block@,
                self.spec_target(),
                self.spec_last_line(),
                self.spec_fit(),
                r.0.deep_view(),
                r.1 as int,
            ),
    {
        broadcast use lemma_vec_char_deep_view, lemma_lines_deep_len, lemma_lines_deep_index;

        let ghost bm = block@;
        let ghost wd = block.words.deep_view();
        let ghost offs = offsets_of(wd);
        let nw = block.words.len();
        let prefix_len = block.prefix.len();
        let suffix_len = block.suffix.len();
        proof {
            lemma_offsets_of(wd);
        }
        let pw = width_of(&block.prefix);
        let sw = width_of(&block.suffix);
        proof {
            assert(pw <= 3 * (prefix_len as u128));
            assert(sw <= 3 * (suffix_len as u128));
        }
        let ml = self.target as u128;
        let raw: u128 = if ml > pw + sw {
            ml - pw - sw
        } else {
            1
        };
        let tmax: u128 = if raw > u32::MAX as u128 {
            u32::MAX as u128
        } else {
            raw
        };
        proof {
            assert(tmax as int == tmax_of(self.spec_target(), bm));
        }
        let tmin: u128 = if self.fit {
            tmax / 2
        } else {
            tmax
        };
        let (p0, c0) = solve(&block.words, tmax, self.last_line);
        proof {
            lemma_path_len(offs, tmax, true, p0@);
            lemma_path_cost_bound(offs, tmax, self.last_line, p0@);
        }
        let mut best_path = p0;
        let mut best_cost: u128 = c0;
        let mut best_t: u128 = tmax;
        let mut t: u128 = tmax;
        while t > tmin
            invariant
                tmin <= t <= tmax,
                tmax <= u32::MAX as u128,
                tmax as int == tmax_of(self.spec_target(), bm),
                tmin == (if self.fit {
                    tmax / 2
                } else {
                    tmax
                }),
                self.fit == self.spec_fit(),
                tmin <= best_t <= tmax,
                wd == block.words.deep_view(),
                offs == offsets_of(wd),
                sum_lens(wd) <= usize::MAX,
                wd.len() == nw,
                nw == block.words@.len(),
                valid_path(offs, best_t, true, best_path@),
                (exists|q: Seq<usize>| valid_path(offs, best_t, false, q)) ==> valid_path(
                    offs,
                    best_t,
                    false,
                    best_path@,
                ),
                forall|q: Seq<usize>|
                    valid_path(offs, best_t, false, q) ==> path_cost(offs, best_t, self.last_line, q)
                        >= path_cost(offs, best_t, self.last_line, best_path@),
                !(exists|q: Seq<usize>| valid_path(offs, best_t, false, q)) ==> forall|
                    q: Seq<usize>,
                |
                    valid_path(offs, best_t, true, q) ==> path_cost(offs, best_t, self.last_line, q)
                        >= path_cost(offs, best_t, self.last_line, best_path@),
                self.last_line == self.spec_last_line(),
            decreases t - tmin,
        {
            t = t - 1;
            let (p, c) = solve(&block.words, t, self.last_line);
            proof {
                lemma_adjusted_cost(wd, t, tmax, self.last_line, p@, c);
            }
            let diff: u128 = tmax - t;
            let adj: u128 = c + diff * diff;
            if adj < best_cost {
                best_cost = adj;
                best_path = p;
                best_t = t;
            }
        }
        let ghost gp = best_path@;
        let mut lines: Vec<Vec<char>> = Vec::new();
        let nseg = best_path.len() - 1;
        let mut k: usize = 0;
        proof {
            assert(lines.deep_view() =~~= Seq::<Seq<char>>::empty());
        }
        while k < nseg
            invariant
                k <= nseg,
                nseg == gp.len() - 1,
                best_path@ == gp,
                best_path@.len() == gp.len(),
                wd == block.words.deep_view(),
                wd.len() == block.words@.len(),
                offs == offsets_of(wd),
                sum_lens(wd) <= usize::MAX,
                valid_path(offs, best_t, true, gp),
                tmax as int == tmax_of(self.spec_target(), bm),
                tmin == (if self.fit {
                    tmax / 2
                } else {
                    tmax
                }),
                self.fit == self.spec_fit(),
                tmin <= best_t <= tmax,
                tmax <= u32::MAX as u128,
                (exists|q: Seq<usize>| valid_path(offs, best_t, false, q)) ==> valid_path(
                    offs,
                    best_t,
                    false,
                    gp,
                ),
                forall|q: Seq<usize>|
                    valid_path(offs, best_t, false, q) ==> path_cost(offs, best_t, self.last_line, q)
                        >= path_cost(offs, best_t, self.last_line, gp),
                !(exists|q: Seq<usize>| valid_path(offs, best_t, false, q)) ==> forall|
                    q: Seq<usize>,
                |
                    valid_path(offs, best_t, true, q) ==> path_cost(offs, best_t, self.last_line, q)
                        >= path_cost(offs, best_t, self.last_line, gp),
                self.last_line == self.spec_last_line(),
                lines.deep_view().len() == k,
                forall|k2: int|
                    0 <= k2 < k ==> #[trigger] lines.deep_view()[k2] == bm.prefix + join_words(
                        wd.subrange(gp[k2] as int, gp[k2 + 1] as int),
                    ),
                bm.prefix == block.prefix@,
            decreases nseg - k,
        {
            proof {
                lemma_path_nodes(offs, best_t, true, gp, k as int);
                lemma_path_nodes(offs, best_t, true, gp, k + 1);
                lemma_path_increasing(offs, best_t, true, gp, k as int, k + 1);
                assert(offs.len() == wd.len() + 1);
            }
            let start = best_path[k];
            let end = best_path[k + 1];
            let mut line = subvec(&block.prefix, 0, block.prefix.len());
            let mut w: usize = start;
            proof {
                assert(wd.subrange(start as int, start as int) =~= Seq::<Seq<char>>::empty());
                assert(join_words(Seq::<Seq<char>>::empty()) == Seq::<char>::empty());
                assert(line@ =~= bm.prefix + Seq::<char>::empty());
            }
            while w < end
                invariant
                    start <= w <= end,
                    end <= wd.len(),
                    wd == block.words.deep_view(),
                    wd.len() == block.words@.len(),
                    bm.prefix == block.prefix@,
                    line@ == bm.prefix + join_words(wd.subrange(start as int, w as int)),
                decreases end - w,
            {
                proof {
                    lemma_join_with_push(wd.subrange(start as int, w as int), wd[w as int], ' ');
                    assert(wd.subrange(start as int, w as int).push(wd[w as int]) =~= wd.subrange(
                        start as int,
                        w + 1,
                    ));
                }
                let ghost before = line@;
                if w > start {
                    line.push(' ');
                    proof {
                        assert(line@ =~= before + seq![' ']);
                    }
                }
                let ghost mid = line@;
                push_all(&mut line, &block.words[w]);
                proof {
                    assert(block.words@[w as int]@ == wd[w as int]);
                    if w > start {
                        assert(line@ =~= bm.prefix + (join_words(
                            wd.subrange(start as int, w as int),
                        ) + seq![' '] + wd[w as int]));
                    } else {
                        assert(wd.subrange(start as int, w as int)
                            =~= Seq::<Seq<char>>::empty());
                        assert(line@ =~= bm.prefix + join_words(wd.subrange(start as int, w + 1)));
                    }
                }
                w = w + 1;
            }
            let ghost old_lines = lines.deep_view();
            lines.push(line);
            k = k + 1;
            proof {
                assert(lines.deep_view() =~~= old_lines.push(
                    bm.prefix + join_words(wd.subrange(gp[k - 1] as int, gp[k as int] as int)),
                ));
            }
        }
        if block.newline_after {
            let extra = trim_end_vec(&block.prefix);
            let ghost old_lines = lines.deep_view();
            lines.push(extra);
            proof {
                assert(lines.deep_view() =~~= old_lines.push(trim_end_s(bm.prefix)));
            }
        }
        let tret = best_t as usize;
        proof {
            assert(section_lines_for_path(
                bm,
                self.spec_target(),
                self.spec_last_line(),
                self.spec_fit(),
                lines.deep_view(),
                tret as int,
                gp,
            ));
        }
        (lines, tret)
    }

    /// Reformat every block and compose the result: lines of blocks with a
    /// suffix are padded so that every suffix sits at one display column,
    /// the widest winning target over all blocks (or the overall width when
    /// there are no blocks).
    #[verifier::rlimit(60)]
    pub fn reformatted(&self) -> (out: String)
        ensures
            reformatted_ok(
                self.blocks_model(),
                self.spec_target(),
                self.spec_last_line(),
                self.spec_fit(),
                out@,
            ),
    {
        proof {
            use_type_invariant(&*self);
        }
        broadcast use lemma_vec_char_deep_view, lemma_lines_deep_len, lemma_lines_deep_index;

        let ghost bms = self.blocks_model();
        let nb = self.blocks.len();
        let mut secs: Vec<Vec<Vec<char>>> = Vec::new();
        let mut ts: Vec<usize> = Vec::new();
        let ghost mut gsecs: Seq<Seq<Seq<char>>> = Seq::empty();
        let mut b: usize = 0;
        while b < nb
            invariant
                b <= nb,
                nb == self.blocks@.len(),
                bms == self.blocks_model(),
                bms.len() == nb,
                forall|b2: int|
                    0 <= b2 < nb ==> sum_lens((#[trigger] self.blocks@[b2])@.words) <= usize::MAX,
                secs@.len() == b,
                ts@.len() == b,
                gsecs.len() == b,
                forall|b2: int| 0 <= b2 < b ==> (#[trigger] secs@[b2]).deep_view() == gsecs[b2],
                forall|b2: int|
                    0 <= b2 < b ==> section_lines_ok(
                        bms[b2],
                        self.spec_target(),
                        self.spec_last_line(),
                        self.spec_fit(),
                        gsecs[b2],
                        #[trigger] ts@[b2] as int,
                    ),
                forall|b2: int| 0 <= b2 < b ==> #[trigger] ts@[b2] <= u32::MAX as usize,
            decreases nb - b,
        {
            proof {
                assert(bms[b as int] == self.blocks@[b as int]@);
            }
            let (lines, t) = self.reformat_section(&self.blocks[b]);
            proof {
                let p = choose|p: Seq<usize>|
                    section_lines_for_path(
                        bms[b as int],
                        self.spec_target(),
                        self.spec_last_line(),
                        self.spec_fit(),
                        lines.deep_view(),
                        t as int,
                        p,
                    );
                assert(t as int <= tmax_of(self.spec_target(), bms[b as int]));
                assert(t <= u32::MAX as usize);
            }
            ts.push(t);
            secs.push(lines);
            proof {
                gsecs = gsecs.push(lines.deep_view());
            }
            b = b + 1;
        }
        let ghost gts: Seq<int> = ts@.map_values(|t: usize| t as int);
        let mut pc: usize = self.target;
        if nb > 0 {
            pc = ts[0];
            let mut i: usize = 1;
            proof {
                assert(gts.take(1).len() == 1);
                assert(gts.take(1)[0] == ts@[0] as int);
            }
            while i < nb
                invariant
                    1 <= i <= nb,
                    nb == ts@.len(),
                    gts == ts@.map_values(|t: usize| t as int),
                    gts.len() == nb,
                    pc as int == seq_max(gts.take(i as int), self.spec_target()),
                decreases nb - i,
            {
                proof {
                    assert(gts.take(i + 1).drop_last() =~= gts.take(i as int));
                    assert(gts.take(i + 1).last() == ts@[i as int] as int);
                }
                if ts[i] > pc {
                    pc = ts[i];
                }
                i = i + 1;
            }
            proof {
                assert(gts.take(nb as int) =~= gts);
            }
        } else {
            proof {
                assert(gts =~= Seq::<int>::empty());
            }
        }
        let ghost pcv = pc as int;
        proof {
            assert(pcv == seq_max(gts, self.spec_target()));
        }
        let mut out_lines: Vec<Vec<char>> = Vec::new();
        let mut b: usize = 0;
        proof {
            assert(out_lines.deep_view() =~~= Seq::<Seq<char>>::empty());
            assert(bms.skip(0) =~= bms);
            assert(gsecs.skip(0) =~= gsecs);
            assert(Seq::<Seq<char>>::empty() + flatten_sections(bms, gsecs, pcv)
                =~= flatten_sections(bms, gsecs, pcv));
        }
        while b < nb
            invariant
                b <= nb,
                nb == self.blocks@.len(),
                nb == secs@.len(),
                bms == self.blocks_model(),
                bms.len() == nb,
                gsecs.len() == nb,
                forall|b2: int| 0 <= b2 < nb ==> (#[trigger] secs@[b2]).deep_view() == gsecs[b2],
                flatten_sections(bms, gsecs, pcv) == out_lines.deep_view() + flatten_sections(
                    bms.skip(b as int),
                    gsecs.skip(b as int),
                    pcv,
                ),
                pc as int == pcv,
            decreases nb - b,
        {
            let ghost gl = gsecs[b as int];
            let ghost bm = bms[b as int];
            proof {
                assert(bms[b as int] == self.blocks@[b as int]@);
                assert(bms.skip(b as int)[0] == bm);
                assert(gsecs.skip(b as int)[0] == gl);
                assert(bms.skip(b as int).drop_first() =~= bms.skip(b + 1));
                assert(gsecs.skip(b as int).drop_first() =~= gsecs.skip(b + 1));
                assert(flatten_sections(bms.skip(b as int), gsecs.skip(b as int), pcv)
                    == padded_section(bm, gl, pcv) + flatten_sections(
                    bms.skip(b + 1),
                    gsecs.skip(b + 1),
                    pcv,
                ));
            }
            let block = &self.blocks[b];
            let lines = &secs[b];
            let nl = lines.len();
            proof {
                assert(lines.deep_view() == gl);
                assert(gl.len() == nl);
                assert(padded_section(bm, gl, pcv).len() == nl);
            }
            let ghost base = out_lines.deep_view();
            let mut li: usize = 0;
            if block.suffix.len() == 0 {
                while li < nl
                    invariant
                        li <= nl,
                        nl == lines@.len(),
                        lines.deep_view() == gl,
                        gl.len() == nl,
                        bm.suffix.len() == 0,
                        out_lines.deep_view() == base + padded_section(bm, gl, pcv).take(
                            li as int,
                        ),
                    decreases nl - li,
                {
                    let ghost old_out = out_lines.deep_view();
                    out_lines.push(subvec(&lines[li], 0, lines[li].len()));
                    li = li + 1;
                    proof {
                        assert(padded_line(gl[li - 1], bm, pcv) == gl[li - 1]);
                        assert(out_lines.deep_view() =~~= old_out.push(gl[li - 1]));
                        assert((base + padded_section(bm, gl, pcv).take(li - 1)).push(
                            padded_section(bm, gl, pcv)[li - 1],
                        ) =~= base + padded_section(bm, gl, pcv).take(li as int));
                    }
                }
            } else {
                let prefix_len = block.prefix.len();
                let pw = width_of(&block.prefix);
                while li < nl
                    invariant
                        li <= nl,
                        nl == lines@.len(),
                        lines.deep_view() == gl,
                        gl.len() == nl,
                        bm.suffix.len() > 0,
                        bm == self.blocks@[b as int]@,
                        b < self.blocks@.len(),
                        nb == self.blocks@.len(),
                        pw == text_cells(bm.prefix),
                        pw <= 3 * (prefix_len as u128),
                        pc as int == pcv,
                        out_lines.deep_view() == base + padded_section(bm, gl, pcv).take(
                            li as int,
                        ),
                    decreases nl - li,
                {
                    let l = &lines[li];
                    let lw = width_of(l);
                    let padw: u128 = pc as u128 + pw;
                    let pad128: u128 = if padw >= lw {
                        padw - lw
                    } else {
                        0
                    };
                    let padn: usize = if pad128 > usize::MAX as u128 {
                        usize::MAX
                    } else {
                        pad128 as usize
                    };
                    let mut padded = subvec(l, 0, l.len());
                    let sp = spaces(padn);
                    push_all(&mut padded, &sp);
                    push_all(&mut padded, &self.blocks[b].suffix);
                    let ghost old_out = out_lines.deep_view();
                    out_lines.push(padded);
                    li = li + 1;
                    proof {
                        assert(l@ == gl[li - 1]);
                        assert(padded@ =~= gl[li - 1] + sp_seq(padn as nat) + bm.suffix);
                        assert(padded@ == padded_line(gl[li - 1], bm, pcv));
                        assert(out_lines.deep_view() =~~= old_out.push(
                            padded_line(gl[li - 1], bm, pcv),
                        ));
                        assert((base + padded_section(bm, gl, pcv).take(li - 1)).push(
                            padded_section(bm, gl, pcv)[li - 1],
                        ) =~= base + padded_section(bm, gl, pcv).take(li as int));
                    }
                }
            }
            b = b + 1;
            proof {
                assert(padded_section(bm, gl, pcv).take(nl as int) =~= padded_section(
                    bm,
                    gl,
                    pcv,
                ));
                assert((base + padded_section(bm, gl, pcv)) + flatten_sections(
                    bms.skip(b as int),
                    gsecs.skip(b as int),
                    pcv,
                ) =~= base + (padded_section(bm, gl, pcv) + flatten_sections(
                    bms.skip(b as int),
                    gsecs.skip(b as int),
                    pcv,
                )));
            }
        }
        proof {
            assert(bms.skip(nb as int) =~= Seq::<BlockModel>::empty());
            assert(gsecs.skip(nb as int) =~= Seq::<Seq<Seq<char>>>::empty());
            assert(flatten_sections(
                Seq::<BlockModel>::empty(),
                Seq::<Seq<Seq<char>>>::empty(),
                pcv,
            ) == Seq::<Seq<char>>::empty());
            assert(out_lines.deep_view() + Seq::<Seq<char>>::empty() =~= out_lines.deep_view());
        }
        let out = join_lines_string(&out_lines);
        proof {
            assert(secs@.len() == gsecs.len());
            assert({
                &&& gsecs.len() == bms.len()
                &&& gts.len() == bms.len()
                &&& (forall|b2: int|
                    0 <= b2 < bms.len() ==> section_lines_ok(
                        #[trigger] bms[b2],
                        self.spec_target(),
                        self.spec_last_line(),
                        self.spec_fit(),
                        gsecs[b2],
                        gts[b2],
                    ))
                &&& out@ == join_lines(flatten_sections(bms, gsecs, seq_max(gts, self.spec_target())))
            });
        }
        out
    }
}

/// Reformat one paragraph of text: consult the markdown gate when asked,
/// expand tabs, analyze the decoration, and wrap the words. Empty input
/// yields empty output.
pub fn reformat(opts: &FormatOpts, input: &str) -> (r: String)
    ensures
        opts.format_mode is Markdown && !md_plain_paragraph(input@) ==> r@ == input@,
        !(opts.format_mode is Markdown && !md_plain_paragraph(input@)) ==> reformatted_ok(
            analyze_s(opts.format_mode, lines_of(expand_tabs_s(input@, opts.tab_width as nat))),
            opts.max_length as int,
            opts.last_line,
            opts.reduce_jaggedness,
            r@,
        ),
        input@.len() == 0 ==> r@.len() == 0,
{
    let do_reformat = match opts.format_mode {
        FormatMode::Markdown => md_gate(input),
        _ => true,
    };
    if do_reformat {
        let cs = crate::text::chars_of(input);
        let cleaned = expand_tabs(&cs, opts.tab_width);
        let cleaned_s = crate::text::string_of_chars(&cleaned);
        let rfmt = Reformatter::new(opts, cleaned_s.as_str());
        let out = rfmt.reformatted();
        proof {
            if input@.len() == 0 {
                assert(expand_tabs_s(input@, opts.tab_width as nat) == Seq::<char>::empty());
                assert(lines_of(Seq::<char>::empty()) == Seq::<Seq<char>>::empty());
                crate::analysis::lemma_analyze_empty(opts.format_mode);
                let bms = rfmt.blocks_model();
                assert(bms.len() == 0);
                let (wsecs, wts) = choose|wsecs: Seq<Seq<Seq<char>>>, wts: Seq<int>|
                    {
                        &&& wsecs.len() == bms.len()
                        &&& wts.len() == bms.len()
                        &&& (forall|b: int|
                            0 <= b < bms.len() ==> section_lines_ok(
                                #[trigger] bms[b],
                                rfmt.spec_target(),
                                rfmt.spec_last_line(),
                                rfmt.spec_fit(),
                                wsecs[b],
                                wts[b],
                            ))
                        &&& out@ == join_lines(
                            flatten_sections(bms, wsecs, seq_max(wts, rfmt.spec_target())),
                        )
                    };
                assert(flatten_sections(bms, wsecs, seq_max(wts, rfmt.spec_target()))
                    == Seq::<Seq<char>>::empty());
                assert(join_lines(Seq::<Seq<char>>::empty()) == Seq::<char>::empty());
            }
        }
        out
    } else {
        input.to_owned()
    }
}

} // verus!
