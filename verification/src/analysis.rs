//! Structural analysis: discover the decoration (quote prefix, comment
//! prefix, or symmetric affixes) shared by a group of lines, strip it, and
//! recover the word stream with paragraph breaks.

use vstd::prelude::*;

use crate::text::{
    is_ws, is_ascii_ws, line_blank, leading_ws, word_len, split_ws, sum_lens, text_cells,
    lines_of, is_ws_char, is_ascii_ws_char, is_blank_line, leading_ws_count, split_ws_vec,
    chars_of, split_lines, subvec, eq_chars, starts_with, width_of, lemma_vec_char_deep_view,
    lemma_lines_deep_len, lemma_lines_deep_index, lemma_word_len, lemma_sum_lens_push,
    lemma_sum_lens_add,
};

verus! {

/// Display width of a piece of text, in monospace terminal cells.
pub trait Width {
    /// Mathematical display width of this value.
    spec fn cells(&self) -> nat;

    /// Executable display width.
    fn width(&self) -> (w: usize)
        requires
            self.cells() <= usize::MAX,
        ensures
            w == self.cells(),
    ;
}

impl Width for Vec<char> {
    open spec fn cells(&self) -> nat {
        text_cells(self@)
    }

    fn width(&self) -> (w: usize) {
        let w = width_of(self);
        w as usize
    }
}

/// The mathematical content of a [`Block`].
pub struct BlockModel {
    pub prefix: Seq<char>,
    pub suffix: Seq<char>,
    pub words: Seq<Seq<char>>,
    pub newline_after: bool,
}

/// A contiguous group of input lines sharing the same decoration: the
/// `prefix` opens every output line, the `suffix` closes it (right-aligned
/// to a common column), `words` is the recovered token stream, and
/// `newline_after` records a blank decorated separator line.
pub struct Block {
    pub prefix: Vec<char>,
    pub suffix: Vec<char>,
    pub words: Vec<Vec<char>>,
    pub newline_after: bool,
}

impl View for Block {
    type V = BlockModel;

    open spec fn view(&self) -> BlockModel {
        BlockModel {
            prefix: self.prefix@,
            suffix: self.suffix@,
            words: self.words.deep_view(),
            newline_after: self.newline_after,
        }
    }
}

/// The models of a sequence of blocks.
pub open spec fn blocks_view(bs: Seq<Block>) -> Seq<BlockModel> {
    bs.map_values(|b: Block| b@)
}

/// The line with the first `p` and last `s` characters removed; empty when
/// the line is shorter than the two affixes together.
pub open spec fn trim_off_s(l: Seq<char>, p: nat, s: nat) -> Seq<char> {
    if l.len() < p + s {
        Seq::empty()
    } else {
        l.subrange(p as int, (l.len() - s) as int)
    }
}

pub fn trim_off(l: &Vec<char>, p: usize, s: usize) -> (r: Vec<char>)
    ensures
        r@ == trim_off_s(l@, p as nat, s as nat),
{
    if p > l.len() || s > l.len() - p {
        Vec::new()
    } else {
        subvec(l, p, l.len() - s)
    }
}

/// A quote character is whitespace or `'>'`.
pub open spec fn is_quote_char(c: char) -> bool {
    is_ws(c) || c == '>'
}

/// Length of the leading run of quote characters.
pub open spec fn quote_run(l: Seq<char>) -> nat
    decreases l.len(),
{
    if l.len() > 0 && is_quote_char(l[0]) {
        1 + quote_run(l.drop_first())
    } else {
        0
    }
}

pub proof fn lemma_quote_run_is(l: Seq<char>, k: int)
    requires
        0 <= k <= l.len(),
        forall|i: int| 0 <= i < k ==> is_quote_char(l[i]),
        k < l.len() ==> !is_quote_char(l[k]),
    ensures
        quote_run(l) == k,
    decreases l.len(),
{
    if l.len() > 0 && is_quote_char(l[0]) {
        assert(forall|i: int| 0 <= i < k - 1 ==> l.drop_first()[i] == l[i + 1]);
        lemma_quote_run_is(l.drop_first(), k - 1);
    }
}

/// Number of `'>'` characters in a sequence.
pub open spec fn count_gt(s: Seq<char>) -> nat
    decreases s.len(),
{
    if s.len() == 0 {
        0
    } else {
        (if s[0] == '>' {
            1nat
        } else {
            0nat
        }) + count_gt(s.drop_first())
    }
}

pub proof fn lemma_count_gt_push(s: Seq<char>, c: char)
    ensures
        count_gt(s.push(c)) == count_gt(s) + (if c == '>' {
            1nat
        } else {
            0nat
        }),
    decreases s.len(),
{
    assert(s.push(c).len() == s.len() + 1);
    if s.len() == 0 {
        assert(s.push(c).drop_first() =~= Seq::<char>::empty());
        assert(s.push(c)[0] == c);
        assert(count_gt(s.push(c)) == (if c == '>' {
            1nat
        } else {
            0nat
        }) + count_gt(Seq::<char>::empty()));
    } else {
        assert(s.push(c).drop_first() =~= s.drop_first().push(c));
        lemma_count_gt_push(s.drop_first(), c);
        assert(s.push(c)[0] == s[0]);
        assert(count_gt(s.push(c)) == (if s[0] == '>' {
            1nat
        } else {
            0nat
        }) + count_gt(s.drop_first().push(c)));
    }
}

/// The quote signature of a line: its leading run of whitespace and `'>'`
/// characters.
pub open spec fn quote_sig(l: Seq<char>) -> Seq<char> {
    l.take(quote_run(l) as int)
}

/// The quote level of a line: the number of `'>'` characters in its
/// signature.
pub open spec fn quote_level(l: Seq<char>) -> nat {
    count_gt(quote_sig(l))
}

/// Quote level and signature text of a line.
pub fn get_quotes(l: &Vec<char>) -> (r: (usize, Vec<char>))
    ensures
        r.0 == quote_level(l@),
        r.1@ == quote_sig(l@),
{
    let mut i: usize = 0;
    while i < l.len()
        invariant_except_break
            i <= l@.len(),
            forall|k: int| 0 <= k < i ==> is_quote_char(l@[k]),
        ensures
            i <= l@.len(),
            forall|k: int| 0 <= k < i ==> is_quote_char(l@[k]),
            i < l@.len() ==> !is_quote_char(l@[i as int]),
        decreases l@.len() - i,
    {
        if !(is_ws_char(l[i]) || l[i] == '>') {
            break;
        }
        i = i + 1;
    }
    proof {
        lemma_quote_run_is(l@, i as int);
    }
    let sig = subvec(l, 0, i);
    let mut level: usize = 0;
    let mut k: usize = 0;
    while k < sig.len()
        invariant
            k <= sig@.len(),
            level == count_gt(sig@.take(k as int)),
            level <= k,
        decreases sig@.len() - k,
    {
        proof {
            lemma_count_gt_push(sig@.take(k as int), sig@[k as int]);
            assert(sig@.take(k as int).push(sig@[k as int]) =~= sig@.take(k + 1));
        }
        if sig[k] == '>' {
            level = level + 1;
        }
        k = k + 1;
    }
    proof {
        assert(sig@.take(sig@.len() as int) =~= sig@);
    }
    (level, sig)
}

/// A non-blank line splits into at least one word, the first of which
/// follows the leading whitespace.
pub proof fn lemma_split_ws_first(l: Seq<char>)
    requires
        !line_blank(l),
    ensures
        split_ws(l).len() >= 1,
        split_ws(l)[0].len() >= 1,
        leading_ws(l) + split_ws(l)[0].len() <= l.len(),
        split_ws(l)[0] == l.subrange(
            leading_ws(l) as int,
            leading_ws(l) + split_ws(l)[0].len() as int,
        ),
    decreases l.len(),
{
    if l.len() > 0 && is_ws(l[0]) {
        assert(exists|i: int| 0 <= i < l.len() && !is_ws(l[i]));
        let i = choose|i: int| 0 <= i < l.len() && !is_ws(l[i]);
        assert(l.drop_first()[i - 1] == l[i]);
        assert(!line_blank(l.drop_first()));
        lemma_split_ws_first(l.drop_first());
        let d = l.drop_first();
        let a = leading_ws(d) as int;
        let b = a + split_ws(d)[0].len() as int;
        assert(d.subrange(a, b) =~= l.subrange(a + 1, b + 1));
    } else {
        assert(l.len() > 0);
        lemma_word_len(l);
        assert(split_ws(l)[0] == l.take(word_len(l) as int));
        assert(l.take(word_len(l) as int) =~= l.subrange(0, word_len(l) as int));
    }
}

/// The leading whitespace and the words of a line are disjoint pieces of
/// it, so together they are no longer than the line.
pub proof fn lemma_split_ws_sum(l: Seq<char>)
    ensures
        leading_ws(l) + sum_lens(split_ws(l)) <= l.len(),
    decreases l.len(),
{
    if l.len() == 0 {
    } else if is_ws(l[0]) {
        lemma_split_ws_sum(l.drop_first());
    } else {
        lemma_word_len(l);
        let k = word_len(l) as int;
        lemma_split_ws_sum(l.skip(k));
        let rest = split_ws(l.skip(k));
        assert((seq![l.take(k)] + rest).drop_first() =~= rest);
        assert(sum_lens(seq![l.take(k)] + rest) == l.take(k).len() + sum_lens(rest));
    }
}

/// Sum of the lengths of a contiguous part is at most the total.
pub proof fn lemma_sum_lens_subrange(s: Seq<Seq<char>>, a: int, b: int)
    requires
        0 <= a <= b <= s.len(),
    ensures
        sum_lens(s.subrange(a, b)) <= sum_lens(s),
{
    assert(s =~= (s.take(a) + s.subrange(a, b)) + s.skip(b));
    lemma_sum_lens_add(s.take(a) + s.subrange(a, b), s.skip(b));
    lemma_sum_lens_add(s.take(a), s.subrange(a, b));
}

/// Length of the leading run of lines whose blankness equals `b`.
pub open spec fn run_len_by(ls: Seq<Seq<char>>, b: bool) -> nat
    decreases ls.len(),
{
    if ls.len() == 0 || line_blank(ls[0]) != b {
        0
    } else {
        1 + run_len_by(ls.drop_first(), b)
    }
}

pub proof fn lemma_run_len_by(ls: Seq<Seq<char>>, b: bool)
    ensures
        run_len_by(ls, b) <= ls.len(),
        forall|i: int| 0 <= i < run_len_by(ls, b) ==> line_blank(ls[i]) == b,
        run_len_by(ls, b) < ls.len() ==> line_blank(ls[run_len_by(ls, b) as int]) != b,
        ls.len() > 0 && line_blank(ls[0]) == b ==> run_len_by(ls, b) >= 1,
    decreases ls.len(),
{
    if ls.len() > 0 && line_blank(ls[0]) == b {
        lemma_run_len_by(ls.drop_first(), b);
        assert forall|i: int| 0 <= i < run_len_by(ls, b) implies line_blank(ls[i]) == b by {
            if i > 0 {
                assert(ls.drop_first()[i - 1] == ls[i]);
            }
        }
        if run_len_by(ls, b) < ls.len() {
            assert(ls.drop_first()[run_len_by(ls, b) - 1] == ls[run_len_by(ls, b) as int]);
        }
    }
}

pub proof fn lemma_run_len_by_is(ls: Seq<Seq<char>>, b: bool, k: int)
    requires
        0 <= k <= ls.len(),
        forall|i: int| 0 <= i < k ==> line_blank(ls[i]) == b,
        k < ls.len() ==> line_blank(ls[k]) != b,
    ensures
        run_len_by(ls, b) == k,
    decreases ls.len(),
{
    if ls.len() > 0 && line_blank(ls[0]) == b {
        assert(forall|i: int| 0 <= i < k - 1 ==> ls.drop_first()[i] == ls[i + 1]);
        lemma_run_len_by_is(ls.drop_first(), b, k - 1);
    }
}

/// Maximal runs of lines with equal blankness, in order.
pub open spec fn groups_of(ls: Seq<Seq<char>>) -> Seq<Seq<Seq<char>>>
    decreases ls.len(),
    via groups_of_decreases
{
    if ls.len() == 0 {
        Seq::empty()
    } else {
        let k = run_len_by(ls, line_blank(ls[0])) as int;
        seq![ls.take(k)] + groups_of(ls.skip(k))
    }
}

#[via_fn]
proof fn groups_of_decreases(ls: Seq<Seq<char>>) {
    if ls.len() > 0 {
        lemma_run_len_by(ls, line_blank(ls[0]));
    }
}

/// Words of the lines of a group after the first line.
pub open spec fn rest_words(gs: Seq<Seq<char>>) -> Seq<Seq<char>>
    decreases gs.len(),
{
    if gs.len() == 0 {
        Seq::empty()
    } else {
        split_ws(gs[0]) + rest_words(gs.drop_first())
    }
}

pub proof fn lemma_rest_words_push(gs: Seq<Seq<char>>, g: Seq<char>)
    ensures
        rest_words(gs.push(g)) == rest_words(gs) + split_ws(g),
    decreases gs.len(),
{
    assert(gs.push(g).len() == gs.len() + 1);
    if gs.len() == 0 {
        assert(gs.push(g).drop_first() =~= Seq::<Seq<char>>::empty());
        assert(gs.push(g)[0] == g);
        assert(rest_words(Seq::<Seq<char>>::empty()) == Seq::<Seq<char>>::empty());
        assert(rest_words(gs.push(g)) =~= split_ws(g) + Seq::<Seq<char>>::empty());
        assert(split_ws(g) + Seq::<Seq<char>>::empty() =~= split_ws(g));
        assert(rest_words(gs) + split_ws(g) =~= split_ws(g));
    } else {
        assert(gs.push(g).drop_first() =~= gs.drop_first().push(g));
        lemma_rest_words_push(gs.drop_first(), g);
        assert(gs.push(g)[0] == gs[0]);
        assert(rest_words(gs.push(g)) == split_ws(gs[0]) + (rest_words(gs.drop_first())
            + split_ws(g)));
        assert(split_ws(gs[0]) + (rest_words(gs.drop_first()) + split_ws(g)) =~= (split_ws(gs[0])
            + rest_words(gs.drop_first())) + split_ws(g));
    }
}

pub proof fn lemma_rest_words_sum(gs: Seq<Seq<char>>)
    ensures
        sum_lens(rest_words(gs)) <= sum_lens(gs),
    decreases gs.len(),
{
    if gs.len() > 0 {
        lemma_rest_words_sum(gs.drop_first());
        lemma_split_ws_sum(gs[0]);
        lemma_sum_lens_add(split_ws(gs[0]), rest_words(gs.drop_first()));
    }
}

/// The first word of the first line of a paragraph, with the line's
/// indentation characters prepended.
pub open spec fn glue_first(l: Seq<char>) -> Seq<char> {
    l.take(leading_ws(l) + split_ws(l)[0].len() as int)
}

/// The word stream of one non-blank group: the words of its lines in order,
/// with the first line's indentation glued onto the first word.
pub open spec fn group_words(g: Seq<Seq<char>>) -> Seq<Seq<char>> {
    split_ws(g[0]).update(0, glue_first(g[0])) + rest_words(g.drop_first())
}

/// The block a group yields: a blank group carries no words and asks for a
/// trailing decorated blank line; a non-blank group carries its word stream.
pub open spec fn block_of_group(g: Seq<Seq<char>>, p: Seq<char>, s: Seq<char>) -> BlockModel {
    let blank = line_blank(g[0]);
    BlockModel {
        prefix: p,
        suffix: s,
        words: if blank {
            Seq::empty()
        } else {
            group_words(g)
        },
        newline_after: blank,
    }
}

pub open spec fn blocks_of_groups(gs: Seq<Seq<Seq<char>>>, p: Seq<char>, s: Seq<char>) -> Seq<
    BlockModel,
> {
    gs.map_values(|g: Seq<Seq<char>>| block_of_group(g, p, s))
}

/// The lines each trimmed of the affixes.
pub open spec fn trimmed_lines(lines: Seq<Seq<char>>, p: nat, s: nat) -> Seq<Seq<char>> {
    lines.map_values(|l: Seq<char>| trim_off_s(l, p, s))
}

/// The blocks collected from `lines` under the decoration `(p, s)`: trim the
/// affixes, partition into maximal blank and non-blank runs, and turn each
/// run into one block.
pub open spec fn collect_blocks_s(lines: Seq<Seq<char>>, p: Seq<char>, s: Seq<char>) -> Seq<
    BlockModel,
> {
    blocks_of_groups(groups_of(trimmed_lines(lines, p.len(), s.len())), p, s)
}

/// The words of one group are together no longer than the group's lines.
pub proof fn lemma_group_words_sum(g: Seq<Seq<char>>)
    requires
        g.len() > 0,
        !line_blank(g[0]),
    ensures
        sum_lens(group_words(g)) <= sum_lens(g),
{
    lemma_split_ws_first(g[0]);
    lemma_split_ws_sum(g[0]);
    lemma_rest_words_sum(g.drop_first());
    let first = split_ws(g[0]).update(0, glue_first(g[0]));
    lemma_sum_lens_add(first, rest_words(g.drop_first()));
    // the updated first word is bounded by the whole first line, and the
    // remaining words of the first line are bounded by the rest of it
    assert(sum_lens(Seq::<Seq<char>>::empty()) == 0);
    assert(first =~= seq![glue_first(g[0])] + split_ws(g[0]).drop_first());
    lemma_sum_lens_add(seq![glue_first(g[0])], split_ws(g[0]).drop_first());
    assert(seq![glue_first(g[0])].drop_first() =~= Seq::<Seq<char>>::empty());
    assert(sum_lens(seq![glue_first(g[0])]) == glue_first(g[0]).len() + sum_lens(
        seq![glue_first(g[0])].drop_first(),
    ));
    assert(split_ws(g[0]) =~= seq![split_ws(g[0])[0]] + split_ws(g[0]).drop_first());
    lemma_sum_lens_add(seq![split_ws(g[0])[0]], split_ws(g[0]).drop_first());
    assert(seq![split_ws(g[0])[0]].drop_first() =~= Seq::<Seq<char>>::empty());
    assert(glue_first(g[0]).len() <= leading_ws(g[0]) + split_ws(g[0])[0].len());
    assert(sum_lens(seq![split_ws(g[0])[0]]) == split_ws(g[0])[0].len() + sum_lens(
        seq![split_ws(g[0])[0]].drop_first(),
    ));
    assert(leading_ws(g[0]) + split_ws(g[0])[0].len() + sum_lens(split_ws(g[0]).drop_first())
        <= g[0].len());
    assert(sum_lens(first) <= g[0].len());
    assert(g =~= seq![g[0]] + g.drop_first());
    lemma_sum_lens_add(seq![g[0]], g.drop_first());
    assert(seq![g[0]].drop_first() =~= Seq::<Seq<char>>::empty());
}

/// Copy of a character vector.
fn copy_chars(v: &Vec<char>) -> (r: Vec<char>)
    ensures
        r@ == v@,
{
    subvec(v, 0, v.len())
}

/// Collect the blocks of `lines` under the decoration `(prefix, suffix)`.
pub fn collect_blocks(lines: &Vec<Vec<char>>, prefix: &Vec<char>, suffix: &Vec<char>) -> (bs: Vec<
    Block,
>)
    ensures
        blocks_view(bs@) == collect_blocks_s(lines.deep_view(), prefix@, suffix@),
        forall|b: int|
            0 <= b < bs@.len() ==> sum_lens(#[trigger] bs@[b]@.words) <= sum_lens(
                lines.deep_view(),
            ),
{
    broadcast use lemma_vec_char_deep_view, lemma_lines_deep_len, lemma_lines_deep_index;

    let ghost lp = prefix@.len() as nat;
    let ghost ls = suffix@.len() as nat;
    let mut trimmed: Vec<Vec<char>> = Vec::new();
    let mut i: usize = 0;
    proof {
        assert(trimmed.deep_view() =~~= trimmed_lines(lines.deep_view(), lp, ls).take(0));
    }
    proof {
        assert forall|k: int| 0 <= k < lines@.len() implies #[trigger] lines.deep_view()[k]
            == lines@[k]@ by {
            lemma_lines_deep_index(*lines, k);
        }
    }
    while i < lines.len()
        invariant
            i <= lines@.len(),
            lines.deep_view().len() == lines@.len(),
            forall|k: int| 0 <= k < lines@.len() ==> #[trigger] lines.deep_view()[k] == lines@[k]@,
            trimmed.deep_view() == trimmed_lines(lines.deep_view(), lp, ls).take(i as int),
            lp == prefix@.len(),
            ls == suffix@.len(),
            sum_lens(trimmed.deep_view()) <= sum_lens(lines.deep_view().take(i as int)),
        decreases lines@.len() - i,
    {
        let t = trim_off(&lines[i], prefix.len(), suffix.len());
        let ghost old_td = trimmed.deep_view();
        let ghost old_ld = lines.deep_view().take(i as int);
        proof {
            lemma_sum_lens_push(old_td, t@);
            lemma_sum_lens_push(old_ld, lines.deep_view()[i as int]);
            assert(old_ld.push(lines.deep_view()[i as int]) =~= lines.deep_view().take(i + 1));
            assert(t@.len() <= lines.deep_view()[i as int].len());
        }
        trimmed.push(t);
        i = i + 1;
        proof {
            assert(trimmed.deep_view() =~~= old_td.push(
                trim_off_s(lines.deep_view()[i - 1], lp, ls),
            ));
            assert(old_td.push(trim_off_s(lines.deep_view()[i - 1], lp, ls)) =~= trimmed_lines(
                lines.deep_view(),
                lp,
                ls,
            ).take(i as int));
        }
    }
    proof {
        assert(trimmed_lines(lines.deep_view(), lp, ls).take(i as int) =~= trimmed_lines(
            lines.deep_view(),
            lp,
            ls,
        ));
        assert(lines.deep_view().take(i as int) =~= lines.deep_view());
    }
    let ghost td = trimmed.deep_view();

    let mut bs: Vec<Block> = Vec::new();
    let mut i: usize = 0;
    proof {
        assert(td.skip(0) =~= td);
        assert(blocks_view(bs@) =~= Seq::<BlockModel>::empty());
        assert(Seq::<BlockModel>::empty() + blocks_of_groups(groups_of(td), prefix@, suffix@)
            =~= blocks_of_groups(groups_of(td), prefix@, suffix@));
    }
    proof {
        assert forall|k: int| 0 <= k < trimmed@.len() implies #[trigger] td[k]
            == trimmed@[k]@ by {
            lemma_lines_deep_index(trimmed, k);
        }
    }
    while i < trimmed.len()
        invariant
            i <= td.len(),
            td == trimmed.deep_view(),
            trimmed@.len() == td.len(),
            forall|k: int| 0 <= k < td.len() ==> #[trigger] td[k] == trimmed@[k]@,
            blocks_of_groups(groups_of(td), prefix@, suffix@) == blocks_view(bs@)
                + blocks_of_groups(groups_of(td.skip(i as int)), prefix@, suffix@),
            forall|b: int|
                0 <= b < bs@.len() ==> sum_lens(#[trigger] bs@[b]@.words) <= sum_lens(td),
        decreases td.len() - i,
    {
        let blank = is_blank_line(&trimmed[i]);
        let mut j: usize = i + 1;
        while j < trimmed.len()
            invariant_except_break
                i < j <= td.len(),
                td == trimmed.deep_view(),
                trimmed@.len() == td.len(),
                forall|k: int| 0 <= k < td.len() ==> #[trigger] td[k] == trimmed@[k]@,
                forall|k: int| i <= k < j ==> line_blank(td[k]) == blank,
            ensures
                i < j <= td.len(),
                forall|k: int| i <= k < j ==> line_blank(td[k]) == blank,
                j < td.len() ==> line_blank(td[j as int]) != blank,
            decreases td.len() - j,
        {
            if is_blank_line(&trimmed[j]) != blank {
                break;
            }
            j = j + 1;
        }
        let ghost rest = td.skip(i as int);
        let ghost g = td.subrange(i as int, j as int);
        proof {
            assert(forall|k: int| 0 <= k < rest.len() ==> rest[k] == td[i + k]);
            lemma_run_len_by_is(rest, blank, j - i);
            assert(rest.take(j - i) =~= g);
            assert(rest.skip(j - i) =~= td.skip(j as int));
            assert(groups_of(rest) == seq![g] + groups_of(td.skip(j as int)));
            assert(g[0] == td[i as int]);
        }
        let block: Block;
        if blank {
            block = Block {
                prefix: copy_chars(prefix),
                suffix: copy_chars(suffix),
                words: Vec::new(),
                newline_after: true,
            };
            proof {
                assert(block@.words =~~= Seq::<Seq<char>>::empty());
                assert(block@ == block_of_group(g, prefix@, suffix@));
                assert(sum_lens(block@.words) == 0);
            }
        } else {
            let first_ws = split_ws_vec(&trimmed[i]);
            proof {
                lemma_split_ws_first(td[i as int]);
                assert(first_ws.deep_view() == split_ws(td[i as int]));
                assert(first_ws.deep_view().len() == first_ws@.len());
                assert(first_ws@.len() == split_ws(td[i as int]).len());
                assert(first_ws@[0].deep_view() == split_ws(td[i as int])[0]);
            }
            let ind = leading_ws_count(&trimmed[i]);
            let glued = subvec(&trimmed[i], 0, ind + first_ws[0].len());
            let ghost gl = glue_first(td[i as int]);
            proof {
                assert(glued@ =~= gl);
            }
            let mut words: Vec<Vec<char>> = Vec::new();
            words.push(glued);
            let ghost sp = split_ws(td[i as int]);
            proof {
                assert(words.deep_view() =~~= seq![gl] + sp.subrange(1, 1));
            }
            let mut k: usize = 1;
            while k < first_ws.len()
                invariant
                    1 <= k <= sp.len(),
                    first_ws@.len() == sp.len(),
                    first_ws.deep_view() == sp,
                    words.deep_view() == seq![gl] + sp.subrange(1, k as int),
                decreases sp.len() - k,
            {
                let w = copy_chars(&first_ws[k]);
                let ghost old_w = words.deep_view();
                proof {
                    assert(w@ == first_ws@[k as int].deep_view());
                    assert(w@ == sp[k as int]);
                }
                words.push(w);
                k = k + 1;
                proof {
                    assert(words.deep_view() =~~= old_w.push(sp[k - 1]));
                    assert((seq![gl] + sp.subrange(1, k - 1)).push(sp[k - 1]) =~= seq![gl]
                        + sp.subrange(1, k as int));
                }
            }
            let ghost first_words = sp.update(0, gl);
            proof {
                assert(sp.subrange(1, sp.len() as int) =~= sp.subrange(1, k as int));
                assert(first_words =~= seq![gl] + sp.subrange(1, sp.len() as int));
                assert(td.subrange(i + 1, i + 1) =~= Seq::<Seq<char>>::empty());
                assert(rest_words(td.subrange(i + 1, i + 1)) == Seq::<Seq<char>>::empty());
                assert(words.deep_view() + Seq::<Seq<char>>::empty() =~= words.deep_view());
            }
            let mut r: usize = i + 1;
            while r < j
                invariant
                    i + 1 <= r <= j,
                    j <= td.len(),
                    td == trimmed.deep_view(),
                    trimmed@.len() == td.len(),
                    forall|k: int| 0 <= k < td.len() ==> #[trigger] td[k] == trimmed@[k]@,
                    words.deep_view() == first_words + rest_words(td.subrange(i + 1, r as int)),
                decreases j - r,
            {
                let ws2 = split_ws_vec(&trimmed[r]);
                let ghost sp2 = split_ws(td[r as int]);
                proof {
                    assert(ws2.deep_view().len() == ws2@.len());
                }
                let mut q: usize = 0;
                while q < ws2.len()
                    invariant
                        q <= sp2.len(),
                        ws2@.len() == sp2.len(),
                        ws2.deep_view() == sp2,
                        td == trimmed.deep_view(),
                        words.deep_view() == first_words + rest_words(
                            td.subrange(i + 1, r as int),
                        ) + sp2.take(q as int),
                    decreases sp2.len() - q,
                {
                    let w = copy_chars(&ws2[q]);
                    let ghost old_w = words.deep_view();
                    proof {
                        assert(w@ == ws2@[q as int].deep_view());
                        assert(w@ == sp2[q as int]);
                    }
                    words.push(w);
                    q = q + 1;
                    proof {
                        assert(words.deep_view() =~~= old_w.push(sp2[q - 1]));
                        assert((first_words + rest_words(td.subrange(i + 1, r as int)) + sp2.take(
                            q - 1,
                        )).push(sp2[q - 1]) =~= first_words + rest_words(
                            td.subrange(i + 1, r as int),
                        ) + sp2.take(q as int));
                    }
                }
                r = r + 1;
                proof {
                    lemma_rest_words_push(td.subrange(i + 1, r - 1), td[r - 1]);
                    assert(td.subrange(i + 1, r - 1).push(td[r - 1]) =~= td.subrange(
                        i + 1,
                        r as int,
                    ));
                    assert(sp2.take(sp2.len() as int) =~= sp2);
                    assert(first_words + rest_words(td.subrange(i + 1, r - 1)) + sp2
                        =~= first_words + (rest_words(td.subrange(i + 1, r - 1)) + sp2));
                }
            }
            proof {
                assert(g.drop_first() =~= td.subrange(i + 1, j as int));
                assert(words.deep_view() == group_words(g));
            }
            block = Block {
                prefix: copy_chars(prefix),
                suffix: copy_chars(suffix),
                words,
                newline_after: false,
            };
            proof {
                assert(block@ == block_of_group(g, prefix@, suffix@));
                lemma_group_words_sum(g);
                lemma_sum_lens_subrange(td, i as int, j as int);
                assert(sum_lens(block@.words) <= sum_lens(td));
            }
        }
        let ghost old_bs = blocks_view(bs@);
        bs.push(block);
        i = j;
        proof {
            assert(blocks_view(bs@) =~= old_bs.push(block_of_group(g, prefix@, suffix@)));
            assert(blocks_of_groups(seq![g] + groups_of(td.skip(i as int)), prefix@, suffix@)
                =~= seq![block_of_group(g, prefix@, suffix@)] + blocks_of_groups(
                groups_of(td.skip(i as int)),
                prefix@,
                suffix@,
            ));
            assert(old_bs.push(block_of_group(g, prefix@, suffix@)) =~= old_bs + seq![
                block_of_group(g, prefix@, suffix@),
            ]);
            assert((old_bs + seq![block_of_group(g, prefix@, suffix@)]) + blocks_of_groups(
                groups_of(td.skip(i as int)),
                prefix@,
                suffix@,
            ) =~= old_bs + (seq![block_of_group(g, prefix@, suffix@)] + blocks_of_groups(
                groups_of(td.skip(i as int)),
                prefix@,
                suffix@,
            )));
        }
    }
    proof {
        assert(td.skip(td.len() as int) =~= Seq::<Seq<char>>::empty());
        assert(groups_of(Seq::<Seq<char>>::empty()) == Seq::<Seq<Seq<char>>>::empty());
        assert(blocks_of_groups(Seq::<Seq<Seq<char>>>::empty(), prefix@, suffix@)
            =~= Seq::<BlockModel>::empty());
        assert(blocks_view(bs@) + Seq::<BlockModel>::empty() =~= blocks_view(bs@));
    }
    bs
}

/// Every line agrees at forward position `k`: position `k` exists and holds
/// the same character as in the first line.
pub open spec fn all_agree(lines: Seq<Seq<char>>, k: int) -> bool {
    forall|i: int|
        0 <= i < lines.len() ==> k < #[trigger] lines[i].len() && lines[i][k] == lines[0][k]
}

/// Length of the longest common prefix of all lines, accumulated from `k`.
pub open spec fn lcp_len(lines: Seq<Seq<char>>, k: nat) -> nat
    decreases lines[0].len() - k,
    when lines.len() > 0 && k <= lines[0].len()
    via lcp_len_decreases
{
    if all_agree(lines, k as int) {
        lcp_len(lines, (k + 1) as nat)
    } else {
        k
    }
}

#[via_fn]
proof fn lcp_len_decreases(lines: Seq<Seq<char>>, k: nat) {
    if all_agree(lines, k as int) {
        assert(k < lines[0].len());
    }
}

/// The longest common prefix of all lines; empty when there are none.
pub open spec fn common_prefix(lines: Seq<Seq<char>>) -> Seq<char> {
    if lines.len() == 0 {
        Seq::empty()
    } else {
        lines[0].take(lcp_len(lines, 0) as int)
    }
}

/// Every line agrees at backward position `k` (counted from each line's
/// end): the position exists and holds the same character as in the first
/// line.
pub open spec fn all_agree_rev(lines: Seq<Seq<char>>, k: int) -> bool {
    forall|i: int|
        0 <= i < lines.len() ==> k < #[trigger] lines[i].len() && lines[i][lines[i].len() - 1 - k]
            == lines[0][lines[0].len() - 1 - k]
}

/// Length of the longest common suffix of all lines, accumulated from `k`.
pub open spec fn lcs_len(lines: Seq<Seq<char>>, k: nat) -> nat
    decreases lines[0].len() - k,
    when lines.len() > 0 && k <= lines[0].len()
    via lcs_len_decreases
{
    if all_agree_rev(lines, k as int) {
        lcs_len(lines, (k + 1) as nat)
    } else {
        k
    }
}

#[via_fn]
proof fn lcs_len_decreases(lines: Seq<Seq<char>>, k: nat) {
    if all_agree_rev(lines, k as int) {
        assert(k < lines[0].len());
    }
}

/// The longest common suffix of all lines; empty when there are none.
pub open spec fn common_suffix(lines: Seq<Seq<char>>) -> Seq<char> {
    if lines.len() == 0 {
        Seq::empty()
    } else {
        lines[0].skip((lines[0].len() - lcs_len(lines, 0)) as int)
    }
}

fn agree_at(lines: &Vec<Vec<char>>, k: usize) -> (b: bool)
    requires
        lines@.len() > 0,
    ensures
        b == all_agree(lines.deep_view(), k as int),
{
    broadcast use lemma_lines_deep_len, lemma_lines_deep_index;

    let ghost ld = lines.deep_view();
    let mut i: usize = 0;
    while i < lines.len()
        invariant
            i <= lines@.len(),
            ld == lines.deep_view(),
            forall|q: int| 0 <= q < i ==> k < #[trigger] ld[q].len() && ld[q][k as int] == ld[0][k as int],
        decreases lines@.len() - i,
    {
        proof {
            lemma_lines_deep_index(*lines, i as int);
            lemma_lines_deep_index(*lines, 0);
        }
        if k >= lines[i].len() {
            return false;
        }
        if lines[i][k] != lines[0][k] {
            return false;
        }
        i = i + 1;
    }
    true
}

fn agree_rev_at(lines: &Vec<Vec<char>>, k: usize) -> (b: bool)
    requires
        lines@.len() > 0,
    ensures
        b == all_agree_rev(lines.deep_view(), k as int),
{
    broadcast use lemma_lines_deep_len, lemma_lines_deep_index;

    let ghost ld = lines.deep_view();
    let mut i: usize = 0;
    while i < lines.len()
        invariant
            i <= lines@.len(),
            ld == lines.deep_view(),
            forall|q: int|
                0 <= q < i ==> k < #[trigger] ld[q].len() && ld[q][ld[q].len() - 1 - k]
                    == ld[0][ld[0].len() - 1 - k],
        decreases lines@.len() - i,
    {
        proof {
            lemma_lines_deep_index(*lines, i as int);
            lemma_lines_deep_index(*lines, 0);
        }
        if k >= lines[i].len() {
            return false;
        }
        if lines[i][lines[i].len() - 1 - k] != lines[0][lines[0].len() - 1 - k] {
            return false;
        }
        i = i + 1;
    }
    true
}

/// The longest common prefix of the lines.
pub fn common_prefix_vec(lines: &Vec<Vec<char>>) -> (r: Vec<char>)
    ensures
        r@ == common_prefix(lines.deep_view()),
{
    broadcast use lemma_lines_deep_len, lemma_lines_deep_index;

    if lines.len() == 0 {
        return Vec::new();
    }
    let ghost ld = lines.deep_view();
    proof {
        lemma_lines_deep_index(*lines, 0);
    }
    let n0 = lines[0].len();
    let mut k: usize = 0;
    while agree_at(lines, k)
        invariant
            lines@.len() > 0,
            ld == lines.deep_view(),
            ld[0] == lines@[0]@,
            n0 == ld[0].len(),
            k <= n0,
            lcp_len(ld, 0) == lcp_len(ld, k as nat),
        decreases ld[0].len() - k,
    {
        proof {
            assert(k < ld[0].len());
        }
        k = k + 1;
    }
    proof {
        assert(lcp_len(ld, k as nat) == k);
    }
    subvec(&lines[0], 0, k)
}

/// The longest common suffix of the lines.
pub fn common_suffix_vec(lines: &Vec<Vec<char>>) -> (r: Vec<char>)
    ensures
        r@ == common_suffix(lines.deep_view()),
{
    broadcast use lemma_lines_deep_len, lemma_lines_deep_index;

    if lines.len() == 0 {
        return Vec::new();
    }
    let ghost ld = lines.deep_view();
    proof {
        lemma_lines_deep_index(*lines, 0);
    }
    let n0 = lines[0].len();
    let mut k: usize = 0;
    while agree_rev_at(lines, k)
        invariant
            lines@.len() > 0,
            ld == lines.deep_view(),
            ld[0] == lines@[0]@,
            n0 == ld[0].len(),
            k <= n0,
            lcs_len(ld, 0) == lcs_len(ld, k as nat),
        decreases ld[0].len() - k,
    {
        proof {
            assert(k < ld[0].len());
        }
        k = k + 1;
    }
    proof {
        assert(lcs_len(ld, k as nat) == k);
        assert(lines@[0]@.subrange(lines@[0]@.len() - k, lines@[0]@.len() as int) =~= ld[0].skip(
            (ld[0].len() - lcs_len(ld, 0)) as int,
        ));
    }
    subvec(&lines[0], lines[0].len() - k, lines[0].len())
}

/// Which analysis strategy is attempted first.
#[derive(Clone, Copy, Debug, PartialEq, Eq)]
pub enum FormatMode {
    PlainText,
    Markdown,
    Code,
}

/// Whether `l` starts with `p`.
pub open spec fn starts_with_s(l: Seq<char>, p: Seq<char>) -> bool {
    l.len() >= p.len() && l.take(p.len() as int) == p
}

/// Length of the leading run of lines with quote level `lv`.
pub open spec fn level_run(lines: Seq<Seq<char>>, lv: nat) -> nat
    decreases lines.len(),
{
    if lines.len() == 0 || quote_level(lines[0]) != lv {
        0
    } else {
        1 + level_run(lines.drop_first(), lv)
    }
}

pub proof fn lemma_level_run(lines: Seq<Seq<char>>, lv: nat)
    ensures
        level_run(lines, lv) <= lines.len(),
        lines.len() > 0 && quote_level(lines[0]) == lv ==> level_run(lines, lv) >= 1,
    decreases lines.len(),
{
    if lines.len() > 0 && quote_level(lines[0]) == lv {
        lemma_level_run(lines.drop_first(), lv);
    }
}

pub proof fn lemma_level_run_is(lines: Seq<Seq<char>>, lv: nat, k: int)
    requires
        0 <= k <= lines.len(),
        forall|i: int| 0 <= i < k ==> quote_level(#[trigger] lines[i]) == lv,
        k < lines.len() ==> quote_level(lines[k]) != lv,
    ensures
        level_run(lines, lv) == k,
    decreases lines.len(),
{
    if lines.len() > 0 && quote_level(lines[0]) == lv {
        assert(forall|i: int| 0 <= i < k - 1 ==> lines.drop_first()[i] == lines[i + 1]);
        lemma_level_run_is(lines.drop_first(), lv, k - 1);
    }
}

/// The blocks quote analysis yields: maximal runs of equal quote level, each
/// collected under the signature text of its first line. A leading run of
/// level zero keeps no prefix at all.
pub open spec fn quote_blocks(lines: Seq<Seq<char>>, first: bool) -> Seq<BlockModel>
    decreases lines.len(),
    via quote_blocks_decreases
{
    if lines.len() == 0 {
        Seq::empty()
    } else {
        let lv = quote_level(lines[0]);
        let pfx = if first && lv == 0 {
            Seq::<char>::empty()
        } else {
            quote_sig(lines[0])
        };
        let k = level_run(lines, lv) as int;
        collect_blocks_s(lines.take(k), pfx, Seq::empty()) + quote_blocks(lines.skip(k), false)
    }
}

#[via_fn]
proof fn quote_blocks_decreases(lines: Seq<Seq<char>>, first: bool) {
    if lines.len() > 0 {
        lemma_level_run(lines, quote_level(lines[0]));
    }
}

/// Whether any line carries a positive quote level.
pub open spec fn has_quotes(lines: Seq<Seq<char>>) -> bool {
    exists|i: int| 0 <= i < lines.len() && quote_level(#[trigger] lines[i]) > 0
}

/// Quote analysis: applicable exactly when some line has a positive quote
/// level.
pub open spec fn analyze_quotes_s(lines: Seq<Seq<char>>) -> Option<Seq<BlockModel>> {
    if has_quotes(lines) {
        Option::Some(quote_blocks(lines, true))
    } else {
        Option::None
    }
}

/// Length of the leading run of ASCII whitespace.
pub open spec fn ascii_ws_run(l: Seq<char>) -> nat
    decreases l.len(),
{
    if l.len() > 0 && is_ascii_ws(l[0]) {
        1 + ascii_ws_run(l.drop_first())
    } else {
        0
    }
}

pub proof fn lemma_ascii_ws_run_is(l: Seq<char>, k: int)
    requires
        0 <= k <= l.len(),
        forall|i: int| 0 <= i < k ==> is_ascii_ws(l[i]),
        k < l.len() ==> !is_ascii_ws(l[k]),
    ensures
        ascii_ws_run(l) == k,
    decreases l.len(),
{
    if l.len() > 0 && is_ascii_ws(l[0]) {
        assert(forall|i: int| 0 <= i < k - 1 ==> l.drop_first()[i] == l[i + 1]);
        lemma_ascii_ws_run_is(l.drop_first(), k - 1);
    }
}

/// Length of the comment opener matched at the start of `r`, tried
/// longest-first; zero when none matches.
pub open spec fn style_len(r: Seq<char>) -> nat {
    if starts_with_s(r, seq!['/', '/', '/']) {
        3
    } else if starts_with_s(r, seq!['/', '/']) {
        2
    } else if starts_with_s(r, seq!['#']) {
        1
    } else if starts_with_s(r, seq![';', ';']) {
        2
    } else if starts_with_s(r, seq![';']) {
        1
    } else if starts_with_s(r, seq!['-', '-']) {
        2
    } else {
        0
    }
}

/// Code-comment analysis: probe the first line for an indented comment
/// opener; the candidate prefix is the indentation, the opener, and one
/// character beyond. Applicable when every line starts with that prefix.
pub open spec fn analyze_code_comments_s(lines: Seq<Seq<char>>) -> Option<Seq<BlockModel>> {
    if lines.len() == 0 {
        Option::None
    } else {
        let f = lines[0];
        let st = ascii_ws_run(f);
        if st >= f.len() {
            Option::None
        } else {
            let m = style_len(f.skip(st as int));
            if m == 0 {
                Option::None
            } else if st + m + 1 > f.len() {
                Option::None
            } else {
                let pat = f.take((st + m + 1) as int);
                if forall|i: int| 0 <= i < lines.len() ==> starts_with_s(#[trigger] lines[i], pat) {
                    Option::Some(collect_blocks_s(lines, pat, Seq::empty()))
                } else {
                    Option::None
                }
            }
        }
    }
}

/// Surrounding-affix analysis: the longest common prefix and suffix of all
/// lines, both discarded when they are one and the same non-empty string.
pub open spec fn analyze_surround_s(lines: Seq<Seq<char>>) -> Seq<BlockModel> {
    let p0 = common_prefix(lines);
    let s0 = common_suffix(lines);
    if p0 == s0 && p0.len() > 0 {
        collect_blocks_s(lines, Seq::empty(), Seq::empty())
    } else {
        collect_blocks_s(lines, p0, s0)
    }
}

/// Strategy selection: `Code` mode tries code comments first, then quotes,
/// then the surrounding affixes; the other modes skip code comments.
pub open spec fn analyze_s(mode: FormatMode, lines: Seq<Seq<char>>) -> Seq<BlockModel> {
    if mode is Code && analyze_code_comments_s(lines) is Some {
        analyze_code_comments_s(lines).unwrap()
    } else if analyze_quotes_s(lines) is Some {
        analyze_quotes_s(lines).unwrap()
    } else {
        analyze_surround_s(lines)
    }
}

/// No lines yield no blocks, under every strategy.
pub proof fn lemma_analyze_empty(mode: FormatMode)
    ensures
        analyze_s(mode, Seq::<Seq<char>>::empty()) == Seq::<BlockModel>::empty(),
{
    let e: Seq<Seq<char>> = Seq::empty();
    assert(analyze_code_comments_s(e) is None);
    assert(!has_quotes(e));
    assert(trimmed_lines(e, 0, 0) =~= Seq::<Seq<char>>::empty());
    assert(groups_of(Seq::<Seq<char>>::empty()) == Seq::<Seq<Seq<char>>>::empty());
    assert(blocks_of_groups(Seq::<Seq<Seq<char>>>::empty(), Seq::empty(), Seq::empty())
        =~= Seq::<BlockModel>::empty());
    assert(common_prefix(e) == Seq::<char>::empty());
    assert(common_suffix(e) == Seq::<char>::empty());
    assert(collect_blocks_s(e, Seq::empty(), Seq::empty()) =~= Seq::<BlockModel>::empty());
    assert(analyze_surround_s(e) =~= Seq::<BlockModel>::empty());
}

/// Copy of the lines `lines[a..b]`.
fn sub_lines(lines: &Vec<Vec<char>>, a: usize, b: usize) -> (r: Vec<Vec<char>>)
    requires
        a <= b <= lines@.len(),
    ensures
        r.deep_view() == lines.deep_view().subrange(a as int, b as int),
{
    broadcast use lemma_vec_char_deep_view, lemma_lines_deep_len, lemma_lines_deep_index;

    let mut r: Vec<Vec<char>> = Vec::new();
    let mut i: usize = a;
    proof {
        assert(r.deep_view() =~~= lines.deep_view().subrange(a as int, a as int));
    }
    while i < b
        invariant
            a <= i <= b <= lines@.len(),
            lines.deep_view().len() == lines@.len(),
            r.deep_view() == lines.deep_view().subrange(a as int, i as int),
        decreases b - i,
    {
        let ghost old_r = r.deep_view();
        r.push(copy_chars(&lines[i]));
        i = i + 1;
        proof {
            lemma_lines_deep_index(*lines, i - 1);
            assert(r.deep_view() =~~= old_r.push(lines.deep_view()[i - 1]));
            assert(lines.deep_view().subrange(a as int, i - 1).push(lines.deep_view()[i - 1])
                =~= lines.deep_view().subrange(a as int, i as int));
        }
    }
    r
}

fn chars1(a: char) -> (v: Vec<char>)
    ensures
        v@ == seq![a],
{
    let mut v: Vec<char> = Vec::new();
    v.push(a);
    proof {
        assert(v@ =~= seq![a]);
    }
    v
}

fn chars2(a: char, b: char) -> (v: Vec<char>)
    ensures
        v@ == seq![a, b],
{
    let mut v: Vec<char> = Vec::new();
    v.push(a);
    v.push(b);
    proof {
        assert(v@ =~= seq![a, b]);
    }
    v
}

fn chars3(a: char, b: char, c: char) -> (v: Vec<char>)
    ensures
        v@ == seq![a, b, c],
{
    let mut v: Vec<char> = Vec::new();
    v.push(a);
    v.push(b);
    v.push(c);
    proof {
        assert(v@ =~= seq![a, b, c]);
    }
    v
}

/// The lines of one paragraph of input, ready for analysis.
pub struct Input {
    lines: Vec<Vec<char>>,
}

impl View for Input {
    type V = Seq<Seq<char>>;

    closed spec fn view(&self) -> Seq<Seq<char>> {
        self.lines.deep_view()
    }
}

impl Input {
    /// The lines of a paragraph always fit in memory together.
    #[verifier::type_invariant]
    spec fn wf(&self) -> bool {
        sum_lens(self.lines.deep_view()) <= usize::MAX
    }

    /// Split a paragraph into its lines.
    pub fn with_input(input: &str) -> (r: Self)
        ensures
            r@ == lines_of(input@),
    {
        let cs = chars_of(input);
        let n = cs.len();
        let lines = split_lines(&cs);
        proof {
            assert(sum_lens(lines.deep_view()) <= n);
        }
        Input { lines }
    }

    /// Quote analysis: partition the lines into maximal runs of equal quote
    /// level, each run collected under the signature text of its first line.
    /// Not applicable when no line is quoted.
    pub fn analyze_quotes(&self) -> (r: Option<Vec<Block>>)
        ensures
            r is Some <==> analyze_quotes_s(self@) is Some,
            r matches Some(bs) ==> Some(blocks_view(bs@)) == analyze_quotes_s(self@),
            r matches Some(bs) ==> forall|b: int|
                0 <= b < bs@.len() ==> sum_lens(#[trigger] bs@[b]@.words) <= usize::MAX,
    {
        proof {
            use_type_invariant(&*self);
        }
        broadcast use lemma_vec_char_deep_view, lemma_lines_deep_len, lemma_lines_deep_index;

        let ghost ld = self.lines.deep_view();
        let n = self.lines.len();
        let mut any = false;
        let mut i: usize = 0;
        while i < n
            invariant_except_break
                i <= n,
                n == self.lines@.len(),
                ld == self.lines.deep_view(),
                !any,
                forall|k: int| 0 <= k < i ==> quote_level(#[trigger] ld[k]) == 0,
            ensures
                ld == self.lines.deep_view(),
                n == self.lines@.len(),
                any == has_quotes(ld),
            decreases n - i,
        {
            let (lv, _sig) = get_quotes(&self.lines[i]);
            if lv > 0 {
                any = true;
                proof {
                    lemma_lines_deep_index(self.lines, i as int);
                    assert(quote_level(ld[i as int]) > 0);
                }
                break;
            }
            proof {
                lemma_lines_deep_index(self.lines, i as int);
            }
            i = i + 1;
        }
        if !any {
            return Option::None;
        }
        let mut bs: Vec<Block> = Vec::new();
        let mut i: usize = 0;
        proof {
            assert(ld.skip(0) =~= ld);
            assert(blocks_view(bs@) =~= Seq::<BlockModel>::empty());
            assert(Seq::<BlockModel>::empty() + quote_blocks(ld, true) =~= quote_blocks(ld, true));
        }
        while i < n
            invariant
                i <= n,
                n == self.lines@.len(),
                ld == self.lines.deep_view(),
                forall|k: int| 0 <= k < n ==> #[trigger] ld[k] == self.lines@[k]@,
                sum_lens(ld) <= usize::MAX,
                quote_blocks(ld, true) == blocks_view(bs@) + quote_blocks(
                    ld.skip(i as int),
                    i == 0,
                ),
                forall|b: int|
                    0 <= b < bs@.len() ==> sum_lens(#[trigger] bs@[b]@.words) <= usize::MAX,
            decreases n - i,
    {
            let (lv, sig) = get_quotes(&self.lines[i]);
            let pfx = if i == 0 && lv == 0 {
                Vec::new()
            } else {
                sig
            };
            let mut j: usize = i + 1;
            while j < n
                invariant_except_break
                    i < j <= n,
                    n == self.lines@.len(),
                    ld == self.lines.deep_view(),
                    forall|k: int| 0 <= k < n ==> #[trigger] ld[k] == self.lines@[k]@,
                    lv == quote_level(ld[i as int]),
                    forall|k: int| i <= k < j ==> quote_level(#[trigger] ld[k]) == lv,
                ensures
                    i < j <= n,
                    forall|k: int| i <= k < j ==> quote_level(#[trigger] ld[k]) == lv,
                    j < n ==> quote_level(ld[j as int]) != lv,
                decreases n - j,
            {
                let (lv2, _sig2) = get_quotes(&self.lines[j]);
                if lv2 != lv {
                    break;
                }
                j = j + 1;
            }
            let ghost rest = ld.skip(i as int);
            let ghost g = ld.subrange(i as int, j as int);
            proof {
                assert(forall|k: int| 0 <= k < rest.len() ==> rest[k] == ld[i + k]);
                lemma_level_run_is(rest, lv as nat, j - i);
                assert(rest.take(j - i) =~= g);
                assert(rest.skip(j - i) =~= ld.skip(j as int));
                assert(rest[0] == ld[i as int]);
                assert(quote_blocks(rest, i == 0) == collect_blocks_s(g, pfx@, Seq::empty())
                    + quote_blocks(ld.skip(j as int), false));
            }
            let seg = sub_lines(&self.lines, i, j);
            let empty_sfx: Vec<char> = Vec::new();
            let mut blocks = collect_blocks(&seg, &pfx, &empty_sfx);
            proof {
                assert(empty_sfx@ =~= Seq::<char>::empty());
                assert(blocks_view(blocks@) == collect_blocks_s(g, pfx@, Seq::empty()));
                lemma_sum_lens_subrange(ld, i as int, j as int);
            }
            let ghost old_bs = blocks_view(bs@);
            let ghost new_bs = blocks_view(blocks@);
            bs.append(&mut blocks);
            i = j;
            proof {
                assert(blocks_view(bs@) =~= old_bs + new_bs);
                assert((old_bs + new_bs) + quote_blocks(ld.skip(i as int), false) =~= old_bs
                    + (new_bs + quote_blocks(ld.skip(i as int), false)));
            }
        }
        proof {
            assert(ld.skip(n as int) =~= Seq::<Seq<char>>::empty());
            assert(quote_blocks(Seq::<Seq<char>>::empty(), false) == Seq::<BlockModel>::empty());
            assert(blocks_view(bs@) + Seq::<BlockModel>::empty() =~= blocks_view(bs@));
        }
        Option::Some(bs)
    }

    /// Code-comment analysis: probe the first line for an indented comment
    /// opener and collect all lines under that prefix when every line starts
    /// with it.
    pub fn analyze_code_comments(&self) -> (r: Option<Vec<Block>>)
        ensures
            r is Some <==> analyze_code_comments_s(self@) is Some,
            r matches Some(bs) ==> Some(blocks_view(bs@)) == analyze_code_comments_s(self@),
            r matches Some(bs) ==> forall|b: int|
                0 <= b < bs@.len() ==> sum_lens(#[trigger] bs@[b]@.words) <= usize::MAX,
    {
        proof {
            use_type_invariant(&*self);
        }
        broadcast use lemma_vec_char_deep_view, lemma_lines_deep_len, lemma_lines_deep_index;

        let ghost ld = self.lines.deep_view();
        if self.lines.len() == 0 {
            return Option::None;
        }
        proof {
            lemma_lines_deep_index(self.lines, 0);
        }
        let f = &self.lines[0];
        let mut st: usize = 0;
        while st < f.len()
            invariant_except_break
                st <= f@.len(),
                forall|k: int| 0 <= k < st ==> is_ascii_ws(f@[k]),
            ensures
                st <= f@.len(),
                forall|k: int| 0 <= k < st ==> is_ascii_ws(f@[k]),
                st < f@.len() ==> !is_ascii_ws(f@[st as int]),
            decreases f@.len() - st,
        {
            if !is_ascii_ws_char(f[st]) {
                break;
            }
            st = st + 1;
        }
        proof {
            lemma_ascii_ws_run_is(f@, st as int);
        }
        if st >= f.len() {
            return Option::None;
        }
        let tail = subvec(f, st, f.len());
        proof {
            assert(tail@ =~= f@.skip(st as int));
        }
        let m: usize;
        if starts_with(&tail, &chars3('/', '/', '/')) {
            m = 3;
        } else if starts_with(&tail, &chars2('/', '/')) {
            m = 2;
        } else if starts_with(&tail, &chars1('#')) {
            m = 1;
        } else if starts_with(&tail, &chars2(';', ';')) {
            m = 2;
        } else if starts_with(&tail, &chars1(';')) {
            m = 1;
        } else if starts_with(&tail, &chars2('-', '-')) {
            m = 2;
        } else {
            proof {
                assert(style_len(f@.skip(st as int)) == 0);
            }
            return Option::None;
        }
        proof {
            assert(style_len(f@.skip(st as int)) == m);
        }
        if f.len() - st < m + 1 {
            return Option::None;
        }
        let pat = subvec(f, 0, st + m + 1);
        proof {
            assert(pat@ =~= f@.take((st + m + 1) as int));
        }
        let n = self.lines.len();
        let mut i: usize = 0;
        while i < n
            invariant_except_break
                i <= n,
                n == self.lines@.len(),
                ld == self.lines.deep_view(),
                forall|k: int| 0 <= k < i ==> starts_with_s(#[trigger] ld[k], pat@),
            ensures
                n == self.lines@.len(),
                ld == self.lines.deep_view(),
                i <= n,
                forall|k: int| 0 <= k < i ==> starts_with_s(#[trigger] ld[k], pat@),
                i < n ==> !starts_with_s(ld[i as int], pat@),
            decreases n - i,
        {
            proof {
                lemma_lines_deep_index(self.lines, i as int);
            }
            if !starts_with(&self.lines[i], &pat) {
                break;
            }
            i = i + 1;
        }
        if i < n {
            return Option::None;
        }
        let empty_sfx: Vec<char> = Vec::new();
        let blocks = collect_blocks(&self.lines, &pat, &empty_sfx);
        proof {
            assert(empty_sfx@ =~= Seq::<char>::empty());
        }
        Option::Some(blocks)
    }

    /// The blocks of the surrounding-affix analysis, which always applies.
    fn surround_blocks(&self) -> (bs: Vec<Block>)
        ensures
            blocks_view(bs@) == analyze_surround_s(self@),
            forall|b: int|
                0 <= b < bs@.len() ==> sum_lens(#[trigger] bs@[b]@.words) <= usize::MAX,
    {
        proof {
            use_type_invariant(&*self);
        }
        let p = common_prefix_vec(&self.lines);
        let s = common_suffix_vec(&self.lines);
        if eq_chars(&p, &s) && p.len() > 0 {
            let e1: Vec<char> = Vec::new();
            let e2: Vec<char> = Vec::new();
            let bs = collect_blocks(&self.lines, &e1, &e2);
            proof {
                assert(e1@ =~= Seq::<char>::empty());
                assert(e2@ =~= Seq::<char>::empty());
            }
            bs
        } else {
            collect_blocks(&self.lines, &p, &s)
        }
    }

    /// Surrounding-affix analysis: the longest common prefix and suffix of
    /// every line, both discarded when they coincide and are non-empty.
    pub fn analyze_surround(&self) -> (r: Option<Vec<Block>>)
        ensures
            r is Some,
            r matches Some(bs) ==> blocks_view(bs@) == analyze_surround_s(self@),
            r matches Some(bs) ==> forall|b: int|
                0 <= b < bs@.len() ==> sum_lens(#[trigger] bs@[b]@.words) <= usize::MAX,
    {
        Option::Some(self.surround_blocks())
    }

    /// Run the strategies in the order the mode asks for, and return the
    /// first applicable result.
    pub fn analyze(&self, mode: FormatMode) -> (bs: Vec<Block>)
        ensures
            blocks_view(bs@) == analyze_s(mode, self@),
            forall|b: int|
                0 <= b < bs@.len() ==> sum_lens(#[trigger] bs@[b]@.words) <= usize::MAX,
    {
        match mode {
            FormatMode::Code => {
                match self.analyze_code_comments() {
                    Option::Some(bs) => {
                        return bs;
                    },
                    Option::None => {},
                }
            },
            _ => {},
        }
        match self.analyze_quotes() {
            Option::Some(bs) => bs,
            Option::None => self.surround_blocks(),
        }
    }
}

} // verus!
