//! Optimal line breaking: choose break points over a word stream so that
//! every line fits a target width and the quadratic raggedness cost is
//! minimal, by a single-source shortest path over word boundaries.

use vstd::prelude::*;

use crate::text::{sum_lens, text_cells, lemma_text_cells_bound, width_of, lemma_lines_deep_len,
    lemma_lines_deep_index, lemma_vec_char_deep_view, lemma_sum_lens_push};

verus! {

/// Offsets never decrease.
pub open spec fn monotone(offs: Seq<u128>) -> bool {
    forall|a: int, b: int| 0 <= a <= b < offs.len() ==> #[trigger] offs[a] <= #[trigger] offs[b]
}

/// Display width of the line holding words `[i, j)`: the words' cells plus
/// one space between each adjacent pair.
pub open spec fn line_cells(offs: Seq<u128>, i: int, j: int) -> int {
    offs[j] - offs[i] + (j - i - 1)
}

/// Whether the line holding words `[i, j)` fits within `target` cells.
pub open spec fn fits(offs: Seq<u128>, target: u128, i: int, j: int) -> bool {
    0 <= i < j < offs.len() && line_cells(offs, i, j) <= target
}

/// An edge of the break graph: either the line fits, or (when overage is
/// allowed) a bail-out step to the very next word.
pub open spec fn is_edge(offs: Seq<u128>, target: u128, allow: bool, i: int, j: int) -> bool {
    fits(offs, target, i, j) || (allow && 0 <= i && j == i + 1 && j < offs.len())
}

/// Cost of an edge: a bail-out step costs `BAIL_COST`; the final line is
/// free unless `last_line` asks to penalize it; any other line pays the
/// square of its unused width.
pub open spec fn edge_cost(offs: Seq<u128>, target: u128, last_line: bool, i: int, j: int) -> int {
    if !fits(offs, target, i, j) {
        100000
    } else if j == offs.len() - 1 && !last_line {
        0
    } else {
        (target - line_cells(offs, i, j)) * (target - line_cells(offs, i, j))
    }
}

/// A valid break assignment: a path of edges from boundary `0` to the last
/// boundary.
pub open spec fn valid_path(offs: Seq<u128>, target: u128, allow: bool, p: Seq<usize>) -> bool {
    &&& p.len() >= 1
    &&& p[0] == 0usize
    &&& p[p.len() - 1] as int == offs.len() - 1
    &&& forall|k: int|
        0 <= k < p.len() - 1 ==> is_edge(offs, target, allow, #[trigger] p[k] as int, p[k + 1] as int)
}

/// Total cost of a path: the sum of its edges' costs.
pub open spec fn path_cost(offs: Seq<u128>, target: u128, last_line: bool, p: Seq<usize>) -> int
    decreases p.len(),
{
    if p.len() <= 1 {
        0
    } else {
        edge_cost(offs, target, last_line, p[0] as int, p[1] as int) + path_cost(
            offs,
            target,
            last_line,
            p.drop_first(),
        )
    }
}

/// The successors of boundary `i`: one edge to each later boundary whose
/// line fits, enumerated in ascending order; when none fits and overage is
/// allowed, a single bail-out edge to the next boundary.
pub fn successors(offs: &Vec<u128>, i: usize, target: u128, allow: bool, last_line: bool) -> (res:
    Vec<(usize, u128)>)
    requires
        monotone(offs@),
        offs@.len() >= 1,
        target <= u32::MAX as u128,
        offs@[offs@.len() - 1] + offs@.len() <= u128::MAX,
    ensures
        forall|k: int|
            0 <= k < res@.len() ==> (#[trigger] res@[k]).0 as int == i + 1 + k && is_edge(
                offs@,
                target,
                allow,
                i as int,
                i + 1 + k,
            ) && res@[k].1 as int == edge_cost(offs@, target, last_line, i as int, i + 1 + k),
        forall|j: int| is_edge(offs@, target, allow, i as int, j) ==> i < j <= i + res@.len(),
{
    let n = offs.len();
    let mut res: Vec<(usize, u128)> = Vec::new();
    if i >= n - 1 {
        proof {
            assert(forall|j: int|
                is_edge(offs@, target, allow, i as int, j) ==> i < j <= i + res@.len());
        }
        return res;
    }
    let mut j: usize = i + 1;
    while j < n
        invariant_except_break
            i < j <= n,
            n == offs@.len(),
            monotone(offs@),
            target <= u32::MAX as u128,
            offs@[n - 1] + n <= u128::MAX,
            res@.len() == j - i - 1,
            forall|k: int| i < k < j ==> fits(offs@, target, i as int, k),
            forall|k: int|
                0 <= k < res@.len() ==> (#[trigger] res@[k]).0 as int == i + 1 + k && is_edge(
                    offs@,
                    target,
                    allow,
                    i as int,
                    i + 1 + k,
                ) && res@[k].1 as int == edge_cost(offs@, target, last_line, i as int, i + 1 + k),
        ensures
            i < j <= n,
            n == offs@.len(),
            forall|k: int| i < k < j ==> fits(offs@, target, i as int, k),
            forall|k: int|
                0 <= k < res@.len() ==> (#[trigger] res@[k]).0 as int == i + 1 + k && is_edge(
                    offs@,
                    target,
                    allow,
                    i as int,
                    i + 1 + k,
                ) && res@[k].1 as int == edge_cost(offs@, target, last_line, i as int, i + 1 + k),
            j < n ==> !fits(offs@, target, i as int, j as int),
            j < n && allow && j == i + 1 ==> res@.len() == 1,
            j < n && !(allow && j == i + 1) ==> res@.len() == j - i - 1,
            j == n ==> res@.len() == j - i - 1,
        decreases n - j,
    {
        proof {
            assert(offs@[i as int] <= offs@[j as int]);
        }
        let linew: u128 = offs[j] - offs[i] + ((j - i - 1) as u128);
        proof {
            assert(linew as int == line_cells(offs@, i as int, j as int));
        }
        if linew > target {
            if res.len() == 0 && allow {
                res.push((j, 100000u128));
                proof {
                    assert(res@.len() == 1);
                    assert(res@[0].0 == j);
                    assert(j == i + 1);
                    assert(!fits(offs@, target, i as int, j as int));
                    assert(res@[0].1 as int == edge_cost(
                        offs@,
                        target,
                        last_line,
                        i as int,
                        i + 1,
                    ));
                }
            }
            break;
        }
        let cost: u128 = if j > n - 2 && !last_line {
            0
        } else {
            let d: u128 = target - linew;
            proof {
                assert(d * d <= (u32::MAX as u128) * (u32::MAX as u128)) by (nonlinear_arith)
                    requires
                        d <= u32::MAX as u128,
                ;
            }
            d * d
        };
        proof {
            assert(fits(offs@, target, i as int, j as int));
            assert(cost as int == edge_cost(offs@, target, last_line, i as int, j as int));
        }
        res.push((j, cost));
        j = j + 1;
    }
    proof {
        assert forall|j2: int| is_edge(offs@, target, allow, i as int, j2) implies i < j2 <= i
            + res@.len() by {
            if fits(offs@, target, i as int, j2) {
                if j2 > i + res@.len() && (j as int) < n {
                    // widths only grow with more words, so nothing past the
                    // first overflowing boundary fits
                    assert(offs@[j as int] <= offs@[j2]);
                    assert(line_cells(offs@, i as int, j as int) <= line_cells(
                        offs@,
                        i as int,
                        j2,
                    ));
                    assert(false);
                }
            }
        }
    }
    res
}

/// Relies on `pathfinding::prelude::dijkstra`: it returns a shortest path
/// from the start node to a node satisfying the success predicate, as the
/// node list (both ends included) and the summed cost of its edges, taking
/// the edges and costs from the successors closure; `None` comes back
/// exactly when no such path exists. Every path in this graph visits
/// strictly increasing boundaries, so it has fewer than `offs.len()` edges
/// of cost at most `max(target^2, 100000) <= 2^64` each, and the summed
/// costs stay far below `u128::MAX`.
#[verifier::external_body]
fn dijkstra_breaks(offs: &Vec<u128>, target: u128, allow: bool, last_line: bool) -> (r: Option<
    (Vec<usize>, u128),
>)
    requires
        monotone(offs@),
        offs@.len() >= 1,
        target <= u32::MAX as u128,
        offs@[offs@.len() - 1] + offs@.len() <= u128::MAX,
    ensures
        r matches Some(pc) ==> valid_path(offs@, target, allow, pc.0@) && pc.1 as int == path_cost(
            offs@,
            target,
            last_line,
            pc.0@,
        ) && (forall|q: Seq<usize>|
            valid_path(offs@, target, allow, q) ==> path_cost(offs@, target, last_line, q)
                >= pc.1 as int),
        r is None ==> !(exists|q: Seq<usize>| valid_path(offs@, target, allow, q)),
{
    let goal = offs.len() - 1;
    pathfinding::prelude::dijkstra(
        &0usize,
        |i: &usize| successors(offs, *i, target, allow, last_line),
        |i: &usize| *i == goal,
    )
}

/// Sum of the widths of the first `i` words.
pub open spec fn word_cells_prefix(ws: Seq<Seq<char>>, i: int) -> nat
    decreases i,
{
    if i <= 0 {
        0
    } else {
        word_cells_prefix(ws, i - 1) + text_cells(ws[i - 1])
    }
}

/// The optimizer's boundary offsets for a word stream: entry `i` is the
/// total width of the first `i` words.
pub open spec fn offsets_of(ws: Seq<Seq<char>>) -> Seq<u128> {
    Seq::new(ws.len() + 1, |i: int| word_cells_prefix(ws, i) as u128)
}

/// The prefix sums of word widths are bounded by three cells per character.
pub proof fn lemma_word_cells_prefix_bound(ws: Seq<Seq<char>>, i: int)
    requires
        0 <= i <= ws.len(),
    ensures
        word_cells_prefix(ws, i) <= 3 * sum_lens(ws.take(i)),
    decreases i,
{
    if i > 0 {
        lemma_word_cells_prefix_bound(ws, i - 1);
        lemma_text_cells_bound(ws[i - 1]);
        lemma_sum_lens_push(ws.take(i - 1), ws[i - 1]);
        assert(ws.take(i - 1).push(ws[i - 1]) =~= ws.take(i));
    }
}

pub proof fn lemma_word_cells_prefix_mono(ws: Seq<Seq<char>>, a: int, b: int)
    requires
        a <= b,
    ensures
        word_cells_prefix(ws, a) <= word_cells_prefix(ws, b),
    decreases b - a,
{
    if a < b {
        lemma_word_cells_prefix_mono(ws, a, b - 1);
    }
}

/// The boundary offsets of a word stream whose characters fit in memory are
/// monotone and leave ample headroom in their type.
pub proof fn lemma_offsets_of(ws: Seq<Seq<char>>)
    requires
        sum_lens(ws) <= usize::MAX,
        ws.len() <= usize::MAX,
    ensures
        offsets_of(ws).len() == ws.len() + 1,
        monotone(offsets_of(ws)),
        forall|i: int|
            0 <= i <= ws.len() ==> #[trigger] offsets_of(ws)[i] as int == word_cells_prefix(ws, i),
        offsets_of(ws)[ws.len() as int] + offsets_of(ws).len() <= u128::MAX,
        offsets_of(ws)[0] == 0,
{
    assert forall|i: int| 0 <= i <= ws.len() implies word_cells_prefix(ws, i) <= 3 * (
    usize::MAX as int) by {
        lemma_word_cells_prefix_bound(ws, i);
        assert(ws.take(i) =~= ws.subrange(0, i));
        crate::analysis::lemma_sum_lens_subrange(ws, 0, i);
    }
    assert forall|a: int, b: int|
        0 <= a <= b < offsets_of(ws).len() implies #[trigger] offsets_of(ws)[a]
        <= #[trigger] offsets_of(ws)[b] by {
        lemma_word_cells_prefix_mono(ws, a, b);
    }
}

/// Every break path under allowed overage exists: stepping one word at a
/// time is always possible.
pub proof fn lemma_trivial_path(offs: Seq<u128>, target: u128)
    requires
        1 <= offs.len() <= usize::MAX + 1,
    ensures
        exists|q: Seq<usize>| valid_path(offs, target, true, q),
{
    let q = Seq::new(offs.len(), |k: int| k as usize);
    assert(valid_path(offs, target, true, q));
}

/// A path without bail-out edges is also a path with them allowed.
pub proof fn lemma_valid_path_weaken(offs: Seq<u128>, target: u128, p: Seq<usize>)
    requires
        valid_path(offs, target, false, p),
    ensures
        valid_path(offs, target, true, p),
{
    assert forall|k: int| 0 <= k < p.len() - 1 implies is_edge(
        offs,
        target,
        true,
        #[trigger] p[k] as int,
        p[k + 1] as int,
    ) by {
        assert(is_edge(offs, target, false, p[k] as int, p[k + 1] as int));
    }
}

/// Choose optimal break points for `words` under `target`. The result is a
/// valid break path; when some break assignment avoids overage the result
/// avoids it too and has minimal cost among such assignments; otherwise it
/// has minimal cost among the assignments with bail-out steps.
pub fn solve(words: &Vec<Vec<char>>, target: u128, last_line: bool) -> (r: (Vec<usize>, u128))
    requires
        sum_lens(words.deep_view()) <= usize::MAX,
        target <= u32::MAX as u128,
    ensures
        valid_path(offsets_of(words.deep_view()), target, true, r.0@),
        r.1 as int == path_cost(offsets_of(words.deep_view()), target, last_line, r.0@),
        forall|q: Seq<usize>|
            valid_path(offsets_of(words.deep_view()), target, false, q) ==> path_cost(
                offsets_of(words.deep_view()),
                target,
                last_line,
                q,
            ) >= r.1 as int,
        (exists|q: Seq<usize>| valid_path(offsets_of(words.deep_view()), target, false, q))
            ==> valid_path(offsets_of(words.deep_view()), target, false, r.0@),
        !(exists|q: Seq<usize>| valid_path(offsets_of(words.deep_view()), target, false, q))
            ==> forall|q: Seq<usize>|
            valid_path(offsets_of(words.deep_view()), target, true, q) ==> path_cost(
                offsets_of(words.deep_view()),
                target,
                last_line,
                q,
            ) >= r.1 as int,
{
    broadcast use lemma_lines_deep_len, lemma_lines_deep_index, lemma_vec_char_deep_view;

    let ghost wd = words.deep_view();
    let n = words.len();
    let mut offs: Vec<u128> = Vec::new();
    offs.push(0);
    let mut off: u128 = 0;
    let mut k: usize = 0;
    proof {
        lemma_offsets_of(wd);
    }
    while k < n
        invariant
            k <= n,
            n == words@.len(),
            wd == words.deep_view(),
            wd.len() == n,
            sum_lens(wd) <= usize::MAX,
            offs@.len() == k + 1,
            off == offs@[k as int],
            forall|t: int| 0 <= t <= k ==> #[trigger] offs@[t] as int == word_cells_prefix(wd, t),
        decreases n - k,
    {
        let w = width_of(&words[k]);
        proof {
            lemma_offsets_of(wd);
            assert(words@[k as int].deep_view() == words@[k as int]@);
            assert(wd[k as int] == words@[k as int]@);
            assert(w == text_cells(wd[k as int]));
            assert(word_cells_prefix(wd, k + 1) == word_cells_prefix(wd, k as int) + text_cells(
                wd[k as int],
            ));
            assert(offsets_of(wd)[k + 1] as int == word_cells_prefix(wd, k + 1));
            assert(offsets_of(wd)[k as int] as int == word_cells_prefix(wd, k as int));
            assert(monotone(offsets_of(wd)));
            assert(offsets_of(wd)[k + 1] <= offsets_of(wd)[wd.len() as int]);
            assert(off + w == word_cells_prefix(wd, k + 1));
        }
        off = off + w;
        offs.push(off);
        k = k + 1;
    }
    proof {
        lemma_offsets_of(wd);
        assert(offs@ =~= offsets_of(wd));
    }
    let r1 = dijkstra_breaks(&offs, target, false, last_line);
    match r1 {
        Option::Some(pc) => {
            proof {
                lemma_valid_path_weaken(offs@, target, pc.0@);
            }
            pc
        },
        Option::None => {
            let r2 = dijkstra_breaks(&offs, target, true, last_line);
            match r2 {
                Option::Some(pc) => pc,
                Option::None => {
                    proof {
                        lemma_trivial_path(offs@, target);
                        assert(false);
                    }
                    vstd::pervasive::unreached()
                },
            }
        },
    }
}

} // verus!
