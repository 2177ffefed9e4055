//! Palette reduction: frequency-ranked palette extraction followed by
//! nearest-color remapping.
use vstd::prelude::*;
use std::collections::HashMap;
use crate::pixel::{Image, Rgba};

verus! {

broadcast use vstd::std_specs::hash::group_hash_axioms;

/// Number of times `c` occurs in `s`.
pub open spec fn occurrences(s: Seq<Rgba>, c: Rgba) -> nat
    decreases s.len(),
{
    if s.len() == 0 {
        0
    } else {
        occurrences(s.drop_last(), c) + if s.last() == c { 1nat } else { 0nat }
    }
}

/// The distinct colors of `s`, in order of first appearance.
pub open spec fn distinct(s: Seq<Rgba>) -> Seq<Rgba>
    decreases s.len(),
{
    if s.len() == 0 {
        Seq::empty()
    } else {
        let d = distinct(s.drop_last());
        if d.contains(s.last()) {
            d
        } else {
            d.push(s.last())
        }
    }
}

/// The occurrence count of each distinct color, in order of first appearance.
pub open spec fn frequencies(s: Seq<Rgba>) -> Seq<nat> {
    distinct(s).map_values(|c: Rgba| occurrences(s, c))
}

/// Entry `i` ranks above entry `j`: it is more frequent, or as frequent and
/// seen first.
pub open spec fn ranks_above(f: Seq<nat>, i: int, j: int) -> bool {
    f[i] > f[j] || (f[i] == f[j] && i < j)
}

/// `idx` lists, best first, the `min(k, f.len())` entries of `f` that rank
/// highest.
pub open spec fn is_top_ranking(f: Seq<nat>, k: nat, idx: Seq<int>) -> bool {
    &&& idx.len() == if k < f.len() { k } else { f.len() }
    &&& forall|m: int| 0 <= m < idx.len() ==> 0 <= #[trigger] idx[m] < f.len()
    &&& forall|m1: int, m2: int|
        0 <= m1 < m2 < idx.len() ==> ranks_above(f, #[trigger] idx[m1], #[trigger] idx[m2])
    &&& forall|j: int, m: int|
        0 <= j < f.len() && !idx.contains(j) && 0 <= m < idx.len() ==> #[trigger] ranks_above(
            f,
            idx[m],
            j,
        )
}

/// Squared Euclidean distance of two colors over all four channels.
pub open spec fn sq_distance(c1: Rgba, c2: Rgba) -> int {
    let dr = c1.r - c2.r;
    let dg = c1.g - c2.g;
    let db = c1.b - c2.b;
    let da = c1.a - c2.a;
    dr * dr + dg * dg + db * db + da * da
}

/// The palette entry closest to `p`; of equally close entries, the first.
pub open spec fn nearest(p: Rgba, pal: Seq<Rgba>) -> Rgba
    decreases pal.len(),
{
    if pal.len() <= 1 {
        pal[0]
    } else {
        let c = nearest(p, pal.drop_last());
        if sq_distance(p, pal.last()) < sq_distance(p, c) {
            pal.last()
        } else {
            c
        }
    }
}

/// Every pixel replaced by its nearest palette entry.
pub open spec fn remap(s: Seq<Rgba>, pal: Seq<Rgba>) -> Seq<Rgba> {
    s.map_values(|p: Rgba| nearest(p, pal))
}

/// `out` is `s` reduced to the palette of its `budget` most frequent colors
/// (ties broken by first appearance); a budget of zero leaves `s` unchanged.
pub open spec fn is_quantized(s: Seq<Rgba>, budget: nat, out: Seq<Rgba>) -> bool {
    if budget == 0 {
        out == s
    } else {
        exists|idx: Seq<int>|
            is_top_ranking(frequencies(s), budget, idx) && out == remap(
                s,
                idx.map_values(|j: int| distinct(s)[j]),
            )
    }
}

/// Squared Euclidean distance of two colors.
pub fn color_distance(c1: &Rgba, c2: &Rgba) -> (r: u32)
    ensures
        r == sq_distance(*c1, *c2),
{
    let dr: i32 = c1.r as i32 - c2.r as i32;
    let dg: i32 = c1.g as i32 - c2.g as i32;
    let db: i32 = c1.b as i32 - c2.b as i32;
    let da: i32 = c1.a as i32 - c2.a as i32;
    assert(0 <= dr * dr <= 255 * 255) by (nonlinear_arith)
        requires -255 <= dr <= 255;
    assert(0 <= dg * dg <= 255 * 255) by (nonlinear_arith)
        requires -255 <= dg <= 255;
    assert(0 <= db * db <= 255 * 255) by (nonlinear_arith)
        requires -255 <= db <= 255;
    assert(0 <= da * da <= 255 * 255) by (nonlinear_arith)
        requires -255 <= da <= 255;
    (dr * dr + dg * dg + db * db + da * da) as u32
}

/// The palette entry nearest to `input`; the first one on a tie.
pub fn closest_color(input: &Rgba, palette: &[Rgba]) -> (r: Rgba)
    requires
        palette@.len() > 0,
    ensures
        r == nearest(*input, palette@),
{
    let mut closest = palette[0];
    let mut min_distance = color_distance(input, &palette[0]);
    let mut k: usize = 1;
    assert(palette@.take(1).drop_last().len() == 0);
    while k < palette.len()
        invariant
            1 <= k <= palette@.len(),
            closest == nearest(*input, palette@.take(k as int)),
            min_distance == sq_distance(*input, closest),
        decreases palette@.len() - k,
    {
        let distance = color_distance(input, &palette[k]);
        proof {
            let t = palette@.take(k as int + 1);
            assert(t.drop_last() =~= palette@.take(k as int));
        }
        if distance < min_distance {
            min_distance = distance;
            closest = palette[k];
        }
        k += 1;
    }
    assert(palette@.take(palette@.len() as int) =~= palette@);
    closest
}


/// A color packed into one integer, channels from high byte to low.
spec fn color_key(c: Rgba) -> u32 {
    (c.r as u32) << 24u32 | (c.g as u32) << 16u32 | (c.b as u32) << 8u32 | (c.a as u32)
}

proof fn lemma_color_key_injective(c1: Rgba, c2: Rgba)
    ensures
        color_key(c1) == color_key(c2) ==> c1 == c2,
{
    let (r1, g1, b1, a1) = (c1.r, c1.g, c1.b, c1.a);
    let (r2, g2, b2, a2) = (c2.r, c2.g, c2.b, c2.a);
    assert(((r1 as u32) << 24u32 | (g1 as u32) << 16u32 | (b1 as u32) << 8u32 | (a1 as u32)) == (
    (r2 as u32) << 24u32 | (g2 as u32) << 16u32 | (b2 as u32) << 8u32 | (a2 as u32)) ==> r1 == r2
        && g1 == g2 && b1 == b2 && a1 == a2) by (bit_vector);
}

fn key_of(c: &Rgba) -> (r: u32)
    ensures
        r == color_key(*c),
{
    (c.r as u32) << 24u32 | (c.g as u32) << 16u32 | (c.b as u32) << 8u32 | (c.a as u32)
}

/// A color that `distinct` does not list does not occur.
proof fn lemma_occurrences_absent(s: Seq<Rgba>, c: Rgba)
    requires
        !distinct(s).contains(c),
    ensures
        occurrences(s, c) == 0,
    decreases s.len(),
{
    if s.len() > 0 {
        let d = distinct(s.drop_last());
        if !d.contains(s.last()) {
            assert(distinct(s)[d.len() as int] == s.last());
        }
        if d.contains(c) {
            let k = choose|k: int| 0 <= k < d.len() && d[k] == c;
            assert(distinct(s)[k] == c);
        }
        lemma_occurrences_absent(s.drop_last(), c);
    }
}

/// The distinct colors of `pixels` in order of first appearance, each with
/// its number of occurrences.
fn count_colors(pixels: &Vec<Rgba>) -> (res: (Vec<Rgba>, Vec<usize>))
    ensures
        res.0@ == distinct(pixels@),
        res.1@.len() == res.0@.len(),
        forall|j: int|
            0 <= j < res.1@.len() ==> res.1@[j] == occurrences(pixels@, #[trigger] res.0@[j]),
{
    let mut colors: Vec<Rgba> = Vec::new();
    let mut counts: Vec<usize> = Vec::new();
    let mut index_of: HashMap<u32, usize> = HashMap::new();
    let n = pixels.len();
    let mut i: usize = 0;
    while i < n
        invariant
            n == pixels@.len(),
            i <= n,
            colors@ == distinct(pixels@.take(i as int)),
            colors@.no_duplicates(),
            counts@.len() == colors@.len(),
            forall|j: int|
                0 <= j < counts@.len() ==> counts@[j] == occurrences(
                    pixels@.take(i as int),
                    #[trigger] colors@[j],
                ) && counts@[j] <= i,
            forall|k: u32|
                #[trigger] index_of@.contains_key(k) ==> index_of@[k] < colors@.len()
                    && color_key(colors@[index_of@[k] as int]) == k,
            forall|j: int|
                0 <= j < colors@.len() ==> index_of@.contains_key(
                    color_key(#[trigger] colors@[j]),
                ),
        decreases n - i,
    {
        let p = pixels[i];
        let key = key_of(&p);
        let ghost prev = pixels@.take(i as int);
        let ghost t = pixels@.take(i as int + 1);
        assert(t.drop_last() =~= prev);
        assert(t.last() == p);
        match index_of.get(&key) {
            Some(j) => {
                let j = *j;
                proof {
                    lemma_color_key_injective(colors@[j as int], p);
                    assert(colors@[j as int] == p);
                    assert(distinct(prev).contains(p));
                }
                counts[j] = counts[j] + 1;
                assert forall|jj: int| 0 <= jj < counts@.len() implies counts@[jj] == occurrences(
                    t,
                    #[trigger] colors@[jj],
                ) && counts@[jj] <= i + 1 by {
                    assert(occurrences(t, colors@[jj]) == occurrences(prev, colors@[jj]) + if p
                        == colors@[jj] { 1nat } else { 0nat });
                }
            },
            None => {
                proof {
                    assert forall|j: int| 0 <= j < colors@.len() implies colors@[j] != p by {
                        assert(index_of@.contains_key(color_key(colors@[j])));
                    }
                    assert(!distinct(prev).contains(p));
                }
                index_of.insert(key, colors.len());
                colors.push(p);
                counts.push(1);
                assert forall|jj: int| 0 <= jj < counts@.len() implies counts@[jj] == occurrences(
                    t,
                    #[trigger] colors@[jj],
                ) && counts@[jj] <= i + 1 by {
                    assert(occurrences(t, colors@[jj]) == occurrences(prev, colors@[jj]) + if p
                        == colors@[jj] { 1nat } else { 0nat });
                    if jj == colors@.len() - 1 {
                        lemma_occurrences_absent(prev, p);
                    }
                }
            },
        }
        i += 1;
    }
    assert(pixels@.take(n as int) =~= pixels@);
    (colors, counts)
}


spec fn above(c: Seq<usize>, i: int, j: int) -> bool {
    c[i] > c[j] || (c[i] == c[j] && i < j)
}

spec fn below_all(c: Seq<usize>, top: Seq<usize>, j: int) -> bool {
    forall|m: int| 0 <= m < top.len() ==> #[trigger] above(c, top[m] as int, j)
}

/// Indices of the `min(budget, counts.len())` highest counts, best first;
/// equal counts are ranked by index.
fn top_ranking(counts: &Vec<usize>, budget: usize) -> (top: Vec<usize>)
    ensures
        top@.len() == if budget < counts@.len() { budget as int } else { counts@.len() as int },
        forall|m: int| 0 <= m < top@.len() ==> #[trigger] top@[m] < counts@.len(),
        forall|m1: int, m2: int|
            0 <= m1 < m2 < top@.len() ==> above(counts@, #[trigger] top@[m1] as int, #[trigger] top@[m2] as int),
        forall|j: int|
            0 <= j < counts@.len() && !top@.contains(j as usize) ==> #[trigger] below_all(counts@, top@, j),
{
    let d = counts.len();
    let mut top: Vec<usize> = Vec::new();
    let mut i: usize = 0;
    while i < d
        invariant
            d == counts@.len(),
            i <= d,
            top@.len() == if budget < i { budget as int } else { i as int },
            forall|m: int| 0 <= m < top@.len() ==> #[trigger] top@[m] < i,
            forall|m1: int, m2: int|
                0 <= m1 < m2 < top@.len() ==> above(counts@, #[trigger] top@[m1] as int, #[trigger] top@[m2] as int),
            forall|j: int| 0 <= j < i && !top@.contains(j as usize) ==> #[trigger] below_all(counts@, top@, j),
            top@.len() < budget ==> forall|j: int| 0 <= j < i ==> #[trigger] top@.contains(j as usize),
        decreases d - i,
    {
        let len = top.len();
        let ghost old_top = top@;
        if len < budget || (len > 0 && counts[i] > counts[top[len - 1]]) {
            let mut pos: usize = 0;
            while pos < len && counts[top[pos]] >= counts[i]
                invariant
                    len == top@.len(),
                    top@ == old_top,
                    pos <= len,
                    i < d == counts@.len(),
                    forall|m: int| 0 <= m < top@.len() ==> #[trigger] top@[m] < i,
                    forall|m: int| 0 <= m < pos ==> counts@[#[trigger] top@[m] as int] >= counts@[i as int],
                decreases len - pos,
            {
                pos += 1;
            }
            top.insert(pos, i);
            let ghost ins = top@;
            proof {
                old_top.insert_ensures(pos as int, i);
                assert forall|m1: int, m2: int| 0 <= m1 < m2 < ins.len() implies above(
                    counts@,
                    #[trigger] ins[m1] as int,
                    #[trigger] ins[m2] as int,
                ) by {
                    if m1 < pos as int && m2 > pos as int {
                        assert(above(counts@, old_top[m1] as int, old_top[m2 - 1] as int));
                    }
                    if m1 == pos as int && m2 > pos as int + 1 {
                        assert(above(counts@, old_top[pos as int] as int, old_top[m2 - 1] as int));
                    }
                    if m1 > pos as int {
                        assert(above(counts@, old_top[m1 - 1] as int, old_top[m2 - 1] as int));
                    }
                }
            }
            if top.len() > budget {
                top.pop();
                proof {
                    let r = old_top[len - 1];
                    assert(top@ =~= ins.drop_last());
                    assert(pos < len);
                    assert forall|j: int| 0 <= j < i + 1 && !top@.contains(j as usize) implies #[trigger] below_all(counts@, top@, j) by {
                        assert forall|m: int| 0 <= m < top@.len() implies #[trigger] above(counts@, top@[m] as int, j) by {
                            if m < len - 1 {
                                assert(above(counts@, ins[m] as int, ins[len as int] as int));
                            }
                            if j != r as int {
                                if j == i as int {
                                    assert(top@[pos as int] == i);
                                } else if old_top.contains(j as usize) {
                                    let a = choose|a: int| 0 <= a < old_top.len() && old_top[a] == j as usize;
                                    if a < pos {
                                        assert(top@[a] == j as usize);
                                    } else if a < len - 1 {
                                        assert(top@[a + 1] == j as usize);
                                    }
                                } else {
                                    assert(below_all(counts@, old_top, j));
                                    assert(above(counts@, old_top[len - 1] as int, j));
                                }
                            }
                        }
                    }
                }
            } else {
                proof {
                    assert forall|j: int| 0 <= j < i + 1 implies #[trigger] top@.contains(j as usize) by {
                        if j == i as int {
                            assert(top@[pos as int] == i);
                        } else {
                            assert(old_top.contains(j as usize));
                            let a = choose|a: int| 0 <= a < old_top.len() && old_top[a] == j as usize;
                            if a < pos {
                                assert(top@[a] == j as usize);
                            } else {
                                assert(top@[a + 1] == j as usize);
                            }
                        }
                    }
                }
            }
        } else {
            proof {
                assert forall|j: int| 0 <= j < i + 1 && !top@.contains(j as usize) implies #[trigger] below_all(counts@, top@, j) by {
                    if j == i as int {
                        assert forall|m: int| 0 <= m < top@.len() implies #[trigger] above(counts@, top@[m] as int, j) by {
                            if m < len - 1 {
                                assert(above(counts@, top@[m] as int, top@[len - 1] as int));
                            }
                        }
                    }
                }
            }
        }
        i += 1;
    }
    top
}


/// How much palette reduction to apply before encoding.
#[derive(Clone, Copy, Debug, PartialEq, Eq, Structural)]
pub enum ComperssionAmnt {
    NONE,
    MIN,
    MED,
    HIGH,
    ULTRA,
}

impl ComperssionAmnt {
    /// The palette size budget of a level; zero means no reduction.
    pub open spec fn budget_spec(&self) -> nat {
        match self {
            ComperssionAmnt::ULTRA => 250,
            ComperssionAmnt::HIGH => 1000,
            ComperssionAmnt::MED => 2000,
            ComperssionAmnt::MIN => 5000,
            ComperssionAmnt::NONE => 0,
        }
    }

    /// The palette size budget of this level.
    pub fn palette_budget(&self) -> (r: usize)
        ensures
            r == self.budget_spec(),
    {
        match self {
            ComperssionAmnt::ULTRA => 250,
            ComperssionAmnt::HIGH => 1000,
            ComperssionAmnt::MED => 2000,
            ComperssionAmnt::MIN => 5000,
            ComperssionAmnt::NONE => 0,
        }
    }
}

proof fn lemma_top_ranking_prefix(f: Seq<nat>, k: nat, a: Seq<int>, b: Seq<int>, m: int)
    requires
        is_top_ranking(f, k, a),
        is_top_ranking(f, k, b),
        0 <= m <= a.len(),
    ensures
        forall|i: int| 0 <= i < m ==> a[i] == b[i],
    decreases m,
{
    if m > 0 {
        let n = m - 1;
        lemma_top_ranking_prefix(f, k, a, b, n);
        if a[n] != b[n] {
            assert(ranks_above(f, a[n], a[n]) == false);
            if b.contains(a[n]) {
                let q = choose|q: int| 0 <= q < b.len() && b[q] == a[n];
                if q < n {
                    assert(a[q] == b[q]);
                    assert(ranks_above(f, a[q], a[n]));
                }
                assert(ranks_above(f, b[n], b[q]));
            } else {
                assert(ranks_above(f, b[n], a[n]));
            }
            if a.contains(b[n]) {
                let p = choose|p: int| 0 <= p < a.len() && a[p] == b[n];
                if p < n {
                    assert(a[p] == b[p]);
                    assert(ranks_above(f, b[p], b[n]));
                }
                assert(ranks_above(f, a[n], a[p]));
            } else {
                assert(ranks_above(f, a[n], b[n]));
            }
        }
    }
}

/// There is only one top ranking of given entries and size, so a reduction
/// with a given budget has exactly one outcome.
pub proof fn lemma_top_ranking_unique(f: Seq<nat>, k: nat, a: Seq<int>, b: Seq<int>)
    requires
        is_top_ranking(f, k, a),
        is_top_ranking(f, k, b),
    ensures
        a == b,
{
    lemma_top_ranking_prefix(f, k, a, b, a.len() as int);
    assert(a =~= b);
}

/// Every color that `distinct` lists occurs, and each is listed once.
pub proof fn lemma_distinct_props(s: Seq<Rgba>)
    ensures
        distinct(s).no_duplicates(),
        forall|k: int| 0 <= k < distinct(s).len() ==> s.contains(#[trigger] distinct(s)[k]),
        s.len() > 0 ==> distinct(s).len() > 0,
    decreases s.len(),
{
    if s.len() > 0 {
        let p = s.drop_last();
        lemma_distinct_props(p);
        let d = distinct(p);
        assert forall|k: int| 0 <= k < d.len() implies s.contains(#[trigger] d[k]) by {
            let w = choose|w: int| 0 <= w < p.len() && p[w] == d[k];
            assert(s[w] == d[k]);
        }
        if d.contains(s.last()) {
            let k = choose|k: int| 0 <= k < d.len() && d[k] == s.last();
            assert(d[k] == s.last());
        } else {
            assert(s[s.len() - 1] == s.last());
        }
    }
}

/// The nearest entry of a non-empty palette is one of its entries.
pub proof fn lemma_nearest_in_palette(p: Rgba, pal: Seq<Rgba>)
    requires
        pal.len() > 0,
    ensures
        pal.contains(nearest(p, pal)),
    decreases pal.len(),
{
    if pal.len() > 1 {
        lemma_nearest_in_palette(p, pal.drop_last());
        let c = nearest(p, pal.drop_last());
        let k = choose|k: int| 0 <= k < pal.len() - 1 && pal.drop_last()[k] == c;
        assert(pal[k] == c);
        assert(pal[pal.len() - 1] == pal.last());
    } else {
        assert(pal[0] == nearest(p, pal));
    }
}

/// After a reduction with a non-zero budget, the output has no more distinct
/// colors than the budget, nor than the input had.
pub proof fn lemma_palette_bound(s: Seq<Rgba>, budget: nat, out: Seq<Rgba>)
    requires
        budget > 0,
        is_quantized(s, budget, out),
    ensures
        distinct(out).len() <= budget,
        distinct(out).len() <= distinct(s).len(),
{
    let idx = choose|idx: Seq<int>|
        is_top_ranking(frequencies(s), budget, idx) && out == remap(
            s,
            idx.map_values(|j: int| distinct(s)[j]),
        );
    let pal = idx.map_values(|j: int| distinct(s)[j]);
    let d = distinct(out);
    lemma_distinct_props(out);
    lemma_distinct_props(s);
    assert(d.to_set().subset_of(pal.to_set())) by {
        assert forall|c: Rgba| d.to_set().contains(c) implies pal.to_set().contains(c) by {
            let k = choose|k: int| 0 <= k < d.len() && d[k] == c;
            assert(out.contains(d[k]));
            let w = choose|w: int| 0 <= w < out.len() && out[w] == c;
            assert(s.len() > 0);
            assert(pal.len() > 0);
            lemma_nearest_in_palette(s[w], pal);
        }
    }
    d.unique_seq_to_set();
    pal.lemma_cardinality_of_set();
    vstd::set_lib::lemma_len_subset(d.to_set(), pal.to_set());
}

/// Reduces `pixels` to a palette of its `budget` most frequent colors,
/// first-seen first among equally frequent ones, replacing each pixel by
/// the nearest palette entry. A budget of zero returns the pixels unchanged.
pub fn quantize(pixels: &Vec<Rgba>, budget: usize) -> (r: Vec<Rgba>)
    ensures
        r@.len() == pixels@.len(),
        is_quantized(pixels@, budget as nat, r@),
        budget > 0 ==> distinct(r@).len() <= budget,
        distinct(r@).len() <= distinct(pixels@).len(),
{
    if budget == 0 {
        let r = pixels.clone();
        assert(r@ =~= pixels@);
        return r;
    }
    let ghost s = pixels@;
    let (colors, counts) = count_colors(pixels);
    let top = top_ranking(&counts, budget);
    let ghost idx = top@.map_values(|x: usize| x as int);
    let ghost pal = idx.map_values(|j: int| distinct(s)[j]);
    let mut palette: Vec<Rgba> = Vec::new();
    let mut m: usize = 0;
    while m < top.len()
        invariant
            m <= top@.len(),
            idx == top@.map_values(|x: usize| x as int),
            pal == idx.map_values(|j: int| distinct(s)[j]),
            s == pixels@,
            colors@ == distinct(s),
            forall|k: int| 0 <= k < top@.len() ==> #[trigger] top@[k] < colors@.len(),
            palette@ == pal.take(m as int),
        decreases top@.len() - m,
    {
        palette.push(colors[top[m]]);
        assert(idx[m as int] == top@[m as int] as int);
        assert(pal[m as int] == distinct(s)[idx[m as int]]);
        assert(palette@ =~= pal.take(m as int + 1));
        m += 1;
    }
    assert(palette@ =~= pal);
    let ncol = colors.len();
    proof {
        lemma_distinct_props(s);
        let f = frequencies(s);
        assert(f.len() == colors@.len());
        assert forall|j: int| 0 <= j < f.len() && !idx.contains(j) implies below_all(counts@, top@, j) by {
            if top@.contains(j as usize) {
                let m = choose|m: int| 0 <= m < top@.len() && top@[m] == j as usize;
                assert(idx[m] == top@[m] as int);
            }
        }
        assert forall|j: int, m: int| 0 <= j < f.len() && !idx.contains(j) && 0 <= m < idx.len() implies #[trigger] ranks_above(f, idx[m], j) by {
            assert(below_all(counts@, top@, j));
            assert(above(counts@, top@[m] as int, j));
        }
        assert forall|m1: int, m2: int| 0 <= m1 < m2 < idx.len() implies ranks_above(f, #[trigger] idx[m1], #[trigger] idx[m2]) by {
            assert(above(counts@, top@[m1] as int, top@[m2] as int));
        }
        assert(is_top_ranking(f, budget as nat, idx));
    }
    let mut out: Vec<Rgba> = Vec::new();
    let n = pixels.len();
    let mut i: usize = 0;
    while i < n
        invariant
            n == s.len(),
            s == pixels@,
            i <= n,
            palette@ == pal,
            n > 0 ==> pal.len() > 0,
            out@ == remap(s.take(i as int), pal),
        decreases n - i,
    {
        let c = closest_color(&pixels[i], palette.as_slice());
        out.push(c);
        assert(out@ =~= remap(s.take(i as int + 1), pal));
        i += 1;
    }
    assert(s.take(n as int) =~= s);
    proof {
        lemma_palette_bound(s, budget as nat, out@);
    }
    out
}

impl Image {
    /// Reduces the image's palette to the budget of `how_much`; the
    /// dimensions and the pixel count stay as they were.
    pub fn lossy_compress(&mut self, how_much: ComperssionAmnt) -> (r: Result<(), &'static str>)
        ensures
            r.is_ok(),
            final(self).width == old(self).width,
            final(self).height == old(self).height,
            final(self).image_data@.len() == old(self).image_data@.len(),
            is_quantized(old(self).image_data@, how_much.budget_spec(), final(self).image_data@),
            how_much != ComperssionAmnt::NONE ==> distinct(final(self).image_data@).len()
                <= how_much.budget_spec(),
            distinct(final(self).image_data@).len() <= distinct(old(self).image_data@).len(),
    {
        let budget = how_much.palette_budget();
        let compressed = quantize(&self.image_data, budget);
        self.image_data = compressed;
        Ok(())
    }
}

} // verus!
