//! Sort-and-pack batching of tokenized texts for embedding: texts ordered by token count,
//! cut into sub-batches no larger than the size allowed for each text's length, and each
//! sub-batch flattened into rows padded (or truncated) to one common width.
use vstd::prelude::*;

verus! {

/// Text `a` goes before text `b`: fewer tokens, or as many and an earlier position.
pub open spec fn goes_before(lens: Seq<usize>, a: usize, b: usize) -> bool {
    lens[a as int] < lens[b as int] || (lens[a as int] == lens[b as int] && a < b)
}

/// `order` lists every position below `n` once, each text before the ones it goes before.
pub open spec fn sorted_by_length(lens: Seq<usize>, order: Seq<usize>) -> bool {
    &&& order.len() == lens.len()
    &&& forall|k: int| 0 <= k < order.len() ==> #[trigger] order[k] < lens.len()
    &&& forall|k: int, l: int| 0 <= k < l < order.len() ==> goes_before(lens, #[trigger] order[k], #[trigger] order[l])
    &&& forall|i: usize| i < lens.len() ==> #[trigger] order.contains(i)
}

/// The positions of the texts, by token count, equal counts in their original order (a
/// stable sort).
pub fn sort_by_length(lens: &[usize]) -> (order: Vec<usize>)
    ensures
        sorted_by_length(lens@, order@),
{
    let mut order: Vec<usize> = Vec::new();
    let mut i: usize = 0;
    while i < lens.len()
        invariant
            i <= lens.len(),
            order.len() == i,
            forall|k: int| 0 <= k < order.len() ==> #[trigger] order[k] < i,
            forall|k: int, l: int| 0 <= k < l < order.len() ==> goes_before(lens@, #[trigger] order[k], #[trigger] order[l]),
            forall|u: usize| u < i ==> #[trigger] order@.contains(u),
        decreases lens.len() - i,
    {
        let mut p: usize = 0;
        while p < order.len() && lens[order[p]] <= lens[i]
            invariant
                p <= order.len(),
                i < lens.len(),
                forall|k: int| 0 <= k < order.len() ==> #[trigger] order[k] < i,
                forall|k: int, l: int| 0 <= k < l < order.len() ==> goes_before(lens@, #[trigger] order[k], #[trigger] order[l]),
                forall|k: int| 0 <= k < p ==> goes_before(lens@, #[trigger] order[k], i),
            decreases order.len() - p,
        {
            p += 1;
        }
        let ghost o0 = order@;
        proof {
            assert forall|k: int| p <= k < o0.len() implies goes_before(lens@, i, #[trigger] o0[k]) by {
                if k > p {
                    assert(goes_before(lens@, o0[p as int], o0[k]));
                }
            }
        }
        order.insert(p, i);
        proof {
            assert forall|k: int| 0 <= k < order.len() implies #[trigger] order[k] == if k < p { o0[k] } else if k == p { i } else { o0[k - 1] } by {}
            assert forall|k: int, l: int| 0 <= k < l < order.len() implies goes_before(lens@, #[trigger] order[k], #[trigger] order[l]) by {
                if l < p {
                } else if k < p && l == p {
                } else if k < p {
                    assert(goes_before(lens@, o0[k], o0[l - 1]));
                } else if k == p {
                } else {
                    assert(goes_before(lens@, o0[k - 1], o0[l - 1]));
                }
            }
            assert forall|u: usize| u < i + 1 implies #[trigger] order@.contains(u) by {
                if u == i {
                    assert(order[p as int] == u);
                } else {
                    assert(o0.contains(u));
                    let k = choose|k: int| 0 <= k < o0.len() && o0[k] == u;
                    if k < p {
                        assert(order[k] == u);
                    } else {
                        assert(order[k + 1] == u);
                    }
                }
            }
        }
        i += 1;
    }
    order
}

/// A token count as a sequence width: at most the model's limit, at least one.
pub open spec fn clamp_len(len: usize, max_model_len: usize) -> usize {
    let m = if len < max_model_len { len } else { max_model_len };
    if m < 1 { 1 } else { m }
}

/// The width a text of `len` tokens is embedded at.
pub fn clamped_len(len: usize, max_model_len: usize) -> (r: usize)
    ensures
        r == clamp_len(len, max_model_len),
{
    let m = if len < max_model_len { len } else { max_model_len };
    if m < 1 { 1 } else { m }
}

/// The sub-batches of the first `n` texts of the sorted order, by position in it: a text
/// joins the current sub-batch unless that already holds at least the number allowed for
/// the text, in which case it starts a new one.
pub open spec fn packed(allowed: Seq<usize>, n: nat) -> Seq<Seq<usize>>
    decreases n,
{
    if n == 0 {
        Seq::empty()
    } else {
        let g = packed(allowed, (n - 1) as nat);
        let k = (n - 1) as usize;
        if g.len() == 0 {
            seq![seq![k]]
        } else if g.last().len() >= allowed[n - 1] {
            g.push(seq![k])
        } else {
            g.update(g.len() - 1, g.last().push(k))
        }
    }
}

/// The views of nested vectors.
pub open spec fn groups_view(v: Seq<Vec<usize>>) -> Seq<Seq<usize>> {
    v.map_values(|g: Vec<usize>| g@)
}

/// Cuts the sorted texts into sub-batches, given for each (in sorted order) the batch size
/// allowed at its length.
pub fn pack_sub_batches(allowed: &[usize]) -> (r: Vec<Vec<usize>>)
    ensures
        groups_view(r@) == packed(allowed@, allowed@.len()),
{
    let mut groups: Vec<Vec<usize>> = Vec::new();
    let mut current: Vec<usize> = Vec::new();
    let mut k: usize = 0;
    while k < allowed.len()
        invariant
            k <= allowed.len(),
            k == 0 ==> groups.len() == 0 && current.len() == 0,
            k > 0 ==> groups_view(groups@).push(current@) == packed(allowed@, k as nat) && current.len() > 0,
        decreases allowed.len() - k,
    {
        let ghost g0 = groups_view(groups@);
        let ghost c0 = current@;
        if current.len() > 0 && current.len() >= allowed[k] {
            let full = current;
            groups.push(full);
            current = Vec::new();
            proof {
                assert(groups_view(groups@) =~= g0.push(c0));
            }
        }
        current.push(k);
        proof {
            let p = packed(allowed@, (k + 1) as nat);
            if k == 0 {
                assert(groups@.len() == 0);
                assert(groups_view(groups@) =~= Seq::<Seq<usize>>::empty());
                assert(current@ =~= seq![k]);
                assert(packed(allowed@, 0) == Seq::<Seq<usize>>::empty());
                assert(p =~= seq![seq![0usize]]);
                assert(groups_view(groups@).push(current@) =~= seq![seq![k]]);
            } else if c0.len() >= allowed[k as int] {
                assert(packed(allowed@, k as nat).last() == c0);
                assert(groups_view(groups@).push(current@) =~= g0.push(c0).push(seq![k]));
            } else {
                assert(packed(allowed@, k as nat).last() == c0);
                assert(groups_view(groups@).push(current@) =~= g0.push(c0).update(g0.len() as int, c0.push(k)));
            }
        }
        k += 1;
    }
    if current.len() > 0 {
        groups.push(current);
    } else {
        assert(groups_view(groups@) =~= packed(allowed@, 0));
    }
    groups
}

/// The common width of a sub-batch: its longest row, at most the model's limit, at least
/// one.
pub open spec fn batch_width(lens: Seq<usize>, max_model_len: usize) -> usize {
    clamp_len(longest(lens, lens.len()), max_model_len)
}

/// The longest of the first `n` lengths (zero for none).
pub open spec fn longest(lens: Seq<usize>, n: nat) -> usize
    decreases n,
{
    if n == 0 {
        0
    } else {
        let m = longest(lens, (n - 1) as nat);
        if lens[n - 1] > m { lens[n - 1] } else { m }
    }
}

/// A row of tokens cut or padded with zeros to `width`.
pub open spec fn padded_row(row: Seq<u32>, width: nat) -> Seq<i64> {
    Seq::new(width, |i: int| if i < row.len() { row[i] as i64 } else { 0i64 })
}

/// The first `n` rows padded to `width`, one after another.
pub open spec fn padded_rows(rows: Seq<Vec<u32>>, width: nat, n: nat) -> Seq<i64>
    decreases n,
{
    if n == 0 {
        Seq::empty()
    } else {
        padded_rows(rows, width, (n - 1) as nat) + padded_row(rows[n - 1]@, width)
    }
}

/// The common width of rows of the given lengths.
pub fn sub_batch_width(lens: &[usize], max_model_len: usize) -> (r: usize)
    ensures
        r == batch_width(lens@, max_model_len),
{
    let mut m: usize = 0;
    let mut i: usize = 0;
    while i < lens.len()
        invariant
            i <= lens.len(),
            m == longest(lens@, i as nat),
        decreases lens.len() - i,
    {
        if lens[i] > m {
            m = lens[i];
        }
        i += 1;
    }
    clamped_len(m, max_model_len)
}

/// The rows, each cut or padded with zeros to `width`, flattened in order.
pub fn flatten_padded(rows: &[Vec<u32>], width: usize) -> (r: Vec<i64>)
    ensures
        r@ == padded_rows(rows@, width as nat, rows@.len()),
{
    let mut out: Vec<i64> = Vec::new();
    let mut b: usize = 0;
    while b < rows.len()
        invariant
            b <= rows.len(),
            out@ == padded_rows(rows@, width as nat, b as nat),
        decreases rows.len() - b,
    {
        let row = &rows[b];
        let ghost o0 = out@;
        let mut s: usize = 0;
        while s < width
            invariant
                s <= width,
                row@ == rows@[b as int]@,
                out@ == o0 + padded_row(row@, width as nat).take(s as int),
            decreases width - s,
        {
            if s < row.len() {
                out.push(row[s] as i64);
            } else {
                out.push(0i64);
            }
            s += 1;
            assert(out@ =~= o0 + padded_row(row@, width as nat).take(s as int));
        }
        assert(padded_row(row@, width as nat).take(width as int) =~= padded_row(row@, width as nat));
        b += 1;
    }
    out
}

} // verus!
