use vstd::prelude::*;

verus! {

/// Sum of the first `k` entries of `s`.
pub open spec fn prefix_sum(s: Seq<int>, k: int) -> int
    decreases k,
{
    if k <= 0 {
        0
    } else {
        prefix_sum(s, k - 1) + s[k - 1]
    }
}

/// With pieces of lengths `lens` in document order, byte offset `i` is the first byte of a
/// piece, or lies at or past the end of the document.
pub open spec fn starts_piece(lens: Seq<int>, i: int) -> bool {
    ||| i >= prefix_sum(lens, lens.len() as int)
    ||| exists|q: int| 0 <= q < lens.len() && #[trigger] prefix_sum(lens, q) == i
}

/// What is left of the piece at position `q` once the bytes `[s, e)` of the document are
/// gone: its part before `s`, then its part from `e` on, each only where it is non-empty.
pub open spec fn piece_rest(lens: Seq<int>, s: int, e: int, q: int) -> Seq<int> {
    let b = prefix_sum(lens, q);
    let f = prefix_sum(lens, q + 1);
    let before = (if f < s { f } else { s }) - b;
    let after = f - (if b < e { e } else { b });
    (if before > 0 { seq![before] } else { Seq::empty() }) + (if after > 0 { seq![after] } else { Seq::empty() })
}

/// Piece lengths, in document order, once the bytes `[s, e)` are gone from the first `k`
/// pieces of lengths `lens`.
pub open spec fn rest_lengths(lens: Seq<int>, s: int, e: int, k: int) -> Seq<int>
    decreases k,
{
    if k <= 0 {
        Seq::empty()
    } else {
        rest_lengths(lens, s, e, k - 1) + piece_rest(lens, s, e, k - 1)
    }
}

/// Of pieces with lengths `lens`, described by `sp0` before an edit of the bytes `[i, e)`
/// and by `sp1` after it: the ones that end at or before `i` keep their description and
/// their position, and the ones that start at or after `e` keep their description, their
/// position moved by the change in the number of pieces.
pub open spec fn spans_kept<T>(lens: Seq<int>, sp0: Seq<T>, sp1: Seq<T>, i: int, e: int) -> bool {
    &&& forall|q: int| 0 <= q < sp0.len() && prefix_sum(lens, q + 1) <= i ==> sp1[q] == #[trigger] sp0[q]
    &&& forall|q: int| 0 <= q < sp0.len() && prefix_sum(lens, q) >= e ==> sp1[q + sp1.len() - sp0.len()] == #[trigger] sp0[q]
}

/// What the piece at position `q` becomes when `c` bytes go in at document offset `i`: the
/// new piece and then the whole piece when `i` is its first byte, the piece split around
/// the new one when `i` falls inside it, else the piece as it was.
pub open spec fn piece_with_insert(lens: Seq<int>, i: int, c: int, q: int) -> Seq<int> {
    let b = prefix_sum(lens, q);
    let f = prefix_sum(lens, q + 1);
    if b == i {
        seq![c, f - b]
    } else if b < i < f {
        seq![i - b, c, f - i]
    } else {
        seq![f - b]
    }
}

/// The first `k` pieces of lengths `lens`, each as `piece_with_insert` makes it.
pub open spec fn inserted_lengths(lens: Seq<int>, i: int, c: int, k: int) -> Seq<int>
    decreases k,
{
    if k <= 0 {
        Seq::empty()
    } else {
        inserted_lengths(lens, i, c, k - 1) + piece_with_insert(lens, i, c, k - 1)
    }
}

/// Piece lengths, in document order, once `c` bytes went in at offset `i` (at most the
/// document length) of a document made of pieces of lengths `lens`; at the end of the
/// document the new piece comes last.
pub open spec fn lengths_after_insert(lens: Seq<int>, i: int, c: int) -> Seq<int> {
    inserted_lengths(lens, i, c, lens.len() as int) + (if i >= prefix_sum(lens, lens.len() as int) {
        seq![c]
    } else {
        Seq::empty()
    })
}

/// Pieces that end at or before the insertion offset are kept as they are.
pub proof fn lemma_inserted_prefix(lens: Seq<int>, i: int, c: int, k: int)
    requires
        all_positive(lens),
        0 <= k <= lens.len(),
        prefix_sum(lens, k) <= i,
    ensures
        inserted_lengths(lens, i, c, k) == lens.subrange(0, k),
    decreases k,
{
    if k > 0 {
        lemma_prefix_mono(lens, k - 1, k);
        lemma_inserted_prefix(lens, i, c, k - 1);
        assert(piece_with_insert(lens, i, c, k - 1) =~= seq![lens[k - 1]]);
        assert(lens.subrange(0, k - 1) + seq![lens[k - 1]] =~= lens.subrange(0, k));
    }
}

/// Pieces that start after the insertion offset are kept as they are.
pub proof fn lemma_inserted_suffix(lens: Seq<int>, i: int, c: int, a: int, k: int)
    requires
        all_positive(lens),
        0 <= a <= k <= lens.len(),
        i < prefix_sum(lens, a),
    ensures
        inserted_lengths(lens, i, c, k) == inserted_lengths(lens, i, c, a) + lens.subrange(a, k),
    decreases k - a,
{
    if a < k {
        lemma_prefix_mono(lens, a, k - 1);
        lemma_prefix_mono(lens, k - 1, k);
        lemma_inserted_suffix(lens, i, c, a, k - 1);
        assert(piece_with_insert(lens, i, c, k - 1) =~= seq![lens[k - 1]]);
        assert(inserted_lengths(lens, i, c, a) + lens.subrange(a, k - 1) + seq![lens[k - 1]]
            =~= inserted_lengths(lens, i, c, a) + lens.subrange(a, k));
    } else {
        assert(inserted_lengths(lens, i, c, a) + lens.subrange(a, k) =~= inserted_lengths(lens, i, c, a));
    }
}

/// An insertion at an offset inside the document touches only the piece holding that offset.
pub proof fn lemma_insert_within(lens: Seq<int>, i: int, c: int, p: int)
    requires
        all_positive(lens),
        0 <= p < lens.len(),
        prefix_sum(lens, p) <= i < prefix_sum(lens, p + 1),
    ensures
        lengths_after_insert(lens, i, c) == lens.subrange(0, p) + piece_with_insert(lens, i, c, p) + lens.subrange(
            p + 1,
            lens.len() as int,
        ),
{
    lemma_inserted_prefix(lens, i, c, p);
    lemma_inserted_suffix(lens, i, c, p + 1, lens.len() as int);
    lemma_prefix_mono(lens, p + 1, lens.len() as int);
    assert(lengths_after_insert(lens, i, c) =~= inserted_lengths(lens, i, c, lens.len() as int));
}

/// An insertion at the end of the document adds the new piece last.
pub proof fn lemma_insert_at_end(lens: Seq<int>, c: int)
    requires
        all_positive(lens),
    ensures
        lengths_after_insert(lens, prefix_sum(lens, lens.len() as int), c) == lens.push(c),
{
    lemma_inserted_prefix(lens, prefix_sum(lens, lens.len() as int), c, lens.len() as int);
    assert(lens.subrange(0, lens.len() as int) =~= lens);
    assert(lens + seq![c] =~= lens.push(c));
}

/// Every piece holds at least one byte.
pub open spec fn all_positive(lens: Seq<int>) -> bool {
    forall|q: int| 0 <= q < lens.len() ==> #[trigger] lens[q] > 0
}

/// Prefix sums of positive lengths grow with the number of pieces summed.
pub proof fn lemma_prefix_mono(lens: Seq<int>, i: int, j: int)
    requires
        all_positive(lens),
        0 <= i <= j <= lens.len(),
    ensures
        prefix_sum(lens, i) <= prefix_sum(lens, j),
        i < j ==> prefix_sum(lens, i) < prefix_sum(lens, j),
    decreases j - i,
{
    if i < j {
        lemma_prefix_mono(lens, i, j - 1);
    }
}

/// Pieces that end at or before `s` are kept whole.
pub proof fn lemma_rest_prefix(lens: Seq<int>, s: int, e: int, k: int)
    requires
        all_positive(lens),
        0 <= k <= lens.len(),
        s < e,
        prefix_sum(lens, k) <= s,
    ensures
        rest_lengths(lens, s, e, k) == lens.subrange(0, k),
    decreases k,
{
    if k > 0 {
        lemma_prefix_mono(lens, k - 1, k);
        lemma_rest_prefix(lens, s, e, k - 1);
        assert(piece_rest(lens, s, e, k - 1) =~= seq![lens[k - 1]]);
        assert(lens.subrange(0, k - 1) + seq![lens[k - 1]] =~= lens.subrange(0, k));
    }
}

/// Pieces that lie wholly inside `[s, e)` leave nothing.
pub proof fn lemma_rest_covered(lens: Seq<int>, s: int, e: int, a: int, k: int)
    requires
        all_positive(lens),
        0 <= a <= k <= lens.len(),
        s <= prefix_sum(lens, a),
        prefix_sum(lens, k) <= e,
    ensures
        rest_lengths(lens, s, e, k) == rest_lengths(lens, s, e, a),
    decreases k - a,
{
    if a < k {
        lemma_prefix_mono(lens, a, k - 1);
        lemma_prefix_mono(lens, k - 1, k);
        lemma_rest_covered(lens, s, e, a, k - 1);
        assert(piece_rest(lens, s, e, k - 1) =~= Seq::<int>::empty());
        assert(rest_lengths(lens, s, e, k) =~= rest_lengths(lens, s, e, k - 1));
    }
}

/// Pieces that start at or after `e` are kept whole.
pub proof fn lemma_rest_suffix(lens: Seq<int>, s: int, e: int, a: int, k: int)
    requires
        all_positive(lens),
        0 <= a <= k <= lens.len(),
        s < e,
        e <= prefix_sum(lens, a),
    ensures
        rest_lengths(lens, s, e, k) == rest_lengths(lens, s, e, a) + lens.subrange(a, k),
    decreases k - a,
{
    if a < k {
        lemma_prefix_mono(lens, a, k - 1);
        lemma_prefix_mono(lens, k - 1, k);
        lemma_rest_suffix(lens, s, e, a, k - 1);
        assert(piece_rest(lens, s, e, k - 1) =~= seq![lens[k - 1]]);
        assert(rest_lengths(lens, s, e, a) + lens.subrange(a, k - 1) + seq![lens[k - 1]]
            =~= rest_lengths(lens, s, e, a) + lens.subrange(a, k));
    } else {
        assert(rest_lengths(lens, s, e, a) + lens.subrange(a, k) =~= rest_lengths(lens, s, e, a));
    }
}

/// Bytes `[s, e)` taken from inside the piece at position `p` touch no other piece.
pub proof fn lemma_rest_within(lens: Seq<int>, s: int, e: int, p: int)
    requires
        all_positive(lens),
        0 <= p < lens.len(),
        prefix_sum(lens, p) <= s < e <= prefix_sum(lens, p + 1),
    ensures
        rest_lengths(lens, s, e, lens.len() as int) == lens.subrange(0, p) + piece_rest(lens, s, e, p)
            + lens.subrange(p + 1, lens.len() as int),
{
    lemma_rest_prefix(lens, s, e, p);
    lemma_rest_suffix(lens, s, e, p + 1, lens.len() as int);
}

/// Bytes `[s, e)` from inside the piece at position `ps` to inside the piece at position
/// `pe` (or to the end of the document when `pe` is past the last piece) trim those two
/// pieces and take out every piece in between.
pub proof fn lemma_rest_span(lens: Seq<int>, s: int, e: int, ps: int, pe: int)
    requires
        all_positive(lens),
        0 <= ps < pe <= lens.len(),
        prefix_sum(lens, ps) <= s < prefix_sum(lens, ps + 1),
        pe < lens.len() ==> prefix_sum(lens, pe) <= e < prefix_sum(lens, pe + 1),
        pe == lens.len() ==> e == prefix_sum(lens, pe),
    ensures
        rest_lengths(lens, s, e, lens.len() as int) == lens.subrange(0, ps) + piece_rest(lens, s, e, ps) + (if pe
            < lens.len() {
            piece_rest(lens, s, e, pe) + lens.subrange(pe + 1, lens.len() as int)
        } else {
            Seq::empty()
        }),
{
    lemma_prefix_mono(lens, ps + 1, pe);
    lemma_rest_prefix(lens, s, e, ps);
    lemma_rest_covered(lens, s, e, ps + 1, pe);
    if pe < lens.len() {
        lemma_rest_suffix(lens, s, e, pe + 1, lens.len() as int);
        assert(rest_lengths(lens, s, e, pe + 1) == rest_lengths(lens, s, e, pe) + piece_rest(lens, s, e, pe));
    } else {
        assert(lens.subrange(0, ps) + piece_rest(lens, s, e, ps) + Seq::<int>::empty() =~= lens.subrange(0, ps)
            + piece_rest(lens, s, e, ps));
    }
}

} // verus!
