//! Pentomino shapes: the eight symmetries of the square, canonical anchoring
//! of an orientation, and deduplication of a piece's distinct orientations.

use vstd::multiset::Multiset;
use vstd::prelude::*;
use vstd::relations::{sorted_by, total_ordering};
use vstd::seq_lib::lemma_sorted_unique;

verus! {

/// A cell list seen as a sequence of mathematical integer pairs.
pub open spec fn cells_view(s: Seq<(i32, i32)>) -> Seq<(int, int)> {
    s.map_values(|c: (i32, i32)| (c.0 as int, c.1 as int))
}

/// Row-major ("reading") order on cells: lower rows first, then left to right.
pub open spec fn lex_leq(a: (int, int), b: (int, int)) -> bool {
    a.1 < b.1 || (a.1 == b.1 && a.0 <= b.0)
}

pub open spec fn lex_fn() -> spec_fn((int, int), (int, int)) -> bool {
    |a: (int, int), b: (int, int)| lex_leq(a, b)
}

pub proof fn lemma_lex_total_ordering()
    ensures
        total_ordering(lex_fn()),
{
    assert forall|a: (int, int), b: (int, int)| #[trigger] lex_fn()(a, b) && lex_fn()(b, a) implies a == b by {
        assert(a.0 == b.0 && a.1 == b.1);
    }
}

/// One of the 8 symmetries of the square, as an integer matrix ((a, b), (c, d))
/// mapping (x, y) to (a*x + b*y, c*x + d*y): the identity, the three proper
/// rotations, and the four reflections.
pub open spec fn symmetry(n: int) -> ((int, int), (int, int)) {
    if n == 0 { ((1, 0), (0, 1)) }
    else if n == 1 { ((0, -1), (1, 0)) }
    else if n == 2 { ((-1, 0), (0, -1)) }
    else if n == 3 { ((0, 1), (-1, 0)) }
    else if n == 4 { ((-1, 0), (0, 1)) }
    else if n == 5 { ((0, -1), (-1, 0)) }
    else if n == 6 { ((1, 0), (0, -1)) }
    else { ((0, 1), (1, 0)) }
}

pub open spec fn apply_symmetry(n: int, c: (int, int)) -> (int, int) {
    let m = symmetry(n);
    (c.0 * m.0.0 + c.1 * m.0.1, c.0 * m.1.0 + c.1 * m.1.1)
}

pub open spec fn map_cells(s: Seq<(int, int)>, n: int) -> Seq<(int, int)> {
    s.map_values(|c: (int, int)| apply_symmetry(n, c))
}

pub open spec fn translate_cells(s: Seq<(int, int)>, dx: int, dy: int) -> Seq<(int, int)> {
    s.map_values(|c: (int, int)| (c.0 + dx, c.1 + dy))
}

/// The index of the symmetry that undoes symmetry `n`.
pub open spec fn inverse_symmetry(n: int) -> int {
    if n == 1 { 3 } else if n == 3 { 1 } else { n }
}

pub proof fn lemma_symmetry_inverse(n: int, c: (int, int))
    requires
        0 <= n < 8,
    ensures
        apply_symmetry(inverse_symmetry(n), apply_symmetry(n, c)) == c,
{
    lemma_apply_cases(n, c);
    lemma_apply_cases(inverse_symmetry(n), apply_symmetry(n, c));
}

/// Canonical anchoring: sort the cells in row-major order, then shift so the
/// first cell (the leftmost cell of the topmost occupied row) lands on (0, 0).
pub open spec fn canon(s: Seq<(int, int)>) -> Seq<(int, int)> {
    let t = s.sort_by(lex_fn());
    translate_cells(t, -t[0].0, -t[0].1)
}

/// All cells lie within the 5 x 5 box that holds every base shape.
pub open spec fn in_box(s: Seq<(int, int)>) -> bool {
    forall|i: int| 0 <= i < s.len() ==> 0 <= (#[trigger] s[i]).0 <= 4 && 0 <= s[i].1 <= 4
}

/// Every cell within four columns either side of the origin and at most
/// four rows below it.
pub open spec fn cells_bounded(s: Seq<(int, int)>) -> bool {
    forall|i: int| 0 <= i < s.len() ==> -4 <= (#[trigger] s[i]).0 <= 4 && 0 <= s[i].1 <= 4
}

/// No two cells differ by more than four in either coordinate.
pub open spec fn span_bounded(s: Seq<(int, int)>) -> bool {
    forall|i: int, j: int|
        0 <= i < s.len() && 0 <= j < s.len() ==> -4 <= (#[trigger] s[i]).0 - (
        #[trigger] s[j]).0 <= 4 && -4 <= s[i].1 - s[j].1 <= 4
}

/// A well-formed canonical orientation: five distinct cells in row-major
/// order, anchored at (0, 0), each within four columns and four rows of the
/// anchor, and no farther than four apart from one another. These bounds
/// satisfy `transform`'s own preconditions, so an orientation can be
/// transformed again.
pub open spec fn shape_ok(s: Seq<(int, int)>) -> bool {
    &&& s.len() == 5
    &&& sorted_by(s, lex_fn())
    &&& s.no_duplicates()
    &&& s[0] == (0int, 0int)
    &&& cells_bounded(s)
    &&& span_bounded(s)
}

/// One fixed (placement-independent) orientation of a piece.
pub struct FixedPentomino {
    pub squares: Vec<(i32, i32)>,
}

impl View for FixedPentomino {
    type V = Seq<(int, int)>;

    open spec fn view(&self) -> Seq<(int, int)> {
        cells_view(self.squares@)
    }
}

proof fn lemma_mul_unit_int(a: int, b: int)
    requires
        -1 <= b <= 1,
    ensures
        b == 1 ==> a * b == a,
        b == -1 ==> a * b == -a,
        b == 0 ==> a * b == 0,
{
    assert(b == 1 ==> a * b == a) by (nonlinear_arith);
    assert(b == -1 ==> a * b == -a) by (nonlinear_arith);
    assert(b == 0 ==> a * b == 0) by (nonlinear_arith);
}

fn mul_unit(a: i32, b: i32) -> (r: i32)
    requires
        -8 <= a <= 8,
        -1 <= b <= 1,
    ensures
        r as int == (a as int) * (b as int),
{
    proof {
        lemma_mul_unit_int(a as int, b as int);
    }
    if b == 1 { a } else if b == -1 { -a } else { 0 }
}

fn lex_less(a: (i32, i32), b: (i32, i32)) -> (r: bool)
    ensures
        r == !lex_leq((b.0 as int, b.1 as int), (a.0 as int, a.1 as int)),
{
    a.1 < b.1 || (a.1 == b.1 && a.0 < b.0)
}

/// Spells a symmetry out for one cell, so that every product has a literal
/// constant factor and stays within linear arithmetic.
proof fn lemma_apply_cases(n: int, c: (int, int))
    requires
        0 <= n < 8,
    ensures
        apply_symmetry(n, c) == if n == 0 { (c.0, c.1) } else if n == 1 { (-c.1, c.0) }
        else if n == 2 { (-c.0, -c.1) } else if n == 3 { (c.1, -c.0) }
        else if n == 4 { (-c.0, c.1) } else if n == 5 { (-c.1, -c.0) }
        else if n == 6 { (c.0, -c.1) } else { (c.1, c.0) },
{
    let m = symmetry(n);
    lemma_mul_unit_int(c.0, m.0.0);
    lemma_mul_unit_int(c.1, m.0.1);
    lemma_mul_unit_int(c.0, m.1.0);
    lemma_mul_unit_int(c.1, m.1.1);
}

/// Every coordinate of a mapped bounded shape stays within [-4, 4], and no
/// two mapped cells differ by more than 4 in either coordinate.
proof fn lemma_mapped_bounds(s: Seq<(int, int)>, n: int)
    requires
        0 <= n < 8,
        cells_bounded(s),
        span_bounded(s),
    ensures
        forall|i: int| 0 <= i < s.len() ==>
            -4 <= (#[trigger] map_cells(s, n)[i]).0 <= 4 && -4 <= map_cells(s, n)[i].1 <= 4,
        forall|i: int, j: int| 0 <= i < s.len() && 0 <= j < s.len() ==>
            -4 <= (#[trigger] map_cells(s, n)[i]).0 - (#[trigger] map_cells(s, n)[j]).0 <= 4
            && -4 <= map_cells(s, n)[i].1 - map_cells(s, n)[j].1 <= 4,
{
    assert forall|i: int| 0 <= i < s.len() implies
        -4 <= (#[trigger] map_cells(s, n)[i]).0 <= 4 && -4 <= map_cells(s, n)[i].1 <= 4 by {
        assert(-4 <= s[i].0 <= 4 && 0 <= s[i].1 <= 4);
        lemma_apply_cases(n, s[i]);
    }
    assert forall|i: int, j: int| 0 <= i < s.len() && 0 <= j < s.len() implies
        -4 <= (#[trigger] map_cells(s, n)[i]).0 - (#[trigger] map_cells(s, n)[j]).0 <= 4
        && -4 <= map_cells(s, n)[i].1 - map_cells(s, n)[j].1 <= 4 by {
        assert(-4 <= s[i].0 - s[j].0 <= 4 && -4 <= s[i].1 - s[j].1 <= 4);
        lemma_apply_cases(n, s[i]);
        lemma_apply_cases(n, s[j]);
    }
}

/// A symmetry is injective on cells, so it preserves distinctness.
proof fn lemma_mapped_no_duplicates(s: Seq<(int, int)>, n: int)
    requires
        0 <= n < 8,
        s.no_duplicates(),
    ensures
        map_cells(s, n).no_duplicates(),
{
    assert forall|i: int, j: int|
        0 <= i < s.len() && 0 <= j < s.len() && i != j implies
        map_cells(s, n)[i] != map_cells(s, n)[j] by {
        if map_cells(s, n)[i] == map_cells(s, n)[j] {
            lemma_symmetry_inverse(n, s[i]);
            lemma_symmetry_inverse(n, s[j]);
            assert(s[i] == s[j]);
        }
    }
}

impl FixedPentomino {
    /// Applies symmetry `n` to this orientation's five cells and returns the
    /// canonically anchored result: cells sorted in row-major order, shifted
    /// so the leftmost cell of the topmost row is (0, 0).
    #[verifier::loop_isolation(false)]
    #[verifier::rlimit(80)]
    pub fn transform(&self, n: i32) -> (r: FixedPentomino)
        requires
            self.squares@.len() == 5,
            cells_bounded(self@),
            span_bounded(self@),
            self@.no_duplicates(),
            0 <= n < 8,
        ensures
            r@ == canon(map_cells(self@, n as int)),
            shape_ok(r@),
    {
        let m: ((i32, i32), (i32, i32)) = if n == 0 { ((1, 0), (0, 1)) }
            else if n == 1 { ((0, -1), (1, 0)) }
            else if n == 2 { ((-1, 0), (0, -1)) }
            else if n == 3 { ((0, 1), (-1, 0)) }
            else if n == 4 { ((-1, 0), (0, 1)) }
            else if n == 5 { ((0, -1), (-1, 0)) }
            else if n == 6 { ((1, 0), (0, -1)) }
            else { ((0, 1), (1, 0)) };
        proof {
            assert(((m.0.0 as int, m.0.1 as int), (m.1.0 as int, m.1.1 as int)) == symmetry(
                n as int,
            ));
            lemma_mapped_bounds(self@, n as int);
            lemma_mapped_no_duplicates(self@, n as int);
        }
        let ghost mapped_spec = map_cells(self@, n as int);

        let mut mapped: Vec<(i32, i32)> = Vec::new();
        let mut i: usize = 0;
        while i < 5
            invariant
                i <= 5,
                mapped@.len() == i,
                forall|k: int| 0 <= k < i ==> cells_view(mapped@)[k] == mapped_spec[k],
            decreases 5 - i,
        {
            let c = self.squares[i];
            proof {
                assert(self@[i as int] == (c.0 as int, c.1 as int));
                assert(-4 <= self@[i as int].0 <= 4 && 0 <= self@[i as int].1 <= 4);
            }
            let cell = (
                mul_unit(c.0, m.0.0) + mul_unit(c.1, m.0.1),
                mul_unit(c.0, m.1.0) + mul_unit(c.1, m.1.1),
            );
            mapped.push(cell);
            proof {
                assert(cells_view(mapped@)[i as int] == mapped_spec[i as int]);
            }
            i = i + 1;
        }
        proof {
            assert(cells_view(mapped@) =~= mapped_spec);
        }

        // Selection sort into row-major order.
        let mut rem = mapped;
        let mut sorted_v: Vec<(i32, i32)> = Vec::new();
        proof {
            broadcast use vstd::seq_lib::group_to_multiset_ensures;
            broadcast use vstd::multiset::group_multiset_axioms;

            assert(cells_view(sorted_v@).len() == 0);
            assert(cells_view(sorted_v@).to_multiset().len() == 0);
            assert forall|x: (int, int)| cells_view(sorted_v@).to_multiset().count(x) == 0 by {
                if cells_view(sorted_v@).to_multiset().count(x) > 0 {
                    assert(cells_view(sorted_v@).contains(x));
                }
            }
            assert(cells_view(sorted_v@).to_multiset().add(cells_view(rem@).to_multiset())
                =~= mapped_spec.to_multiset());
        }
        while rem.len() > 0
            invariant
                sorted_v@.len() + rem@.len() == 5,
                sorted_by(cells_view(sorted_v@), lex_fn()),
                cells_view(sorted_v@).to_multiset().add(cells_view(rem@).to_multiset())
                    =~= mapped_spec.to_multiset(),
                forall|a: int, b: int|
                    0 <= a < sorted_v@.len() && 0 <= b < rem@.len() ==> lex_leq(
                        #[trigger] cells_view(sorted_v@)[a],
                        #[trigger] cells_view(rem@)[b],
                    ),
                forall|k: int| 0 <= k < rem@.len() ==>
                    -4 <= (#[trigger] cells_view(rem@)[k]).0 <= 4
                    && -4 <= cells_view(rem@)[k].1 <= 4,
                forall|k: int| 0 <= k < sorted_v@.len() ==>
                    -4 <= (#[trigger] cells_view(sorted_v@)[k]).0 <= 4
                    && -4 <= cells_view(sorted_v@)[k].1 <= 4,
            decreases rem@.len(),
        {
            let mut mi: usize = 0;
            let mut j: usize = 1;
            while j < rem.len()
                invariant
                    mi < j <= rem@.len(),
                    rem@.len() > 0,
                    forall|k: int| 0 <= k < j ==> lex_leq(
                        cells_view(rem@)[mi as int],
                        #[trigger] cells_view(rem@)[k],
                    ),
                decreases rem@.len() - j,
            {
                if lex_less(rem[j], rem[mi]) {
                    mi = j;
                }
                j = j + 1;
            }
            let ghost old_rem = rem@;
            let ghost old_sorted = sorted_v@;
            let c = rem.remove(mi);
            sorted_v.push(c);
            proof {
                let cv = (c.0 as int, c.1 as int);
                broadcast use vstd::seq_lib::group_to_multiset_ensures;

                assert(cells_view(rem@) =~= cells_view(old_rem).remove(mi as int));
                assert(cells_view(sorted_v@) =~= cells_view(old_sorted).push(cv));
                assert(cells_view(old_rem)[mi as int] == cv);
                assert(cells_view(rem@).to_multiset()
                    =~= cells_view(old_rem).to_multiset().remove(cv));
                assert(cells_view(sorted_v@).to_multiset()
                    =~= cells_view(old_sorted).to_multiset().insert(cv));
                assert(cells_view(sorted_v@).to_multiset().add(cells_view(rem@).to_multiset())
                    =~= mapped_spec.to_multiset());
                assert forall|a: int, b: int|
                    0 <= a < sorted_v@.len() && 0 <= b < rem@.len() implies lex_leq(
                        #[trigger] cells_view(sorted_v@)[a],
                        #[trigger] cells_view(rem@)[b],
                    ) by {
                    let rb = cells_view(rem@)[b];
                    if b < mi { assert(rb == cells_view(old_rem)[b]); } else {
                        assert(rb == cells_view(old_rem)[b + 1]);
                    }
                    if a < old_sorted.len() {
                        assert(cells_view(sorted_v@)[a] == cells_view(old_sorted)[a]);
                    } else {
                        assert(cells_view(sorted_v@)[a] == cv);
                    }
                }
                assert(sorted_by(cells_view(sorted_v@), lex_fn()));
            }
        }
        proof {
            broadcast use vstd::seq_lib::group_to_multiset_ensures;

            assert(cells_view(rem@).to_multiset() =~= Multiset::<(int, int)>::empty());
            assert(cells_view(sorted_v@).to_multiset() =~= mapped_spec.to_multiset());
            lemma_lex_total_ordering();
            mapped_spec.lemma_sort_by_ensures(lex_fn());
            lemma_sorted_unique(cells_view(sorted_v@), mapped_spec.sort_by(lex_fn()), lex_fn());
            assert(cells_view(sorted_v@) == mapped_spec.sort_by(lex_fn()));
        }

        // Shift so the first sorted cell becomes (0, 0).
        let a = sorted_v[0];
        let mut out: Vec<(i32, i32)> = Vec::new();
        let mut i: usize = 0;
        while i < 5
            invariant
                i <= 5,
                out@.len() == i,
                forall|k: int| 0 <= k < i ==> #[trigger] cells_view(out@)[k] == (
                    cells_view(sorted_v@)[k].0 - (a.0 as int),
                    cells_view(sorted_v@)[k].1 - (a.1 as int),
                ),
            decreases 5 - i,
        {
            let c = sorted_v[i];
            proof {
                assert(cells_view(sorted_v@)[i as int] == (c.0 as int, c.1 as int));
                assert(cells_view(sorted_v@)[0] == (a.0 as int, a.1 as int));
                assert(-4 <= c.0 as int <= 4 && -4 <= c.1 as int <= 4);
                assert(-4 <= a.0 as int <= 4 && -4 <= a.1 as int <= 4);
            }
            let ghost old_out = out@;
            out.push((c.0 - a.0, c.1 - a.1));
            proof {
                assert forall|k: int| 0 <= k <= i implies #[trigger] cells_view(out@)[k] == (
                    cells_view(sorted_v@)[k].0 - (a.0 as int),
                    cells_view(sorted_v@)[k].1 - (a.1 as int),
                ) by {
                    if k < i {
                        assert(out@[k] == old_out[k]);
                        assert(cells_view(old_out)[k] == (
                            cells_view(sorted_v@)[k].0 - (a.0 as int),
                            cells_view(sorted_v@)[k].1 - (a.1 as int),
                        ));
                    } else {
                        assert(out@[k] == (((c.0 - a.0) as i32), ((c.1 - a.1) as i32)));
                    }
                }
            }
            i = i + 1;
        }
        let r = FixedPentomino { squares: out };
        proof {
            let sv = cells_view(sorted_v@);
            assert(r@ =~= translate_cells(sv, -sv[0].0, -sv[0].1));
            assert(r@ == canon(mapped_spec));

            // shape_ok: sortedness and the anchor are preserved by the shift.
            assert forall|p: int, q: int| 0 <= p < q < 5 implies #[trigger] lex_fn()(
                r@[p],
                r@[q],
            ) by {
                assert(lex_fn()(sv[p], sv[q]));
            }
            assert(sorted_by(r@, lex_fn()));
            assert(r@[0] == (0int, 0int));

            // distinctness survives the permutation and the shift
            mapped_spec.lemma_multiset_has_no_duplicates();
            sv.lemma_multiset_has_no_duplicates_conv();
            assert forall|p: int, q: int|
                0 <= p < r@.len() && 0 <= q < r@.len() && p != q implies r@[p] != r@[q] by {
                assert(sv[p] != sv[q]);
            }

            // bounds: every sorted cell is some mapped cell, and spans are at most 4
            broadcast use vstd::seq_lib::group_to_multiset_ensures;

            assert forall|k: int| 0 <= k < 5 implies -4 <= (#[trigger] r@[k]).0 <= 4
                && 0 <= r@[k].1 <= 4 by {
                assert(sv.to_multiset().contains(sv[k]));
                assert(mapped_spec.to_multiset().contains(sv[k]));
                assert(mapped_spec.contains(sv[k]));
                assert(sv.to_multiset().contains(sv[0]));
                assert(mapped_spec.to_multiset().contains(sv[0]));
                assert(mapped_spec.contains(sv[0]));
                let ik = choose|t: int| 0 <= t < 5 && mapped_spec[t] == sv[k];
                let i0 = choose|t: int| 0 <= t < 5 && mapped_spec[t] == sv[0];
                assert(-4 <= sv[k].0 - sv[0].0 <= 4 && -4 <= sv[k].1 - sv[0].1 <= 4);
                assert(lex_fn()(sv[0], sv[k]));
                assert(sv[0].1 <= sv[k].1);
            }
            assert forall|p: int, q: int| 0 <= p < 5 && 0 <= q < 5 implies -4 <= (
            #[trigger] r@[p]).0 - (#[trigger] r@[q]).0 <= 4 && -4 <= r@[p].1 - r@[q].1 <= 4 by {
                assert(sv.to_multiset().contains(sv[p]));
                assert(mapped_spec.to_multiset().contains(sv[p]));
                assert(mapped_spec.contains(sv[p]));
                assert(sv.to_multiset().contains(sv[q]));
                assert(mapped_spec.to_multiset().contains(sv[q]));
                assert(mapped_spec.contains(sv[q]));
                let ip = choose|t: int| 0 <= t < 5 && mapped_spec[t] == sv[p];
                let iq = choose|t: int| 0 <= t < 5 && mapped_spec[t] == sv[q];
                assert(-4 <= sv[p].0 - sv[q].0 <= 4 && -4 <= sv[p].1 - sv[q].1 <= 4);
            }
            assert(span_bounded(r@));
            assert(shape_ok(r@));
        }
        r
    }
}

proof fn lemma_map_values_remove<A, B>(s: Seq<A>, f: spec_fn(A) -> B, j: int)
    requires
        0 <= j < s.len(),
    ensures
        s.remove(j).map_values(f) =~= s.map_values(f).remove(j),
{
}

/// Two sequences with the same multiset of elements keep the same multiset
/// after mapping a function over both.
proof fn lemma_map_multiset_eq<A, B>(s: Seq<A>, t: Seq<A>, f: spec_fn(A) -> B)
    requires
        s.to_multiset() == t.to_multiset(),
    ensures
        s.map_values(f).to_multiset() == t.map_values(f).to_multiset(),
    decreases s.len(),
{
    broadcast use vstd::seq_lib::group_to_multiset_ensures;
    broadcast use vstd::multiset::group_multiset_axioms;

    s.to_multiset_ensures();
    t.to_multiset_ensures();
    assert(s.len() == t.len());
    if s.len() == 0 {
        assert(s.map_values(f) =~= Seq::<B>::empty());
        assert(t.map_values(f) =~= Seq::<B>::empty());
    } else {
        let a = s.last();
        assert(s =~= s.drop_last().push(a));
        assert(s.to_multiset() =~= s.drop_last().to_multiset().insert(a));
        assert(s.to_multiset().contains(a));
        assert(t.to_multiset().contains(a));
        assert(t.contains(a));
        let j = choose|j: int| 0 <= j < t.len() && t[j] == a;
        assert(t.remove(j).to_multiset() =~= t.to_multiset().remove(a));
        assert(s.drop_last().to_multiset() =~= s.to_multiset().remove(a));
        lemma_map_multiset_eq(s.drop_last(), t.remove(j), f);
        assert(s.map_values(f) =~= s.drop_last().map_values(f).push(f(a)));
        assert(s.map_values(f).to_multiset() =~= s.drop_last().map_values(f).to_multiset().insert(
            f(a),
        ));
        lemma_map_values_remove(t, f, j);
        assert(t.map_values(f)[j] == f(a));
        assert(t.map_values(f).remove(j).to_multiset() =~= t.map_values(f).to_multiset().remove(
            f(a),
        ));
        assert(t.map_values(f).contains(f(a)));
        assert(t.map_values(f).to_multiset().count(f(a)) > 0);
        assert(t.map_values(f).to_multiset().remove(f(a)).insert(f(a)) =~= t.map_values(
            f,
        ).to_multiset());
        assert(s.map_values(f).to_multiset() =~= t.map_values(f).to_multiset());
    }
}

/// Canonical anchoring depends only on the multiset of cells.
pub proof fn lemma_canon_multiset(u: Seq<(int, int)>, v: Seq<(int, int)>)
    requires
        u.to_multiset() == v.to_multiset(),
    ensures
        canon(u) == canon(v),
{
    lemma_lex_total_ordering();
    u.lemma_sort_by_ensures(lex_fn());
    v.lemma_sort_by_ensures(lex_fn());
    lemma_sorted_unique(u.sort_by(lex_fn()), v.sort_by(lex_fn()), lex_fn());
    assert(u.sort_by(lex_fn()) == v.sort_by(lex_fn()));
}

/// Canonical anchoring is translation invariant: shifting every cell first
/// changes nothing about the anchored result.
pub proof fn lemma_canon_translate(v: Seq<(int, int)>, dx: int, dy: int)
    requires
        0 < v.len(),
    ensures
        canon(translate_cells(v, dx, dy)) == canon(v),
{
    lemma_lex_total_ordering();
    let sv = v.sort_by(lex_fn());
    let tv = translate_cells(v, dx, dy);
    v.lemma_sort_by_ensures(lex_fn());
    tv.lemma_sort_by_ensures(lex_fn());
    let stv = translate_cells(sv, dx, dy);
    assert(sorted_by(stv, lex_fn())) by {
        assert forall|p: int, q: int| 0 <= p < q < stv.len() implies #[trigger] lex_fn()(
            stv[p],
            stv[q],
        ) by {
            assert(lex_fn()(sv[p], sv[q]));
        }
    }
    let f = |c: (int, int)| (c.0 + dx, c.1 + dy);
    assert(stv =~= sv.map_values(f));
    assert(tv =~= v.map_values(f));
    lemma_map_multiset_eq(sv, v, f);
    assert(stv.to_multiset() == tv.to_multiset());
    assert(tv.to_multiset() =~= tv.sort_by(lex_fn()).to_multiset());
    lemma_sorted_unique(stv, tv.sort_by(lex_fn()), lex_fn());
    assert(tv.sort_by(lex_fn()) == stv);
    assert(canon(tv) =~= canon(v));
    assert(canon(tv) == canon(v));
}

/// Applying a symmetry and then its inverse, canonically anchoring after
/// each step, gives back exactly the canonical form of the original shape.
pub proof fn lemma_transform_round_trip(s: Seq<(int, int)>, n: int)
    requires
        0 < s.len(),
        0 <= n < 8,
    ensures
        canon(map_cells(canon(map_cells(s, n)), inverse_symmetry(n))) == canon(s),
{
    broadcast use vstd::seq_lib::group_to_multiset_ensures;

    lemma_lex_total_ordering();
    let u = map_cells(s, n);
    let su = u.sort_by(lex_fn());
    u.lemma_sort_by_ensures(lex_fn());
    assert(su.to_multiset().len() == u.to_multiset().len());
    assert(su.len() == u.len());
    assert(0 < su.len());
    let m = inverse_symmetry(n);
    assert(0 <= m < 8);
    let d = apply_symmetry(m, (-su[0].0, -su[0].1));
    assert(map_cells(canon(u), m) =~= translate_cells(map_cells(su, m), d.0, d.1)) by {
        assert forall|i: int| 0 <= i < su.len() implies map_cells(canon(u), m)[i]
            == (map_cells(su, m)[i].0 + d.0, map_cells(su, m)[i].1 + d.1) by {
            lemma_apply_cases(m, canon(u)[i]);
            lemma_apply_cases(m, su[i]);
            lemma_apply_cases(m, (-su[0].0, -su[0].1));
        }
    }
    lemma_canon_translate(map_cells(su, m), d.0, d.1);
    assert(canon(map_cells(canon(u), m)) == canon(map_cells(su, m)));
    let g = |c: (int, int)| apply_symmetry(m, c);
    assert(map_cells(su, m) =~= su.map_values(g));
    assert(map_cells(u, m) =~= u.map_values(g));
    lemma_map_multiset_eq(su, u, g);
    lemma_canon_multiset(map_cells(su, m), map_cells(u, m));
    assert(map_cells(u, m) =~= s) by {
        assert forall|i: int| 0 <= i < s.len() implies map_cells(u, m)[i] == s[i] by {
            lemma_symmetry_inverse(n, s[i]);
        }
    }
    assert(canon(map_cells(u, m)) == canon(s));
}

/// The canonical forms of all eight symmetries of a base shape, in symmetry
/// order.
pub open spec fn all_orients(s: Seq<(int, int)>) -> Seq<Seq<(int, int)>> {
    Seq::new(8, |n: int| canon(map_cells(s, n)))
}

/// First-seen-order deduplication: keeps the first occurrence of each value
/// and drops later repeats.
pub open spec fn dedup_first(s: Seq<Seq<(int, int)>>) -> Seq<Seq<(int, int)>>
    decreases s.len(),
{
    if s.len() == 0 {
        Seq::empty()
    } else {
        let rest = dedup_first(s.drop_last());
        if rest.contains(s.last()) {
            rest
        } else {
            rest.push(s.last())
        }
    }
}

/// Deduplication never merges two distinct values and always merges equal
/// ones: the result has no duplicates and contains exactly the values of the
/// input.
pub proof fn lemma_dedup_first_props(s: Seq<Seq<(int, int)>>)
    ensures
        dedup_first(s).no_duplicates(),
        forall|x: Seq<(int, int)>| dedup_first(s).contains(x) <==> s.contains(x),
    decreases s.len(),
{
    if s.len() == 0 {
    } else {
        lemma_dedup_first_props(s.drop_last());
        let rest = dedup_first(s.drop_last());
        assert forall|x: Seq<(int, int)>| dedup_first(s).contains(x) implies s.contains(x) by {
            if rest.contains(x) {
                assert(s.drop_last().contains(x));
                let k = choose|k: int| 0 <= k < s.drop_last().len() && s.drop_last()[k] == x;
                assert(s[k] == x);
            } else {
                assert(x == s.last());
                assert(s[s.len() - 1] == x);
            }
        }
        assert forall|x: Seq<(int, int)>| s.contains(x) implies dedup_first(s).contains(x) by {
            let k = choose|k: int| 0 <= k < s.len() && s[k] == x;
            if k < s.len() - 1 {
                assert(s.drop_last()[k] == x);
                assert(s.drop_last().contains(x));
                assert(rest.contains(x));
                if !rest.contains(s.last()) {
                    let j = choose|j: int| 0 <= j < rest.len() && rest[j] == x;
                    assert(dedup_first(s)[j] == x);
                }
            } else {
                assert(x == s.last());
                if rest.contains(x) {
                } else {
                    assert(dedup_first(s)[rest.len() as int] == x);
                }
            }
        }
        if !rest.contains(s.last()) {
            assert forall|i: int, j: int|
                0 <= i < dedup_first(s).len() && 0 <= j < dedup_first(s).len() && i != j implies
                dedup_first(s)[i] != dedup_first(s)[j] by {
                if i < rest.len() && j < rest.len() {
                    assert(rest[i] != rest[j]);
                } else if i < rest.len() {
                    assert(dedup_first(s)[j] == s.last());
                    assert(!rest.contains(s.last()));
                    assert(rest[i] == dedup_first(s)[i]);
                } else {
                    assert(dedup_first(s)[i] == s.last());
                    assert(rest[j] == dedup_first(s)[j]);
                }
            }
        }
    }
}

/// Two different orientations are never judged equal by deduplication, and
/// two geometrically identical ones always collapse to one: a piece's
/// orientation list has no duplicates and holds exactly the distinct
/// canonical forms of the eight symmetries of its base shape.
pub proof fn lemma_orientations_distinct_complete(base: Seq<(int, int)>)
    ensures
        dedup_first(all_orients(base)).no_duplicates(),
        forall|n: int| 0 <= n < 8 ==> dedup_first(all_orients(base)).contains(
            #[trigger] canon(map_cells(base, n)),
        ),
        forall|o: Seq<(int, int)>| dedup_first(all_orients(base)).contains(o) ==> exists|n: int|
            0 <= n < 8 && o == #[trigger] canon(map_cells(base, n)),
{
    lemma_dedup_first_props(all_orients(base));
    assert forall|n: int| 0 <= n < 8 implies dedup_first(all_orients(base)).contains(
        #[trigger] canon(map_cells(base, n)),
    ) by {
        assert(all_orients(base)[n] == canon(map_cells(base, n)));
        assert(all_orients(base).contains(canon(map_cells(base, n))));
    }
    assert forall|o: Seq<(int, int)>| dedup_first(all_orients(base)).contains(o) implies exists|
        n: int,
    | 0 <= n < 8 && o == #[trigger] canon(map_cells(base, n)) by {
        assert(all_orients(base).contains(o));
        let n = choose|n: int| 0 <= n < 8 && all_orients(base)[n] == o;
        assert(o == canon(map_cells(base, n)));
    }
}

/// The orientation list of a piece, each orientation as its cell sequence.
pub open spec fn shapes_views(s: Seq<FixedPentomino>) -> Seq<Seq<(int, int)>> {
    s.map_values(|f: FixedPentomino| f@)
}

/// A piece: its display colour and its distinct orientations, in first-seen
/// symmetry order.
pub struct Pentomino {
    pub colour: (u8, u8, u8),
    pub shapes: Vec<FixedPentomino>,
}

impl View for Pentomino {
    type V = Seq<Seq<(int, int)>>;

    open spec fn view(&self) -> Seq<Seq<(int, int)>> {
        shapes_views(self.shapes@)
    }
}

/// Every orientation of the piece is a well-formed canonical shape, and there
/// is at least one.
pub open spec fn pent_wf(p: Pentomino) -> bool {
    &&& p.shapes@.len() >= 1
    &&& forall|k: int| 0 <= k < p.shapes@.len() ==> (#[trigger] p.shapes@[k]).squares@.len() == 5
        && shape_ok(p.shapes@[k]@)
}

fn same_shape(a: &FixedPentomino, b: &FixedPentomino) -> (r: bool)
    requires
        a.squares@.len() == 5,
        b.squares@.len() == 5,
    ensures
        r == (a@ == b@),
{
    let mut i: usize = 0;
    let mut eq = true;
    while i < 5
        invariant
            i <= 5,
            a.squares@.len() == 5,
            b.squares@.len() == 5,
            eq == (forall|k: int| 0 <= k < i ==> a@[k] == b@[k]),
        decreases 5 - i,
    {
        let ca = a.squares[i];
        let cb = b.squares[i];
        let this_eq = ca.0 == cb.0 && ca.1 == cb.1;
        proof {
            assert(a@[i as int] == (ca.0 as int, ca.1 as int));
            assert(b@[i as int] == (cb.0 as int, cb.1 as int));
        }
        eq = eq && this_eq;
        i = i + 1;
    }
    proof {
        if eq {
            assert(a@ =~= b@);
        } else {
            assert(a@ != b@);
        }
    }
    eq
}

impl Pentomino {
    /// Builds a piece from its base shape: generates all eight symmetries in
    /// canonical form and keeps the distinct ones, in first-seen order.
    #[verifier::loop_isolation(false)]
    pub fn new(colour: (u8, u8, u8), squares: Vec<(i32, i32)>) -> (r: Pentomino)
        requires
            squares@.len() == 5,
            in_box(cells_view(squares@)),
            cells_view(squares@).no_duplicates(),
        ensures
            r.colour == colour,
            r@ == dedup_first(all_orients(cells_view(squares@))),
            pent_wf(r),
    {
        let ghost base = cells_view(squares@);
        let fixed = FixedPentomino { squares };
        proof {
            assert forall|i: int| 0 <= i < fixed@.len() implies -4 <= (#[trigger] fixed@[i]).0
                <= 4 && 0 <= fixed@[i].1 <= 4 by {
                assert(0 <= fixed@[i].0 <= 4 && 0 <= fixed@[i].1 <= 4);
            }
            assert forall|i: int, j: int|
                0 <= i < fixed@.len() && 0 <= j < fixed@.len() implies -4 <= (
            #[trigger] fixed@[i]).0 - (#[trigger] fixed@[j]).0 <= 4 && -4 <= fixed@[i].1
                - fixed@[j].1 <= 4 by {
                assert(0 <= fixed@[i].0 <= 4 && 0 <= fixed@[i].1 <= 4);
                assert(0 <= fixed@[j].0 <= 4 && 0 <= fixed@[j].1 <= 4);
            }
            assert(cells_bounded(fixed@) && span_bounded(fixed@));
        }
        let mut shapes: Vec<FixedPentomino> = Vec::new();
        let mut n: i32 = 0;
        while n < 8
            invariant
                0 <= n <= 8,
                shapes_views(shapes@) == dedup_first(all_orients(base).take(n as int)),
                forall|k: int| 0 <= k < shapes@.len() ==> (#[trigger] shapes@[k]).squares@.len()
                    == 5 && shape_ok(shapes@[k]@),
            decreases 8 - n,
        {
            let t = fixed.transform(n);
            let mut found = false;
            let mut j: usize = 0;
            while j < shapes.len()
                invariant
                    j <= shapes@.len(),
                    t.squares@.len() == 5,
                    found == (exists|k: int| 0 <= k < j && shapes_views(shapes@)[k] == t@),
                decreases shapes@.len() - j,
            {
                if same_shape(&shapes[j], &t) {
                    found = true;
                    proof {
                        assert(shapes_views(shapes@)[j as int] == t@);
                    }
                }
                j = j + 1;
            }
            proof {
                assert(found == shapes_views(shapes@).contains(t@));
                assert(all_orients(base).take(n + 1).drop_last() =~= all_orients(base).take(
                    n as int,
                ));
                assert(all_orients(base).take(n + 1).last() == canon(map_cells(base, n as int)));
                assert(t@ == canon(map_cells(base, n as int)));
            }
            let ghost old_views = shapes_views(shapes@);
            if !found {
                shapes.push(t);
                proof {
                    assert(shapes_views(shapes@) =~= old_views.push(t@));
                }
            }
            proof {
                assert(shapes_views(shapes@) == dedup_first(all_orients(base).take(n + 1)));
            }
            n = n + 1;
        }
        proof {
            assert(all_orients(base).take(8) =~= all_orients(base));
            assert(all_orients(base).contains(all_orients(base)[0]));
            lemma_dedup_first_props(all_orients(base));
            assert(shapes_views(shapes@).contains(all_orients(base)[0]));
            assert(shapes_views(shapes@).len() >= 1);
        }
        Pentomino { colour, shapes }
    }
}

/// Every entry of a catalog is a well-formed piece.
pub open spec fn catalog_wf(cs: Seq<Pentomino>) -> bool {
    forall|i: int| 0 <= i < cs.len() ==> pent_wf(#[trigger] cs[i])
}

/// The base shape of catalog piece `i`, as laid out in the built-in table.
pub open spec fn base_cells(i: int) -> Seq<(int, int)> {
    if i == 0 { seq![(1, 0), (2, 0), (0, 1), (1, 1), (1, 2)] }
    else if i == 1 { seq![(0, 0), (0, 1), (0, 2), (0, 3), (0, 4)] }
    else if i == 2 { seq![(0, 0), (0, 1), (0, 2), (0, 3), (1, 3)] }
    else if i == 3 { seq![(1, 0), (1, 1), (0, 2), (1, 2), (0, 3)] }
    else if i == 4 { seq![(0, 0), (1, 0), (0, 1), (1, 1), (0, 2)] }
    else if i == 5 { seq![(0, 0), (1, 0), (2, 0), (1, 1), (1, 2)] }
    else if i == 6 { seq![(0, 0), (2, 0), (0, 1), (1, 1), (2, 1)] }
    else if i == 7 { seq![(0, 0), (0, 1), (0, 2), (1, 2), (2, 2)] }
    else if i == 8 { seq![(0, 0), (0, 1), (1, 1), (1, 2), (2, 2)] }
    else if i == 9 { seq![(1, 0), (0, 1), (1, 1), (2, 1), (1, 2)] }
    else if i == 10 { seq![(1, 0), (0, 1), (1, 1), (1, 2), (1, 3)] }
    else { seq![(0, 0), (1, 0), (1, 1), (1, 2), (2, 2)] }
}

/// The display colour of catalog piece `i`.
pub open spec fn base_colour(i: int) -> (u8, u8, u8) {
    if i == 0 { (221u8, 187u8, 153u8) }
    else if i == 1 { (238u8, 170u8, 170u8) }
    else if i == 2 { (204u8, 204u8, 136u8) }
    else if i == 3 { (170u8, 238u8, 170u8) }
    else if i == 4 { (187u8, 221u8, 153u8) }
    else if i == 5 { (153u8, 221u8, 187u8) }
    else if i == 6 { (136u8, 204u8, 204u8) }
    else if i == 7 { (153u8, 187u8, 221u8) }
    else if i == 8 { (170u8, 170u8, 238u8) }
    else if i == 9 { (187u8, 153u8, 221u8) }
    else if i == 10 { (204u8, 136u8, 204u8) }
    else { (221u8, 153u8, 187u8) }
}

fn mk5(c0: (i32, i32), c1: (i32, i32), c2: (i32, i32), c3: (i32, i32), c4: (i32, i32)) -> (r: Vec<
    (i32, i32),
>)
    ensures
        r@.len() == 5,
        cells_view(r@) == seq![
            (c0.0 as int, c0.1 as int),
            (c1.0 as int, c1.1 as int),
            (c2.0 as int, c2.1 as int),
            (c3.0 as int, c3.1 as int),
            (c4.0 as int, c4.1 as int),
        ],
{
    let mut v: Vec<(i32, i32)> = Vec::new();
    v.push(c0);
    v.push(c1);
    v.push(c2);
    v.push(c3);
    v.push(c4);
    proof {
        assert(cells_view(v@) =~= seq![
            (c0.0 as int, c0.1 as int),
            (c1.0 as int, c1.1 as int),
            (c2.0 as int, c2.1 as int),
            (c3.0 as int, c3.1 as int),
            (c4.0 as int, c4.1 as int),
        ]);
    }
    v
}

fn mk_piece(i: usize, colour: (u8, u8, u8), c0: (i32, i32), c1: (i32, i32), c2: (i32, i32), c3: (
    i32,
    i32,
), c4: (i32, i32)) -> (r: Pentomino)
    requires
        i < 12,
        colour == base_colour(i as int),
        seq![
            (c0.0 as int, c0.1 as int),
            (c1.0 as int, c1.1 as int),
            (c2.0 as int, c2.1 as int),
            (c3.0 as int, c3.1 as int),
            (c4.0 as int, c4.1 as int),
        ] == base_cells(i as int),
        in_box(base_cells(i as int)),
        base_cells(i as int).no_duplicates(),
    ensures
        r.colour == base_colour(i as int),
        r@ == dedup_first(all_orients(base_cells(i as int))),
        pent_wf(r),
{
    let v = mk5(c0, c1, c2, c3, c4);
    Pentomino::new(colour, v)
}

/// The fixed domain data: the twelve free pentominoes, each expanded into its
/// distinct canonical orientations.
pub fn make_catalog() -> (r: Vec<Pentomino>)
    ensures
        r@.len() == 12,
        catalog_wf(r@),
        forall|i: int| 0 <= i < 12 ==> (#[trigger] r@[i])@ == dedup_first(
            all_orients(base_cells(i)),
        ) && r@[i].colour == base_colour(i),
{
    let mut cat: Vec<Pentomino> = Vec::new();
    cat.push(mk_piece(0, (221, 187, 153), (1, 0), (2, 0), (0, 1), (1, 1), (1, 2)));
    cat.push(mk_piece(1, (238, 170, 170), (0, 0), (0, 1), (0, 2), (0, 3), (0, 4)));
    cat.push(mk_piece(2, (204, 204, 136), (0, 0), (0, 1), (0, 2), (0, 3), (1, 3)));
    cat.push(mk_piece(3, (170, 238, 170), (1, 0), (1, 1), (0, 2), (1, 2), (0, 3)));
    cat.push(mk_piece(4, (187, 221, 153), (0, 0), (1, 0), (0, 1), (1, 1), (0, 2)));
    cat.push(mk_piece(5, (153, 221, 187), (0, 0), (1, 0), (2, 0), (1, 1), (1, 2)));
    cat.push(mk_piece(6, (136, 204, 204), (0, 0), (2, 0), (0, 1), (1, 1), (2, 1)));
    cat.push(mk_piece(7, (153, 187, 221), (0, 0), (0, 1), (0, 2), (1, 2), (2, 2)));
    cat.push(mk_piece(8, (170, 170, 238), (0, 0), (0, 1), (1, 1), (1, 2), (2, 2)));
    cat.push(mk_piece(9, (187, 153, 221), (1, 0), (0, 1), (1, 1), (2, 1), (1, 2)));
    cat.push(mk_piece(10, (204, 136, 204), (1, 0), (0, 1), (1, 1), (1, 2), (1, 3)));
    cat.push(mk_piece(11, (221, 153, 187), (0, 0), (1, 0), (1, 1), (1, 2), (2, 2)));
    cat
}

} // verus!
