//! The active-edge list of the scanline fill: which lines a pixel row
//! crosses, kept in order of their leftmost column.

use vstd::prelude::*;

use std::collections::HashMap;

verus! {

/// What the scanline fill needs to know of a line to schedule it: the first
/// and last pixel rows it touches and the column where it starts.
#[derive(Debug, Clone, Copy, PartialEq, Eq, Structural)]
pub struct EdgeSpan {
    pub y_start: u32,
    pub y_end: u32,
    pub min_x: u32,
}

/// The span touches row `y`.
pub open spec fn covers_row(s: EdgeSpan, y: int) -> bool {
    s.y_start <= y <= s.y_end
}

/// The span started above row `y` and reaches down to it.
pub open spec fn crosses_into(s: EdgeSpan, y: int) -> bool {
    s.y_start < y <= s.y_end
}

/// Each entry is the index of a span.
pub open spec fn indexes_spans(active: Seq<usize>, spans: Seq<EdgeSpan>) -> bool {
    forall|k: int| 0 <= k < active.len() ==> #[trigger] active[k] < spans.len()
}

/// The entries come in order of their spans' leftmost column.
pub open spec fn sorted_by_min_x(active: Seq<usize>, spans: Seq<EdgeSpan>) -> bool {
    forall|a: int, b: int|
        0 <= a < b < active.len() ==> spans[#[trigger] active[a] as int].min_x
            <= spans[#[trigger] active[b] as int].min_x
}

/// A span that lies above the rows being drawn ends no earlier than it
/// starts; the fill cannot retire a line before it has entered.
pub open spec fn spans_fit(spans: Seq<EdgeSpan>, height: int) -> bool {
    forall|i: int| 0 <= i < spans.len() && #[trigger] spans[i].y_end < height ==> spans[i].y_start
        <= spans[i].y_end
}

/// Any two entries of `a` that also stand in `b` stand there in the same order.
pub open spec fn keeps_order(a: Seq<usize>, b: Seq<usize>) -> bool {
    forall|i: int, j: int, p: int, q: int|
        #![trigger a[i], a[j], b[p], b[q]]
        0 <= i < j < a.len() && 0 <= p < b.len() && 0 <= q < b.len() && b[p] == a[i] && b[q]
            == a[j] ==> p < q
}

/// Among entries of `after` with the same column, those that were already
/// in `before` come first, and those that were not come by ascending index.
pub open spec fn ties_in_entry_order(before: Seq<usize>, after: Seq<usize>, spans: Seq<EdgeSpan>) -> bool {
    forall|p: int, q: int|
        #![trigger after[p], after[q]]
        0 <= p < after.len() && 0 <= q < after.len() && spans[after[p] as int].min_x
            == spans[after[q] as int].min_x && !before.contains(after[q]) && (before.contains(
            after[p],
        ) || after[p] < after[q]) ==> p < q
}

proof fn lemma_keeps_order_refl(a: Seq<usize>)
    requires
        a.no_duplicates(),
    ensures
        keeps_order(a, a),
{
}

proof fn lemma_keeps_order_trans(a: Seq<usize>, b: Seq<usize>, c: Seq<usize>)
    requires
        keeps_order(a, b),
        keeps_order(b, c),
        forall|x: usize| #[trigger] a.contains(x) ==> b.contains(x),
    ensures
        keeps_order(a, c),
{
    assert forall|i: int, j: int, p: int, q: int|
        0 <= i < j < a.len() && 0 <= p < c.len() && 0 <= q < c.len() && c[p] == a[i] && c[q]
            == a[j] implies p < q by {
        assert(a.contains(a[i]));
        assert(a.contains(a[j]));
        let pp = choose|k: int| 0 <= k < b.len() && b[k] == a[i];
        let qq = choose|k: int| 0 <= k < b.len() && b[k] == a[j];
        assert(b[pp] == a[i] && b[qq] == a[j]);
        assert(pp < qq);
        assert(c[p] == b[pp] && c[q] == b[qq]);
    }
}

/// Inserts `idx` into `active` after every entry whose column is not greater.
fn insert_by_min_x(active: &mut Vec<usize>, spans: &Vec<EdgeSpan>, idx: usize)
    requires
        idx < spans.len(),
        indexes_spans(old(active)@, spans@),
        sorted_by_min_x(old(active)@, spans@),
    ensures
        final(active)@.len() == old(active)@.len() + 1,
        forall|x: usize| #[trigger] final(active)@.contains(x) <==> (old(active)@.contains(x) || x == idx),
        indexes_spans(final(active)@, spans@),
        sorted_by_min_x(final(active)@, spans@),
        old(active)@.no_duplicates() && !old(active)@.contains(idx) ==> final(active)@.no_duplicates()
            && keeps_order(old(active)@, final(active)@),
        !old(active)@.contains(idx) ==> forall|k: int, m: int|
            #![trigger final(active)@[k], final(active)@[m]]
            0 <= k < final(active)@.len() && 0 <= m < final(active)@.len() && final(active)@[m]
                == idx && final(active)@[k] != idx && spans@[final(active)@[k] as int].min_x
                <= spans@[idx as int].min_x ==> k < m,
{
    let key = spans[idx].min_x;
    let mut p: usize = 0;
    while p < active.len() && spans[active[p]].min_x <= key
        invariant
            p <= active.len(),
            idx < spans.len(),
            key == spans@[idx as int].min_x,
            indexes_spans(active@, spans@),
            sorted_by_min_x(active@, spans@),
            forall|k: int| 0 <= k < p ==> spans@[#[trigger] active@[k] as int].min_x <= key,
        decreases active.len() - p,
    {
        p = p + 1;
    }
    let ghost old_seq = active@;
    proof {
        old_seq.insert_ensures(p as int, idx);
    }
    active.insert(p, idx);
    let ghost s = active@;
    assert(forall|k: int| p < k < s.len() ==> s[k] == old_seq[k - 1]);
    assert(forall|k: int| p < k < s.len() ==> spans@[#[trigger] s[k] as int].min_x > key) by {
        assert forall|k: int| p < k < s.len() implies spans@[#[trigger] s[k] as int].min_x > key by {
            assert(s[k] == old_seq[k - 1]);
            if p < old_seq.len() {
                assert(spans@[old_seq[p as int] as int].min_x > key);
                if k - 1 > p {
                    assert(spans@[old_seq[p as int] as int].min_x <= spans@[old_seq[k - 1] as int].min_x);
                }
            }
        }
    }
    assert forall|a: int, b: int| 0 <= a < b < s.len() implies spans@[#[trigger] s[a] as int].min_x
        <= spans@[#[trigger] s[b] as int].min_x by {
        if b < p {
            assert(s[a] == old_seq[a] && s[b] == old_seq[b]);
        } else if b == p {
            assert(s[a] == old_seq[a]);
        } else if a < p {
            assert(s[a] == old_seq[a]);
            assert(spans@[s[b] as int].min_x > key);
        } else if a == p {
            assert(spans@[s[b] as int].min_x > key);
        } else {
            assert(s[a] == old_seq[a - 1] && s[b] == old_seq[b - 1]);
        }
    }
    assert forall|x: usize| #[trigger] s.contains(x) <==> (old_seq.contains(x) || x == idx) by {
        if s.contains(x) {
            let k = choose|k: int| 0 <= k < s.len() && s[k] == x;
            if k < p {
                assert(old_seq[k] == x);
            } else if k > p {
                assert(old_seq[k - 1] == x);
            }
        }
        if old_seq.contains(x) {
            let k = choose|k: int| 0 <= k < old_seq.len() && old_seq[k] == x;
            if k < p {
                assert(s[k] == x);
            } else {
                assert(s[k + 1] == x);
            }
        }
        if x == idx {
            assert(s[p as int] == x);
        }
    }
    assert forall|k: int| 0 <= k < s.len() implies #[trigger] s[k] < spans.len() by {
        if k < p {
            assert(s[k] == old_seq[k]);
        } else if k > p {
            assert(s[k] == old_seq[k - 1]);
        }
    }
    proof {
        if !old_seq.contains(idx) {
            assert forall|k: int, m: int|
                0 <= k < s.len() && 0 <= m < s.len() && s[m] == idx && s[k] != idx
                    && spans@[s[k] as int].min_x <= spans@[idx as int].min_x implies k < m by {
                if m != p {
                    let om = if m < p { m } else { m - 1 };
                    assert(s[m] == old_seq[om]);
                    assert(old_seq.contains(idx));
                }
                if k > p {
                    assert(spans@[s[k] as int].min_x > key);
                }
            }
        }
        if old_seq.no_duplicates() && !old_seq.contains(idx) {
            assert forall|a: int, b: int|
                0 <= a < s.len() && 0 <= b < s.len() && a != b implies s[a] != s[b] by {
                if a != p && b != p {
                    let oa = if a < p { a } else { a - 1 };
                    let ob = if b < p { b } else { b - 1 };
                    assert(s[a] == old_seq[oa] && s[b] == old_seq[ob]);
                } else if a == p {
                    let ob = if b < p { b } else { b - 1 };
                    assert(s[b] == old_seq[ob]);
                } else {
                    let oa = if a < p { a } else { a - 1 };
                    assert(s[a] == old_seq[oa]);
                }
            }
            assert forall|i: int, j: int, a: int, b: int|
                0 <= i < j < old_seq.len() && 0 <= a < s.len() && 0 <= b < s.len() && s[a]
                    == old_seq[i] && s[b] == old_seq[j] implies a < b by {
                assert(a != p) by {
                    assert(old_seq.contains(old_seq[i]));
                }
                assert(b != p) by {
                    assert(old_seq.contains(old_seq[j]));
                }
                let oa = if a < p { a } else { a - 1 };
                let ob = if b < p { b } else { b - 1 };
                assert(s[a] == old_seq[oa] && s[b] == old_seq[ob]);
                assert(oa == i && ob == j);
            }
        }
    }
}

/// The indices below `i` of the spans whose first row is `y`, ascending.
pub open spec fn starts_upto(spans: Seq<EdgeSpan>, y: u32, i: int) -> Seq<usize>
    decreases i,
{
    if i <= 0 {
        Seq::empty()
    } else if spans[i - 1].y_start == y {
        starts_upto(spans, y, i - 1).push((i - 1) as usize)
    } else {
        starts_upto(spans, y, i - 1)
    }
}

proof fn lemma_starts_upto(spans: Seq<EdgeSpan>, y: u32, i: int)
    requires
        0 <= i <= spans.len(),
        spans.len() <= usize::MAX,
    ensures
        forall|x: usize| #[trigger]
            starts_upto(spans, y, i).contains(x) <==> (x < i && spans[x as int].y_start == y),
        forall|a: int, b: int|
            0 <= a < b < starts_upto(spans, y, i).len() ==> #[trigger] starts_upto(spans, y, i)[a]
                < #[trigger] starts_upto(spans, y, i)[b],
        forall|a: int| 0 <= a < starts_upto(spans, y, i).len() ==> #[trigger] starts_upto(spans, y, i)[a] < i,
    decreases i,
{
    if i > 0 {
        lemma_starts_upto(spans, y, i - 1);
        let prev = starts_upto(spans, y, i - 1);
        let cur = starts_upto(spans, y, i);
        let last = (i - 1) as usize;
        assert(last as int == i - 1);
        if spans[i - 1].y_start == y {
            assert(cur == prev.push(last));
            assert forall|x: usize| #[trigger] cur.contains(x) <==> (x < i && spans[x as int].y_start == y) by {
                if cur.contains(x) {
                    let k = choose|k: int| 0 <= k < cur.len() && cur[k] == x;
                    if k < prev.len() {
                        assert(prev[k] == x);
                        assert(prev.contains(x));
                    } else {
                        assert(x == last);
                    }
                }
                if x < i && spans[x as int].y_start == y {
                    if x < i - 1 {
                        assert(prev.contains(x));
                        let k = choose|k: int| 0 <= k < prev.len() && prev[k] == x;
                        assert(cur[k] == x);
                    } else {
                        assert(cur[prev.len() as int] == x);
                    }
                }
            }
        } else {
            assert(cur == prev);
            assert forall|x: usize| #[trigger] cur.contains(x) <==> (x < i && spans[x as int].y_start == y) by {
                if x < i && spans[x as int].y_start == y {
                    assert(x != last);
                    assert(prev.contains(x));
                }
                if cur.contains(x) {
                    assert(prev.contains(x));
                }
            }
        }
    }
}

/// The lines that the current pixel row crosses, for a fill that walks the
/// rows from the top down: before a row is drawn it enters the lines that
/// start there; once it is drawn it retires those that end there.
pub struct ActiveEdges {
    spans: Vec<EdgeSpan>,
    /// For each first row, the spans that start there, by ascending index.
    starts: HashMap<u32, Vec<usize>>,
    height: u32,
    active: Vec<usize>,
    row: u32,
    in_row: bool,
}

impl ActiveEdges {
    /// The spans being scheduled.
    pub closed spec fn spans_view(&self) -> Seq<EdgeSpan> {
        self.spans@
    }

    /// The number of pixel rows.
    pub closed spec fn height_view(&self) -> int {
        self.height as int
    }

    /// The row being drawn, or the next one to enter.
    pub closed spec fn row_view(&self) -> int {
        self.row as int
    }

    /// A row has been entered and not yet left.
    pub closed spec fn in_row_view(&self) -> bool {
        self.in_row
    }

    /// The indices of the active spans, in list order.
    pub closed spec fn active_view(&self) -> Seq<usize> {
        self.active@
    }

    /// The list holds each active span once, in column order; inside a row
    /// the active spans are those that touch it, between rows those that
    /// started above the next row and reach down to it.
    pub closed spec fn wf(&self) -> bool {
        &&& spans_fit(self.spans@, self.height as int)
        &&& self.row <= self.height
        &&& self.in_row ==> self.row < self.height
        &&& indexes_spans(self.active@, self.spans@)
        &&& sorted_by_min_x(self.active@, self.spans@)
        &&& self.active@.no_duplicates()
        &&& self.spans@.len() <= usize::MAX
        &&& forall|y: u32| #[trigger]
            self.starts@.contains_key(y) ==> self.starts@[y]@ == starts_upto(
                self.spans@,
                y,
                self.spans@.len() as int,
            )
        &&& forall|y: u32|
            !self.starts@.contains_key(y) ==> #[trigger] starts_upto(
                self.spans@,
                y,
                self.spans@.len() as int,
            ).len() == 0
        &&& forall|i: usize| #[trigger]
            self.active@.contains(i) <==> (i < self.spans@.len() && if self.in_row {
                covers_row(self.spans@[i as int], self.row as int)
            } else {
                crosses_into(self.spans@[i as int], self.row as int)
            })
    }

    /// A schedule for `height` rows with no row entered yet.
    pub fn new(spans: Vec<EdgeSpan>, height: u32) -> (r: Self)
        requires
            spans_fit(spans@, height as int),
        ensures
            r.wf(),
            r.spans_view() == spans@,
            r.height_view() == height,
            r.row_view() == 0,
            !r.in_row_view(),
            r.active_view() == Seq::<usize>::empty(),
    {
        broadcast use vstd::std_specs::hash::group_hash_axioms;

        let n = spans.len();
        let mut starts: HashMap<u32, Vec<usize>> = HashMap::new();
        let mut i: usize = 0;
        while i < n
            invariant
                n == spans@.len(),
                i <= n,
                forall|y: u32| #[trigger]
                    starts@.contains_key(y) ==> starts@[y]@ == starts_upto(spans@, y, i as int),
                forall|y: u32|
                    !starts@.contains_key(y) ==> #[trigger] starts_upto(spans@, y, i as int).len()
                        == 0,
            decreases n - i,
        {
            let y = spans[i].y_start;
            let ghost before = starts@;
            let mut list = match starts.remove(&y) {
                Some(v) => v,
                None => Vec::new(),
            };
            assert(list@ == starts_upto(spans@, y, i as int));
            list.push(i);
            starts.insert(y, list);
            assert forall|z: u32| #[trigger] starts@.contains_key(z) implies starts@[z]@
                == starts_upto(spans@, z, i + 1) by {
                if z != y {
                    assert(before.contains_key(z));
                    assert(starts_upto(spans@, z, i + 1) == starts_upto(spans@, z, i as int));
                }
            }
            assert forall|z: u32| !starts@.contains_key(z) implies #[trigger] starts_upto(
                spans@,
                z,
                i + 1,
            ).len() == 0 by {
                assert(z != y);
                assert(!before.contains_key(z));
                assert(starts_upto(spans@, z, i + 1) == starts_upto(spans@, z, i as int));
            }
            i = i + 1;
        }
        let r = ActiveEdges { spans, starts, height, active: Vec::new(), row: 0, in_row: false };
        assert forall|i: usize| #[trigger] r.active@.contains(i) <==> (i < r.spans@.len() && crosses_into(r.spans@[i as int], 0)) by {
        }
        r
    }

    /// The active span indices, in order of their leftmost column.
    pub fn active(&self) -> (r: &Vec<usize>)
        ensures
            r@ == self.active_view(),
    {
        &self.active
    }

    /// The row being drawn, or the next one to enter.
    pub fn row(&self) -> (r: u32)
        ensures
            r == self.row_view(),
    {
        self.row
    }

    /// Enters the next row: the spans that start on it join the list, each
    /// placed after every entry whose column is not greater. Afterwards the
    /// list holds, once each and in column order, exactly the spans that
    /// touch the row.
    pub fn enter_row(&mut self)
        requires
            old(self).wf(),
            !old(self).in_row_view(),
            old(self).row_view() < old(self).height_view(),
        ensures
            final(self).wf(),
            final(self).in_row_view(),
            final(self).row_view() == old(self).row_view(),
            final(self).spans_view() == old(self).spans_view(),
            final(self).height_view() == old(self).height_view(),
            final(self).active_view().no_duplicates(),
            sorted_by_min_x(final(self).active_view(), final(self).spans_view()),
            keeps_order(old(self).active_view(), final(self).active_view()),
            ties_in_entry_order(
                old(self).active_view(),
                final(self).active_view(),
                final(self).spans_view(),
            ),
            forall|i: usize| #[trigger]
                final(self).active_view().contains(i) <==> (i < final(self).spans_view().len()
                    && covers_row(final(self).spans_view()[i as int], final(self).row_view())),
    {
        broadcast use vstd::std_specs::hash::group_hash_axioms;

        let n = self.spans.len();
        let row = self.row;
        let ghost entering = starts_upto(self.spans@, row, n as int);
        proof {
            lemma_keeps_order_refl(self.active@);
            lemma_starts_upto(self.spans@, row, n as int);
        }
        match self.starts.get(&row) {
            None => {
                assert(entering.len() == 0);
                assert forall|x: usize| x < n && self.spans@[x as int].y_start == row implies false by {
                    assert(entering.contains(x));
                }
            },
            Some(list) => {
                assert(list@ == entering);
                let m = list.len();
                let mut j: usize = 0;
                while j < m
                    invariant
                        n == self.spans@.len(),
                        m == list@.len(),
                        list@ == entering,
                        entering == starts_upto(self.spans@, row, n as int),
                        forall|x: usize| #[trigger]
                            entering.contains(x) <==> (x < n && self.spans@[x as int].y_start == row),
                        forall|a: int, b: int|
                            0 <= a < b < entering.len() ==> #[trigger] entering[a] < #[trigger] entering[b],
                        forall|a: int| 0 <= a < entering.len() ==> #[trigger] entering[a] < n,
                        keeps_order(old(self).active@, self.active@),
                        ties_in_entry_order(old(self).active@, self.active@, self.spans@),
                        forall|x: usize| #[trigger]
                            old(self).active@.contains(x) <==> (x < n && crosses_into(
                                self.spans@[x as int],
                                row as int,
                            )),
                        forall|x: usize| #[trigger] old(self).active@.contains(x) ==> self.active@.contains(x),
                        row == self.row,
                        self.row == old(self).row,
                        self.spans@ == old(self).spans@,
                        self.height == old(self).height,
                        self.in_row == old(self).in_row,
                        self.starts@ == old(self).starts@,
                        old(self).wf(),
                        !old(self).in_row,
                        old(self).row < old(self).height,
                        j <= m,
                        indexes_spans(self.active@, self.spans@),
                        sorted_by_min_x(self.active@, self.spans@),
                        self.active@.no_duplicates(),
                        forall|x: usize| #[trigger]
                            self.active@.contains(x) <==> (old(self).active@.contains(x)
                                || entering.take(j as int).contains(x)),
                    decreases m - j,
                {
                    let idx = list[j];
                    let ghost before = self.active@;
                    proof {
                        assert(entering.contains(idx));
                        if before.contains(idx) {
                            if entering.take(j as int).contains(idx) {
                                let t0 = entering.take(j as int);
                                let t = choose|t: int| 0 <= t < t0.len() && t0[t] == idx;
                                assert(entering[t] < entering[j as int]);
                            } else {
                                assert(crosses_into(self.spans@[idx as int], row as int));
                            }
                        }
                        assert(entering.take(j + 1) =~= entering.take(j as int).push(idx));
                    }
                    insert_by_min_x(&mut self.active, &self.spans, idx);
                    proof {
                        lemma_keeps_order_trans(old(self).active@, before, self.active@);
                        let o = old(self).active@;
                        let a = self.active@;
                        let sp = self.spans@;
                        let t0 = entering.take(j as int);
                        let t1 = entering.take(j + 1);
                        assert forall|y: usize| #[trigger] a.contains(y) <==> (o.contains(y)
                            || t1.contains(y)) by {
                            if t1.contains(y) && y != idx {
                                let t = choose|t: int| 0 <= t < t1.len() && t1[t] == y;
                                assert(t0[t] == y);
                            }
                            if t0.contains(y) {
                                let t = choose|t: int| 0 <= t < t0.len() && t0[t] == y;
                                assert(t1[t] == y);
                            }
                            if y == idx {
                                assert(t1[j as int] == y);
                            }
                        }
                        assert forall|p: int, q: int|
                            0 <= p < a.len() && 0 <= q < a.len() && sp[a[p] as int].min_x
                                == sp[a[q] as int].min_x && !o.contains(a[q]) && (o.contains(a[p])
                                || a[p] < a[q]) implies p < q by {
                            if a[q] == idx {
                                if a[p] == idx {
                                    assert(a.no_duplicates());
                                }
                            } else if a[p] == idx {
                                assert(a.contains(a[q]));
                                assert(before.contains(a[q]));
                                assert(t0.contains(a[q]));
                                let t = choose|t: int| 0 <= t < t0.len() && t0[t] == a[q];
                                assert(entering[t] < entering[j as int]);
                                assert(!o.contains(idx));
                            } else {
                                assert(a.contains(a[p]));
                                assert(a.contains(a[q]));
                                assert(before.contains(a[p]));
                                assert(before.contains(a[q]));
                                let pp = choose|k: int| 0 <= k < before.len() && before[k] == a[p];
                                let qq = choose|k: int| 0 <= k < before.len() && before[k] == a[q];
                                assert(before[pp] == a[p] && before[qq] == a[q]);
                                assert(pp < qq);
                            }
                        }
                    }
                    j = j + 1;
                }
                assert(entering.take(m as int) =~= entering);
            },
        }
        self.in_row = true;
        assert forall|x: usize| #[trigger] self.active@.contains(x) <==> (x < self.spans@.len()
            && covers_row(self.spans@[x as int], self.row as int)) by {
            if x < n && self.spans@[x as int].y_start == row {
                assert(entering.contains(x));
                assert(self.spans@[x as int].y_end >= row) by {
                    if self.spans@[x as int].y_end < row {
                        assert(self.spans@[x as int].y_end < self.height);
                    }
                }
            }
        }
    }

    /// Leaves the row just drawn: the spans that end on it drop out, the
    /// others keep their order, and the next row becomes current.
    pub fn leave_row(&mut self)
        requires
            old(self).wf(),
            old(self).in_row_view(),
        ensures
            final(self).wf(),
            !final(self).in_row_view(),
            final(self).row_view() == old(self).row_view() + 1,
            final(self).spans_view() == old(self).spans_view(),
            final(self).height_view() == old(self).height_view(),
            final(self).active_view() == old(self).active_view().filter(
                |x: usize| old(self).spans_view()[x as int].y_end != old(self).row_view(),
            ),
            forall|i: usize| #[trigger]
                final(self).active_view().contains(i) <==> (i < final(self).spans_view().len()
                    && crosses_into(final(self).spans_view()[i as int], final(self).row_view())),
    {
        let ghost spans = self.spans@;
        let ghost pred = |x: usize| spans[x as int].y_end != self.row;
        let ghost old_active = self.active@;
        let row = self.row;
        let n = self.active.len();
        let mut kept: Vec<usize> = Vec::new();
        let mut k: usize = 0;
        while k < n
            invariant
                n == old_active.len(),
                self.active@ == old_active,
                self.spans@ == spans,
                row == self.row,
                pred == (|x: usize| spans[x as int].y_end != row),
                indexes_spans(old_active, spans),
                sorted_by_min_x(old_active, spans),
                old_active.no_duplicates(),
                k <= n,
                kept@ == old_active.take(k as int).filter(pred),
                kept@.no_duplicates(),
                sorted_by_min_x(kept@, spans),
                forall|x: usize| #[trigger]
                    kept@.contains(x) <==> (old_active.take(k as int).contains(x) && pred(x)),
            decreases n - k,
        {
            let x = self.active[k];
            proof {
                assert(old_active.take(k + 1) =~= old_active.take(k as int).push(x));
                old_active.take(k as int).lemma_filter_push(x, pred);
                let t0 = old_active.take(k as int);
                let t1 = old_active.take(k + 1);
                assert forall|y: usize| #[trigger] t1.contains(y) <==> (t0.contains(y) || y == x) by {
                    if t1.contains(y) {
                        let j = choose|j: int| 0 <= j < t1.len() && t1[j] == y;
                        if j < k {
                            assert(t0[j] == y);
                        }
                    }
                    if t0.contains(y) {
                        let j = choose|j: int| 0 <= j < t0.len() && t0[j] == y;
                        assert(t1[j] == y);
                    }
                    if y == x {
                        assert(t1[k as int] == y);
                    }
                }
            }
            if self.spans[x].y_end != row {
                let ghost before = kept@;
                proof {
                    assert(!before.contains(x)) by {
                        if before.contains(x) {
                            let t0 = old_active.take(k as int);
                            let j = choose|j: int| 0 <= j < t0.len() && t0[j] == x;
                            assert(old_active[j] == old_active[k as int]);
                        }
                    }
                    assert forall|a: int| 0 <= a < before.len() implies spans[#[trigger] before[a] as int].min_x
                        <= spans[x as int].min_x by {
                        assert(before.contains(before[a]));
                        let t0 = old_active.take(k as int);
                        let j = choose|j: int| 0 <= j < t0.len() && t0[j] == before[a];
                        assert(old_active[j] == before[a]);
                    }
                }
                kept.push(x);
                proof {
                    assert forall|a: int, b: int| 0 <= a < b < kept@.len() implies spans[#[trigger] kept@[a] as int].min_x
                        <= spans[#[trigger] kept@[b] as int].min_x by {
                        if b < before.len() {
                            assert(kept@[a] == before[a] && kept@[b] == before[b]);
                        } else {
                            assert(kept@[a] == before[a]);
                        }
                    }
                    assert forall|a: int, b: int| 0 <= a < kept@.len() && 0 <= b < kept@.len() && a != b
                        implies kept@[a] != kept@[b] by {
                        if a < before.len() && b < before.len() {
                        } else if a < before.len() {
                            assert(before.contains(kept@[a]));
                        } else {
                            assert(before.contains(kept@[b]));
                        }
                    }
                    assert forall|y: usize| #[trigger] kept@.contains(y) <==> (before.contains(y) || y == x) by {
                        if kept@.contains(y) {
                            let j = choose|j: int| 0 <= j < kept@.len() && kept@[j] == y;
                            if j < before.len() {
                                assert(before[j] == y);
                            }
                        }
                        if before.contains(y) {
                            let j = choose|j: int| 0 <= j < before.len() && before[j] == y;
                            assert(kept@[j] == y);
                        }
                        if y == x {
                            assert(kept@[before.len() as int] == y);
                        }
                    }
                }
            }
            k = k + 1;
        }
        assert(old_active.take(n as int) =~= old_active);
        self.active = kept;
        self.row = row + 1;
        self.in_row = false;
        let ghost s = self.active@;
        assert forall|a: int| 0 <= a < s.len() implies #[trigger] s[a] < spans.len() by {
            assert(s.contains(s[a]));
            let j = choose|j: int| 0 <= j < old_active.len() && old_active[j] == s[a];
        }
        assert forall|x: usize| #[trigger] s.contains(x) <==> (x < spans.len() && crosses_into(
            spans[x as int],
            self.row as int,
        )) by {
            if x < spans.len() && crosses_into(spans[x as int], self.row as int) {
                assert(old_active.contains(x));
            }
        }
    }
}

/// The height, in pixel rows, of the bands that a banded fill cuts the
/// image into.
pub const BAND_HEIGHT: u32 = 16;

/// How many bands of `BAND_HEIGHT` rows cover `height` rows, the last band
/// possibly shorter.
pub fn band_count(height: u32) -> (r: u32)
    ensures
        r == (height as int + BAND_HEIGHT - 1) / (BAND_HEIGHT as int),
        (r as int) * (BAND_HEIGHT as int) >= height,
        (r as int - 1) * (BAND_HEIGHT as int) < height,
{
    let band_h: u32 = BAND_HEIGHT;
    let mut count: u32 = height / band_h;
    let last_band_height: u32 = height % band_h;
    if last_band_height != 0 {
        count += 1;
    }
    count
}

/// What the active list's properties say of it: each entry names a span,
/// columns never decrease along the list, a span touches a row exactly when
/// the row lies between its first and last rows, and it crosses into a row
/// exactly when it started above it and reaches down to it.
pub proof fn lemma_active_list_meaning(active: Seq<usize>, spans: Seq<EdgeSpan>, s: EdgeSpan, y: int)
    ensures
        indexes_spans(active, spans) <==> forall|k: int| 0 <= k < active.len() ==> #[trigger] active[k]
            < spans.len(),
        sorted_by_min_x(active, spans) <==> forall|a: int, b: int|
            0 <= a < b < active.len() ==> spans[#[trigger] active[a] as int].min_x
                <= spans[#[trigger] active[b] as int].min_x,
        covers_row(s, y) <==> (s.y_start <= y && y <= s.y_end),
        crosses_into(s, y) <==> (s.y_start < y && y <= s.y_end),
{
}

/// What the order guarantees of `enter_row` say: entries already listed
/// keep their relative order, and among entries with the same column the
/// older ones come first and the new ones by ascending index.
pub proof fn lemma_entry_order_meaning(before: Seq<usize>, after: Seq<usize>, spans: Seq<EdgeSpan>)
    ensures
        keeps_order(before, after) <==> forall|i: int, j: int, p: int, q: int|
            #![trigger before[i], before[j], after[p], after[q]]
            0 <= i < j < before.len() && 0 <= p < after.len() && 0 <= q < after.len() && after[p]
                == before[i] && after[q] == before[j] ==> p < q,
        ties_in_entry_order(before, after, spans) <==> forall|p: int, q: int|
            #![trigger after[p], after[q]]
            0 <= p < after.len() && 0 <= q < after.len() && spans[after[p] as int].min_x
                == spans[after[q] as int].min_x && !before.contains(after[q]) && (before.contains(
                after[p],
            ) || after[p] < after[q]) ==> p < q,
{
}

} // verus!
