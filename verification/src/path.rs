//! Paths as lists of drawing commands, the closed sub-paths they break
//! into, and the straight lines handed to the rasterizer.

use vstd::prelude::*;

use crate::geometry::{Point, point_eq, same_place};

verus! {

/// A quadratic Bézier curve.
#[derive(Debug, Clone, Copy, PartialEq)]
pub struct QuadraticBezier {
    pub start: Point,
    pub control: Point,
    pub end: Point,
}

/// A cubic Bézier curve.
#[derive(Debug, Clone, Copy, PartialEq)]
pub struct CubicBezier {
    pub start: Point,
    pub control1: Point,
    pub control2: Point,
    pub end: Point,
}

/// One drawing command of a path.
#[derive(Debug, Clone, Copy, PartialEq)]
pub enum PathCommand {
    MoveTo(Point),
    LineTo(Point),
    /// (target, control)
    QuadTo(Point, Point),
    /// (target, control1, control2)
    CubicTo(Point, Point, Point),
    Close,
}

/// One piece of a sub-path's outline.
#[derive(Debug, Clone, Copy, PartialEq)]
pub enum PathSegment {
    Line(Point, Point),
    Quadratic(QuadraticBezier),
    Cubic(CubicBezier),
}

/// How the inside of a path is decided.
#[derive(Debug, Clone, Copy, PartialEq, Eq, Structural, Default)]
pub enum FillRule {
    #[default]
    NonZero,
    EvenOdd,
}

/// A path: its drawing commands in order and its fill rule.
#[derive(Debug, Clone, Default, PartialEq)]
pub struct Path {
    pub commands: Vec<PathCommand>,
    pub fill_rule: FillRule,
}

/// A closed run of segments.
#[derive(Debug, Clone, Default, PartialEq)]
pub struct SubPath {
    pub segments: Vec<PathSegment>,
}

/// A straight line from its first point to its second.
#[derive(Debug, Clone, Copy, PartialEq)]
pub struct Line(pub Point, pub Point);

/// Where a segment begins.
pub open spec fn seg_start(s: PathSegment) -> Point {
    match s {
        PathSegment::Line(a, _) => a,
        PathSegment::Quadratic(q) => q.start,
        PathSegment::Cubic(c) => c.start,
    }
}

/// Where a segment ends.
pub open spec fn seg_end(s: PathSegment) -> Point {
    match s {
        PathSegment::Line(_, b) => b,
        PathSegment::Quadratic(q) => q.end,
        PathSegment::Cubic(c) => c.end,
    }
}

/// Each segment starts where the one before it ends, and the last one ends
/// at the place where the first one starts.
pub open spec fn is_closed_chain(s: Seq<PathSegment>) -> bool {
    &&& forall|k: int| 0 <= k < s.len() - 1 ==> #[trigger] seg_end(s[k]) == seg_start(s[k + 1])
    &&& s.len() > 0 ==> same_place(seg_end(s[s.len() - 1]), seg_start(s[0]))
}

/// A segment traversed the other way round.
pub open spec fn reversed_segment(s: PathSegment) -> PathSegment {
    match s {
        PathSegment::Line(a, b) => PathSegment::Line(b, a),
        PathSegment::Quadratic(q) => PathSegment::Quadratic(
            QuadraticBezier { start: q.end, control: q.control, end: q.start },
        ),
        PathSegment::Cubic(c) => PathSegment::Cubic(
            CubicBezier { start: c.end, control1: c.control2, control2: c.control1, end: c.start },
        ),
    }
}

/// A run of segments traversed backwards: last segment first, each one reversed.
pub open spec fn reversed_segments(s: Seq<PathSegment>) -> Seq<PathSegment> {
    Seq::new(s.len(), |k: int| reversed_segment(s[s.len() - 1 - k]))
}

impl PathSegment {
    /// Where the segment begins.
    pub fn start(&self) -> (r: Point)
        ensures
            r == seg_start(*self),
    {
        match self {
            PathSegment::Line(start, _) => *start,
            PathSegment::Quadratic(curve) => curve.start,
            PathSegment::Cubic(curve) => curve.start,
        }
    }

    /// Where the segment ends.
    pub fn end(&self) -> (r: Point)
        ensures
            r == seg_end(*self),
    {
        match self {
            PathSegment::Line(_, end) => *end,
            PathSegment::Quadratic(curve) => curve.end,
            PathSegment::Cubic(curve) => curve.end,
        }
    }
}

impl SubPath {
    /// Turns the sub-path round: the segments come in the opposite order and
    /// each one runs from its old end to its old start.
    pub fn reverse(&mut self)
        ensures
            final(self).segments@ == reversed_segments(old(self).segments@),
    {
        let mut out: Vec<PathSegment> = Vec::new();
        let n = self.segments.len();
        let mut i = n;
        while i > 0
            invariant
                i <= n,
                n == self.segments.len(),
                self.segments@ == old(self).segments@,
                out@.len() == n - i,
                forall|k: int|
                    0 <= k < n - i ==> #[trigger] out@[k] == reversed_segment(
                        self.segments@[n - 1 - k],
                    ),
            decreases i,
        {
            i = i - 1;
            let segment = &self.segments[i];
            match segment {
                PathSegment::Line(p1, p2) => {
                    out.push(PathSegment::Line(*p2, *p1));
                },
                PathSegment::Quadratic(QuadraticBezier { start, control, end }) => out.push(
                    PathSegment::Quadratic(
                        QuadraticBezier { start: *end, control: *control, end: *start },
                    ),
                ),
                PathSegment::Cubic(CubicBezier { start, control1, control2, end }) => {
                    out.push(
                        PathSegment::Cubic(
                            CubicBezier {
                                start: *end,
                                control1: *control2,
                                control2: *control1,
                                end: *start,
                            },
                        ),
                    );
                },
            }
        }
        self.segments = out;
        assert(self.segments@ =~= reversed_segments(old(self).segments@));
    }
}

/// Reversing a run of segments twice gives it back.
pub proof fn lemma_reverse_twice(s: Seq<PathSegment>)
    ensures
        reversed_segments(reversed_segments(s)) == s,
{
    assert forall|k: int| 0 <= k < s.len() implies reversed_segments(reversed_segments(s))[k]
        == s[k] by {
        let r = reversed_segments(s);
        assert(r[s.len() - 1 - k] == reversed_segment(s[k]));
    }
    assert(reversed_segments(reversed_segments(s)) =~= s);
}

/// A closed chain stays closed when it is traversed backwards.
pub proof fn lemma_reverse_keeps_closed(s: Seq<PathSegment>)
    requires
        is_closed_chain(s),
    ensures
        is_closed_chain(reversed_segments(s)),
{
    let r = reversed_segments(s);
    let n = s.len();
    assert forall|k: int| 0 <= k < r.len() - 1 implies #[trigger] seg_end(r[k]) == seg_start(
        r[k + 1],
    ) by {
        assert(r[k] == reversed_segment(s[n - 1 - k]));
        assert(r[k + 1] == reversed_segment(s[n - 2 - k]));
        assert(seg_end(s[n - 2 - k]) == seg_start(s[(n - 2 - k) + 1]));
    }
    if n > 0 {
        assert(r[n - 1] == reversed_segment(s[0]));
        assert(r[0] == reversed_segment(s[n - 1]));
        crate::geometry::lemma_point_eq_symmetric(seg_end(s[n - 1]), seg_start(s[0]));
    }
}

impl Path {
    /// An empty path with the non-zero fill rule.
    pub fn new() -> (r: Self)
        ensures
            r.commands@ == Seq::<PathCommand>::empty(),
            r.fill_rule == FillRule::NonZero,
    {
        Path { commands: Vec::new(), fill_rule: FillRule::NonZero }
    }

    /// Sets the fill rule, keeping the commands.
    pub fn set_fill_rule(&mut self, rule: FillRule)
        ensures
            final(self).fill_rule == rule,
            final(self).commands@ == old(self).commands@,
    {
        self.fill_rule = rule;
    }

    /// Starts a new sub-path at `to`.
    pub fn move_to(&mut self, to: Point) -> (r: &mut Self)
        ensures
            r.commands@ == old(self).commands@.push(PathCommand::MoveTo(to)),
            r.fill_rule == old(self).fill_rule,
            *final(self) == *final(r),
    {
        self.commands.push(PathCommand::MoveTo(to));
        self
    }

    /// Draws a straight line to `to`.
    pub fn line_to(&mut self, to: Point) -> (r: &mut Self)
        ensures
            r.commands@ == old(self).commands@.push(PathCommand::LineTo(to)),
            r.fill_rule == old(self).fill_rule,
            *final(self) == *final(r),
    {
        self.commands.push(PathCommand::LineTo(to));
        self
    }

    /// Draws a quadratic curve to `to` bent towards `control`.
    pub fn quad_to(&mut self, to: Point, control: Point) -> (r: &mut Self)
        ensures
            r.commands@ == old(self).commands@.push(PathCommand::QuadTo(to, control)),
            r.fill_rule == old(self).fill_rule,
            *final(self) == *final(r),
    {
        self.commands.push(PathCommand::QuadTo(to, control));
        self
    }

    /// Draws a cubic curve to `to` with the two control points.
    pub fn cubic_to(&mut self, to: Point, control1: Point, control2: Point) -> (r: &mut Self)
        ensures
            r.commands@ == old(self).commands@.push(PathCommand::CubicTo(to, control1, control2)),
            r.fill_rule == old(self).fill_rule,
            *final(self) == *final(r),
    {
        self.commands.push(PathCommand::CubicTo(to, control1, control2));
        self
    }

    /// Closes the current sub-path.
    pub fn close(&mut self) -> (r: &mut Self)
        ensures
            r.commands@ == old(self).commands@.push(PathCommand::Close),
            r.fill_rule == old(self).fill_rule,
            *final(self) == *final(r),
    {
        self.commands.push(PathCommand::Close);
        self
    }
}


/// The point a command moves or draws to.
pub open spec fn cmd_target(c: PathCommand) -> Point {
    match c {
        PathCommand::MoveTo(p) => p,
        PathCommand::LineTo(p) => p,
        PathCommand::QuadTo(p, _) => p,
        PathCommand::CubicTo(p, _, _) => p,
        PathCommand::Close => Point { x: 0, y: 0 },
    }
}

/// The command draws: a line or a curve.
pub open spec fn is_drawing(c: PathCommand) -> bool {
    c is LineTo || c is QuadTo || c is CubicTo
}

/// The segment that a drawing command adds when the pen stands at `from`.
pub open spec fn segment_to(from: Point, c: PathCommand) -> PathSegment {
    match c {
        PathCommand::QuadTo(t, c1) => PathSegment::Quadratic(
            QuadraticBezier { start: from, control: c1, end: t },
        ),
        PathCommand::CubicTo(t, c1, c2) => PathSegment::Cubic(
            CubicBezier { start: from, control1: c1, control2: c2, end: t },
        ),
        _ => PathSegment::Line(from, cmd_target(c)),
    }
}

/// The index of the first `Close` at or after `from`, or the length when
/// there is none.
pub open spec fn next_close(cmds: Seq<PathCommand>, from: int) -> int
    decreases cmds.len() - from,
{
    if from < 0 || from >= cmds.len() {
        cmds.len() as int
    } else if cmds[from] is Close {
        from
    } else {
        next_close(cmds, from + 1)
    }
}

/// The index of the last `MoveTo` in `lo..hi` (`lo` when there is none).
pub open spec fn last_move(cmds: Seq<PathCommand>, lo: int, hi: int) -> int
    decreases hi - lo,
{
    if hi <= lo {
        lo
    } else if cmds[hi - 1] is MoveTo {
        hi - 1
    } else {
        last_move(cmds, lo, hi - 1)
    }
}

/// The segments drawn by the commands after the `MoveTo` at `m` up to the
/// `Close` at `c`, plus a line back to the start where the pen is not
/// already there.
pub open spec fn subpath_segments(cmds: Seq<PathCommand>, m: int, c: int) -> Seq<PathSegment> {
    let start = cmd_target(cmds[m]);
    let end = cmd_target(cmds[c - 1]);
    let body = Seq::new(
        (c - m - 1) as nat,
        |k: int| segment_to(cmd_target(cmds[m + k]), cmds[m + k + 1]),
    );
    if point_eq(start, end) {
        body
    } else {
        body.push(PathSegment::Line(end, start))
    }
}

/// Reading may go on at `pos`: the commands are used up, or a sub-path
/// starts there.
pub open spec fn ready_at(cmds: Seq<PathCommand>, pos: int) -> bool {
    pos < cmds.len() ==> cmds[pos] is MoveTo
}

/// Every sub-path of the command list starts with a `MoveTo`: the first
/// command and each one right after a `Close`.
pub open spec fn commands_well_formed(cmds: Seq<PathCommand>) -> bool {
    &&& ready_at(cmds, 0)
    &&& forall|i: int| 0 <= i < cmds.len() && #[trigger] cmds[i] is Close ==> ready_at(cmds, i + 1)
}

proof fn lemma_next_close_skip(cmds: Seq<PathCommand>, from: int, to: int)
    requires
        0 <= from <= to <= cmds.len(),
        forall|j: int| from <= j < to ==> !(#[trigger] cmds[j] is Close),
    ensures
        next_close(cmds, from) == next_close(cmds, to),
    decreases to - from,
{
    if from < to {
        lemma_next_close_skip(cmds, from + 1, to);
    }
}

/// The number of `Close` commands at or after `from`.
pub open spec fn close_count(cmds: Seq<PathCommand>, from: int) -> nat
    decreases cmds.len() - from,
{
    if from < 0 || from >= cmds.len() {
        0
    } else if cmds[from] is Close {
        1 + close_count(cmds, from + 1)
    } else {
        close_count(cmds, from + 1)
    }
}

/// Reading from `from` finds a `Close` exactly when one is left, and reading
/// past it leaves one `Close` fewer: a path hands out one sub-path per
/// `Close` command after the reading position, then nothing.
pub proof fn lemma_one_subpath_per_close(cmds: Seq<PathCommand>, from: int)
    requires
        0 <= from <= cmds.len(),
    ensures
        (next_close(cmds, from) < cmds.len()) == (close_count(cmds, from) > 0),
        next_close(cmds, from) < cmds.len() ==> close_count(cmds, next_close(cmds, from) + 1)
            == close_count(cmds, from) - 1,
    decreases cmds.len() - from,
{
    if from < cmds.len() && !(cmds[from] is Close) {
        lemma_one_subpath_per_close(cmds, from + 1);
    }
}

/// The segments of one sub-path form a closed chain.
proof fn lemma_subpath_closed(cmds: Seq<PathCommand>, m: int, c: int)
    requires
        0 <= m < c <= cmds.len(),
        forall|j: int| m < j < c ==> is_drawing(#[trigger] cmds[j]),
    ensures
        is_closed_chain(subpath_segments(cmds, m, c)),
{
    let s = subpath_segments(cmds, m, c);
    let start = cmd_target(cmds[m]);
    let end = cmd_target(cmds[c - 1]);
    let body = Seq::new(
        (c - m - 1) as nat,
        |k: int| segment_to(cmd_target(cmds[m + k]), cmds[m + k + 1]),
    );
    assert forall|k: int| 0 <= k < body.len() implies seg_start(#[trigger] body[k]) == cmd_target(
        cmds[m + k],
    ) && seg_end(body[k]) == cmd_target(cmds[m + k + 1]) by {
        assert(is_drawing(cmds[m + k + 1]));
    }
    if point_eq(start, end) {
        assert(s == body);
        if body.len() > 0 {
            assert(seg_end(body[body.len() - 1]) == end);
            assert(seg_start(body[0]) == start);
        }
    } else {
        assert(s == body.push(PathSegment::Line(end, start)));
        assert forall|k: int| 0 <= k < s.len() - 1 implies #[trigger] seg_end(s[k]) == seg_start(
            s[k + 1],
        ) by {
            if k + 1 < body.len() {
                assert(s[k] == body[k]);
                assert(s[k + 1] == body[k + 1]);
            } else {
                assert(s[k] == body[k]);
                assert(s[k + 1] == PathSegment::Line(end, start));
            }
        }
        if body.len() > 0 {
            assert(s[0] == body[0]);
        }
    }
}

/// Hands out the sub-paths of a path one at a time.
pub struct SubPathIter<'a> {
    commands: &'a Vec<PathCommand>,
    pos: usize,
}

impl<'a> SubPathIter<'a> {
    /// The commands being read.
    pub closed spec fn commands_view(&self) -> Seq<PathCommand> {
        self.commands@
    }

    /// How many commands have been read.
    pub closed spec fn position_view(&self) -> int {
        self.pos as int
    }

    /// How many commands have been read.
    pub fn position(&self) -> (r: usize)
        ensures
            r == self.position_view(),
    {
        self.pos
    }

    /// Reads up to the next `Close` and returns the sub-path that it closes:
    /// the segments drawn since the last `MoveTo` before it, plus a line back
    /// to that `MoveTo`'s point where the pen is not already there. Where no
    /// `Close` is left, the rest is read and `None` comes back.
    pub fn next(&mut self) -> (r: Option<SubPath>)
        requires
            old(self).position_view() <= old(self).commands_view().len(),
            ready_at(old(self).commands_view(), old(self).position_view()),
        ensures
            final(self).commands_view() == old(self).commands_view(),
            ({
                let cmds = old(self).commands_view();
                let c = next_close(cmds, old(self).position_view());
                if c < cmds.len() {
                    &&& r matches Some(sp)
                    &&& sp.segments@ == subpath_segments(cmds, last_move(cmds, old(self).position_view(), c), c)
                    &&& is_closed_chain(sp.segments@)
                    &&& final(self).position_view() == c + 1
                } else {
                    &&& r is None
                    &&& final(self).position_view() == cmds.len()
                }
            }),
            final(self).position_view() <= final(self).commands_view().len(),
            commands_well_formed(old(self).commands_view()) ==> ready_at(
                final(self).commands_view(),
                final(self).position_view(),
            ),
    {
        let ghost cmds = self.commands@;
        let ghost pos0 = self.pos as int;
        let n = self.commands.len();
        let mut segments: Vec<PathSegment> = Vec::new();
        let mut started = false;
        let mut subpath_start = Point { x: 0, y: 0 };
        let mut pen = Point { x: 0, y: 0 };
        let ghost mut m: int = pos0;
        let mut i = self.pos;
        while i < n
            invariant
                cmds == self.commands@,
                cmds == old(self).commands@,
                pos0 == old(self).pos,
                n == cmds.len(),
                0 <= pos0 <= i <= n,
                ready_at(cmds, pos0),
                forall|j: int| pos0 <= j < i ==> !(#[trigger] cmds[j] is Close),
                started == (i > pos0),
                started ==> {
                    &&& m == last_move(cmds, pos0, i as int)
                    &&& pos0 <= m < i
                    &&& cmds[m] is MoveTo
                    &&& subpath_start == cmd_target(cmds[m])
                    &&& pen == cmd_target(cmds[i - 1])
                    &&& segments@ == Seq::new(
                        (i - m - 1) as nat,
                        |k: int| segment_to(cmd_target(cmds[m + k]), cmds[m + k + 1]),
                    )
                    &&& forall|j: int| m < j < i ==> is_drawing(#[trigger] cmds[j])
                },
            decreases n - i,
        {
            let command = &self.commands[i];
            match command {
                PathCommand::MoveTo(point) => {
                    segments = Vec::new();
                    started = true;
                    pen = *point;
                    subpath_start = *point;
                    proof {
                        m = i as int;
                    }
                    assert(segments@ =~= Seq::new(
                        (i + 1 - m - 1) as nat,
                        |k: int| segment_to(cmd_target(cmds[m + k]), cmds[m + k + 1]),
                    ));
                },
                PathCommand::LineTo(point) => {
                    segments.push(PathSegment::Line(pen, *point));
                    pen = *point;
                    assert(segments@ =~= Seq::new(
                        (i + 1 - m - 1) as nat,
                        |k: int| segment_to(cmd_target(cmds[m + k]), cmds[m + k + 1]),
                    ));
                },
                PathCommand::QuadTo(target, c1) => {
                    segments.push(
                        PathSegment::Quadratic(
                            QuadraticBezier { start: pen, control: *c1, end: *target },
                        ),
                    );
                    pen = *target;
                    assert(segments@ =~= Seq::new(
                        (i + 1 - m - 1) as nat,
                        |k: int| segment_to(cmd_target(cmds[m + k]), cmds[m + k + 1]),
                    ));
                },
                PathCommand::CubicTo(target, c1, c2) => {
                    segments.push(
                        PathSegment::Cubic(
                            CubicBezier {
                                start: pen,
                                control1: *c1,
                                control2: *c2,
                                end: *target,
                            },
                        ),
                    );
                    pen = *target;
                    assert(segments@ =~= Seq::new(
                        (i + 1 - m - 1) as nat,
                        |k: int| segment_to(cmd_target(cmds[m + k]), cmds[m + k + 1]),
                    ));
                },
                PathCommand::Close => {
                    if subpath_start != pen {
                        segments.push(PathSegment::Line(pen, subpath_start));
                    }
                    self.pos = i + 1;
                    proof {
                        lemma_next_close_skip(cmds, pos0, i as int);
                        lemma_subpath_closed(cmds, m, i as int);
                        assert(segments@ =~= subpath_segments(cmds, m, i as int));
                    }
                    return Some(SubPath { segments });
                },
            }
            i = i + 1;
        }
        self.pos = n;
        proof {
            lemma_next_close_skip(cmds, pos0, n as int);
        }
        None
    }
}

impl Path {
    /// Reads the path's sub-paths from its first command on.
    pub fn break_into_subpath(&self) -> (r: SubPathIter<'_>)
        ensures
            r.commands_view() == self.commands@,
            r.position_view() == 0,
    {
        SubPathIter { commands: &self.commands, pos: 0 }
    }
}

/// The lines joining consecutive points of a polyline.
pub open spec fn polyline_lines(pts: Seq<Point>) -> Seq<Line> {
    Seq::new((pts.len() - 1) as nat, |j: int| Line(pts[j], pts[j + 1]))
}

/// The lines that stand for one segment: a straight segment as itself, a
/// curve as the polyline that approximates it.
pub open spec fn segment_lines(seg: PathSegment, curve: Seq<Point>) -> Seq<Line> {
    match seg {
        PathSegment::Line(a, b) => seq![Line(a, b)],
        _ => polyline_lines(curve),
    }
}

/// The lines of the first `k` segments, in order.
pub open spec fn lines_of(segs: Seq<PathSegment>, curves: Seq<Vec<Point>>, k: int) -> Seq<Line>
    decreases k,
{
    if k <= 0 {
        Seq::empty()
    } else {
        lines_of(segs, curves, k - 1) + segment_lines(segs[k - 1], curves[k - 1]@)
    }
}

impl SubPath {
    /// Appends the sub-path's outline as straight lines to `output`. A line
    /// segment goes in as it is; a curve goes in as the lines joining the
    /// consecutive points of its polyline `curves[k]` (the flattened curve,
    /// starting at the curve's start). The polyline of a straight segment
    /// is not read.
    pub fn write_lines(&self, curves: &Vec<Vec<Point>>, output: &mut Vec<Line>)
        requires
            curves.len() == self.segments.len(),
            forall|k: int|
                0 <= k < self.segments.len() && !(self.segments@[k] is Line) ==> #[trigger] curves@[k].len()
                    >= 1,
        ensures
            final(output)@ == old(output)@ + lines_of(
                self.segments@,
                curves@,
                self.segments.len() as int,
            ),
    {
        let n = self.segments.len();
        let mut k: usize = 0;
        while k < n
            invariant
                n == self.segments.len(),
                n == curves.len(),
                k <= n,
                forall|j: int|
                    0 <= j < n && !(self.segments@[j] is Line) ==> #[trigger] curves@[j].len() >= 1,
                output@ == old(output)@ + lines_of(self.segments@, curves@, k as int),
            decreases n - k,
        {
            let ghost before = output@;
            match &self.segments[k] {
                PathSegment::Line(p0, p1) => {
                    output.push(Line(*p0, *p1));
                },
                _ => {
                    assert(!(self.segments@[k as int] is Line));
                    assert(curves@[k as int].len() >= 1);
                    let points = &curves[k];
                    let mut current = points[0];
                    let mut j: usize = 1;
                    while j < points.len()
                        invariant
                            1 <= j <= points.len(),
                            current == points@[j - 1],
                            output@ == before + polyline_lines(points@).take(j - 1),
                        decreases points.len() - j,
                    {
                        let p = points[j];
                        output.push(Line(current, p));
                        current = p;
                        assert(polyline_lines(points@).take(j as int) =~= polyline_lines(
                            points@,
                        ).take(j - 1).push(Line(points@[j - 1], points@[j as int])));
                        j = j + 1;
                    }
                    assert(polyline_lines(points@).take(j - 1) =~= polyline_lines(points@));
                },
            }
            assert(output@ =~= old(output)@ + lines_of(self.segments@, curves@, k + 1));
            k = k + 1;
        }
    }
}

/// The first `Close` from `from` on lies at or after `from`.
pub proof fn lemma_next_close_bounds(cmds: Seq<PathCommand>, from: int)
    requires
        0 <= from <= cmds.len(),
    ensures
        from <= next_close(cmds, from) <= cmds.len(),
        next_close(cmds, from) < cmds.len() ==> cmds[next_close(cmds, from)] is Close,
    decreases cmds.len() - from,
{
    if from < cmds.len() && !(cmds[from] is Close) {
        lemma_next_close_bounds(cmds, from + 1);
    }
}

/// The sub-paths that reading from `from` hands out, in order.
pub open spec fn path_subpaths(cmds: Seq<PathCommand>, from: int) -> Seq<Seq<PathSegment>>
    decreases cmds.len() - from,
{
    if from < 0 || from > cmds.len() {
        Seq::empty()
    } else {
        let c = next_close(cmds, from);
        if c < cmds.len() {
            proof {
                lemma_next_close_bounds(cmds, from);
            }
            seq![subpath_segments(cmds, last_move(cmds, from, c), c)] + path_subpaths(cmds, c + 1)
        } else {
            Seq::empty()
        }
    }
}

/// Each line starts where the one before it ends, and the last one ends at
/// the place where the first one starts.
pub open spec fn is_closed_line_chain(ls: Seq<Line>) -> bool {
    &&& forall|j: int| 0 <= j < ls.len() - 1 ==> #[trigger] ls[j].1 == ls[j + 1].0
    &&& ls.len() > 0 ==> same_place(ls[ls.len() - 1].1, ls[0].0)
}

/// A polyline for a curve: at least two points, from the curve's start to
/// its end.
pub open spec fn polyline_spans(seg: PathSegment, pts: Seq<Point>) -> bool {
    &&& pts.len() >= 2
    &&& pts[0] == seg_start(seg)
    &&& pts[pts.len() - 1] == seg_end(seg)
}

/// `curves` holds, for each segment, no points for a straight segment and
/// a polyline that `flatten` may return for a curve.
pub open spec fn flattened_by<F: Fn(PathSegment) -> Vec<Point>>(
    flatten: F,
    segs: Seq<PathSegment>,
    curves: Seq<Vec<Point>>,
) -> bool {
    &&& curves.len() == segs.len()
    &&& forall|k: int|
        #![trigger segs[k]]
        0 <= k < segs.len() ==> if segs[k] is Line {
            curves[k]@.len() == 0
        } else {
            call_ensures(flatten, (segs[k],), curves[k])
        }
}

/// Every polyline that `flatten` returns for a curve runs from the curve's
/// start to its end through at least two points.
pub open spec fn flattening_spans<F: Fn(PathSegment) -> Vec<Point>>(flatten: F) -> bool {
    forall|s: PathSegment, pts: Vec<Point>|
        #[trigger] call_ensures(flatten, (s,), pts) && !(s is Line) ==> polyline_spans(s, pts@)
}

/// The lines of the first `i` sub-paths, one after the other.
pub open spec fn all_lines(subs: Seq<Seq<PathSegment>>, curves: Seq<Seq<Vec<Point>>>, i: int) -> Seq<Line>
    decreases i,
{
    if i <= 0 {
        Seq::empty()
    } else {
        all_lines(subs, curves, i - 1) + lines_of(subs[i - 1], curves[i - 1], subs[i - 1].len() as int)
    }
}

proof fn lemma_segment_lines_chain(seg: PathSegment, curve: Seq<Point>)
    requires
        seg is Line || polyline_spans(seg, curve),
    ensures
        ({
            let ls = segment_lines(seg, curve);
            &&& ls.len() > 0
            &&& ls[0].0 == seg_start(seg)
            &&& ls[ls.len() - 1].1 == seg_end(seg)
            &&& forall|j: int| 0 <= j < ls.len() - 1 ==> #[trigger] ls[j].1 == ls[j + 1].0
        }),
{
}

proof fn lemma_lines_of_chain(segs: Seq<PathSegment>, curves: Seq<Vec<Point>>, k: int)
    requires
        0 < k <= segs.len(),
        curves.len() == segs.len(),
        forall|t: int| 0 <= t < segs.len() - 1 ==> #[trigger] seg_end(segs[t]) == seg_start(segs[t + 1]),
        forall|t: int|
            0 <= t < segs.len() && !(#[trigger] segs[t] is Line) ==> polyline_spans(segs[t], curves[t]@),
    ensures
        ({
            let ls = lines_of(segs, curves, k);
            &&& ls.len() > 0
            &&& ls[0].0 == seg_start(segs[0])
            &&& ls[ls.len() - 1].1 == seg_end(segs[k - 1])
            &&& forall|j: int| 0 <= j < ls.len() - 1 ==> #[trigger] ls[j].1 == ls[j + 1].0
        }),
    decreases k,
{
    let seg = segs[k - 1];
    lemma_segment_lines_chain(seg, curves[k - 1]@);
    let tail = segment_lines(seg, curves[k - 1]@);
    let ls = lines_of(segs, curves, k);
    if k == 1 {
        assert(lines_of(segs, curves, 0) =~= Seq::<Line>::empty());
        assert(ls =~= tail);
    } else {
        lemma_lines_of_chain(segs, curves, k - 1);
        let head = lines_of(segs, curves, k - 1);
        assert(ls == head + tail);
        assert(seg_end(segs[k - 2]) == seg_start(segs[k - 1]));
        assert forall|j: int| 0 <= j < ls.len() - 1 implies #[trigger] ls[j].1 == ls[j + 1].0 by {
            if j < head.len() - 1 {
                assert(ls[j] == head[j] && ls[j + 1] == head[j + 1]);
            } else if j == head.len() - 1 {
                assert(ls[j] == head[j] && ls[j + 1] == tail[0]);
            } else {
                assert(ls[j] == tail[j - head.len()] && ls[j + 1] == tail[j - head.len() + 1]);
            }
        }
    }
}

/// A closed chain of segments turns into a closed chain of lines when each
/// curve is replaced by a polyline from its start to its end.
pub proof fn lemma_lines_of_closed(segs: Seq<PathSegment>, curves: Seq<Vec<Point>>)
    requires
        is_closed_chain(segs),
        curves.len() == segs.len(),
        forall|t: int|
            0 <= t < segs.len() && !(#[trigger] segs[t] is Line) ==> polyline_spans(segs[t], curves[t]@),
    ensures
        is_closed_line_chain(lines_of(segs, curves, segs.len() as int)),
        segs.len() > 0 ==> lines_of(segs, curves, segs.len() as int).len() > 0,
{
    if segs.len() > 0 {
        lemma_lines_of_chain(segs, curves, segs.len() as int);
    } else {
        assert(lines_of(segs, curves, 0) =~= Seq::<Line>::empty());
    }
}

/// `lines` are the lines of the sub-paths `subs` with `curves` standing for
/// their curves, as `flatten` may have flattened them; and where `flatten`
/// takes each curve from its start to its end, every sub-path's lines form a
/// closed chain.
pub open spec fn lines_from_flattening<F: Fn(PathSegment) -> Vec<Point>>(
    flatten: F,
    subs: Seq<Seq<PathSegment>>,
    curves: Seq<Seq<Vec<Point>>>,
    lines: Seq<Line>,
) -> bool {
    &&& curves.len() == subs.len()
    &&& forall|i: int| 0 <= i < subs.len() ==> #[trigger] flattened_by(flatten, subs[i], curves[i])
    &&& lines == all_lines(subs, curves, subs.len() as int)
    &&& flattening_spans(flatten) ==> forall|i: int|
        0 <= i < subs.len() ==> is_closed_line_chain(
            #[trigger] lines_of(subs[i], curves[i], subs[i].len() as int),
        )
}

impl Path {
    /// Every sub-path starts with a `MoveTo`: the first command and each one
    /// right after a `Close`.
    pub fn is_well_formed(&self) -> (r: bool)
        ensures
            r == commands_well_formed(self.commands@),
    {
        let n = self.commands.len();
        if n > 0 && !matches!(self.commands[0], PathCommand::MoveTo(_)) {
            return false;
        }
        let mut i: usize = 0;
        while i < n
            invariant
                n == self.commands@.len(),
                i <= n,
                ready_at(self.commands@, 0),
                forall|j: int|
                    0 <= j < i && #[trigger] self.commands@[j] is Close ==> ready_at(self.commands@, j + 1),
            decreases n - i,
        {
            if matches!(self.commands[i], PathCommand::Close) && i + 1 < n && !matches!(
                self.commands[i + 1],
                PathCommand::MoveTo(_),
            ) {
                assert(self.commands@[i as int] is Close);
                return false;
            }
            i = i + 1;
        }
        true
    }

    /// The path's outline as straight lines: its sub-paths in order, each
    /// written out by `SubPath::write_lines` with `flatten` giving the
    /// polyline of every curve. Where `flatten` takes each curve from its
    /// start to its end, every sub-path's lines form a closed chain.
    pub fn break_into_lines<F: Fn(PathSegment) -> Vec<Point>>(&self, flatten: F) -> (r: Vec<Line>)
        requires
            commands_well_formed(self.commands@),
            forall|s: PathSegment| #[trigger] call_requires(flatten, (s,)),
            forall|s: PathSegment, pts: Vec<Point>|
                #[trigger] call_ensures(flatten, (s,), pts) ==> pts@.len() >= 1,
        ensures
            forall|i: int|
                0 <= i < path_subpaths(self.commands@, 0).len() ==> is_closed_chain(
                    #[trigger] path_subpaths(self.commands@, 0)[i],
                ),
            exists|curves: Seq<Seq<Vec<Point>>>|
                #[trigger] lines_from_flattening(
                    flatten,
                    path_subpaths(self.commands@, 0),
                    curves,
                    r@,
                ),
    {
        let ghost cmds = self.commands@;
        let ghost subs = path_subpaths(cmds, 0);
        let ghost mut curves_acc: Seq<Seq<Vec<Point>>> = Seq::empty();
        let mut out: Vec<Line> = Vec::with_capacity(256);
        let mut it = self.break_into_subpath();
        assert(subs =~= subs.take(0) + path_subpaths(cmds, 0));
        loop
            invariant
                cmds == self.commands@,
                it.commands_view() == cmds,
                it.position_view() <= cmds.len(),
                0 <= it.position_view(),
                ready_at(cmds, it.position_view()),
                commands_well_formed(cmds),
                forall|s: PathSegment| #[trigger] call_requires(flatten, (s,)),
                forall|s: PathSegment, pts: Vec<Point>|
                    #[trigger] call_ensures(flatten, (s,), pts) ==> pts@.len() >= 1,
                subs == path_subpaths(cmds, 0),
                curves_acc.len() <= subs.len(),
                subs == subs.take(curves_acc.len() as int) + path_subpaths(cmds, it.position_view()),
                forall|i: int|
                    0 <= i < curves_acc.len() ==> #[trigger] flattened_by(flatten, subs[i], curves_acc[i]),
                forall|i: int| 0 <= i < curves_acc.len() ==> is_closed_chain(#[trigger] subs[i]),
                out@ == all_lines(subs, curves_acc, curves_acc.len() as int),
            ensures
                curves_acc.len() == subs.len(),
                forall|i: int|
                    0 <= i < curves_acc.len() ==> #[trigger] flattened_by(flatten, subs[i], curves_acc[i]),
                forall|i: int| 0 <= i < curves_acc.len() ==> is_closed_chain(#[trigger] subs[i]),
                out@ == all_lines(subs, curves_acc, curves_acc.len() as int),
            decreases cmds.len() - it.position_view(),
        {
            let ghost pos = it.position_view();
            let ghost k: int = curves_acc.len() as int;
            let next = it.next();
            match next {
                None => {
                    assert(path_subpaths(cmds, pos) =~= Seq::<Seq<PathSegment>>::empty());
                    assert(subs =~= subs.take(k));
                    break;
                },
                Some(sub) => {
                    let ghost c = next_close(cmds, pos);
                    proof {
                        lemma_next_close_bounds(cmds, pos);
                        assert(path_subpaths(cmds, pos) == seq![sub.segments@] + path_subpaths(cmds, c + 1));
                        assert(subs[k] == sub.segments@);
                        assert(subs =~= subs.take(k + 1) + path_subpaths(cmds, c + 1)) by {
                            assert(subs.take(k + 1) =~= subs.take(k).push(sub.segments@));
                        }
                    }
                    let n = sub.segments.len();
                    let mut curves: Vec<Vec<Point>> = Vec::new();
                    let mut j: usize = 0;
                    while j < n
                        invariant
                            n == sub.segments@.len(),
                            j <= n,
                            curves@.len() == j,
                            forall|s: PathSegment| #[trigger] call_requires(flatten, (s,)),
                            forall|s: PathSegment, pts: Vec<Point>|
                                #[trigger] call_ensures(flatten, (s,), pts) ==> pts@.len() >= 1,
                            forall|t: int|
                                #![trigger sub.segments@[t]]
                                0 <= t < j ==> if sub.segments@[t] is Line {
                                    curves@[t]@.len() == 0
                                } else {
                                    call_ensures(flatten, (sub.segments@[t],), curves@[t])
                                },
                        decreases n - j,
                    {
                        let seg = sub.segments[j];
                        match seg {
                            PathSegment::Line(..) => {
                                curves.push(Vec::new());
                            },
                            _ => {
                                let pts = flatten(seg);
                                curves.push(pts);
                            },
                        }
                        j = j + 1;
                    }
                    proof {
                        assert forall|t: int|
                            0 <= t < sub.segments@.len() && !(sub.segments@[t] is Line) implies #[trigger] curves@[t].len()
                            >= 1 by {
                            assert(call_ensures(flatten, (sub.segments@[t],), curves@[t]));
                        }
                    }
                    sub.write_lines(&curves, &mut out);
                    proof {
                        let old_acc = curves_acc;
                        curves_acc = curves_acc.push(curves@);
                        assert(flattened_by(flatten, subs[k], curves_acc[k]));
                        lemma_all_lines_prefix(subs, curves_acc, k);
                        assert(curves_acc.take(k) =~= old_acc);
                        assert(all_lines(subs, curves_acc, k + 1) == all_lines(subs, curves_acc, k)
                            + lines_of(subs[k], curves_acc[k], subs[k].len() as int));
                    }
                },
            }
        }
        proof {
            if flattening_spans(flatten) {
                assert forall|i: int| 0 <= i < subs.len() implies is_closed_line_chain(
                    #[trigger] lines_of(subs[i], curves_acc[i], subs[i].len() as int),
                ) by {
                    assert(flattened_by(flatten, subs[i], curves_acc[i]));
                    assert forall|t: int|
                        0 <= t < subs[i].len() && !(#[trigger] subs[i][t] is Line) implies polyline_spans(
                            subs[i][t],
                            curves_acc[i][t]@,
                        ) by {
                        assert(call_ensures(flatten, (subs[i][t],), curves_acc[i][t]));
                    }
                    lemma_lines_of_closed(subs[i], curves_acc[i]);
                }
            }
            assert(lines_from_flattening(flatten, subs, curves_acc, out@));
        }
        out
    }
}

proof fn lemma_all_lines_prefix(subs: Seq<Seq<PathSegment>>, curves: Seq<Seq<Vec<Point>>>, i: int)
    requires
        0 <= i <= curves.len(),
    ensures
        all_lines(subs, curves, i) == all_lines(subs, curves.take(i), i),
    decreases i,
{
    if i > 0 {
        lemma_all_lines_prefix(subs, curves, i - 1);
        lemma_all_lines_prefix(subs, curves.take(i), i - 1);
        assert(curves.take(i).take(i - 1) =~= curves.take(i - 1));
    }
}

/// Writing out a sub-path's lines starts from nothing, and each further
/// segment appends its own lines: a straight segment exactly itself, and any
/// curve, quadratic or cubic, exactly the lines joining each point of its
/// polyline to the next one.
pub proof fn lemma_lines_of_appends(segs: Seq<PathSegment>, curves: Seq<Vec<Point>>, k: int)
    requires
        0 <= k < segs.len(),
        curves.len() == segs.len(),
        !(segs[k] is Line) ==> curves[k]@.len() >= 1,
    ensures
        lines_of(segs, curves, 0) == Seq::<Line>::empty(),
        segs[k] matches PathSegment::Line(a, b) ==> lines_of(segs, curves, k + 1) == lines_of(
            segs,
            curves,
            k,
        ).push(Line(a, b)),
        !(segs[k] is Line) ==> {
            let pts = curves[k]@;
            let before = lines_of(segs, curves, k);
            let after = lines_of(segs, curves, k + 1);
            &&& after.len() == before.len() + pts.len() - 1
            &&& after.subrange(0, before.len() as int) == before
            &&& forall|j: int|
                0 <= j < pts.len() - 1 ==> #[trigger] after[before.len() + j] == Line(
                    pts[j],
                    pts[j + 1],
                )
        },
{
    let before = lines_of(segs, curves, k);
    let after = lines_of(segs, curves, k + 1);
    if !(segs[k] is Line) {
        assert(after.subrange(0, before.len() as int) =~= before);
    } else {
        assert(after =~= before + seq![Line(seg_start(segs[k]), seg_end(segs[k]))]);
    }
}

/// Breaking a path into lines starts from nothing, and each further
/// sub-path appends exactly its own lines, whatever its size.
pub proof fn lemma_all_lines_appends(subs: Seq<Seq<PathSegment>>, curves: Seq<Seq<Vec<Point>>>, i: int)
    requires
        0 <= i,
    ensures
        all_lines(subs, curves, 0) == Seq::<Line>::empty(),
        all_lines(subs, curves, i + 1) == all_lines(subs, curves, i) + lines_of(
            subs[i],
            curves[i],
            subs[i].len() as int,
        ),
{
}

/// Reading from `from` hands out one sub-path per `Close` left: the first
/// one is made of the segments drawn since the last `MoveTo` before the
/// first `Close`, and the rest are read from just after that `Close`.
pub proof fn lemma_path_subpaths_per_close(cmds: Seq<PathCommand>, from: int)
    requires
        0 <= from <= cmds.len(),
    ensures
        path_subpaths(cmds, from).len() == close_count(cmds, from),
        next_close(cmds, from) < cmds.len() ==> path_subpaths(cmds, from) == seq![
            subpath_segments(cmds, last_move(cmds, from, next_close(cmds, from)), next_close(cmds, from)),
        ] + path_subpaths(cmds, next_close(cmds, from) + 1),
    decreases cmds.len() - from,
{
    lemma_next_close_bounds(cmds, from);
    lemma_one_subpath_per_close(cmds, from);
    let c = next_close(cmds, from);
    if c < cmds.len() {
        lemma_path_subpaths_per_close(cmds, c + 1);
    }
}

/// The first `Close` from `from` on: nothing before it in `from..` is a
/// `Close`.
pub proof fn lemma_next_close_is_first(cmds: Seq<PathCommand>, from: int, j: int)
    requires
        0 <= from <= j < next_close(cmds, from),
        next_close(cmds, from) <= cmds.len(),
    ensures
        !(cmds[j] is Close),
    decreases j - from,
{
    if j > from {
        assert(!(cmds[from] is Close));
        lemma_next_close_is_first(cmds, from + 1, j);
    } else {
        assert(!(cmds[from] is Close));
    }
}

/// The last `MoveTo` in `lo..hi`: a `MoveTo` in range, with no `MoveTo`
/// after it before `hi`.
pub proof fn lemma_last_move_is_last(cmds: Seq<PathCommand>, lo: int, hi: int)
    requires
        0 <= lo < hi <= cmds.len(),
        cmds[lo] is MoveTo,
    ensures
        lo <= last_move(cmds, lo, hi) < hi,
        cmds[last_move(cmds, lo, hi)] is MoveTo,
        forall|j: int| last_move(cmds, lo, hi) < j < hi ==> !(#[trigger] cmds[j] is MoveTo),
    decreases hi - lo,
{
    if !(cmds[hi - 1] is MoveTo) {
        lemma_last_move_is_last(cmds, lo, hi - 1);
    }
}

/// The segments of a sub-path: one per command after its `MoveTo` at `m`,
/// running from the point the command before it went to; then a line back
/// to the `MoveTo`'s point unless the pen stands there as a float.
pub proof fn lemma_subpath_segments_shape(cmds: Seq<PathCommand>, m: int, c: int)
    requires
        0 <= m < c <= cmds.len(),
    ensures
        ({
            let segs = subpath_segments(cmds, m, c);
            let start = cmd_target(cmds[m]);
            let end = cmd_target(cmds[c - 1]);
            &&& segs.len() == c - m - 1 + if point_eq(start, end) { 0int } else { 1int }
            &&& forall|k: int|
                0 <= k < c - m - 1 ==> {
                    let from = cmd_target(cmds[m + k]);
                    match cmds[m + k + 1] {
                        PathCommand::LineTo(p) => #[trigger] segs[k] == PathSegment::Line(from, p),
                        PathCommand::QuadTo(t, c1) => segs[k] == PathSegment::Quadratic(
                            QuadraticBezier { start: from, control: c1, end: t },
                        ),
                        PathCommand::CubicTo(t, c1, c2) => segs[k] == PathSegment::Cubic(
                            CubicBezier { start: from, control1: c1, control2: c2, end: t },
                        ),
                        _ => true,
                    }
                }
            &&& !point_eq(start, end) ==> segs[c - m - 1] == PathSegment::Line(end, start)
        }),
{
}

/// The point each command goes to.
pub proof fn lemma_cmd_target(p: Point, c1: Point, c2: Point)
    ensures
        cmd_target(PathCommand::MoveTo(p)) == p,
        cmd_target(PathCommand::LineTo(p)) == p,
        cmd_target(PathCommand::QuadTo(p, c1)) == p,
        cmd_target(PathCommand::CubicTo(p, c1, c2)) == p,
{
}

/// A path may be broken up exactly when its first command is a `MoveTo`
/// and every `Close` is followed by a `MoveTo` or ends the path; a
/// sub-path left open at the end is allowed.
pub proof fn lemma_well_formed_meaning(cmds: Seq<PathCommand>)
    ensures
        commands_well_formed(cmds) <==> ((cmds.len() > 0 ==> cmds[0] is MoveTo) && forall|i: int|
            0 <= i < cmds.len() - 1 && #[trigger] cmds[i] is Close ==> cmds[i + 1] is MoveTo),
{
    if commands_well_formed(cmds) {
        assert forall|i: int| 0 <= i < cmds.len() - 1 && #[trigger] cmds[i] is Close implies cmds[i
            + 1] is MoveTo by {
            assert(ready_at(cmds, i + 1));
        }
    }
}

/// Extending a path: a `MoveTo` keeps it well formed, and so does a line,
/// a curve or a `Close` after anything but a `Close`.
pub proof fn lemma_well_formed_extend(cmds: Seq<PathCommand>, c: PathCommand)
    requires
        commands_well_formed(cmds),
        c is MoveTo || (cmds.len() > 0 && !(cmds[cmds.len() - 1] is Close)),
    ensures
        commands_well_formed(cmds.push(c)),
{
    let e = cmds.push(c);
    lemma_well_formed_meaning(cmds);
    lemma_well_formed_meaning(e);
    assert forall|i: int| 0 <= i < e.len() - 1 && #[trigger] e[i] is Close implies e[i + 1] is MoveTo by {
        assert(e[i] == cmds[i]);
        if i + 1 < cmds.len() {
            assert(e[i + 1] == cmds[i + 1]);
        } else {
            assert(e[i + 1] == c);
        }
    }
    if cmds.len() > 0 {
        assert(e[0] == cmds[0]);
    }
}

/// The polylines behind a path's lines are ones that `flatten` returns for
/// those very curves, of every kind; straight segments take none.
pub proof fn lemma_flattened_by_calls<F: Fn(PathSegment) -> Vec<Point>>(
    flatten: F,
    segs: Seq<PathSegment>,
    curves: Seq<Vec<Point>>,
)
    requires
        flattened_by(flatten, segs, curves),
    ensures
        curves.len() == segs.len(),
        forall|k: int|
            0 <= k < segs.len() && !(#[trigger] segs[k] is Line) ==> call_ensures(
                flatten,
                (segs[k],),
                curves[k],
            ),
        forall|k: int| 0 <= k < segs.len() && #[trigger] segs[k] is Line ==> curves[k]@.len() == 0,
{
}

/// Reversing a sub-path: the same number of segments, the last one first,
/// each with its ends swapped and, for a cubic, its controls swapped too.
pub proof fn lemma_reversed_segments_shape(s: Seq<PathSegment>)
    ensures
        reversed_segments(s).len() == s.len(),
        forall|k: int|
            0 <= k < s.len() ==> match s[s.len() - 1 - k] {
                PathSegment::Line(a, b) => #[trigger] reversed_segments(s)[k] == PathSegment::Line(b, a),
                PathSegment::Quadratic(q) => reversed_segments(s)[k] == PathSegment::Quadratic(
                    QuadraticBezier { start: q.end, control: q.control, end: q.start },
                ),
                PathSegment::Cubic(c) => reversed_segments(s)[k] == PathSegment::Cubic(
                    CubicBezier { start: c.end, control1: c.control2, control2: c.control1, end: c.start },
                ),
            },
{
}

/// What `break_into_lines` promises of its result: one polyline list per
/// sub-path, each one what `flatten` gave for its curves, and the result
/// the lines of all sub-paths in order; and where the polylines run from
/// each curve's start to its end, each sub-path's lines chain end to start
/// and close up.
pub proof fn lemma_lines_from_flattening_meaning<F: Fn(PathSegment) -> Vec<Point>>(
    flatten: F,
    subs: Seq<Seq<PathSegment>>,
    curves: Seq<Seq<Vec<Point>>>,
    lines: Seq<Line>,
)
    requires
        lines_from_flattening(flatten, subs, curves, lines),
    ensures
        curves.len() == subs.len(),
        forall|i: int| 0 <= i < subs.len() ==> #[trigger] flattened_by(flatten, subs[i], curves[i]),
        lines == all_lines(subs, curves, subs.len() as int),
        (forall|s: PathSegment, pts: Vec<Point>|
            #[trigger] call_ensures(flatten, (s,), pts) && !(s is Line) ==> pts@.len() >= 2 && pts@[0]
                == seg_start(s) && pts@[pts@.len() - 1] == seg_end(s)) ==> forall|i: int, j: int|
            0 <= i < subs.len() && 0 <= j < lines_of(subs[i], curves[i], subs[i].len() as int).len()
                - 1 ==> #[trigger] lines_of(subs[i], curves[i], subs[i].len() as int)[j].1 == lines_of(
                subs[i],
                curves[i],
                subs[i].len() as int,
            )[j + 1].0,
        (forall|s: PathSegment, pts: Vec<Point>|
            #[trigger] call_ensures(flatten, (s,), pts) && !(s is Line) ==> pts@.len() >= 2 && pts@[0]
                == seg_start(s) && pts@[pts@.len() - 1] == seg_end(s)) ==> forall|i: int|
            0 <= i < subs.len() && #[trigger] lines_of(subs[i], curves[i], subs[i].len() as int).len() > 0
                ==> same_place(
                lines_of(subs[i], curves[i], subs[i].len() as int)[lines_of(
                    subs[i],
                    curves[i],
                    subs[i].len() as int,
                ).len() - 1].1,
                lines_of(subs[i], curves[i], subs[i].len() as int)[0].0,
            ),
{
    if forall|s: PathSegment, pts: Vec<Point>|
        #[trigger] call_ensures(flatten, (s,), pts) && !(s is Line) ==> pts@.len() >= 2 && pts@[0]
            == seg_start(s) && pts@[pts@.len() - 1] == seg_end(s) {
        assert(flattening_spans(flatten));
        assert forall|i: int| 0 <= i < subs.len() implies is_closed_line_chain(
            #[trigger] lines_of(subs[i], curves[i], subs[i].len() as int),
        ) by {}
    }
}

} // verus!
