//! GIMP gradients: the layout of a gradient file, the kinds of its
//! segments, and the search for the segment that a position falls in.

use vstd::prelude::*;
use vstd::string::StringExecFns;
use crate::color::Rgba;
use crate::scalar::Scalar;
use crate::text::{
    decimal, number, parse_usize, push_decimal, run, same_text, skip_leading, strip_prefix, trim,
    trimmed,
};

verus! {

/// Why a gradient file could not be read, and the line that shows it.
#[derive(Debug, Clone)]
pub struct ParseGgrError {
    message: &'static str,
    line: usize,
}

impl ParseGgrError {
    pub closed spec fn spec_message(self) -> Seq<char> {
        self.message@
    }

    pub closed spec fn spec_line(self) -> nat {
        self.line as nat
    }

    /// The message with the line behind it, in parentheses.
    pub open spec fn text(self) -> Seq<char> {
        self.spec_message() + " (line "@ + decimal(self.spec_line()) + ")"@
    }

    pub fn message(&self) -> (m: &'static str)
        ensures
            m@ == self.spec_message(),
    {
        self.message
    }

    pub fn line(&self) -> (n: usize)
        ensures
            n == self.spec_line(),
    {
        self.line
    }

    pub fn to_string(&self) -> (s: String)
        ensures
            s@ == self.text(),
    {
        let mut s: String = String::from_str(self.message);
        s.append(" (line ");
        push_decimal(&mut s, self.line);
        s.append(")");
        assert(s@ =~= self.text());
        s
    }
}

/// The fault `message` at line `line`.
pub open spec fn is_fault(e: ParseGgrError, message: Seq<char>, line: nat) -> bool {
    e.spec_message() == message && e.spec_line() == line
}

fn fault(message: &'static str, line: usize) -> (e: ParseGgrError)
    ensures
        is_fault(e, message@, line as nat),
{
    ParseGgrError { message, line }
}

/// How a segment runs from its left color to its right one.
#[derive(Debug, Copy, Clone, PartialEq, Eq, Structural)]
pub enum BlendingType {
    Linear,
    Curved,
    Sinusoidal,
    SphericalIncreasing,
    SphericalDecreasing,
    Step,
}

/// The space a segment blends in, and for hue the way round.
#[derive(Debug, Copy, Clone, PartialEq, Eq, Structural)]
pub enum ColoringType {
    Rgb,
    HsvCcw,
    HsvCw,
}

/// Where an end of a segment takes its color from.
#[derive(Debug, Copy, Clone, PartialEq, Eq, Structural)]
pub enum ColorSource {
    /// The four channels that the segment itself gives.
    Given,
    Foreground,
    /// The foreground color with no opacity.
    ForegroundTransparent,
    Background,
    /// The background color with no opacity.
    BackgroundTransparent,
}

/// What the codes of a segment say.
#[derive(Debug, Copy, Clone, PartialEq, Eq, Structural)]
pub struct SegmentKind {
    pub blending_type: BlendingType,
    pub coloring_type: ColoringType,
    pub left: ColorSource,
    pub right: ColorSource,
}

pub open spec fn blending_of(code: int) -> Option<BlendingType> {
    if code == 0 {
        Some(BlendingType::Linear)
    } else if code == 1 {
        Some(BlendingType::Curved)
    } else if code == 2 {
        Some(BlendingType::Sinusoidal)
    } else if code == 3 {
        Some(BlendingType::SphericalIncreasing)
    } else if code == 4 {
        Some(BlendingType::SphericalDecreasing)
    } else if code == 5 {
        Some(BlendingType::Step)
    } else {
        None
    }
}

pub open spec fn coloring_of(code: int) -> Option<ColoringType> {
    if code == 0 {
        Some(ColoringType::Rgb)
    } else if code == 1 {
        Some(ColoringType::HsvCcw)
    } else if code == 2 {
        Some(ColoringType::HsvCw)
    } else {
        None
    }
}

pub open spec fn source_of(code: int) -> Option<ColorSource> {
    if code == 0 {
        Some(ColorSource::Given)
    } else if code == 1 {
        Some(ColorSource::Foreground)
    } else if code == 2 {
        Some(ColorSource::ForegroundTransparent)
    } else if code == 3 {
        Some(ColorSource::Background)
    } else if code == 4 {
        Some(ColorSource::BackgroundTransparent)
    } else {
        None
    }
}

/// What a segment line of `fields` numbers says, whose codes are those
/// given. A line has thirteen numbers, or fifteen, of which the last two
/// say where the colors come from; with thirteen the colors are the
/// segment's own.
pub open spec fn kind_of(fields: int, blending: int, coloring: int, left: int, right: int)
    -> Option<SegmentKind> {
    let l = if fields == 15 {
        left
    } else {
        0
    };
    let r = if fields == 15 {
        right
    } else {
        0
    };
    if (fields == 13 || fields == 15) && blending_of(blending) is Some && coloring_of(coloring)
        is Some && source_of(l) is Some && source_of(r) is Some {
        Some(
            SegmentKind {
                blending_type: blending_of(blending)->Some_0,
                coloring_type: coloring_of(coloring)->Some_0,
                left: source_of(l)->Some_0,
                right: source_of(r)->Some_0,
            },
        )
    } else {
        None
    }
}

pub fn blending_type(code: isize) -> (r: Option<BlendingType>)
    ensures
        r == blending_of(code as int),
{
    if code == 0 {
        Some(BlendingType::Linear)
    } else if code == 1 {
        Some(BlendingType::Curved)
    } else if code == 2 {
        Some(BlendingType::Sinusoidal)
    } else if code == 3 {
        Some(BlendingType::SphericalIncreasing)
    } else if code == 4 {
        Some(BlendingType::SphericalDecreasing)
    } else if code == 5 {
        Some(BlendingType::Step)
    } else {
        None
    }
}

pub fn coloring_type(code: isize) -> (r: Option<ColoringType>)
    ensures
        r == coloring_of(code as int),
{
    if code == 0 {
        Some(ColoringType::Rgb)
    } else if code == 1 {
        Some(ColoringType::HsvCcw)
    } else if code == 2 {
        Some(ColoringType::HsvCw)
    } else {
        None
    }
}

pub fn color_source(code: isize) -> (r: Option<ColorSource>)
    ensures
        r == source_of(code as int),
{
    if code == 0 {
        Some(ColorSource::Given)
    } else if code == 1 {
        Some(ColorSource::Foreground)
    } else if code == 2 {
        Some(ColorSource::ForegroundTransparent)
    } else if code == 3 {
        Some(ColorSource::Background)
    } else if code == 4 {
        Some(ColorSource::BackgroundTransparent)
    } else {
        None
    }
}

/// Reads the codes of a segment line.
pub fn segment_kind(fields: usize, blending: isize, coloring: isize, left: isize, right: isize)
    -> (r: Option<SegmentKind>)
    ensures
        r == kind_of(fields as int, blending as int, coloring as int, left as int, right as int),
{
    if fields != 13 && fields != 15 {
        return None;
    }
    let l: isize = if fields == 15 {
        left
    } else {
        0
    };
    let r: isize = if fields == 15 {
        right
    } else {
        0
    };
    match (blending_type(blending), coloring_type(coloring), color_source(l), color_source(r)) {
        (Some(b), Some(c), Some(lc), Some(rc)) => Some(
            SegmentKind { blending_type: b, coloring_type: c, left: lc, right: rc },
        ),
        _ => None,
    }
}

/// What a line of a gradient file is.
#[derive(Debug, Copy, Clone, PartialEq, Eq, Structural)]
pub enum Step {
    /// One of the three lines of the header: it has been read.
    Header,
    /// A segment: its numbers are to be read.
    Segment,
    /// Behind the last segment: this line and what follows is not read.
    End,
}

/// How far a gradient file has been read.
pub struct Reading {
    /// The lines gone by.
    pub lines: nat,
    /// The number of segments that the header declares.
    pub declared: nat,
    /// The segment lines gone by.
    pub seen: nat,
    pub name: Seq<char>,
    pub ended: bool,
}

pub open spec fn byte_order_mark() -> char {
    '\u{feff}'
}

impl Reading {
    pub open spec fn start() -> Reading {
        Reading { lines: 0, declared: 0, seen: 0, name: Seq::empty(), ended: false }
    }

    /// The state after `line`, and what the line is; or the fault in it, in
    /// which case the state stays.
    pub open spec fn read(self, line: Seq<char>) -> Result<(Reading, Step), (Seq<char>, nat)> {
        if self.ended || self.lines >= usize::MAX {
            Ok((Reading { ended: true, ..self }, Step::End))
        } else if self.lines == 0 {
            if line.subrange(run(line, |x: char| x == byte_order_mark(), 0), line.len() as int)
                == "GIMP Gradient"@ {
                Ok((Reading { lines: 1, ..self }, Step::Header))
            } else {
                Err(("invalid header"@, 1))
            }
        } else if self.lines == 1 {
            if "Name:"@.is_prefix_of(line) {
                Ok(
                    (
                        Reading {
                            lines: 2,
                            name: trimmed(line.subrange("Name:"@.len() as int, line.len() as int)),
                            ..self
                        },
                        Step::Header,
                    ),
                )
            } else {
                Err(("invalid header"@, 2))
            }
        } else if self.lines == 2 {
            match number(line) {
                Some(n) => Ok((Reading { lines: 3, declared: n as nat, ..self }, Step::Header)),
                None => Err(("invalid header"@, 3)),
            }
        } else if self.lines - 3 >= self.declared {
            Ok((Reading { ended: true, ..self }, Step::End))
        } else {
            Ok((Reading { lines: self.lines + 1, seen: self.seen + 1, ..self }, Step::Segment))
        }
    }

    /// What the file comes to once its lines are read: its name, or the
    /// fault that fewer segments went by than declared, or none at all.
    pub open spec fn outcome(self) -> Result<Seq<char>, (Seq<char>, nat)> {
        if self.seen < self.declared {
            Err(("wrong segments count"@, 3))
        } else if self.seen == 0 {
            Err(("no segment"@, 4))
        } else {
            Ok(self.name)
        }
    }
}

/// Reads a gradient file line by line, but for the numbers of its segments.
#[derive(Debug)]
pub struct GgrReader {
    lines: usize,
    declared: usize,
    seen: usize,
    name: String,
    ended: bool,
}

impl View for GgrReader {
    type V = Reading;

    closed spec fn view(&self) -> Reading {
        Reading {
            lines: self.lines as nat,
            declared: self.declared as nat,
            seen: self.seen as nat,
            name: self.name@,
            ended: self.ended,
        }
    }
}

impl GgrReader {
    #[verifier::type_invariant]
    spec fn inv(self) -> bool {
        self.seen <= self.lines
    }

    pub fn new() -> (r: Self)
        ensures
            r@ == Reading::start(),
    {
        GgrReader { lines: 0, declared: 0, seen: 0, name: String::new(), ended: false }
    }

    /// Takes the next line of the file, without its line end.
    pub fn read_line(&mut self, line: &str) -> (r: Result<Step, ParseGgrError>)
        ensures
            match old(self)@.read(line@) {
                Ok((next, step)) => r == Ok::<Step, ParseGgrError>(step) && final(self)@ == next,
                Err((message, at)) => r is Err && is_fault(r->Err_0, message, at) && final(self)@
                    == old(self)@,
            },
    {
        proof {
            use_type_invariant(&*self);
        }
        if self.ended || self.lines == usize::MAX {
            self.ended = true;
            return Ok(Step::End);
        }
        if self.lines == 0 {
            if same_text(skip_leading(line, '\u{feff}'), "GIMP Gradient") {
                self.lines = 1;
                Ok(Step::Header)
            } else {
                Err(fault("invalid header", 1))
            }
        } else if self.lines == 1 {
            match strip_prefix(line, "Name:") {
                Some(rest) => {
                    self.name = String::from_str(trim(rest));
                    self.lines = 2;
                    Ok(Step::Header)
                },
                None => Err(fault("invalid header", 2)),
            }
        } else if self.lines == 2 {
            match parse_usize(line) {
                Some(n) => {
                    self.declared = n;
                    self.lines = 3;
                    Ok(Step::Header)
                },
                None => Err(fault("invalid header", 3)),
            }
        } else if self.lines - 3 >= self.declared {
            self.ended = true;
            Ok(Step::End)
        } else {
            self.lines = self.lines + 1;
            self.seen = self.seen + 1;
            Ok(Step::Segment)
        }
    }

    /// Passes over a line that could not be had. It counts as a line, and
    /// as nothing else.
    pub fn skip_line(&mut self)
        ensures
            final(self)@ == if old(self)@.lines < usize::MAX {
                Reading { lines: old(self)@.lines + 1, ..old(self)@ }
            } else {
                old(self)@
            },
    {
        proof {
            use_type_invariant(&*self);
        }
        if self.lines < usize::MAX {
            self.lines = self.lines + 1;
        }
    }

    /// The fault that the line taken last is no segment.
    pub fn invalid_segment(&self) -> (e: ParseGgrError)
        ensures
            is_fault(e, "invalid segment"@, self@.lines),
    {
        fault("invalid segment", self.lines)
    }

    /// Ends the reading: the name of the gradient, or what is wrong with
    /// the number of its segments.
    pub fn finish(self) -> (r: Result<String, ParseGgrError>)
        ensures
            match self@.outcome() {
                Ok(name) => r is Ok && r->Ok_0@ == name,
                Err((message, at)) => r is Err && is_fault(r->Err_0, message, at),
            },
    {
        if self.seen < self.declared {
            Err(fault("wrong segments count", 3))
        } else if self.seen == 0 {
            Err(fault("no segment", 4))
        } else {
            Ok(self.name)
        }
    }
}

/// One segment of a GIMP gradient: its two ends, the point between them
/// where the blend is even, the colors at the ends, and how it blends. Where
/// the blend is in HSV, the four channels of a color are hue, saturation,
/// value and alpha.
#[derive(Debug, Clone, Copy, PartialEq, Eq, Structural)]
pub struct GimpSegment {
    pub lcolor: Rgba,
    pub rcolor: Rgba,
    pub lpos: Scalar,
    pub mpos: Scalar,
    pub rpos: Scalar,
    pub blending_type: BlendingType,
    pub coloring_type: ColoringType,
}

/// Where a bisection for `t` between `low` and `high` ends: at a segment
/// that `t` is neither behind nor before, or, where there is none on its
/// way, at the segment looked at last, which is `mid` where none was.
pub open spec fn probe(segs: Seq<GimpSegment>, t: Scalar, low: int, high: int, mid: int) -> int
    decreases high - low,
{
    if low >= high {
        mid
    } else {
        let m = low + (high - low) / 2;
        if segs[m].rpos.lt(t) {
            probe(segs, t, m + 1, high, m)
        } else if t.lt(segs[m].lpos) {
            probe(segs, t, low, m, m)
        } else {
            m
        }
    }
}

/// `t` lies within the segment, its two ends included.
pub open spec fn holds(seg: GimpSegment, t: Scalar) -> bool {
    seg.lpos.le(t) && t.le(seg.rpos)
}

/// The segments lie one behind the other: none ends before it begins, and
/// none begins before the one before it ends.
pub open spec fn in_a_row(segs: Seq<GimpSegment>) -> bool {
    &&& forall|i: int| 0 <= i < segs.len() ==> (#[trigger] segs[i]).lpos.le(segs[i].rpos)
    &&& forall|i: int, j: int|
        0 <= i < j < segs.len() ==> (#[trigger] segs[i]).rpos.le((#[trigger] segs[j]).lpos)
}

/// Where segments lie in a row, the bisection finds a segment that holds
/// `t` whenever there is one.
pub proof fn lemma_probe_finds(
    segs: Seq<GimpSegment>,
    t: Scalar,
    low: int,
    high: int,
    mid: int,
    k: int,
)
    requires
        in_a_row(segs),
        0 <= low <= k < high <= segs.len(),
        holds(segs[k], t),
    ensures
        low <= probe(segs, t, low, high, mid) < high,
        holds(segs[probe(segs, t, low, high, mid)], t),
    decreases high - low,
{
    let m = low + (high - low) / 2;
    if segs[m].rpos.lt(t) {
        if k <= m {
            if k < m {
                assert(segs[k].rpos.le(segs[m].lpos));
            }
            assert(segs[m].lpos.le(segs[m].rpos));
            assert(false);
        }
        lemma_probe_finds(segs, t, m + 1, high, m, k);
    } else if t.lt(segs[m].lpos) {
        if k >= m {
            if k > m {
                assert(segs[m].rpos.le(segs[k].lpos));
            }
            assert(segs[m].lpos.le(segs[m].rpos));
            assert(false);
        }
        lemma_probe_finds(segs, t, low, m, m, k);
    } else {
        assert(segs[m].lpos.le(segs[m].rpos));
    }
}

/// What a GIMP gradient holds, as mathematics.
pub struct GimpStops {
    pub name: Seq<char>,
    pub segments: Seq<GimpSegment>,
    pub dmin: Scalar,
    pub dmax: Scalar,
}

/// Where a position stands with respect to the segments.
#[derive(Debug, Copy, Clone, PartialEq, Eq, Structural)]
pub enum Place {
    /// The position is a NaN: the gradient is opaque black there.
    Undefined,
    /// Before the domain: the color is that at the left end of the first
    /// segment.
    Before,
    /// Behind the domain: the color is that at the right end of the last
    /// segment.
    Behind,
    /// In the domain: the segment of this index is the one to blend in.
    Within(usize),
}

/// What evaluating a GIMP gradient at a position comes to.
#[derive(Debug, Copy, Clone, PartialEq, Eq, Structural)]
pub enum GimpSample {
    /// This color, as it is: its four channels, which are red, green, blue
    /// and alpha, or hue, saturation, value and alpha, as `coloring_type`
    /// says.
    Color { channels: Rgba, coloring_type: ColoringType },
    /// A blend within the segment of this index.
    Within(usize),
}

impl GimpStops {
    /// What the gradient gives at `t`: opaque black where `t` is a NaN;
    /// before the domain the color at the left end of the first segment,
    /// behind it the color at the right end of the last one, each as its
    /// segment has it; in the domain the segment to blend in.
    pub open spec fn sample(self, t: Scalar) -> GimpSample {
        match self.place(t) {
            Place::Undefined => GimpSample::Color {
                channels: Rgba::spec_black(),
                coloring_type: ColoringType::Rgb,
            },
            Place::Before => GimpSample::Color {
                channels: self.segments[0].lcolor,
                coloring_type: self.segments[0].coloring_type,
            },
            Place::Behind => GimpSample::Color {
                channels: self.segments[self.segments.len() - 1].rcolor,
                coloring_type: self.segments[self.segments.len() - 1].coloring_type,
            },
            Place::Within(i) => GimpSample::Within(i),
        }
    }

    /// Where `t` stands.
    pub open spec fn place(self, t: Scalar) -> Place {
        if t.is_nan() {
            Place::Undefined
        } else if t.lt(self.dmin) {
            Place::Before
        } else if self.dmax.lt(t) {
            Place::Behind
        } else {
            Place::Within(probe(self.segments, t, 0, self.segments.len() as int, 0) as usize)
        }
    }
}

/// A gradient made of GIMP segments, over the domain from zero to one.
#[derive(Debug)]
pub struct GimpGradient {
    name: String,
    segments: Vec<GimpSegment>,
    dmin: Scalar,
    dmax: Scalar,
}

impl View for GimpGradient {
    type V = GimpStops;

    closed spec fn view(&self) -> GimpStops {
        GimpStops {
            name: self.name@,
            segments: self.segments@,
            dmin: self.dmin,
            dmax: self.dmax,
        }
    }
}

impl Clone for GimpGradient {
    fn clone(&self) -> (r: Self)
        ensures
            r@ == self@,
    {
        proof {
            use_type_invariant(self);
        }
        let name: String = self.name.clone();
        let segments: Vec<GimpSegment> = self.segments.clone();
        assert(segments@ =~= self.segments@);
        GimpGradient { name, segments, dmin: self.dmin, dmax: self.dmax }
    }
}

proof fn lemma_probe_in_range(segs: Seq<GimpSegment>, t: Scalar, low: int, high: int, mid: int)
    requires
        0 <= low <= high <= segs.len(),
        0 <= mid < segs.len(),
    ensures
        0 <= probe(segs, t, low, high, mid) < segs.len(),
    decreases high - low,
{
    if low < high {
        let m = low + (high - low) / 2;
        if segs[m].rpos.lt(t) {
            lemma_probe_in_range(segs, t, m + 1, high, m);
        } else if t.lt(segs[m].lpos) {
            lemma_probe_in_range(segs, t, low, m, m);
        }
    }
}

impl GimpGradient {
    #[verifier::type_invariant]
    spec fn inv(self) -> bool {
        self.segments@.len() > 0
    }

    /// Makes a gradient of its name and its segments. Without a segment
    /// there is no gradient: the fault is "no segment", at line 4.
    pub fn new(name: String, segments: Vec<GimpSegment>) -> (r: Result<Self, ParseGgrError>)
        ensures
            segments@.len() == 0 ==> r is Err && is_fault(r->Err_0, "no segment"@, 4),
            segments@.len() > 0 ==> r is Ok && r->Ok_0@ == (GimpStops {
                name: name@,
                segments: segments@,
                dmin: Scalar { bits: crate::scalar::ZERO_BITS },
                dmax: Scalar { bits: crate::scalar::ONE_BITS },
            }),
    {
        if segments.len() == 0 {
            return Err(fault("no segment", 4));
        }
        Ok(GimpGradient { name, segments, dmin: Scalar::zero(), dmax: Scalar::one() })
    }

    pub fn name(&self) -> (n: &str)
        ensures
            n@ == self@.name,
    {
        self.name.as_str()
    }

    pub fn segments(&self) -> (s: &Vec<GimpSegment>)
        ensures
            s@ == self@.segments,
            s@.len() > 0,
    {
        proof {
            use_type_invariant(self);
        }
        &self.segments
    }

    pub fn domain(&self) -> (d: (Scalar, Scalar))
        ensures
            d == (self@.dmin, self@.dmax),
    {
        (self.dmin, self.dmax)
    }

    /// Finds where `t` stands: before or behind the domain, or in a segment,
    /// which is found by bisection.
    pub fn find(&self, t: Scalar) -> (r: Place)
        ensures
            r == self@.place(t),
            r matches Place::Within(i) ==> i < self@.segments.len(),
    {
        proof {
            use_type_invariant(self);
        }
        if t.nan() {
            return Place::Undefined;
        }
        if t.less(&self.dmin) {
            return Place::Before;
        }
        if self.dmax.less(&t) {
            return Place::Behind;
        }
        let n: usize = self.segments.len();
        let mut low: usize = 0;
        let mut high: usize = n;
        let mut mid: usize = 0;
        proof {
            lemma_probe_in_range(self.segments@, t, 0, n as int, 0);
        }
        while low < high
            invariant
                n == self.segments@.len(),
                n > 0,
                low <= high <= n,
                mid < n,
                self@.place(t) == Place::Within(
                    probe(self.segments@, t, 0, n as int, 0) as usize,
                ),
                probe(self.segments@, t, low as int, high as int, mid as int) == probe(
                    self.segments@,
                    t,
                    0,
                    n as int,
                    0,
                ),
            decreases high - low,
        {
            let ghost target = probe(self.segments@, t, low as int, high as int, mid as int);
            mid = low + (high - low) / 2;
            if self.segments[mid].rpos.less(&t) {
                assert(target == probe(self.segments@, t, mid + 1, high as int, mid as int));
                low = mid + 1;
            } else if t.less(&self.segments[mid].lpos) {
                assert(target == probe(self.segments@, t, low as int, mid as int, mid as int));
                high = mid;
            } else {
                assert(target == mid);
                return Place::Within(mid);
            }
        }
        Place::Within(mid)
    }

    /// Evaluates the gradient at `t` as far as that is a matter of order:
    /// the color itself outside the domain and for a NaN, the segment
    /// inside.
    pub fn at(&self, t: Scalar) -> (s: GimpSample)
        ensures
            s == self@.sample(t),
            s matches GimpSample::Within(i) ==> i < self@.segments.len(),
    {
        proof {
            use_type_invariant(self);
        }
        match self.find(t) {
            Place::Undefined => GimpSample::Color {
                channels: Rgba::black(),
                coloring_type: ColoringType::Rgb,
            },
            Place::Before => {
                let first: GimpSegment = self.segments[0];
                GimpSample::Color { channels: first.lcolor, coloring_type: first.coloring_type }
            },
            Place::Behind => {
                let last: GimpSegment = self.segments[self.segments.len() - 1];
                GimpSample::Color { channels: last.rcolor, coloring_type: last.coloring_type }
            },
            Place::Within(i) => GimpSample::Within(i),
        }
    }
}

/// The clamp law of a GIMP gradient: before the domain it has the left color
/// of its first segment, behind the domain the right color of its last, and
/// for a NaN it is opaque black.
pub proof fn lemma_gimp_clamp(stops: GimpStops, t: Scalar)
    ensures
        t.is_nan() ==> stops.sample(t) == (GimpSample::Color {
            channels: Rgba::spec_black(),
            coloring_type: ColoringType::Rgb,
        }),
        t.lt(stops.dmin) ==> stops.sample(t) == (GimpSample::Color {
            channels: stops.segments[0].lcolor,
            coloring_type: stops.segments[0].coloring_type,
        }),
        !t.lt(stops.dmin) && stops.dmax.lt(t) ==> stops.sample(t) == (GimpSample::Color {
            channels: stops.segments[stops.segments.len() - 1].rcolor,
            coloring_type: stops.segments[stops.segments.len() - 1].coloring_type,
        }),
{
}

} // verus!
