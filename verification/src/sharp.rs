//! Hard-edged gradients: each color holds a band, and between two bands lies
//! an edge that is either a step or a narrow smooth transition.

use vstd::prelude::*;
use crate::color::Rgba;
use crate::error::GradientBuilderError;
use crate::scalar::Scalar;
use crate::table::{Sample, StopTable, Stops};

verus! {

/// Which way a stop is moved off its grid line to make room for a smooth
/// edge.
#[derive(Clone, Copy, Debug, PartialEq, Eq, Structural)]
pub enum Nudge {
    /// The stop stays: it is the first or the last of all.
    Stay,
    /// The stop opens a band: it moves up, away from the edge before it.
    Up,
    /// The stop closes a band: it moves down, away from the edge behind it.
    Down,
}

/// Where one stop of a sharp gradient comes from.
#[derive(Clone, Copy, Debug, PartialEq, Eq, Structural)]
pub struct SharpStop {
    /// The index of its color among the colors sampled.
    pub color: usize,
    /// The index of its grid line; there is one more line than colors.
    pub line: usize,
    pub nudge: Nudge,
}

/// Stop `k` of the `2 * n` stops over `n` colors: band `k / 2` opens at an
/// even `k` and closes at an odd one.
pub open spec fn sharp_stop(k: int, n: int) -> SharpStop {
    SharpStop {
        color: (k / 2) as usize,
        line: ((k + 1) / 2) as usize,
        nudge: if k <= 0 || k >= 2 * n - 1 {
            Nudge::Stay
        } else if k % 2 == 0 {
            Nudge::Up
        } else {
            Nudge::Down
        },
    }
}

/// How many colors a sharp gradient of `segment` bands samples: one for each
/// band, and two where fewer than two bands are asked for.
pub fn sharp_color_count(segment: u16) -> (n: usize)
    ensures
        n == if segment > 1 {
            segment as int
        } else {
            2
        },
{
    if segment > 1 {
        segment as usize
    } else {
        2
    }
}

/// Whether a sharp gradient of `segment` bands samples its source evenly
/// over the domain. With fewer than two bands it takes the color at the
/// start of the domain for both of its stops.
pub fn sharp_samples_evenly(segment: u16) -> (r: bool)
    ensures
        r == (segment > 1),
{
    segment > 1
}

/// The stops of a sharp gradient over `n` colors, in order.
pub fn sharp_layout(n: usize) -> (stops: Vec<SharpStop>)
    requires
        2 * n <= usize::MAX,
    ensures
        stops@.len() == 2 * n,
        forall|k: int| 0 <= k < 2 * n ==> stops@[k] == sharp_stop(k, n as int),
{
    let mut stops: Vec<SharpStop> = Vec::new();
    let mut i: usize = 0;
    while i < n
        invariant
            i <= n,
            2 * n <= usize::MAX,
            stops@.len() == 2 * i,
            forall|k: int| 0 <= k < 2 * i ==> stops@[k] == sharp_stop(k, n as int),
        decreases n - i,
    {
        let opens = SharpStop {
            color: i,
            line: i,
            nudge: if i == 0 {
                Nudge::Stay
            } else {
                Nudge::Up
            },
        };
        let closes = SharpStop {
            color: i,
            line: i + 1,
            nudge: if i == n - 1 {
                Nudge::Stay
            } else {
                Nudge::Down
            },
        };
        assert(opens == sharp_stop(2 * i as int, n as int));
        assert(closes == sharp_stop(2 * i + 1, n as int));
        stops.push(opens);
        stops.push(closes);
        i = i + 1;
    }
    stops
}

/// Each color twice.
pub open spec fn doubled(colors: Seq<Rgba>) -> Seq<Rgba> {
    Seq::new(2 * colors.len(), |k: int| colors[k / 2])
}

/// What a sharp table gives at `t`: what its stop table gives, but that a
/// band, which is a segment of even index, has one color throughout.
pub open spec fn sharp_samples(stops: Stops, t: Scalar, s: Sample) -> bool {
    if t.le(stops.min()) {
        s == Sample::Color(stops.colors[0])
    } else if stops.max().le(t) {
        s == Sample::Color(stops.colors[stops.colors.len() - 1])
    } else if t.is_nan() {
        s == Sample::Color(Rgba::spec_black())
    } else {
        exists|i: int|
            #![trigger stops.brackets(i, t)]
            stops.brackets(i, t) && s == if i % 2 == 0 {
                Sample::Color(stops.colors[i])
            } else {
                Sample::Blend(i as usize)
            }
    }
}

/// The stop table of a sharp gradient.
#[derive(Debug, Clone)]
pub struct SharpTable {
    table: StopTable,
}

impl View for SharpTable {
    type V = Stops;

    closed spec fn view(&self) -> Stops {
        self.table@
    }
}

impl SharpTable {
    /// Makes the table of the colors sampled and the positions of the stops,
    /// two for each color. Where the positions are not twice as many as the
    /// colors, or are not a table's positions, the error is `InvalidDomain`;
    /// where there is no color, `InvalidStops`.
    pub fn new(colors: &[Rgba], positions: Vec<Scalar>) -> (r: Result<
        SharpTable,
        GradientBuilderError,
    >)
        ensures
            positions@.len() != 2 * colors@.len() ==> r == Err::<SharpTable, _>(
                GradientBuilderError::InvalidDomain,
            ),
            positions@.len() == 2 * colors@.len() && colors@.len() == 0 ==> r == Err::<
                SharpTable,
                _,
            >(GradientBuilderError::InvalidStops),
            positions@.len() == 2 * colors@.len() && colors@.len() > 0
                && !crate::table::valid_positions(positions@) ==> r == Err::<SharpTable, _>(
                GradientBuilderError::InvalidDomain,
            ),
            positions@.len() == 2 * colors@.len() && crate::table::valid_positions(positions@)
                ==> r is Ok && r->Ok_0@ == (Stops {
                positions: positions@,
                colors: doubled(colors@),
            }),
            r is Ok ==> r->Ok_0@.valid(),
    {
        let n: usize = colors.len();
        if positions.len() % 2 != 0 || positions.len() / 2 != n {
            return Err(GradientBuilderError::InvalidDomain);
        }
        let mut twice: Vec<Rgba> = Vec::new();
        let mut i: usize = 0;
        while i < n
            invariant
                i <= n,
                n == colors@.len(),
                twice@.len() == 2 * i,
                forall|k: int| 0 <= k < 2 * i ==> twice@[k] == colors@[k / 2],
            decreases n - i,
        {
            twice.push(colors[i]);
            twice.push(colors[i]);
            i = i + 1;
        }
        assert(twice@ =~= doubled(colors@));
        match StopTable::new(positions, twice) {
            Ok(table) => Ok(SharpTable { table }),
            Err(e) => Err(e),
        }
    }

    /// The first and the last position.
    pub fn domain(&self) -> (d: (Scalar, Scalar))
        ensures
            d.0 == self@.min(),
            d.1 == self@.max(),
            d.0.lt(d.1),
            self@.valid(),
    {
        self.table.domain()
    }

    pub fn stops(&self) -> (t: &StopTable)
        ensures
            t@ == self@,
            self@.valid(),
    {
        let t = &self.table;
        let n = t.len();
        t
    }

    /// Evaluates at `t` as far as that is a matter of order: a color where
    /// `t` is outside the domain, a NaN or in a band; the segment where it is
    /// on a smooth edge.
    pub fn at(&self, t: Scalar) -> (s: Sample)
        ensures
            self@.valid(),
            sharp_samples(self@, t, s),
    {
        match self.table.at(t) {
            Sample::Color(c) => Sample::Color(c),
            Sample::Blend(i) => {
                assert(self@.brackets(i as int, t));
                if i % 2 == 0 {
                    Sample::Color(self.table.colors()[i])
                } else {
                    Sample::Blend(i)
                }
            },
        }
    }
}

/// Hard edges. Where each band closes at the position at which the next one
/// opens, no position falls on an edge: the gradient gives a color of its
/// own stops everywhere, and steps from one band to the next.
pub proof fn lemma_hard_edges(stops: Stops, t: Scalar, s: Sample)
    requires
        stops.valid(),
        forall|i: int|
            0 <= i && i + 1 < stops.positions.len() && i % 2 == 1 ==> (
            #[trigger] stops.positions[i]).same(stops.positions[i + 1]),
        sharp_samples(stops, t, s),
    ensures
        s is Color,
        !t.is_nan() ==> exists|k: int| 0 <= k < stops.colors.len() && s == Sample::Color(
            #[trigger] stops.colors[k],
        ),
{
    if t.le(stops.min()) {
        assert(s == Sample::Color(stops.colors[0]));
    } else if stops.max().le(t) {
        assert(s == Sample::Color(stops.colors[stops.colors.len() - 1]));
    } else if t.is_nan() {
    } else {
        let i = choose|i: int|
            #![trigger stops.brackets(i, t)]
            stops.brackets(i, t) && s == if i % 2 == 0 {
                Sample::Color(stops.colors[i])
            } else {
                Sample::Blend(i as usize)
            };
        if i % 2 == 1 {
            assert(stops.positions[i].same(stops.positions[i + 1]));
            assert(false);
        }
        assert(s == Sample::Color(stops.colors[i]));
    }
}

} // verus!
