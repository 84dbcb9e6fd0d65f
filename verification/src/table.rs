//! The stop table: positions in order, a color at each, and the search for
//! the segment that a position falls in.

use vstd::prelude::*;
use crate::color::Rgba;
use crate::error::GradientBuilderError;
use crate::scalar::Scalar;

verus! {

/// What a stop table holds, as mathematics.
pub struct Stops {
    pub positions: Seq<Scalar>,
    pub colors: Seq<Rgba>,
}

/// The positions of a table: at least two, none a NaN, never decreasing, and
/// the first below the last.
pub open spec fn valid_positions(p: Seq<Scalar>) -> bool {
    &&& p.len() >= 2
    &&& forall|i: int| 0 <= i < p.len() ==> !(#[trigger] p[i]).is_nan()
    &&& forall|i: int, j: int| 0 <= i <= j < p.len() ==> p[i].key() <= p[j].key()
    &&& p[0].key() < p[p.len() - 1].key()
}

impl Stops {
    pub open spec fn valid(self) -> bool {
        valid_positions(self.positions) && self.colors.len() == self.positions.len()
    }

    pub open spec fn min(self) -> Scalar {
        self.positions[0]
    }

    pub open spec fn max(self) -> Scalar {
        self.positions[self.positions.len() - 1]
    }

    /// `t` lies in segment `i`: behind stop `i`, and not behind stop `i + 1`.
    pub open spec fn brackets(self, i: int, t: Scalar) -> bool {
        &&& 0 <= i
        &&& i + 1 < self.positions.len()
        &&& self.positions[i].lt(t)
        &&& t.le(self.positions[i + 1])
    }

    /// Where `t` stands with respect to the table. The first case that
    /// applies decides: at or before the first stop, at or behind the last
    /// stop, no number at all, or inside a segment.
    pub open spec fn locates(self, t: Scalar, loc: Location) -> bool {
        if t.le(self.min()) {
            loc == Location::Below
        } else if self.max().le(t) {
            loc == Location::Above
        } else if t.is_nan() {
            loc == Location::Undefined
        } else {
            loc matches Location::Within(i) && self.brackets(i as int, t)
        }
    }

    /// What the table gives at `t`: the first color at or before the first
    /// stop, the last color at or behind the last stop, opaque black where
    /// `t` is a NaN, and else the segment whose two stops are to be blended.
    pub open spec fn samples(self, t: Scalar, s: Sample) -> bool {
        if t.le(self.min()) {
            s == Sample::Color(self.colors[0])
        } else if self.max().le(t) {
            s == Sample::Color(self.colors[self.colors.len() - 1])
        } else if t.is_nan() {
            s == Sample::Color(Rgba::spec_black())
        } else {
            s matches Sample::Blend(i) && self.brackets(i as int, t)
        }
    }
}

/// Where a position stands with respect to a table.
#[derive(Clone, Copy, Debug, PartialEq, Eq, Structural)]
pub enum Location {
    /// The position is a NaN.
    Undefined,
    /// At or before the first stop.
    Below,
    /// At or behind the last stop.
    Above,
    /// Behind the stop of this index and not behind the next one.
    Within(usize),
}

/// What evaluating a gradient at a position comes to.
#[derive(Clone, Copy, Debug, PartialEq, Eq, Structural)]
pub enum Sample {
    /// This color, as it is.
    Color(Rgba),
    /// A blend within the segment that begins at the stop of this index.
    Blend(usize),
}

/// A validated table of stops.
#[derive(Debug)]
pub struct StopTable {
    positions: Vec<Scalar>,
    colors: Vec<Rgba>,
}

impl View for StopTable {
    type V = Stops;

    closed spec fn view(&self) -> Stops {
        Stops { positions: self.positions@, colors: self.colors@ }
    }
}

impl Clone for StopTable {
    fn clone(&self) -> (r: Self)
        ensures
            r@ == self@,
    {
        proof {
            use_type_invariant(self);
        }
        let positions: Vec<Scalar> = self.positions.clone();
        let colors: Vec<Rgba> = self.colors.clone();
        assert(positions@ =~= self.positions@);
        assert(colors@ =~= self.colors@);
        StopTable { positions, colors }
    }
}

/// Whether `p` never decreases and holds no NaN.
fn ordered(p: &Vec<Scalar>) -> (r: bool)
    ensures
        r <==> {
            &&& forall|i: int| 0 <= i < p@.len() ==> !(#[trigger] p@[i]).is_nan()
            &&& forall|i: int, j: int| 0 <= i <= j < p@.len() ==> p@[i].key() <= p@[j].key()
        },
{
    let mut k: usize = 0;
    while k < p.len()
        invariant
            k <= p@.len(),
            forall|i: int| 0 <= i < k ==> !(#[trigger] p@[i]).is_nan(),
            forall|i: int, j: int| 0 <= i <= j < k ==> p@[i].key() <= p@[j].key(),
        decreases p.len() - k,
    {
        if p[k].nan() {
            return false;
        }
        if k > 0 && p[k].order_key() < p[k - 1].order_key() {
            assert(!(p@[k - 1].key() <= p@[k as int].key()));
            return false;
        }
        k = k + 1;
    }
    true
}

impl StopTable {
    #[verifier::type_invariant]
    spec fn inv(self) -> bool {
        valid_positions(self.positions@) && self.colors@.len() == self.positions@.len()
    }

    /// Makes a table of the stops given, if they are a table's stops.
    /// One position for each color is asked for, else the error is
    /// `InvalidDomain`; at least two stops, else `InvalidStops`; positions as
    /// `valid_positions` says, else `InvalidDomain`.
    pub fn new(positions: Vec<Scalar>, colors: Vec<Rgba>) -> (r: Result<
        StopTable,
        GradientBuilderError,
    >)
        ensures
            positions@.len() != colors@.len() ==> r == Err::<StopTable, _>(
                GradientBuilderError::InvalidDomain,
            ),
            positions@.len() == colors@.len() && positions@.len() < 2 ==> r == Err::<StopTable, _>(
                GradientBuilderError::InvalidStops,
            ),
            positions@.len() == colors@.len() && positions@.len() >= 2 && !valid_positions(
                positions@,
            ) ==> r == Err::<StopTable, _>(GradientBuilderError::InvalidDomain),
            positions@.len() == colors@.len() && valid_positions(positions@) ==> r is Ok
                && r->Ok_0@ == (Stops { positions: positions@, colors: colors@ }),
            r is Ok ==> r->Ok_0@.valid(),
    {
        if positions.len() != colors.len() {
            return Err(GradientBuilderError::InvalidDomain);
        }
        if positions.len() < 2 {
            return Err(GradientBuilderError::InvalidStops);
        }
        if !ordered(&positions) {
            return Err(GradientBuilderError::InvalidDomain);
        }
        if !positions[0].less(&positions[positions.len() - 1]) {
            return Err(GradientBuilderError::InvalidDomain);
        }
        Ok(StopTable { positions, colors })
    }

    /// The number of stops.
    pub fn len(&self) -> (n: usize)
        ensures
            n == self@.positions.len(),
            n >= 2,
            self@.valid(),
    {
        proof {
            use_type_invariant(self);
        }
        self.positions.len()
    }

    pub fn positions(&self) -> (p: &Vec<Scalar>)
        ensures
            p@ == self@.positions,
            self@.valid(),
    {
        proof {
            use_type_invariant(self);
        }
        &self.positions
    }

    pub fn colors(&self) -> (c: &Vec<Rgba>)
        ensures
            c@ == self@.colors,
            self@.valid(),
    {
        proof {
            use_type_invariant(self);
        }
        &self.colors
    }

    /// The first and the last position.
    pub fn domain(&self) -> (d: (Scalar, Scalar))
        ensures
            d.0 == self@.min(),
            d.1 == self@.max(),
            d.0.lt(d.1),
            self@.valid(),
    {
        proof {
            use_type_invariant(self);
        }
        (self.positions[0], self.positions[self.positions.len() - 1])
    }

    /// Finds where `t` stands: by the two ends first, then by bisection.
    pub fn locate(&self, t: Scalar) -> (loc: Location)
        ensures
            self@.valid(),
            self@.locates(t, loc),
    {
        proof {
            use_type_invariant(self);
        }
        let n: usize = self.positions.len();
        if t.less_eq(&self.positions[0]) {
            return Location::Below;
        }
        if self.positions[n - 1].less_eq(&t) {
            return Location::Above;
        }
        if t.nan() {
            return Location::Undefined;
        }
        let mut low: usize = 0;
        let mut high: usize = n;
        while low < high
            invariant
                n == self.positions@.len(),
                valid_positions(self.positions@),
                !t.is_nan(),
                low <= high <= n,
                forall|k: int| 0 <= k < low ==> (#[trigger] self.positions@[k]).key() < t.key(),
                forall|k: int| high <= k < n ==> (#[trigger] self.positions@[k]).key() >= t.key(),
            decreases high - low,
        {
            let mid: usize = low + (high - low) / 2;
            if self.positions[mid].less(&t) {
                low = mid + 1;
            } else {
                high = mid;
            }
        }
        assert(low >= 1) by {
            if low == 0 {
                assert(self.positions@[0].key() >= t.key());
            }
        }
        assert(low < n) by {
            if low == n {
                assert(self.positions@[n - 1].key() < t.key());
            }
        }
        Location::Within(low - 1)
    }

    /// Evaluates the table at `t` as far as that is a matter of order: the
    /// color itself outside the domain and for a NaN, the segment inside.
    pub fn at(&self, t: Scalar) -> (s: Sample)
        ensures
            self@.valid(),
            self@.samples(t, s),
    {
        proof {
            use_type_invariant(self);
        }
        match self.locate(t) {
            Location::Below => Sample::Color(self.colors[0]),
            Location::Above => Sample::Color(self.colors[self.colors.len() - 1]),
            Location::Undefined => Sample::Color(Rgba::black()),
            Location::Within(i) => Sample::Blend(i),
        }
    }
}

/// A position lies in one segment at most.
pub proof fn lemma_segment_is_unique(stops: Stops, t: Scalar, i: int, j: int)
    requires
        stops.valid(),
        stops.brackets(i, t),
        stops.brackets(j, t),
    ensures
        i == j,
{
    if i < j {
        assert(stops.positions[i + 1].key() <= stops.positions[j].key());
    } else if j < i {
        assert(stops.positions[j + 1].key() <= stops.positions[i].key());
    }
}

/// The clamp law: at the first position and before it a table gives its first
/// color, at the last position and behind it its last color.
pub proof fn lemma_clamp(stops: Stops, t: Scalar, s: Sample)
    requires
        stops.valid(),
        stops.samples(t, s),
    ensures
        t.le(stops.min()) ==> s == Sample::Color(stops.colors[0]),
        stops.max().le(t) ==> s == Sample::Color(stops.colors[stops.colors.len() - 1]),
        stops.samples(stops.min(), Sample::Color(stops.colors[0])),
        stops.samples(stops.max(), Sample::Color(stops.colors[stops.colors.len() - 1])),
{
}

/// A NaN gives opaque black, whatever the table.
pub proof fn lemma_nan_gives_black(stops: Stops, t: Scalar, s: Sample)
    requires
        stops.valid(),
        t.is_nan(),
        stops.samples(t, s),
    ensures
        s == Sample::Color(Rgba::spec_black()),
{
}

/// Inside the domain every position that is a number lies in a segment, so a
/// sample is always owed.
pub proof fn lemma_segment_exists(stops: Stops, t: Scalar)
    requires
        stops.valid(),
        stops.min().lt(t),
        t.lt(stops.max()),
    ensures
        exists|i: int| stops.brackets(i, t),
{
    lemma_first_stop_not_below(stops, t, stops.positions.len() as int - 1);
}

/// A table passes through its own stops: a position at which a stop stands,
/// behind the first stop, lies in a segment that ends at a stop of that very
/// position, so that the blend there is at its end.
pub proof fn lemma_stop_ends_its_segment(stops: Stops, k: int, i: int)
    requires
        stops.valid(),
        0 <= k < stops.positions.len(),
        stops.min().lt(stops.positions[k]),
        stops.positions[k].lt(stops.max()),
        stops.brackets(i, stops.positions[k]),
    ensures
        i + 1 <= k,
        stops.positions[i + 1].same(stops.positions[k]),
{
    if k <= i {
        assert(stops.positions[k].key() <= stops.positions[i].key());
    }
    assert(stops.positions[i + 1].key() <= stops.positions[k].key());
}

/// Walking down from stop `hi`, which is not below `t`, to stop 0, which is:
/// somewhere on the way a segment brackets `t`.
proof fn lemma_first_stop_not_below(stops: Stops, t: Scalar, hi: int)
    requires
        valid_positions(stops.positions),
        !t.is_nan(),
        0 < hi < stops.positions.len(),
        stops.positions[0].key() < t.key(),
        t.key() <= stops.positions[hi].key(),
    ensures
        exists|i: int| stops.brackets(i, t) && 0 <= i < hi,
    decreases hi,
{
    if stops.positions[hi - 1].key() < t.key() {
        assert(stops.brackets(hi - 1, t));
    } else {
        lemma_first_stop_not_below(stops, t, hi - 1);
    }
}

} // verus!
