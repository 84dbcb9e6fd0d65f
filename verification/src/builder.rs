//! Collects colors and positions, and decides what stops they make.
//!
//! Two things a builder does not compute, because they take arithmetic on
//! the positions: an even spacing between two bounds, and how far apart the
//! neighbors of a stop are. It says when it needs the first (`arrange`), and
//! takes both as arguments (`build`).

use vstd::prelude::*;
use crate::color::{css_color, parse_color, Rgba};
use crate::error::GradientBuilderError;
use crate::scalar::{Scalar, EPSILON_BITS, ONE_BITS, ZERO_BITS};
use crate::table::{valid_positions, StopTable, Stops};
use crate::text::views;
use crate::BlendMode;

verus! {

/// What a builder holds, as mathematics.
pub struct BuilderState {
    pub colors: Seq<Rgba>,
    pub positions: Seq<Scalar>,
    pub mode: BlendMode,
    pub invalid_html_colors: Seq<Seq<char>>,
    pub invalid_css_gradient: bool,
    /// The colors and positions are the stops of a table that was built,
    /// and nothing was set since.
    pub built: bool,
}

/// How the stops are to be placed.
#[derive(Clone, Copy, Debug, PartialEq, Eq, Structural)]
pub enum Spacing {
    /// `count` positions, evenly spaced from `min` to `max`, both included.
    Even { min: Scalar, max: Scalar, count: usize },
    /// At the positions that the builder was given, one for each color.
    Listed,
}

/// What each text of `v` holds.
pub open spec fn texts(v: Seq<String>) -> Seq<Seq<char>> {
    Seq::new(v.len(), |k: int| v[k]@)
}

/// Stop `i + 1` lies before stop `i`.
pub open spec fn descends_at(p: Seq<Scalar>, i: int) -> bool {
    0 <= i && i + 1 < p.len() && p[i + 1].lt(p[i])
}

/// Some position is followed by a smaller one.
pub open spec fn descends(p: Seq<Scalar>) -> bool {
    exists|i: int| descends_at(p, i)
}

/// A stop is merged away where its two neighbors are closer together than
/// the machine epsilon. `span` is that distance for the stop.
pub open spec fn merged(span: Scalar) -> bool {
    span.lt(Scalar { bits: EPSILON_BITS })
}

/// The first `n` of `items` without those that are merged away.
pub open spec fn kept<T>(items: Seq<T>, spans: Seq<Scalar>, n: int) -> Seq<T>
    decreases n,
{
    if n <= 0 {
        Seq::empty()
    } else if merged(spans[n - 1]) {
        kept(items, spans, n - 1)
    } else {
        kept(items, spans, n - 1).push(items[n - 1])
    }
}

/// As many are kept of one list as of another.
pub proof fn lemma_kept_len<T, U>(a: Seq<T>, b: Seq<U>, spans: Seq<Scalar>, n: int)
    ensures
        kept(a, spans, n).len() == kept(b, spans, n).len(),
        kept(a, spans, n).len() <= if n <= 0 {
            0
        } else {
            n
        },
    decreases n,
{
    if n > 0 {
        lemma_kept_len(a, b, spans, n - 1);
    }
}

/// What is kept of positions that never decrease and hold no NaN never
/// decreases and holds no NaN.
pub proof fn lemma_kept_stays_ordered(p: Seq<Scalar>, spans: Seq<Scalar>, n: int)
    requires
        0 <= n <= p.len(),
        forall|i: int| 0 <= i < p.len() ==> !(#[trigger] p[i]).is_nan(),
        forall|i: int, j: int| 0 <= i <= j < p.len() ==> p[i].key() <= p[j].key(),
    ensures
        forall|i: int|
            0 <= i < kept(p, spans, n).len() ==> !(#[trigger] kept(p, spans, n)[i]).is_nan(),
        forall|i: int, j: int|
            0 <= i <= j < kept(p, spans, n).len() ==> kept(p, spans, n)[i].key() <= kept(
                p,
                spans,
                n,
            )[j].key(),
        forall|i: int|
            0 <= i < kept(p, spans, n).len() && n > 0 ==> (#[trigger] kept(p, spans, n)[i]).key()
                <= p[n - 1].key(),
    decreases n,
{
    if n > 0 {
        lemma_kept_stays_ordered(p, spans, n - 1);
        let before = kept(p, spans, n - 1);
        let now = kept(p, spans, n);
        assert forall|i: int| 0 <= i < before.len() implies (#[trigger] before[i]).key() <= p[n
            - 1].key() by {
            assert(before[i].key() <= p[n - 2].key());
            assert(p[n - 2].key() <= p[n - 1].key());
        }
    }
}

impl BuilderState {
    /// What is built is a table: where the builder holds the stops of a
    /// table, they are a table's stops, and nothing is at fault.
    pub open spec fn wf(self) -> bool {
        self.built ==> {
            &&& valid_positions(self.positions)
            &&& self.colors.len() == self.positions.len()
            &&& self.invalid_html_colors.len() == 0
            &&& !self.invalid_css_gradient
        }
    }

    /// The state once the table `stops` was built: the builder holds its
    /// stops.
    pub open spec fn built_as(self, stops: Stops) -> BuilderState {
        BuilderState { colors: stops.colors, positions: stops.positions, built: true, ..self }
    }

    /// The state once something was set: what was built counts no more.
    pub open spec fn touched(self) -> BuilderState {
        BuilderState { built: false, ..self }
    }

    /// The colors of the stops: black and white where none was given, the
    /// one color twice where one was given.
    pub open spec fn stop_colors(self) -> Seq<Rgba> {
        if self.colors.len() == 0 {
            seq![Rgba::spec_black(), Rgba::spec_white()]
        } else if self.colors.len() == 1 {
            seq![self.colors[0], self.colors[0]]
        } else {
            self.colors
        }
    }

    /// How the positions given place the stops, or that they cannot.
    pub open spec fn spacing(self) -> Result<Spacing, GradientBuilderError> {
        let n = self.stop_colors().len();
        let p = self.positions;
        if p.len() == 0 {
            Ok(
                Spacing::Even {
                    min: Scalar { bits: ZERO_BITS },
                    max: Scalar { bits: ONE_BITS },
                    count: n as usize,
                },
            )
        } else if p.len() == n {
            if descends(p) {
                Err(GradientBuilderError::InvalidDomain)
            } else {
                Ok(Spacing::Listed)
            }
        } else if p.len() == 2 {
            if p[1].le(p[0]) {
                Err(GradientBuilderError::InvalidDomain)
            } else {
                Ok(Spacing::Even { min: p[0], max: p[1], count: n as usize })
            }
        } else {
            Err(GradientBuilderError::InvalidDomain)
        }
    }

    /// `r` is what `arrange` owes: the texts that are no colors, if there are
    /// any; else that the gradient text was none; else the spacing.
    pub open spec fn arranges(self, r: Result<Spacing, GradientBuilderError>) -> bool {
        if self.invalid_html_colors.len() > 0 {
            r matches Err(GradientBuilderError::InvalidHtmlColors(names)) && texts(names@)
                == self.invalid_html_colors
        } else if self.invalid_css_gradient {
            r == Err::<Spacing, _>(GradientBuilderError::InvalidCssGradient)
        } else {
            r == self.spacing()
        }
    }

    /// `r` is what `build` owes, given the evenly spaced positions `grid` and
    /// the distance `spans[i]` between the neighbors of stop `i`. Where the
    /// builder holds the stops of a table that was built, it owes that
    /// table again, whatever it is handed.
    pub open spec fn builds(
        self,
        grid: Seq<Scalar>,
        spans: Seq<Scalar>,
        r: Result<StopTable, GradientBuilderError>,
    ) -> bool {
        if self.built {
            r matches Ok(table) && table@ == (Stops {
                positions: self.positions,
                colors: self.colors,
            })
        } else if self.invalid_html_colors.len() > 0 {
            r matches Err(GradientBuilderError::InvalidHtmlColors(names)) && texts(names@)
                == self.invalid_html_colors
        } else if self.invalid_css_gradient {
            r == Err::<StopTable, _>(GradientBuilderError::InvalidCssGradient)
        } else {
            match self.spacing() {
                Err(e) => r == Err::<StopTable, _>(e),
                Ok(spacing) => {
                    let colors = self.stop_colors();
                    let n = colors.len() as int;
                    let positions = if spacing is Listed {
                        self.positions
                    } else {
                        grid
                    };
                    let kp = kept(positions, spans, n);
                    let kc = kept(colors, spans, n);
                    if positions.len() != n || spans.len() != n {
                        r == Err::<StopTable, _>(GradientBuilderError::InvalidDomain)
                    } else if kp.len() < 2 {
                        r == Err::<StopTable, _>(GradientBuilderError::InvalidStops)
                    } else if !valid_positions(kp) {
                        r == Err::<StopTable, _>(GradientBuilderError::InvalidDomain)
                    } else {
                        r matches Ok(table) && table@ == (Stops { positions: kp, colors: kc })
                    }
                },
            }
        }
    }

    /// The colors that the first `n` of `names` stand for, in their order.
    pub open spec fn parsed(names: Seq<Seq<char>>, n: int) -> Seq<Rgba>
        decreases n,
    {
        if n <= 0 {
            Seq::empty()
        } else {
            match css_color(names[n - 1]) {
                Some(c) => Self::parsed(names, n - 1).push(c),
                None => Self::parsed(names, n - 1),
            }
        }
    }

    /// Those of the first `n` of `names` that stand for no color.
    pub open spec fn rejected(names: Seq<Seq<char>>, n: int) -> Seq<Seq<char>>
        decreases n,
    {
        if n <= 0 {
            Seq::empty()
        } else {
            match css_color(names[n - 1]) {
                Some(c) => Self::rejected(names, n - 1),
                None => Self::rejected(names, n - 1).push(names[n - 1]),
            }
        }
    }
}

/// Positions that decrease make no gradient: where the builder holds one
/// position for each color and one of them is followed by a smaller one,
/// `build` fails, whatever it is handed.
pub proof fn lemma_descending_positions_fail(
    state: BuilderState,
    grid: Seq<Scalar>,
    spans: Seq<Scalar>,
    r: Result<StopTable, GradientBuilderError>,
)
    requires
        state.wf(),
        state.positions.len() == state.stop_colors().len(),
        descends(state.positions),
        state.builds(grid, spans, r),
    ensures
        r is Err,
        state.invalid_html_colors.len() == 0 && !state.invalid_css_gradient ==> r == Err::<
            StopTable,
            _,
        >(GradientBuilderError::InvalidDomain),
{
    if state.built {
        let i = choose|i: int| descends_at(state.positions, i);
        assert(state.positions[i].key() <= state.positions[i + 1].key());
    }
}

/// Building again gives the same table: once a table is built and nothing
/// is set, `build` owes the table it gave, and the builder stays as it is.
pub proof fn lemma_rebuild_gives_the_same(
    state: BuilderState,
    grid: Seq<Scalar>,
    spans: Seq<Scalar>,
    first: Result<StopTable, GradientBuilderError>,
    after: BuilderState,
    again_grid: Seq<Scalar>,
    again_spans: Seq<Scalar>,
    second: Result<StopTable, GradientBuilderError>,
)
    requires
        state.builds(grid, spans, first),
        first is Ok,
        after == state.built_as(first->Ok_0@),
        after.builds(again_grid, again_spans, second),
    ensures
        second is Ok,
        second->Ok_0@ == first->Ok_0@,
        after.built_as(second->Ok_0@) == after,
{
}

/// The positions of a table that `build` gives never decrease, and they are
/// what is kept of the positions that went in.
pub proof fn lemma_built_positions_ascend(
    state: BuilderState,
    grid: Seq<Scalar>,
    spans: Seq<Scalar>,
    r: Result<StopTable, GradientBuilderError>,
)
    requires
        state.wf(),
        state.builds(grid, spans, r),
        r is Ok,
    ensures
        valid_positions(r->Ok_0@.positions),
        !descends(r->Ok_0@.positions),
        r->Ok_0@.colors.len() == r->Ok_0@.positions.len(),
        r->Ok_0@.positions.len() >= 2,
{
    let p = r->Ok_0@.positions;
    if state.built {
        assert forall|i: int| !descends_at(p, i) by {
            if 0 <= i && i + 1 < p.len() {
                assert(p[i].key() <= p[i + 1].key());
            }
        }
        return ;
    }
    let n = state.stop_colors().len() as int;
    let positions = if state.spacing()->Ok_0 is Listed {
        state.positions
    } else {
        grid
    };
    lemma_kept_len(positions, state.stop_colors(), spans, n);
    assert forall|i: int| !descends_at(p, i) by {
        if 0 <= i && i + 1 < p.len() {
            assert(p[i].key() <= p[i + 1].key());
        }
    }
}

#[derive(Debug)]
pub struct GradientBuilder {
    colors: Vec<Rgba>,
    positions: Vec<Scalar>,
    mode: BlendMode,
    invalid_html_colors: Vec<String>,
    invalid_css_gradient: bool,
    clean: bool,
}

impl View for GradientBuilder {
    type V = BuilderState;

    closed spec fn view(&self) -> BuilderState {
        BuilderState {
            colors: self.colors@,
            positions: self.positions@,
            mode: self.mode,
            invalid_html_colors: texts(self.invalid_html_colors@),
            invalid_css_gradient: self.invalid_css_gradient,
            built: self.clean,
        }
    }
}

impl Clone for GradientBuilder {
    fn clone(&self) -> (r: Self)
        ensures
            r@ == self@,
    {
        proof {
            use_type_invariant(self);
        }
        let colors: Vec<Rgba> = self.colors.clone();
        let positions: Vec<Scalar> = self.positions.clone();
        assert(colors@ =~= self.colors@);
        assert(positions@ =~= self.positions@);
        GradientBuilder {
            colors,
            positions,
            mode: self.mode,
            invalid_html_colors: copy_texts(&self.invalid_html_colors),
            invalid_css_gradient: self.invalid_css_gradient,
            clean: self.clean,
        }
    }
}

fn copy_texts(v: &Vec<String>) -> (r: Vec<String>)
    ensures
        texts(r@) == texts(v@),
{
    let mut r: Vec<String> = Vec::new();
    let mut i: usize = 0;
    while i < v.len()
        invariant
            i <= v.len(),
            r@.len() == i,
            forall|k: int| 0 <= k < i ==> r@[k]@ == v@[k]@,
        decreases v.len() - i,
    {
        r.push(v[i].clone());
        i = i + 1;
    }
    assert(texts(r@) =~= texts(v@));
    r
}

fn has_descent(p: &Vec<Scalar>) -> (r: bool)
    ensures
        r == descends(p@),
{
    if p.len() < 2 {
        return false;
    }
    let mut i: usize = 0;
    while i < p.len() - 1
        invariant
            p@.len() >= 2,
            forall|k: int| 0 <= k < i ==> !descends_at(p@, k),
        decreases p.len() - i,
    {
        if p[i + 1].less(&p[i]) {
            assert(descends_at(p@, i as int));
            return true;
        }
        i = i + 1;
    }
    false
}

impl GradientBuilder {
    #[verifier::type_invariant]
    spec fn inv(self) -> bool {
        self@.wf()
    }

    pub fn new() -> (gb: Self)
        ensures
            gb@ == (BuilderState {
                colors: Seq::empty(),
                positions: Seq::empty(),
                mode: BlendMode::Rgb,
                invalid_html_colors: Seq::empty(),
                invalid_css_gradient: false,
                built: false,
            }),
    {
        let gb = GradientBuilder {
            colors: Vec::new(),
            positions: Vec::new(),
            mode: BlendMode::Rgb,
            invalid_html_colors: Vec::new(),
            invalid_css_gradient: false,
            clean: false,
        };
        assert(texts(gb.invalid_html_colors@) =~= Seq::empty());
        gb
    }

    /// Adds colors behind those the builder has.
    pub fn colors<'a>(&'a mut self, colors: &[Rgba]) -> (gb: &'a mut Self)
        ensures
            gb@ == (BuilderState { colors: old(self)@.colors + colors@, ..old(self)@.touched() }),
            final(self)@ == final(gb)@,
    {
        let mut all: Vec<Rgba> = self.colors.clone();
        assert(all@ =~= self.colors@);
        let mut i: usize = 0;
        while i < colors.len()
            invariant
                i <= colors@.len(),
                all@ == old(self).colors@ + colors@.take(i as int),
            decreases colors.len() - i,
        {
            all.push(colors[i]);
            i = i + 1;
            assert(all@ =~= old(self).colors@ + colors@.take(i as int));
        }
        assert(colors@.take(i as int) =~= colors@);
        self.clean = false;
        self.colors = all;
        self
    }

    /// Takes what the color parser made of `text`: the color, or the text
    /// itself among those that are no colors.
    pub fn html_color<'a>(&'a mut self, text: &str, color: Option<Rgba>) -> (gb: &'a mut Self)
        ensures
            gb@ == match color {
                Some(c) => BuilderState {
                    colors: old(self)@.colors.push(c),
                    ..old(self)@.touched()
                },
                None => BuilderState {
                    invalid_html_colors: old(self)@.invalid_html_colors.push(text@),
                    ..old(self)@.touched()
                },
            },
            final(self)@ == final(gb)@,
    {
        self.clean = false;
        match color {
            Some(c) => {
                let mut all: Vec<Rgba> = Vec::new();
                std::mem::swap(&mut self.colors, &mut all);
                all.push(c);
                self.colors = all;
            },
            None => {
                let mut all: Vec<String> = Vec::new();
                std::mem::swap(&mut self.invalid_html_colors, &mut all);
                all.push(text.to_owned());
                assert(texts(all@) =~= texts(old(self).invalid_html_colors@).push(text@));
                self.invalid_html_colors = all;
            },
        }
        self
    }

    /// Adds the colors that the texts stand for, as CSS reads them: named
    /// colors, hexadecimal forms, and the functional forms `rgb()`, `hsl()`,
    /// `hwb()` and the like. A text that is no color is kept for the error.
    pub fn html_colors<'a>(&'a mut self, html_colors: &[&str]) -> (gb: &'a mut Self)
        ensures
            gb@ == (BuilderState {
                colors: old(self)@.colors + BuilderState::parsed(
                    views(html_colors@),
                    html_colors@.len() as int,
                ),
                invalid_html_colors: old(self)@.invalid_html_colors + BuilderState::rejected(
                    views(html_colors@),
                    html_colors@.len() as int,
                ),
                ..old(self)@.touched()
            }),
            final(self)@ == final(gb)@,
    {
        let ghost names = views(html_colors@);
        self.clean = false;
        let mut i: usize = 0;
        assert(self@.colors =~= old(self)@.colors + BuilderState::parsed(names, 0));
        assert(self@.invalid_html_colors =~= old(self)@.invalid_html_colors
            + BuilderState::rejected(names, 0));
        while i < html_colors.len()
            invariant
                i <= html_colors@.len(),
                names == views(html_colors@),
                self@ == (BuilderState {
                    colors: old(self)@.colors + BuilderState::parsed(names, i as int),
                    invalid_html_colors: old(self)@.invalid_html_colors + BuilderState::rejected(
                        names,
                        i as int,
                    ),
                    ..old(self)@.touched()
                }),
            decreases html_colors.len() - i,
        {
            let text: &str = html_colors[i];
            let color: Option<Rgba> = parse_color(text);
            self.html_color(text, color);
            i = i + 1;
            proof {
                assert(names[i - 1] == text@);
                assert(self@.colors =~= old(self)@.colors + BuilderState::parsed(names, i as int));
                assert(self@.invalid_html_colors =~= old(self)@.invalid_html_colors
                    + BuilderState::rejected(names, i as int));
            }
        }
        self
    }

    /// Sets the positions: none, the two bounds of the domain, or one for
    /// each color.
    pub fn domain<'a>(&'a mut self, positions: &[Scalar]) -> (gb: &'a mut Self)
        ensures
            gb@ == (BuilderState { positions: positions@, ..old(self)@.touched() }),
            final(self)@ == final(gb)@,
    {
        let mut p: Vec<Scalar> = Vec::new();
        let mut i: usize = 0;
        while i < positions.len()
            invariant
                i <= positions@.len(),
                p@ == positions@.take(i as int),
            decreases positions.len() - i,
        {
            p.push(positions[i]);
            i = i + 1;
            assert(p@ =~= positions@.take(i as int));
        }
        assert(positions@.take(i as int) =~= positions@);
        self.clean = false;
        self.positions = p;
        self
    }

    /// Sets the color blending mode. The mode is no part of the stops: a
    /// table that was built stays built.
    pub fn mode<'a>(&'a mut self, mode: BlendMode) -> (gb: &'a mut Self)
        ensures
            gb@ == (BuilderState { mode: mode, ..old(self)@ }),
            final(self)@ == final(gb)@,
    {
        proof {
            use_type_invariant(&*self);
        }
        self.mode = mode;
        self
    }

    /// Takes what was made of a CSS gradient text: its colors and positions,
    /// or that it is no stop list.
    pub fn css_stops<'a>(&'a mut self, stops: Option<(Vec<Rgba>, Vec<Scalar>)>) -> (gb:
        &'a mut Self)
        ensures
            gb@ == match stops {
                Some((colors, positions)) => BuilderState {
                    colors: colors@,
                    positions: positions@,
                    invalid_css_gradient: false,
                    ..old(self)@.touched()
                },
                None => BuilderState { invalid_css_gradient: true, ..old(self)@.touched() },
            },
            final(self)@ == final(gb)@,
    {
        self.clean = false;
        match stops {
            Some((colors, positions)) => {
                self.invalid_css_gradient = false;
                self.colors = colors;
                self.positions = positions;
            },
            None => {
                self.invalid_css_gradient = true;
            },
        }
        self
    }

    pub fn get_colors(&self) -> (c: &[Rgba])
        ensures
            c@ == self@.colors,
    {
        self.colors.as_slice()
    }

    pub fn get_positions(&self) -> (p: &[Scalar])
        ensures
            p@ == self@.positions,
    {
        self.positions.as_slice()
    }

    pub fn get_mode(&self) -> (m: BlendMode)
        ensures
            m == self@.mode,
    {
        self.mode
    }

    /// Whether the builder holds the stops of a table that was built, with
    /// nothing set since.
    pub fn is_built(&self) -> (b: bool)
        ensures
            b == self@.built,
            self@.wf(),
    {
        proof {
            use_type_invariant(self);
        }
        self.clean
    }

    /// Says how the stops are to be placed, or why no gradient can be built.
    pub fn arrange(&self) -> (r: Result<Spacing, GradientBuilderError>)
        ensures
            self@.wf(),
            self@.arranges(r),
    {
        proof {
            use_type_invariant(self);
        }
        if self.invalid_html_colors.len() > 0 {
            return Err(
                GradientBuilderError::InvalidHtmlColors(copy_texts(&self.invalid_html_colors)),
            );
        }
        if self.invalid_css_gradient {
            return Err(GradientBuilderError::InvalidCssGradient);
        }
        let n: usize = if self.colors.len() < 2 {
            2
        } else {
            self.colors.len()
        };
        let m: usize = self.positions.len();
        if m == 0 {
            Ok(Spacing::Even { min: Scalar::zero(), max: Scalar::one(), count: n })
        } else if m == n {
            if has_descent(&self.positions) {
                Err(GradientBuilderError::InvalidDomain)
            } else {
                Ok(Spacing::Listed)
            }
        } else if m == 2 {
            if self.positions[1].less_eq(&self.positions[0]) {
                Err(GradientBuilderError::InvalidDomain)
            } else {
                Ok(Spacing::Even { min: self.positions[0], max: self.positions[1], count: n })
            }
        } else {
            Err(GradientBuilderError::InvalidDomain)
        }
    }

    /// Builds the stop table. `grid` holds the evenly spaced positions that
    /// `arrange` asked for (it is not read where the positions are listed);
    /// `spans[i]` is the distance from the stop before stop `i` to the stop
    /// behind it, the first and the last stop being their own neighbors.
    /// Stops whose span is below the machine epsilon are merged away. Where
    /// a table comes back, the builder holds its colors and positions, and
    /// remembers that it does: until something is set, `build` gives that
    /// table again and reads neither `grid` nor `spans`.
    pub fn build(&mut self, grid: &[Scalar], spans: &[Scalar]) -> (r: Result<
        StopTable,
        GradientBuilderError,
    >)
        ensures
            old(self)@.wf(),
            final(self)@.wf(),
            old(self)@.builds(grid@, spans@, r),
            r is Ok ==> r->Ok_0@.valid() && final(self)@ == old(self)@.built_as(r->Ok_0@),
            r is Err ==> final(self)@ == old(self)@,
            old(self)@.built ==> final(self)@ == old(self)@,
    {
        proof {
            use_type_invariant(&*self);
        }
        if self.clean {
            let held_p: Vec<Scalar> = self.positions.clone();
            let held_c: Vec<Rgba> = self.colors.clone();
            assert(held_p@ =~= self.positions@);
            assert(held_c@ =~= self.colors@);
            return StopTable::new(held_p, held_c);
        }
        let spacing: Spacing = match self.arrange() {
            Ok(s) => s,
            Err(e) => {
                return Err(e);
            },
        };
        let colors: Vec<Rgba> = if self.colors.len() == 0 {
            vec![Rgba::black(), Rgba::white()]
        } else if self.colors.len() == 1 {
            vec![self.colors[0], self.colors[0]]
        } else {
            self.colors.clone()
        };
        assert(colors@ =~= self@.stop_colors());
        let n: usize = colors.len();
        let positions: &[Scalar] = match spacing {
            Spacing::Listed => self.positions.as_slice(),
            Spacing::Even { .. } => grid,
        };
        if positions.len() != n || spans.len() != n {
            return Err(GradientBuilderError::InvalidDomain);
        }
        let mut kp: Vec<Scalar> = Vec::new();
        let mut kc: Vec<Rgba> = Vec::new();
        let limit: Scalar = Scalar::epsilon();
        let mut i: usize = 0;
        while i < n
            invariant
                i <= n,
                n == colors@.len(),
                n == positions@.len(),
                n == spans@.len(),
                limit.bits == EPSILON_BITS,
                kp@ == kept(positions@, spans@, i as int),
                kc@ == kept(colors@, spans@, i as int),
            decreases n - i,
        {
            if !spans[i].less(&limit) {
                kp.push(positions[i]);
                kc.push(colors[i]);
            }
            i = i + 1;
        }
        proof {
            lemma_kept_len(positions@, colors@, spans@, n as int);
        }
        let keep_p: Vec<Scalar> = kp.clone();
        let keep_c: Vec<Rgba> = kc.clone();
        assert(keep_p@ =~= kp@);
        assert(keep_c@ =~= kc@);
        match StopTable::new(kp, kc) {
            Ok(table) => {
                self.colors = keep_c;
                self.positions = keep_p;
                self.clean = true;
                Ok(table)
            },
            Err(e) => Err(e),
        }
    }
}

} // verus!
