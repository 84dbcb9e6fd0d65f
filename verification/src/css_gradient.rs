//! The stop list of a CSS gradient: how its text is cut into stops and a stop
//! into its parts.

use vstd::prelude::*;
use vstd::string::StrSliceExecFns;
use crate::color::{css_color, parse_color, Rgba};
use crate::scalar::Scalar;
use crate::text::views;
use crate::BlendMode;

verus! {

/// Whether position `i` of `s` lies behind an opening parenthesis that has
/// not been closed: the last parenthesis before `i`, if there is one, is `(`.
pub open spec fn nested(s: Seq<char>, i: int) -> bool
    decreases i,
{
    if i <= 0 {
        false
    } else if s[i - 1] == '(' {
        true
    } else if s[i - 1] == ')' {
        false
    } else {
        nested(s, i - 1)
    }
}

/// The positions below `n` at which `s` holds `sep` outside parentheses, in
/// increasing order.
pub open spec fn cuts(s: Seq<char>, sep: char, n: int) -> Seq<int>
    decreases n,
{
    if n <= 0 {
        Seq::empty()
    } else if s[n - 1] == sep && !nested(s, n - 1) {
        cuts(s, sep, n - 1).push(n - 1)
    } else {
        cuts(s, sep, n - 1)
    }
}

/// Where piece `k` begins: at 0, or behind the cut before it.
pub open spec fn piece_start(c: Seq<int>, k: int) -> int {
    if k <= 0 {
        0
    } else {
        c[k - 1] + 1
    }
}

/// The pieces of `s` that end at a cut of `c`.
pub open spec fn closed_pieces(s: Seq<char>, c: Seq<int>) -> Seq<Seq<char>> {
    Seq::new(c.len(), |k: int| s.subrange(piece_start(c, k), c[k]))
}

/// `s` cut at each `sep` that stands outside parentheses. The separators
/// belong to no piece; a piece may be empty.
pub open spec fn pieces(s: Seq<char>, sep: char) -> Seq<Seq<char>> {
    let c = cuts(s, sep, s.len() as int);
    closed_pieces(s, c).push(s.subrange(piece_start(c, c.len() as int), s.len() as int))
}

pub open spec fn nonempty() -> spec_fn(Seq<char>) -> bool {
    |p: Seq<char>| p.len() > 0
}

/// The pieces of `s` that are not empty.
pub open spec fn words(s: Seq<char>, sep: char) -> Seq<Seq<char>> {
    pieces(s, sep).filter(nonempty())
}

fn split_top_level<'a>(s: &'a str, sep: char, keep_empty: bool) -> (res: Vec<&'a str>)
    requires
        sep != '(',
        sep != ')',
    ensures
        views(res@) == if keep_empty {
            pieces(s@, sep)
        } else {
            words(s@, sep)
        },
{
    let n: usize = s.unicode_len();
    let mut res: Vec<&'a str> = Vec::new();
    let mut start: usize = 0;
    let mut inside: bool = false;
    let mut i: usize = 0;
    proof {
        assert(views(res@) =~= closed_pieces(s@, cuts(s@, sep, 0)));
        Seq::<Seq<char>>::empty().lemma_filter_len(nonempty());
        assert(closed_pieces(s@, cuts(s@, sep, 0)).filter(nonempty()) =~= Seq::<
            Seq<char>,
        >::empty());
    }
    while i < n
        invariant
            n == s@.len(),
            i <= n,
            start <= i,
            sep != '(',
            sep != ')',
            inside == nested(s@, i as int),
            start == piece_start(cuts(s@, sep, i as int), cuts(s@, sep, i as int).len() as int),
            views(res@) == if keep_empty {
                closed_pieces(s@, cuts(s@, sep, i as int))
            } else {
                closed_pieces(s@, cuts(s@, sep, i as int)).filter(nonempty())
            },
        decreases n - i,
    {
        let c: char = s.get_char(i);
        let ghost before = cuts(s@, sep, i as int);
        let ghost held = views(res@);
        if c == sep && !inside {
            let piece: &'a str = s.substring_char(start, i);
            proof {
                let after = cuts(s@, sep, i + 1);
                assert(after == before.push(i as int));
                assert(closed_pieces(s@, after) =~= closed_pieces(s@, before).push(piece@));
                closed_pieces(s@, before).lemma_filter_push(piece@, nonempty());
            }
            if keep_empty || piece.unicode_len() > 0 {
                res.push(piece);
                assert(views(res@) =~= held.push(piece@));
            }
            start = i + 1;
        } else if c == '(' {
            inside = true;
        } else if c == ')' {
            inside = false;
        }
        i = i + 1;
    }
    let last: &'a str = s.substring_char(start, n);
    let ghost held = views(res@);
    proof {
        closed_pieces(s@, cuts(s@, sep, n as int)).lemma_filter_push(last@, nonempty());
    }
    if keep_empty || last.unicode_len() > 0 {
        res.push(last);
        assert(views(res@) =~= held.push(last@));
    }
    res
}

/// Cuts a stop list at the commas that stand outside parentheses.
pub fn split_by_comma<'a>(s: &'a str) -> (res: Vec<&'a str>)
    ensures
        views(res@) == pieces(s@, ','),
{
    split_top_level(s, ',', true)
}

/// Cuts a stop at the spaces that stand outside parentheses, and drops the
/// empty parts.
pub fn split_by_space<'a>(s: &'a str) -> (res: Vec<&'a str>)
    ensures
        views(res@) == words(s@, ' '),
{
    split_top_level(s, ' ', false)
}

/// A stop as its text shows it: its color, if it has one, and the texts of
/// its positions, which are still to be read as numbers.
#[derive(Debug)]
pub struct StopText<'a> {
    pub color: Option<Rgba>,
    pub numbers: Vec<&'a str>,
}

/// What the parts of a stop make: one part is a color or else a position;
/// of two or three parts the first is a color and the others are positions;
/// anything else is no stop. `color` is what the first part stands for.
pub open spec fn stop_shape(parts: Seq<Seq<char>>, color: Option<Rgba>) -> Option<
    (Option<Rgba>, Seq<Seq<char>>),
> {
    if parts.len() == 1 {
        if color is Some {
            Some((color, Seq::empty()))
        } else {
            Some((None, seq![parts[0]]))
        }
    } else if parts.len() == 2 && color is Some {
        Some((color, seq![parts[1]]))
    } else if parts.len() == 3 && color is Some {
        Some((color, seq![parts[1], parts[2]]))
    } else {
        None
    }
}

/// Tells what the parts of a stop make, given what the first part stands
/// for as a color.
pub fn shape_stop<'a>(parts: &Vec<&'a str>, color: Option<Rgba>) -> (r: Option<StopText<'a>>)
    ensures
        match stop_shape(views(parts@), color) {
            Some((c, numbers)) => r matches Some(st) && st.color == c && views(st.numbers@)
                == numbers,
            None => r is None,
        },
{
    let n: usize = parts.len();
    let mut numbers: Vec<&'a str> = Vec::new();
    if n == 1 {
        if color.is_none() {
            numbers.push(parts[0]);
            assert(views(numbers@) =~= seq![views(parts@)[0]]);
        } else {
            assert(views(numbers@) =~= Seq::<Seq<char>>::empty());
        }
        Some(StopText { color, numbers })
    } else if n == 2 && color.is_some() {
        numbers.push(parts[1]);
        assert(views(numbers@) =~= seq![views(parts@)[1]]);
        Some(StopText { color, numbers })
    } else if n == 3 && color.is_some() {
        numbers.push(parts[1]);
        numbers.push(parts[2]);
        assert(views(numbers@) =~= seq![views(parts@)[1], views(parts@)[2]]);
        Some(StopText { color, numbers })
    } else {
        None
    }
}

/// What the first of the parts stands for as a color, where the parts can
/// be a stop at all.
pub open spec fn leading_color(parts: Seq<Seq<char>>) -> Option<Rgba> {
    if 1 <= parts.len() <= 3 {
        css_color(parts[0])
    } else {
        None
    }
}

/// Reads one stop of a stop list: cuts it at the spaces, reads the first
/// part as a color, and tells what the parts make.
pub fn scan_stop<'a>(s: &'a str) -> (r: Option<StopText<'a>>)
    ensures
        match stop_shape(words(s@, ' '), leading_color(words(s@, ' '))) {
            Some((c, numbers)) => r matches Some(st) && st.color == c && views(st.numbers@)
                == numbers,
            None => r is None,
        },
{
    let parts: Vec<&'a str> = split_by_space(s);
    let color: Option<Rgba> = if 1 <= parts.len() && parts.len() <= 3 {
        parse_color(parts[0])
    } else {
        None
    };
    shape_stop(&parts, color)
}

/// The text before the percent sign, where `s` ends in one.
pub fn percent_body<'a>(s: &'a str) -> (r: Option<&'a str>)
    ensures
        s@.len() > 0 && s@.last() == '%' ==> r is Some && r->Some_0@ == s@.drop_last(),
        !(s@.len() > 0 && s@.last() == '%') ==> r is None,
{
    let n: usize = s.unicode_len();
    if n > 0 && s.get_char(n - 1) == '%' {
        let body: &'a str = s.substring_char(0, n - 1);
        assert(body@ =~= s@.drop_last());
        Some(body)
    } else {
        None
    }
}

/// One stop of a stop list. The text may leave out its color or its
/// position; both are there once the list is resolved.
#[derive(Clone, Copy, Debug, PartialEq, Eq, Structural)]
pub struct Stop {
    pub col: Option<Rgba>,
    pub pos: Option<Scalar>,
}

impl Stop {
    pub fn new(col: Option<Rgba>, pos: Option<Scalar>) -> (s: Stop)
        ensures
            s == (Stop { col, pos }),
    {
        Stop { col, pos }
    }

    pub open spec fn is_valid(self) -> bool {
        self.col is Some && self.pos is Some
    }

    pub fn valid(&self) -> (r: bool)
        ensures
            r == self.is_valid(),
    {
        self.col.is_some() && self.pos.is_some()
    }
}

/// What a parser holds, as mathematics.
pub struct ParserState {
    pub dmin: Scalar,
    pub dmax: Scalar,
    pub mode: BlendMode,
    pub stops: Seq<Stop>,
}

/// A position that is to be computed: that of stop `index`, which lies
/// `1 / parts` of the way from `prev` to `next`.
#[derive(Clone, Copy, Debug, PartialEq, Eq, Structural)]
pub struct Fill {
    pub index: usize,
    pub prev: Scalar,
    pub next: Scalar,
    pub parts: usize,
}

/// The stops that a stop text adds: one, or two of one color where it gives
/// two positions; none where it is no stop.
pub open spec fn stops_of(color: Option<Rgba>, positions: Seq<Scalar>) -> Option<Seq<Stop>> {
    if positions.len() == 0 && color is Some {
        Some(seq![Stop { col: color, pos: None }])
    } else if positions.len() == 1 {
        Some(seq![Stop { col: color, pos: Some(positions[0]) }])
    } else if positions.len() == 2 && color is Some {
        Some(
            seq![
                Stop { col: color, pos: Some(positions[0]) },
                Stop { col: color, pos: Some(positions[1]) },
            ],
        )
    } else {
        None
    }
}

/// The first index from `from` on at which a stop has no position, or the
/// number of stops.
pub open spec fn first_gap(stops: Seq<Stop>, from: int) -> int
    decreases stops.len() - from,
{
    if from < 0 || from >= stops.len() || stops[from].pos is None {
        from
    } else {
        first_gap(stops, from + 1)
    }
}

/// The first index from `from` on at which a stop has a position, or the
/// number of stops.
pub open spec fn first_known(stops: Seq<Stop>, from: int) -> int
    decreases stops.len() - from,
{
    if from < 0 || from >= stops.len() || stops[from].pos is Some {
        from
    } else {
        first_known(stops, from + 1)
    }
}

/// `stop` at the larger of its position and `floor`.
pub open spec fn raised(stop: Stop, floor: Stop) -> Stop {
    Stop { col: stop.col, pos: Some(stop.pos->Some_0.spec_max(floor.pos->Some_0)) }
}

/// The stops with those from `from` up to `to`, `to` not included, raised
/// one after the other to the position of the stop before.
pub open spec fn leveled(stops: Seq<Stop>, from: int, to: int) -> Seq<Stop>
    decreases to - from,
{
    if to <= from {
        stops
    } else {
        let q = leveled(stops, from, to - 1);
        if to - 1 > 0 {
            q.update(to - 1, raised(q[to - 1], q[to - 2]))
        } else {
            q
        }
    }
}

impl ParserState {
    /// Whether the stops can be resolved: the domain is one, there is a
    /// stop, the first and the last stop have a color, and no two stops in
    /// a row lack one.
    pub open spec fn framable(self) -> bool {
        &&& !self.dmax.le(self.dmin)
        &&& self.stops.len() > 0
        &&& self.stops[0].col is Some
        &&& self.stops[self.stops.len() - 1].col is Some
        &&& forall|i: int|
            0 <= i && i + 1 < self.stops.len() ==> (#[trigger] self.stops[i]).col is Some
                || self.stops[i + 1].col is Some
    }

    /// The stops within their frame: the first stop is at the start of the
    /// domain where it says nothing else, the last at its end; where the
    /// first lies behind the start, a stop of its color is set before it at
    /// the start, and likewise behind the last at the end.
    pub open spec fn framed(self) -> Seq<Stop> {
        let s = self.stops;
        let a = s.update(
            0,
            Stop {
                col: s[0].col,
                pos: Some(
                    match s[0].pos {
                        Some(p) => p,
                        None => self.dmin,
                    },
                ),
            },
        );
        let n = a.len() as int;
        let b = a.update(
            n - 1,
            Stop {
                col: a[n - 1].col,
                pos: Some(
                    match a[n - 1].pos {
                        Some(p) => p,
                        None => self.dmax,
                    },
                ),
            },
        );
        let c = if self.dmin.lt(b[0].pos->Some_0) {
            seq![Stop { col: b[0].col, pos: Some(self.dmin) }] + b
        } else {
            b
        };
        if c[c.len() - 1].pos->Some_0.lt(self.dmax) {
            c.push(Stop { col: c[c.len() - 1].col, pos: Some(self.dmax) })
        } else {
            c
        }
    }

    /// Whether positions can be filled in from stop `from` on: the first
    /// and the last stop have a position, and so has the stop before `from`.
    pub open spec fn gap_ready(self, from: int) -> bool {
        &&& 0 <= from <= self.stops.len()
        &&& self.stops.len() > 0
        &&& self.stops[0].pos is Some
        &&& self.stops[self.stops.len() - 1].pos is Some
        &&& from > 0 ==> self.stops[from - 1].pos is Some
    }
}

/// The stops before stop `k` have positions that never decrease: each has a
/// position, and none lies before the stop before it.
pub open spec fn rises(stops: Seq<Stop>, k: int) -> bool {
    forall|i: int|
        0 < i < k && i < stops.len() ==> {
            &&& stops[i - 1].pos is Some
            &&& (#[trigger] stops[i]).pos is Some
            &&& !stops[i].pos->Some_0.lt(stops[i - 1].pos->Some_0)
        }
}

/// The larger of two numbers does not lie before the second.
pub proof fn lemma_max_is_not_below(a: Scalar, b: Scalar)
    ensures
        !a.spec_max(b).lt(b),
{
}

/// Up to the first gap every stop has a position.
pub proof fn lemma_first_gap(stops: Seq<Stop>, from: int)
    requires
        0 <= from <= stops.len(),
    ensures
        from <= first_gap(stops, from) <= stops.len(),
        forall|i: int| from <= i < first_gap(stops, from) ==> (#[trigger] stops[i]).pos is Some,
        first_gap(stops, from) < stops.len() ==> stops[first_gap(stops, from)].pos is None,
    decreases stops.len() - from,
{
    if from < stops.len() && stops[from].pos is Some {
        lemma_first_gap(stops, from + 1);
    }
}

/// Raising the stops from `from` up to `to` changes no other stop and no
/// color, and leaves positions that never decrease up to `to`, where they
/// did not before `from`.
pub proof fn lemma_leveled_rises(stops: Seq<Stop>, from: int, to: int)
    requires
        0 <= from <= to <= stops.len(),
        forall|i: int| from <= i < to ==> (#[trigger] stops[i]).pos is Some,
        from > 0 ==> stops[from - 1].pos is Some,
        rises(stops, from),
    ensures
        leveled(stops, from, to).len() == stops.len(),
        forall|i: int|
            0 <= i < stops.len() && (i < from || i >= to) ==> #[trigger] leveled(stops, from, to)[i]
                == stops[i],
        forall|i: int|
            from <= i < to ==> (#[trigger] leveled(stops, from, to)[i]).pos is Some && leveled(
                stops,
                from,
                to,
            )[i].col == stops[i].col,
        rises(leveled(stops, from, to), to),
    decreases to - from,
{
    if to > from {
        lemma_leveled_rises(stops, from, to - 1);
        let before = leveled(stops, from, to - 1);
        let now = leveled(stops, from, to);
        if to - 1 > 0 {
            assert(before[to - 1] == stops[to - 1]);
            assert(before[to - 2].pos is Some) by {
                if to - 2 < from {
                    assert(before[to - 2] == stops[to - 2]);
                }
            }
            assert(now == before.update(to - 1, raised(before[to - 1], before[to - 2])));
            lemma_max_is_not_below(before[to - 1].pos->Some_0, before[to - 2].pos->Some_0);
            assert forall|i: int| 0 < i < to && i < now.len() implies {
                &&& now[i - 1].pos is Some
                &&& (#[trigger] now[i]).pos is Some
                &&& !now[i].pos->Some_0.lt(now[i - 1].pos->Some_0)
            } by {
                if i < to - 1 {
                    assert(now[i] == before[i] && now[i - 1] == before[i - 1]);
                    assert(before[i].pos is Some);
                } else {
                    assert(now[i - 1] == before[to - 2]);
                }
            }
        } else {
            assert(now == before);
        }
    }
}

/// Walking to the next gap keeps the positions rising: where they never
/// decrease before `from`, they never decrease before the gap once the walk
/// has raised the stops on its way.
pub proof fn lemma_walk_to_gap_rises(state: ParserState, from: int)
    requires
        state.gap_ready(from),
        rises(state.stops, from),
    ensures
        rises(
            leveled(state.stops, from, first_gap(state.stops, from)),
            first_gap(state.stops, from),
        ),
        first_gap(state.stops, from) == state.stops.len() ==> forall|i: int|
            0 <= i < state.stops.len() ==> (#[trigger] leveled(
                state.stops,
                from,
                state.stops.len() as int,
            )[i]).pos is Some,
{
    lemma_first_gap(state.stops, from);
    let k = first_gap(state.stops, from);
    lemma_leveled_rises(state.stops, from, k);
    if k == state.stops.len() {
        let q = leveled(state.stops, from, k);
        assert forall|i: int| 0 <= i < state.stops.len() implies (#[trigger] q[i]).pos is Some by {
            if i < from {
                assert(q[i] == state.stops[i]);
                if i + 1 < from {
                    assert(state.stops[i + 1].pos is Some);
                } else {
                    assert(i == from - 1);
                }
            }
        }
    }
}

/// Filling a gap keeps the positions rising: the stop gets the value it is
/// handed, or the position of the stop before it where that is larger.
pub proof fn lemma_fill_rises(stops: Seq<Stop>, index: int, value: Scalar)
    requires
        0 < index < stops.len(),
        stops[index].pos is None,
        stops[index - 1].pos is Some,
        rises(stops, index),
    ensures
        rises(
            stops.update(
                index,
                Stop {
                    col: stops[index].col,
                    pos: Some(value.spec_max(stops[index - 1].pos->Some_0)),
                },
            ),
            index + 1,
        ),
{
    let now = stops.update(
        index,
        Stop { col: stops[index].col, pos: Some(value.spec_max(stops[index - 1].pos->Some_0)) },
    );
    lemma_max_is_not_below(value, stops[index - 1].pos->Some_0);
    assert forall|i: int| 0 < i < index + 1 && i < now.len() implies {
        &&& now[i - 1].pos is Some
        &&& (#[trigger] now[i]).pos is Some
        &&& !now[i].pos->Some_0.lt(now[i - 1].pos->Some_0)
    } by {
        if i < index {
            assert(now[i] == stops[i] && now[i - 1] == stops[i - 1]);
            assert(stops[i].pos is Some);
        } else {
            assert(now[i - 1] == stops[index - 1]);
        }
    }
}

/// Resolved positions never decrease. Where the positions of all stops
/// rise, no position that `finish` gives is followed by a smaller one.
pub proof fn lemma_resolved_positions_do_not_descend(stops: Seq<Stop>, positions: Seq<Scalar>)
    requires
        rises(stops, stops.len() as int),
        positions.len() == stops.len(),
        forall|i: int| 0 <= i < stops.len() ==> (#[trigger] stops[i]).pos == Some(positions[i]),
    ensures
        !crate::builder::descends(positions),
{
    assert forall|i: int| !crate::builder::descends_at(positions, i) by {
        if 0 <= i && i + 1 < positions.len() {
            assert(stops[i + 1].pos is Some);
            assert(stops[i].pos == Some(positions[i]));
        }
    }
}

/// Reads the stop list of a CSS gradient, but for its numbers.
#[derive(Debug, Clone)]
pub struct CSSGradientParser {
    dmin: Scalar,
    dmax: Scalar,
    mode: BlendMode,
    stops: Vec<Stop>,
}

impl View for CSSGradientParser {
    type V = ParserState;

    closed spec fn view(&self) -> ParserState {
        ParserState { dmin: self.dmin, dmax: self.dmax, mode: self.mode, stops: self.stops@ }
    }
}

impl CSSGradientParser {
    pub fn new() -> (p: Self)
        ensures
            p@ == (ParserState {
                dmin: Scalar { bits: crate::scalar::ZERO_BITS },
                dmax: Scalar { bits: crate::scalar::ONE_BITS },
                mode: BlendMode::Rgb,
                stops: Seq::empty(),
            }),
    {
        CSSGradientParser {
            dmin: Scalar::zero(),
            dmax: Scalar::one(),
            mode: BlendMode::Rgb,
            stops: Vec::new(),
        }
    }

    pub fn set_domain(&mut self, min: Scalar, max: Scalar)
        requires
            min.lt(max),
        ensures
            final(self)@ == (ParserState { dmin: min, dmax: max, ..old(self)@ }),
    {
        self.dmin = min;
        self.dmax = max;
    }

    pub fn set_mode(&mut self, mode: BlendMode)
        ensures
            final(self)@ == (ParserState { mode: mode, ..old(self)@ }),
    {
        self.mode = mode;
    }

    pub fn reset(&mut self)
        ensures
            final(self)@ == (ParserState {
                dmin: Scalar { bits: crate::scalar::ZERO_BITS },
                dmax: Scalar { bits: crate::scalar::ONE_BITS },
                mode: BlendMode::Rgb,
                stops: Seq::empty(),
            }),
    {
        self.dmin = Scalar::zero();
        self.dmax = Scalar::one();
        self.mode = BlendMode::Rgb;
        self.stops = Vec::new();
    }

    pub fn domain(&self) -> (d: (Scalar, Scalar))
        ensures
            d == (self@.dmin, self@.dmax),
    {
        (self.dmin, self.dmax)
    }

    pub fn mode(&self) -> (m: BlendMode)
        ensures
            m == self@.mode,
    {
        self.mode
    }

    pub fn stops(&self) -> (s: &Vec<Stop>)
        ensures
            s@ == self@.stops,
    {
        &self.stops
    }

    /// Takes one stop as it was read: its color and the positions it names,
    /// as numbers. Says whether that is a stop; where it is none, nothing
    /// is taken.
    pub fn push_stop(&mut self, color: Option<Rgba>, positions: &[Scalar]) -> (ok: bool)
        ensures
            ok == (stops_of(color, positions@) is Some),
            final(self)@ == (ParserState {
                stops: match stops_of(color, positions@) {
                    Some(added) => old(self)@.stops + added,
                    None => old(self)@.stops,
                },
                ..old(self)@
            }),
    {
        let ghost before = self.stops@;
        if positions.len() == 0 && color.is_some() {
            self.stops.push(Stop { col: color, pos: None });
            assert(self.stops@ =~= before + stops_of(color, positions@)->Some_0);
            true
        } else if positions.len() == 1 {
            self.stops.push(Stop { col: color, pos: Some(positions[0]) });
            assert(self.stops@ =~= before + stops_of(color, positions@)->Some_0);
            true
        } else if positions.len() == 2 && color.is_some() {
            self.stops.push(Stop { col: color, pos: Some(positions[0]) });
            self.stops.push(Stop { col: color, pos: Some(positions[1]) });
            assert(self.stops@ =~= before + stops_of(color, positions@)->Some_0);
            true
        } else {
            false
        }
    }

    /// Sets the stops within their frame, if they can be resolved at all;
    /// says whether they can. Where they cannot, nothing changes.
    pub fn frame(&mut self) -> (ok: bool)
        ensures
            ok == old(self)@.framable(),
            ok ==> final(self)@ == (ParserState { stops: old(self)@.framed(), ..old(self)@ }),
            !ok ==> final(self)@ == old(self)@,
    {
        if self.dmax.less_eq(&self.dmin) {
            return false;
        }
        let n: usize = self.stops.len();
        if n == 0 {
            return false;
        }
        if self.stops[0].col.is_none() || self.stops[n - 1].col.is_none() {
            return false;
        }
        let mut i: usize = 0;
        while i + 1 < n
            invariant
                n == self.stops@.len(),
                i < n,
                forall|k: int|
                    0 <= k < i ==> (#[trigger] self.stops@[k]).col is Some || self.stops@[k
                        + 1].col is Some,
            decreases n - i,
        {
            if self.stops[i].col.is_none() && self.stops[i + 1].col.is_none() {
                return false;
            }
            i = i + 1;
        }
        let ghost s = self.stops@;
        let first: Stop = self.stops[0];
        if first.pos.is_none() {
            self.stops.set(0, Stop { col: first.col, pos: Some(self.dmin) });
        }
        let ghost a = self.stops@;
        let last: Stop = self.stops[n - 1];
        if last.pos.is_none() {
            self.stops.set(n - 1, Stop { col: last.col, pos: Some(self.dmax) });
        }
        let ghost b = self.stops@;
        proof {
            assert(a =~= s.update(
                0,
                Stop {
                    col: s[0].col,
                    pos: Some(
                        match s[0].pos {
                            Some(p) => p,
                            None => self.dmin,
                        },
                    ),
                },
            ));
            assert(b =~= a.update(
                n - 1,
                Stop {
                    col: a[n - 1].col,
                    pos: Some(
                        match a[n - 1].pos {
                            Some(p) => p,
                            None => self.dmax,
                        },
                    ),
                },
            ));
        }
        let first: Stop = self.stops[0];
        match first.pos {
            Some(p) => {
                if self.dmin.less(&p) {
                    self.stops.insert(0, Stop { col: first.col, pos: Some(self.dmin) });
                    assert(self.stops@ =~= seq![Stop { col: b[0].col, pos: Some(self.dmin) }] + b);
                }
            },
            None => {},
        }
        let m: usize = self.stops.len();
        let last: Stop = self.stops[m - 1];
        match last.pos {
            Some(p) => {
                if p.less(&self.dmax) {
                    self.stops.push(Stop { col: last.col, pos: Some(self.dmax) });
                }
            },
            None => {},
        }
        true
    }

    /// The stops that have no color, in their order. Once the stops are
    /// framed, each has a colored stop on either side.
    pub fn missing_colors(&self) -> (r: Vec<usize>)
        ensures
            forall|k: int| 0 <= k < r@.len() ==> r@[k] < self@.stops.len() && self@.stops[r@[k] as int].col is None,
            forall|j: int, k: int| 0 <= j < k < r@.len() ==> r@[j] < r@[k],
            forall|i: int|
                0 <= i < self@.stops.len() && (#[trigger] self@.stops[i]).col is None
                    ==> r@.contains(i as usize),
    {
        let mut r: Vec<usize> = Vec::new();
        let mut i: usize = 0;
        while i < self.stops.len()
            invariant
                i <= self.stops@.len(),
                forall|k: int| 0 <= k < r@.len() ==> r@[k] < i && self.stops@[r@[k] as int].col is None,
                forall|j: int, k: int| 0 <= j < k < r@.len() ==> r@[j] < r@[k],
                forall|m: int|
                    0 <= m < i && (#[trigger] self.stops@[m]).col is None ==> r@.contains(
                        m as usize,
                    ),
            decreases self.stops.len() - i,
        {
            if self.stops[i].col.is_none() {
                let ghost before = r@;
                r.push(i);
                proof {
                    assert(r@[r@.len() - 1] == i);
                    assert forall|m: int|
                        0 <= m < i + 1 && (#[trigger] self.stops@[m]).col is None implies r@.contains(
                        m as usize,
                    ) by {
                        if m < i {
                            let w = choose|w: int| 0 <= w < before.len() && before[w] == m as usize;
                            assert(r@[w] == m as usize);
                        }
                    }
                }
            }
            i = i + 1;
        }
        r
    }

    /// Gives stop `index` the color `color`. An index beyond the stops
    /// changes nothing.
    pub fn set_color(&mut self, index: usize, color: Rgba)
        ensures
            final(self)@ == (ParserState {
                stops: if index < old(self)@.stops.len() {
                    old(self)@.stops.update(
                        index as int,
                        Stop { col: Some(color), pos: old(self)@.stops[index as int].pos },
                    )
                } else {
                    old(self)@.stops
                },
                ..old(self)@
            }),
    {
        if index < self.stops.len() {
            let pos: Option<Scalar> = self.stops[index].pos;
            self.stops.set(index, Stop { col: Some(color), pos });
        }
    }

    /// Walks from stop `from` to the next stop without a position, raising
    /// each position on the way to the one before it, and says what
    /// position is to be computed there; `None` at the end of the stops.
    /// Where positions cannot be filled in from `from` on, nothing changes.
    pub fn next_gap(&mut self, from: usize) -> (r: Option<Fill>)
        ensures
            !old(self)@.gap_ready(from as int) ==> r is None && final(self)@ == old(self)@,
            old(self)@.gap_ready(from as int) ==> {
                let k = first_gap(old(self)@.stops, from as int);
                let j = first_known(old(self)@.stops, k + 1);
                &&& final(self)@ == (ParserState {
                    stops: leveled(old(self)@.stops, from as int, k),
                    ..old(self)@
                })
                &&& from <= k <= old(self)@.stops.len()
                &&& k == old(self)@.stops.len() ==> r is None
                &&& k < old(self)@.stops.len() ==> 0 < k < j < old(self)@.stops.len() && r == Some(
                    Fill {
                        index: k as usize,
                        prev: final(self)@.stops[k - 1].pos->Some_0,
                        next: old(self)@.stops[j].pos->Some_0,
                        parts: (j - k + 1) as usize,
                    },
                )
            },
    {
        let n: usize = self.stops.len();
        if !(from <= n && n > 0 && self.stops[0].pos.is_some() && self.stops[n - 1].pos.is_some()
            && (from == 0 || self.stops[from - 1].pos.is_some())) {
            return None;
        }
        let mut i: usize = from;
        while i < n && self.stops[i].pos.is_some()
            invariant
                n == self.stops@.len(),
                n == old(self).stops@.len(),
                from <= i <= n,
                self.dmin == old(self).dmin,
                self.dmax == old(self).dmax,
                self.mode == old(self).mode,
                self.stops@ == leveled(old(self).stops@, from as int, i as int),
                first_gap(old(self).stops@, from as int) == first_gap(old(self).stops@, i as int),
                forall|k: int| i <= k < n ==> self.stops@[k] == old(self).stops@[k],
                i > 0 ==> self.stops@[i - 1].pos is Some,
                old(self)@.gap_ready(from as int),
            decreases n - i,
        {
            if i > 0 {
                let cur: Stop = self.stops[i];
                let floor: Stop = self.stops[i - 1];
                match (cur.pos, floor.pos) {
                    (Some(p), Some(q)) => {
                        self.stops.set(i, Stop { col: cur.col, pos: Some(p.max(q)) });
                    },
                    _ => {},
                }
            }
            i = i + 1;
        }
        if i >= n {
            return None;
        }
        assert(i > 0) by {
            if i == 0 {
                assert(self.stops@[0] == old(self).stops@[0]);
            }
        }
        let mut j: usize = i + 1;
        while j < n && self.stops[j].pos.is_none()
            invariant
                n == self.stops@.len(),
                n == old(self).stops@.len(),
                i < j <= n,
                forall|k: int| i <= k < n ==> self.stops@[k] == old(self).stops@[k],
                first_known(old(self).stops@, i + 1) == first_known(old(self).stops@, j as int),
                old(self).stops@[n - 1].pos is Some,
                forall|k: int| i <= k < j ==> (#[trigger] self.stops@[k]).pos is None,
            decreases n - j,
        {
            j = j + 1;
        }
        assert(j < n) by {
            if j == n {
                assert(self.stops@[n - 1] == old(self).stops@[n - 1]);
                assert(self.stops@[n - 1].pos is None);
            }
        }
        match (self.stops[i - 1].pos, self.stops[j].pos) {
            (Some(prev), Some(next)) => Some(Fill { index: i, prev, next, parts: j - i + 1 }),
            _ => None,
        }
    }

    /// Gives stop `index` its position: `value`, or the position of the
    /// stop before it where that is larger. Where the stop has a position
    /// already, or the stop before has none, nothing changes.
    pub fn fill(&mut self, index: usize, value: Scalar)
        ensures
            final(self)@ == (ParserState {
                stops: if 0 < index < old(self)@.stops.len() && old(self)@.stops[index as int].pos is None
                    && old(self)@.stops[index - 1].pos is Some {
                    old(self)@.stops.update(
                        index as int,
                        Stop {
                            col: old(self)@.stops[index as int].col,
                            pos: Some(value.spec_max(old(self)@.stops[index - 1].pos->Some_0)),
                        },
                    )
                } else {
                    old(self)@.stops
                },
                ..old(self)@
            }),
    {
        if 0 < index && index < self.stops.len() {
            let cur: Stop = self.stops[index];
            let floor: Stop = self.stops[index - 1];
            match (cur.pos, floor.pos) {
                (None, Some(q)) => {
                    self.stops.set(index, Stop { col: cur.col, pos: Some(value.max(q)) });
                },
                _ => {},
            }
        }
    }

    /// The colors and positions of the stops, where each stop has both.
    pub fn finish(&self) -> (r: Option<(Vec<Rgba>, Vec<Scalar>)>)
        ensures
            (forall|i: int| 0 <= i < self@.stops.len() ==> (#[trigger] self@.stops[i]).is_valid())
                <==> r is Some,
            r matches Some((colors, positions)) ==> {
                &&& colors@.len() == self@.stops.len()
                &&& positions@.len() == self@.stops.len()
                &&& forall|i: int|
                    0 <= i < self@.stops.len() ==> self@.stops[i] == (Stop {
                        col: Some(#[trigger] colors@[i]),
                        pos: Some(positions@[i]),
                    })
            },
    {
        let mut colors: Vec<Rgba> = Vec::new();
        let mut positions: Vec<Scalar> = Vec::new();
        let mut i: usize = 0;
        while i < self.stops.len()
            invariant
                i <= self.stops@.len(),
                colors@.len() == i,
                positions@.len() == i,
                forall|k: int|
                    0 <= k < i ==> self.stops@[k] == (Stop {
                        col: Some(#[trigger] colors@[k]),
                        pos: Some(positions@[k]),
                    }),
            decreases self.stops.len() - i,
        {
            let stop: Stop = self.stops[i];
            match (stop.col, stop.pos) {
                (Some(c), Some(p)) => {
                    colors.push(c);
                    positions.push(p);
                },
                _ => {
                    assert(!self@.stops[i as int].is_valid());
                    return None;
                },
            }
            i = i + 1;
        }
        assert forall|k: int| 0 <= k < self@.stops.len() implies (#[trigger] self@.stops[k]).is_valid() by {
            assert(self.stops@[k].col == Some(colors@[k]));
        }
        Some((colors, positions))
    }
}

} // verus!
