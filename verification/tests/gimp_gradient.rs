use colorgrad::color::Rgba;
use colorgrad::gimp_gradient::{
    blending_type, color_source, coloring_type, segment_kind, BlendingType, ColorSource,
    ColoringType, GgrReader, GimpGradient, GimpSample, GimpSegment, ParseGgrError, Place, Step,
};
use colorgrad::scalar::Scalar;
use csscolorparser::Color;
use std::f32::consts::{FRAC_PI_2, LN_2, PI};

fn s(x: f32) -> Scalar {
    Scalar::from_bits(x.to_bits())
}

fn f(x: Scalar) -> f32 {
    f32::from_bits(x.to_bits())
}

fn channels(v: [f32; 4]) -> Rgba {
    Rgba::from_bits(v[0].to_bits(), v[1].to_bits(), v[2].to_bits(), v[3].to_bits())
}

fn array(c: Rgba) -> [f32; 4] {
    let b = c.to_bits();
    [
        f32::from_bits(b[0]),
        f32::from_bits(b[1]),
        f32::from_bits(b[2]),
        f32::from_bits(b[3]),
    ]
}

fn pick(source: ColorSource, given: &[f32], fg: &Color, bg: &Color) -> Color {
    match source {
        ColorSource::Given => Color::new(given[0], given[1], given[2], given[3]),
        ColorSource::Foreground => fg.clone(),
        ColorSource::ForegroundTransparent => {
            let [r, g, b, _] = fg.to_array();
            Color::new(r, g, b, 0.0)
        }
        ColorSource::Background => bg.clone(),
        ColorSource::BackgroundTransparent => {
            let [r, g, b, _] = bg.to_array();
            Color::new(r, g, b, 0.0)
        }
    }
}

fn parse_segment(line: &str, fg: &Color, bg: &Color) -> Option<GimpSegment> {
    let d: Result<Vec<f32>, _> = line.split_whitespace().map(|x| x.parse()).collect();
    let Ok(d) = d else {
        return None;
    };
    if d.len() != 13 && d.len() != 15 {
        return None;
    }
    let (l, r) = if d.len() == 15 {
        (d[13] as isize, d[14] as isize)
    } else {
        (0, 0)
    };
    let kind = segment_kind(d.len(), d[11] as isize, d[12] as isize, l, r)?;
    let lcolor = pick(kind.left, &d[3..7], fg, bg);
    let rcolor = pick(kind.right, &d[7..11], fg, bg);
    let (lcolor, rcolor) = match kind.coloring_type {
        ColoringType::Rgb => (lcolor.to_array(), rcolor.to_array()),
        _ => (lcolor.to_hsva(), rcolor.to_hsva()),
    };
    Some(GimpSegment {
        lcolor: channels(lcolor),
        rcolor: channels(rcolor),
        lpos: s(d[0]),
        mpos: s(d[1]),
        rpos: s(d[2]),
        blending_type: kind.blending_type,
        coloring_type: kind.coloring_type,
    })
}

fn parse_ggr(text: &str, fg: &Color, bg: &Color) -> Result<GimpGradient, ParseGgrError> {
    let mut reader = GgrReader::new();
    let mut segments = Vec::new();
    for line in text.lines() {
        match reader.read_line(line)? {
            Step::Header => {}
            Step::End => break,
            Step::Segment => match parse_segment(line, fg, bg) {
                Some(seg) => segments.push(seg),
                None => return Err(reader.invalid_segment()),
            },
        }
    }
    let name = reader.finish()?;
    GimpGradient::new(name, segments)
}

fn calc_linear_factor(middle: f32, pos: f32) -> f32 {
    if pos <= middle {
        if middle < f32::EPSILON {
            0.0
        } else {
            0.5 * pos / middle
        }
    } else {
        let pos = pos - middle;
        let middle = 1.0 - middle;
        if middle < f32::EPSILON {
            1.0
        } else {
            0.5 + 0.5 * pos / middle
        }
    }
}

fn plain(coloring: ColoringType, c: [f32; 4]) -> Color {
    match coloring {
        ColoringType::Rgb => Color::new(c[0], c[1], c[2], c[3]),
        _ => Color::from_hsva(c[0], c[1], c[2], c[3]),
    }
}

fn blend_hsv(c1: [f32; 4], c2: [f32; 4], t: f32, clockwise: bool) -> Color {
    let [h1, s1, v1, a1] = c1;
    let [h2, s2, v2, a2] = c2;
    let hue = if clockwise {
        if h2 < h1 {
            h1 - ((h1 - h2) * t)
        } else {
            let h = h1 - ((360.0 - (h2 - h1)) * t);
            if h < 0.0 {
                h + 360.0
            } else {
                h
            }
        }
    } else if h1 < h2 {
        h1 + ((h2 - h1) * t)
    } else {
        let h = h1 + ((360.0 - (h1 - h2)) * t);
        if h > 360.0 {
            h - 360.0
        } else {
            h
        }
    };
    Color::from_hsva(hue, s1 + t * (s2 - s1), v1 + t * (v2 - v1), a1 + t * (a2 - a1))
}

fn at(g: &GimpGradient, t: f32) -> Color {
    let i = match g.at(s(t)) {
        GimpSample::Color { channels, coloring_type } => {
            return plain(coloring_type, array(channels));
        }
        GimpSample::Within(i) => i,
    };
    let seg = g.segments()[i];
    let (lpos, mpos, rpos) = (f(seg.lpos), f(seg.mpos), f(seg.rpos));
    let (lcolor, rcolor) = (array(seg.lcolor), array(seg.rcolor));
    let seg_len = rpos - lpos;
    let (middle, pos) = if seg_len < f32::EPSILON {
        (0.5, 0.5)
    } else {
        ((mpos - lpos) / seg_len, (t - lpos) / seg_len)
    };
    let factor = match seg.blending_type {
        BlendingType::Linear => calc_linear_factor(middle, pos),
        BlendingType::Curved => {
            if middle < f32::EPSILON {
                return plain(seg.coloring_type, rcolor);
            } else if (1.0 - middle).abs() < f32::EPSILON {
                return plain(seg.coloring_type, lcolor);
            } else {
                (-LN_2 * pos.log10() / middle.log10()).exp()
            }
        }
        BlendingType::Sinusoidal => {
            let x = calc_linear_factor(middle, pos);
            ((-FRAC_PI_2 + (PI * x)).sin() + 1.0) / 2.0
        }
        BlendingType::SphericalIncreasing => {
            let x = calc_linear_factor(middle, pos) - 1.0;
            (1.0 - x * x).sqrt()
        }
        BlendingType::SphericalDecreasing => {
            let x = calc_linear_factor(middle, pos);
            1.0 - (1.0 - x * x).sqrt()
        }
        BlendingType::Step => {
            if pos >= middle {
                return plain(seg.coloring_type, rcolor);
            } else {
                return plain(seg.coloring_type, lcolor);
            }
        }
    };
    match seg.coloring_type {
        ColoringType::Rgb => Color::new(
            lcolor[0] + factor * (rcolor[0] - lcolor[0]),
            lcolor[1] + factor * (rcolor[1] - lcolor[1]),
            lcolor[2] + factor * (rcolor[2] - lcolor[2]),
            lcolor[3] + factor * (rcolor[3] - lcolor[3]),
        ),
        ColoringType::HsvCcw => blend_hsv(lcolor, rcolor, factor, false),
        ColoringType::HsvCw => blend_hsv(lcolor, rcolor, factor, true),
    }
}

#[test]
fn parse_gimp_gradients() {
    let col = Color::default();
    let red = Color::new(1.0, 0.0, 0.0, 1.0);
    let blue = Color::new(0.0, 0.0, 1.0, 1.0);

    // Black to white
    let ggr = "GIMP Gradient\nName: My Gradient\n1\n0 0.5 1 0 0 0 1 1 1 1 1 0 0 0 0";
    let grad = parse_ggr(ggr, &col, &col).unwrap();

    assert_eq!(grad.name(), "My Gradient");
    assert_eq!(grad.domain(), (s(0.0), s(1.0)));
    assert_eq!(at(&grad, 0.0).to_rgba8(), [0, 0, 0, 255]);
    assert_eq!(at(&grad, 1.0).to_rgba8(), [255, 255, 255, 255]);
    assert_eq!(at(&grad, -0.5).to_rgba8(), [0, 0, 0, 255]);
    assert_eq!(at(&grad, 1.5).to_rgba8(), [255, 255, 255, 255]);
    assert_eq!(at(&grad, f32::NAN).to_rgba8(), [0, 0, 0, 255]);

    // Foreground to background
    let ggr = "GIMP Gradient\nName: My Gradient\n1\n0 0.5 1 0 0 0 1 1 1 1 1 0 0 1 3";
    let grad = parse_ggr(ggr, &red, &blue).unwrap();
    assert_eq!(at(&grad, 0.0).to_rgba8(), [255, 0, 0, 255]);
    assert_eq!(at(&grad, 1.0).to_rgba8(), [0, 0, 255, 255]);

    // Background to foreground
    let ggr = "GIMP Gradient\nName: My Gradient\n1\n0 0.5 1 0 0 0 1 1 1 1 1 0 0 3 1";
    let grad = parse_ggr(ggr, &red, &blue).unwrap();
    assert_eq!(at(&grad, 0.0).to_rgba8(), [0, 0, 255, 255]);
    assert_eq!(at(&grad, 1.0).to_rgba8(), [255, 0, 0, 255]);

    // Foreground transparent to background transparent
    let ggr = "GIMP Gradient\nName: My Gradient\n1\n0 0.5 1 0 0 0 1 1 1 1 1 0 0 2 4";
    let grad = parse_ggr(ggr, &red, &blue).unwrap();
    assert_eq!(at(&grad, 0.0).to_rgba8(), [255, 0, 0, 0]);
    assert_eq!(at(&grad, 1.0).to_rgba8(), [0, 0, 255, 0]);

    // Background transparent to foreground transparent
    let ggr = "GIMP Gradient\nName: My Gradient\n1\n0 0.5 1 0 0 0 1 1 1 1 1 0 0 4 2";
    let grad = parse_ggr(ggr, &red, &blue).unwrap();
    assert_eq!(at(&grad, 0.0).to_rgba8(), [0, 0, 255, 0]);
    assert_eq!(at(&grad, 1.0).to_rgba8(), [255, 0, 0, 0]);

    // Blending function: step
    let ggr = "GIMP Gradient\nName: My Gradient\n1\n0 0.5 1 1 0 0 1 0 0 1 1 5 0 0 0";
    let grad = parse_ggr(ggr, &col, &col).unwrap();
    assert_eq!(at(&grad, 0.00).to_rgba8(), [255, 0, 0, 255]);
    assert_eq!(at(&grad, 0.25).to_rgba8(), [255, 0, 0, 255]);
    assert_eq!(at(&grad, 0.49).to_rgba8(), [255, 0, 0, 255]);
    assert_eq!(at(&grad, 0.51).to_rgba8(), [0, 0, 255, 255]);
    assert_eq!(at(&grad, 0.75).to_rgba8(), [0, 0, 255, 255]);
    assert_eq!(at(&grad, 1.00).to_rgba8(), [0, 0, 255, 255]);

    let ggr = "GIMP Gradient\nName: My Gradient\n1\n0 0.75 1 1 0 0 1 0 0 1 1 5 0 0 0";
    let grad = parse_ggr(ggr, &col, &col).unwrap();
    assert_eq!(at(&grad, 0.00).to_rgba8(), [255, 0, 0, 255]);
    assert_eq!(at(&grad, 0.25).to_rgba8(), [255, 0, 0, 255]);
    assert_eq!(at(&grad, 0.50).to_rgba8(), [255, 0, 0, 255]);
    assert_eq!(at(&grad, 0.74).to_rgba8(), [255, 0, 0, 255]);
    assert_eq!(at(&grad, 0.76).to_rgba8(), [0, 0, 255, 255]);
    assert_eq!(at(&grad, 0.90).to_rgba8(), [0, 0, 255, 255]);
    assert_eq!(at(&grad, 1.00).to_rgba8(), [0, 0, 255, 255]);

    // Coloring type: HSV CCW (white to blue)
    let ggr = "GIMP Gradient\nName: My Gradient\n1\n0 0.5 1 1 1 1 1 0 0 1 1 0 1 0 0";
    let grad = parse_ggr(ggr, &red, &blue).unwrap();
    assert_eq!(at(&grad, 0.0).to_rgba8(), [255, 255, 255, 255]);
    assert_eq!(at(&grad, 0.5).to_rgba8(), [128, 255, 128, 255]);
    assert_eq!(at(&grad, 1.0).to_rgba8(), [0, 0, 255, 255]);

    // Coloring type: HSV CW (white to blue)
    let ggr = "GIMP Gradient\nName: My Gradient\n1\n0 0.5 1 1 1 1 1 0 0 1 1 0 2 0 0";
    let grad = parse_ggr(ggr, &red, &blue).unwrap();
    assert_eq!(at(&grad, 0.0).to_rgba8(), [255, 255, 255, 255]);
    assert_eq!(at(&grad, 0.5).to_rgba8(), [255, 128, 255, 255]);
    assert_eq!(at(&grad, 1.0).to_rgba8(), [0, 0, 255, 255]);
}

#[test]
fn invalid_format() {
    let col = Color::default();

    let test_data = vec![
        ("GIMP Pallete\n9", "invalid header (line 1)"),
        ("GIMP Gradient\n6", "invalid header (line 2)"),
        ("GIMP Gradient\nName: Gradient\nx", "invalid header (line 3)"),
        (
            "GIMP Gradient\nName: Gradient\n1\n0 0.5 1",
            "invalid segment (line 4)",
        ),
        (
            "GIMP Gradient\nName: Gradient\n3\n0 0.5 1 0 0 0 1 1 1 1 1 0 0 0 0",
            "wrong segments count (line 3)",
        ),
        ("GIMP Gradient\nName: Gradient\n0", "no segment (line 4)"),
    ];

    for (ggr, err_msg) in test_data {
        let res = parse_ggr(ggr, &col, &col);
        assert_eq!(res.unwrap_err().to_string(), err_msg);
    }

    let invalid_segments = vec![
        "GIMP Gradient\nName: Gradient\n1\n0 0.5 1 0 0 0 1 1 1 1 1 6 0 0 0",
        "GIMP Gradient\nName: Gradient\n1\n0 0.5 1 0 0 0 1 1 1 1 1 0 3 0 0",
        "GIMP Gradient\nName: Gradient\n1\n0 0.5 1 0 0 0 1 1 1 1 1 0 0 5 0",
        "GIMP Gradient\nName: Gradient\n1\n0 0.5 1 0 0 0 1 1 1 1 1 0 0 0 5",
        "GIMP Gradient\nName: Gradient\n1\n0 0.5 1 0 0 0 A 1 1 1 A 0 0 0 0",
    ];

    for ggr in invalid_segments {
        let res = parse_ggr(ggr, &col, &col);
        assert!(res.is_err());
    }
}

#[test]
fn reader_walks_the_lines() {
    let mut r = GgrReader::new();
    assert_eq!(r.read_line("\u{feff}\u{feff}GIMP Gradient").unwrap(), Step::Header);
    assert_eq!(r.read_line("Name:   Two  Words \t").unwrap(), Step::Header);
    let e = r.read_line(" 2").unwrap_err();
    assert_eq!((e.message(), e.line()), ("invalid header", 3));
    assert_eq!(r.read_line("+2").unwrap(), Step::Header);
    assert_eq!(r.read_line("a").unwrap(), Step::Segment);
    let e = r.invalid_segment();
    assert_eq!(e.to_string(), "invalid segment (line 4)");
    r.skip_line();
    assert_eq!(r.read_line("b").unwrap(), Step::End);
    assert_eq!(r.read_line("c").unwrap(), Step::End);
    let e = r.finish().unwrap_err();
    assert_eq!(e.to_string(), "wrong segments count (line 3)");

    let mut r = GgrReader::new();
    r.read_line("GIMP Gradient").unwrap();
    r.read_line("Name:").unwrap();
    r.read_line("1").unwrap();
    assert_eq!(r.read_line("x").unwrap(), Step::Segment);
    assert_eq!(r.read_line("y").unwrap(), Step::End);
    assert_eq!(r.finish().unwrap(), "");

    let r = GgrReader::new();
    assert_eq!(r.finish().unwrap_err().to_string(), "no segment (line 4)");

    let mut r = GgrReader::new();
    assert!(r.read_line("GIMP Gradient ").is_err());
    assert!(r.read_line(" GIMP Gradient").is_err());
    r.read_line("GIMP Gradient").unwrap();
    assert!(r.read_line("name: x").is_err());
    assert!(r.read_line(" Name: x").is_err());
    r.read_line("Name: x").unwrap();
    assert!(r.read_line("").is_err());
    assert!(r.read_line("-1").is_err());
    assert!(r.read_line("99999999999999999999999999").is_err());
    assert_eq!(r.read_line("12345678901234567890123").is_err(), true);
}

#[test]
fn codes_name_the_kinds() {
    assert_eq!(blending_type(0), Some(BlendingType::Linear));
    assert_eq!(blending_type(1), Some(BlendingType::Curved));
    assert_eq!(blending_type(2), Some(BlendingType::Sinusoidal));
    assert_eq!(blending_type(3), Some(BlendingType::SphericalIncreasing));
    assert_eq!(blending_type(4), Some(BlendingType::SphericalDecreasing));
    assert_eq!(blending_type(5), Some(BlendingType::Step));
    assert_eq!(blending_type(6), None);
    assert_eq!(blending_type(-1), None);
    assert_eq!(coloring_type(0), Some(ColoringType::Rgb));
    assert_eq!(coloring_type(1), Some(ColoringType::HsvCcw));
    assert_eq!(coloring_type(2), Some(ColoringType::HsvCw));
    assert_eq!(coloring_type(3), None);
    assert_eq!(color_source(0), Some(ColorSource::Given));
    assert_eq!(color_source(1), Some(ColorSource::Foreground));
    assert_eq!(color_source(2), Some(ColorSource::ForegroundTransparent));
    assert_eq!(color_source(3), Some(ColorSource::Background));
    assert_eq!(color_source(4), Some(ColorSource::BackgroundTransparent));
    assert_eq!(color_source(5), None);
    assert!(segment_kind(12, 0, 0, 0, 0).is_none());
    assert!(segment_kind(14, 0, 0, 0, 0).is_none());
    let k = segment_kind(13, 5, 2, 9, 9).unwrap();
    assert_eq!(
        (k.blending_type, k.coloring_type, k.left, k.right),
        (BlendingType::Step, ColoringType::HsvCw, ColorSource::Given, ColorSource::Given)
    );
    assert!(segment_kind(15, 5, 2, 9, 0).is_none());
    let k = segment_kind(15, 0, 0, 4, 1).unwrap();
    assert_eq!(
        (k.left, k.right),
        (ColorSource::BackgroundTransparent, ColorSource::Foreground)
    );
}

#[test]
fn find_locates_the_segment() {
    let c = channels([0.0, 0.0, 0.0, 1.0]);
    let seg = |l: f32, r: f32| GimpSegment {
        lcolor: c,
        rcolor: c,
        lpos: s(l),
        mpos: s((l + r) / 2.0),
        rpos: s(r),
        blending_type: BlendingType::Linear,
        coloring_type: ColoringType::Rgb,
    };
    assert!(GimpGradient::new("none".to_string(), Vec::new()).is_err());
    let bounds = [0.0, 0.1, 0.25, 0.5, 0.75, 0.9, 1.0];
    let segs: Vec<GimpSegment> = bounds.windows(2).map(|w| seg(w[0], w[1])).collect();
    let g = GimpGradient::new("six".to_string(), segs).unwrap();
    assert_eq!(g.clone().name(), "six");
    assert_eq!(g.find(s(-0.1)), Place::Before);
    assert_eq!(g.find(s(1.1)), Place::Behind);
    assert_eq!(g.find(s(f32::NAN)), Place::Undefined);
    for k in 0..=1000 {
        let t = k as f32 / 1000.0;
        let Place::Within(i) = g.find(s(t)) else {
            panic!("{t} is in the domain");
        };
        assert!(bounds[i] <= t && t <= bounds[i + 1], "{t} in {i}");
    }
    assert_eq!(g.find(s(0.05)), Place::Within(0));
    assert_eq!(g.find(s(0.3)), Place::Within(2));
    assert_eq!(g.find(s(0.95)), Place::Within(5));
}

#[test]
fn outside_the_domain_the_end_colors_stand() {
    let seg = |l: f32, r: f32, lc: [f32; 4], rc: [f32; 4], coloring_type| GimpSegment {
        lcolor: channels(lc),
        rcolor: channels(rc),
        lpos: s(l),
        mpos: s((l + r) / 2.0),
        rpos: s(r),
        blending_type: BlendingType::Linear,
        coloring_type,
    };
    let g = GimpGradient::new(
        "two".to_string(),
        vec![
            seg(0.0, 0.5, [120.0, 1.0, 1.0, 1.0], [0.0, 0.0, 0.0, 1.0], ColoringType::HsvCw),
            seg(0.5, 1.0, [0.0, 0.0, 0.0, 1.0], [0.2, 0.4, 0.6, 0.8], ColoringType::Rgb),
        ],
    )
    .unwrap();
    assert_eq!(
        g.at(s(-1.0)),
        GimpSample::Color {
            channels: channels([120.0, 1.0, 1.0, 1.0]),
            coloring_type: ColoringType::HsvCw
        }
    );
    assert_eq!(
        g.at(s(2.0)),
        GimpSample::Color {
            channels: channels([0.2, 0.4, 0.6, 0.8]),
            coloring_type: ColoringType::Rgb
        }
    );
    assert_eq!(
        g.at(s(f32::NAN)),
        GimpSample::Color {
            channels: Rgba::black(),
            coloring_type: ColoringType::Rgb
        }
    );
    assert_eq!(g.at(s(0.0)), GimpSample::Within(0));
    assert_eq!(g.at(s(0.75)), GimpSample::Within(1));
    assert_eq!(g.at(s(1.0)), GimpSample::Within(1));
    assert_eq!(at(&g, -1.0).to_rgba8(), [0, 255, 0, 255]);
    assert_eq!(at(&g, 2.0).to_rgba8(), [51, 102, 153, 204]);
}
