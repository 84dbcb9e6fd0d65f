use colorgrad::linearize::{
    sort_positions, Candidate, Interval, Subdivider, Thinner, MAX_DEPTH, SEED_COUNT,
};
use colorgrad::scalar::Scalar;

fn s(x: f32) -> Scalar {
    Scalar::from_bits(x.to_bits())
}

fn f(x: Scalar) -> f32 {
    f32::from_bits(x.to_bits())
}

fn scalars(v: &[f32]) -> Vec<Scalar> {
    v.iter().map(|x| s(*x)).collect()
}

fn floats(v: &[Scalar]) -> Vec<f32> {
    v.iter().map(|x| f(*x)).collect()
}

fn linspace(min: f32, max: f32, n: usize) -> Vec<f32> {
    let d = max - min;
    let l = n as f32 - 1.0;
    (0..n)
        .map(|i| if n == 1 { min } else { min + (i as f32 * d) / l })
        .collect()
}

// A curve with one channel, and how far the midpoint of a chord is off it.
fn curve(t: f32) -> f32 {
    t * t * t
}

fn bent(lo: f32, hi: f32, thresh_sq: f32) -> bool {
    let mid = (lo + hi) / 2.0;
    let chord = curve(lo) + 0.5 * (curve(hi) - curve(lo));
    (curve(mid) - chord).powi(2) > thresh_sq
}

fn subdivide(lo: f32, hi: f32, depth: u32, thresh_sq: f32, out: &mut Vec<f32>) {
    if depth >= 7 {
        return;
    }
    let mid = (lo + hi) / 2.0;
    if bent(lo, hi, thresh_sq) {
        subdivide(lo, mid, depth + 1, thresh_sq, out);
        out.push(mid);
        subdivide(mid, hi, depth + 1, thresh_sq, out);
    }
}

fn recursive(seeds: &[f32], thresh_sq: f32) -> Vec<f32> {
    let mut out = Vec::new();
    for i in 0..seeds.len() - 1 {
        out.push(seeds[i]);
        subdivide(seeds[i], seeds[i + 1], 0, thresh_sq, &mut out);
    }
    out.push(seeds[seeds.len() - 1]);
    out
}

fn walked(seeds: &[f32], thresh_sq: f32) -> (Vec<f32>, usize) {
    let mut sub = Subdivider::new(&scalars(seeds));
    let mut rounds = 0;
    while let Some(iv) = sub.next() {
        rounds += 1;
        let (lo, hi) = (f(iv.lo), f(iv.hi));
        if bent(lo, hi, thresh_sq) {
            sub.split(iv, s((lo + hi) / 2.0));
        }
    }
    (floats(&sub.finish()), rounds)
}

#[test]
fn constants() {
    assert_eq!(MAX_DEPTH, 7);
    assert_eq!(SEED_COUNT, 17);
}

#[test]
fn subdivider_walks_as_the_recursion_does() {
    let seeds = linspace(0.0, 4.0, SEED_COUNT);
    for thresh in [1e-2f32, 1e-4, 1e-6, 1e-9, 0.0] {
        let (got, _) = walked(&seeds, thresh * thresh);
        assert_eq!(got, recursive(&seeds, thresh * thresh), "{thresh}");
        assert!(got.windows(2).all(|w| w[0] <= w[1]));
    }
    let (got, rounds) = walked(&seeds, 1e9);
    assert_eq!(got, seeds);
    assert_eq!(rounds, 16);
}

#[test]
fn subdivider_stops_at_the_greatest_depth() {
    // every interval is found bent
    let seeds = [0.0f32, 1.0];
    let mut sub = Subdivider::new(&scalars(&seeds));
    let mut rounds = 0;
    let mut deepest = 0;
    while let Some(iv) = sub.next() {
        rounds += 1;
        deepest = deepest.max(iv.depth);
        assert!(iv.depth < MAX_DEPTH);
        sub.split(iv, s((f(iv.lo) + f(iv.hi)) / 2.0));
    }
    assert_eq!(deepest, 6);
    assert_eq!(rounds, 127);
    let got = floats(&sub.finish());
    assert_eq!(got.len(), 129);
    assert_eq!(got, linspace(0.0, 1.0, 129));
}

#[test]
fn subdivider_edge_cases() {
    let mut sub = Subdivider::new(&[]);
    assert_eq!(sub.next(), None);
    assert_eq!(sub.finish().len(), 0);
    let mut sub = Subdivider::new(&scalars(&[3.0]));
    assert_eq!(sub.next(), None);
    assert_eq!(floats(&sub.finish()), [3.0]);
    let mut sub = Subdivider::new(&scalars(&[1.0, 2.0, 4.0]));
    assert_eq!(
        sub.next(),
        Some(Interval { lo: s(1.0), hi: s(2.0), depth: 0 })
    );
    // an interval at the greatest depth is not halved
    sub.split(Interval { lo: s(1.0), hi: s(2.0), depth: 7 }, s(1.5));
    assert_eq!(
        sub.next(),
        Some(Interval { lo: s(2.0), hi: s(4.0), depth: 0 })
    );
    sub.split(Interval { lo: s(2.0), hi: s(4.0), depth: 0 }, s(3.0));
    assert_eq!(
        sub.next(),
        Some(Interval { lo: s(2.0), hi: s(3.0), depth: 1 })
    );
    assert_eq!(
        sub.next(),
        Some(Interval { lo: s(3.0), hi: s(4.0), depth: 1 })
    );
    assert_eq!(sub.next(), None);
    assert_eq!(floats(&sub.finish()), [1.0, 2.0, 3.0, 4.0]);
}

#[test]
fn sort_orders_by_the_numbers() {
    let v = [3.0, -1.0, 0.0, 2.5, -0.0, f32::INFINITY, -7.0, 2.5, f32::NEG_INFINITY, 1e-40];
    let got = floats(&sort_positions(&scalars(&v)));
    let mut expected = v.to_vec();
    expected.sort_by(|a, b| a.partial_cmp(b).unwrap());
    assert_eq!(got, expected);
    let got = floats(&sort_positions(&scalars(&[0.0, -0.0, 0.0])));
    assert_eq!(got, [0.0, 0.0, 0.0]);
    assert_eq!(sort_positions(&Vec::new()).len(), 0);
}

fn thin(source: &[f32], keep_last: bool, judge: impl Fn(Candidate) -> bool) -> Vec<f32> {
    let mut t = Thinner::new(scalars(source), keep_last);
    while let Some(c) = t.candidate() {
        t.decide(judge(c));
    }
    floats(&t.finish())
}

fn dedup(source: &[f32]) -> Vec<f32> {
    thin(source, false, |c| !((f(c.curr) - f(c.prev)).abs() < 1e-6))
}

#[test]
fn thinner_removes_near_duplicates_as_dedup_does() {
    let cases: [&[f32]; 6] = [
        &[],
        &[1.0],
        &[1.0, 1.0],
        &[0.0, 1e-7, 2e-7, 1.0, 1.0 + 1e-7, 2.0],
        &[0.0, 0.5, 0.5, 0.5, 1.0],
        &[0.0, 5e-7, 1e-6, 1.5e-6, 2.0e-6],
    ];
    for source in cases {
        let mut expected = source.to_vec();
        expected.dedup_by(|a, b| (*a - *b).abs() < 1e-6);
        assert_eq!(dedup(source), expected, "{source:?}");
    }
}

fn prune(pos: &[f32], thresh_sq: f32) -> Vec<f32> {
    thin(pos, true, |c| {
        let (prev, curr, next) = (f(c.prev), f(c.curr), f(c.next.unwrap()));
        let lerp = (curr - prev) / (next - prev);
        let predicted = curve(prev) + lerp * (curve(next) - curve(prev));
        (curve(curr) - predicted).powi(2) > thresh_sq
    })
}

fn remove_unnecessary(pos: &[f32], thresh_sq: f32) -> Vec<f32> {
    if pos.len() <= 2 {
        return pos.to_vec();
    }
    let mut out = vec![pos[0]];
    let mut last_idx = 0;
    for i in 1..pos.len() - 1 {
        let t_prev = pos[last_idx];
        let t_next = pos[i + 1];
        let t_curr = pos[i];
        let lerp = (t_curr - t_prev) / (t_next - t_prev);
        let predicted = curve(t_prev) + lerp * (curve(t_next) - curve(t_prev));
        if (curve(t_curr) - predicted).powi(2) > thresh_sq {
            out.push(t_curr);
            last_idx = i;
        }
    }
    out.push(*pos.last().unwrap());
    out
}

#[test]
fn thinner_prunes_as_the_loop_does() {
    let seeds = linspace(0.0, 4.0, SEED_COUNT);
    let (positions, _) = walked(&seeds, 1e-8);
    for thresh_sq in [1e-12f32, 1e-6, 1e-3, 1.0, 1e9] {
        assert_eq!(
            prune(&positions, thresh_sq),
            remove_unnecessary(&positions, thresh_sq),
            "{thresh_sq}"
        );
    }
    for short in [&[][..], &[1.0][..], &[1.0, 2.0][..], &[1.0, 2.0, 3.0][..]] {
        assert_eq!(prune(short, 1e9), remove_unnecessary(short, 1e9));
        assert_eq!(prune(short, 0.0), remove_unnecessary(short, 0.0));
    }
}

#[test]
fn thinner_hands_out_the_neighbors() {
    let mut t = Thinner::new(scalars(&[1.0, 2.0, 3.0, 4.0]), true);
    assert_eq!(
        t.candidate(),
        Some(Candidate { prev: s(1.0), curr: s(2.0), next: Some(s(3.0)) })
    );
    t.decide(false);
    assert_eq!(
        t.candidate(),
        Some(Candidate { prev: s(1.0), curr: s(3.0), next: Some(s(4.0)) })
    );
    t.decide(true);
    assert_eq!(t.candidate(), None);
    t.decide(true);
    assert_eq!(floats(&t.finish()), [1.0, 3.0, 4.0]);

    let mut t = Thinner::new(scalars(&[1.0, 2.0]), false);
    assert_eq!(
        t.candidate(),
        Some(Candidate { prev: s(1.0), curr: s(2.0), next: None })
    );
    // what is not judged is dropped
    assert_eq!(floats(&t.finish()), [1.0]);
}
