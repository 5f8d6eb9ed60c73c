use rdp2::{calc_rdp_mask, rdp, ChordDistance};

// A point whose distance from every chord is its own height.
#[derive(Debug, Clone, Copy, PartialEq)]
struct Height(u64);

impl ChordDistance for Height {
    // The name under which contracts speak of what `distance_to_chord` returns.
    fn distance_spec(&self, start: &Self, end: &Self) -> u64 {
        self.distance_to_chord(start, end)
    }

    fn distance_to_chord(&self, _start: &Self, _end: &Self) -> u64 {
        self.0
    }
}

fn heights(raw: &[u64]) -> Vec<Height> {
    raw.iter().map(|h| Height(*h)).collect()
}

// A point that is measured by a rule over the positions of the point and of
// the two ends of the chord, and that carries a label along.
#[derive(Debug, Clone, Copy, PartialEq)]
struct Probe {
    at: usize,
    label: char,
    rule: fn(usize, usize, usize) -> u64,
}

impl ChordDistance for Probe {
    fn distance_spec(&self, start: &Self, end: &Self) -> u64 {
        self.distance_to_chord(start, end)
    }

    fn distance_to_chord(&self, start: &Self, end: &Self) -> u64 {
        (self.rule)(self.at, start.at, end.at)
    }
}

fn probes(labels: &str, rule: fn(usize, usize, usize) -> u64) -> Vec<Probe> {
    labels.chars().enumerate().map(|(at, label)| Probe { at, label, rule }).collect()
}

fn labels(line: &[Probe]) -> String {
    line.iter().map(|p| p.label).collect()
}

// Points 1 and 2 lie equally far from the chord (0, 3); each lies on the
// chord that the other one would leave.
fn level_pair(at: usize, start: usize, end: usize) -> u64 {
    match (at, start, end) {
        (1, 0, 3) | (2, 0, 3) => 5,
        _ => 0,
    }
}

// The last interior point lies farthest from the whole line, and every chord
// that ends there has its first interior point farthest away.
fn staircase(at: usize, start: usize, end: usize) -> u64 {
    if start == 0 && end == 6 {
        at as u64
    } else if at == start + 1 {
        9
    } else {
        0
    }
}

#[test]
fn fewer_than_three_points_cannot_be_simplified() {
    for epsilon in [0, 1, 1000, u64::MAX] {
        assert_eq!(rdp(&heights(&[]), epsilon), None);
        assert_eq!(rdp(&heights(&[4]), epsilon), None);
        assert_eq!(rdp(&heights(&[4, 9]), epsilon), None);
    }
}

#[test]
fn three_points_are_the_shortest_line_that_is_simplified() {
    assert_eq!(rdp(&heights(&[4, 9, 2]), 8), Some(heights(&[4, 9, 2])));
    assert_eq!(rdp(&heights(&[4, 9, 2]), 9), Some(heights(&[4, 2])));
}

#[test]
fn both_endpoints_stay_whatever_the_tolerance() {
    let line = heights(&[50, 3, 0, 12, 7, 7, 1, 60]);
    for epsilon in [0, 1, 3, 7, 11, 12, 13, u64::MAX] {
        let kept = rdp(&line, epsilon).unwrap();
        assert!(kept.len() >= 2);
        assert_eq!(kept[0], Height(50));
        assert_eq!(kept[kept.len() - 1], Height(60));
    }
}

#[test]
fn mask_has_one_entry_per_point_and_spares_the_endpoints() {
    assert_eq!(calc_rdp_mask(&heights(&[]), 0), Vec::<bool>::new());
    assert_eq!(calc_rdp_mask(&heights(&[5]), 0), vec![false]);
    assert_eq!(calc_rdp_mask(&heights(&[5, 6]), 0), vec![false, false]);
    assert_eq!(calc_rdp_mask(&heights(&[5, 0, 6]), 0), vec![false, true, false]);
    assert_eq!(calc_rdp_mask(&heights(&[5, 1, 6]), 0), vec![false, false, false]);
    assert_eq!(
        calc_rdp_mask(&heights(&[9, 9, 9, 9]), u64::MAX),
        vec![false, true, true, false]
    );
}

#[test]
fn deviation_must_exceed_the_tolerance_to_keep_a_point() {
    let line = heights(&[0, 3, 7, 3, 0]);

    assert_eq!(rdp(&line, 2), Some(heights(&[0, 3, 7, 3, 0])));
    assert_eq!(calc_rdp_mask(&line, 2), vec![false, false, false, false, false]);
    assert_eq!(rdp(&line, 3), Some(heights(&[0, 7, 0])));
    assert_eq!(calc_rdp_mask(&line, 3), vec![false, true, false, true, false]);
    assert_eq!(rdp(&line, 6), Some(heights(&[0, 7, 0])));
    assert_eq!(rdp(&line, 7), Some(heights(&[0, 0])));
    assert_eq!(calc_rdp_mask(&line, 7), vec![false, true, true, true, false]);
}

#[test]
fn point_on_the_chord_is_never_the_split_point() {
    let line = heights(&[8, 0, 0, 0, 8]);

    assert_eq!(rdp(&line, 0), Some(heights(&[8, 8])));
}

#[test]
fn first_of_two_equal_deviations_splits_the_chord() {
    let line = probes("abcd", level_pair);

    let kept = rdp(&line, 4).unwrap();

    assert_eq!(labels(&kept), "abd");
    assert_eq!(calc_rdp_mask(&line, 4), vec![false, false, true, false]);
}

#[test]
fn chords_on_both_sides_of_a_split_are_resolved() {
    let line = probes("abcdefg", staircase);

    assert_eq!(labels(&rdp(&line, 4).unwrap()), "abcdefg");
    assert_eq!(labels(&rdp(&line, 5).unwrap()), "ag");
    assert_eq!(labels(&rdp(&line, 9).unwrap()), "ag");
}

#[test]
fn points_come_back_as_they_went_in() {
    let line = probes("abcd", level_pair);

    let kept = rdp(&line, 0).unwrap();

    assert_eq!(kept, vec![line[0], line[1], line[3]]);
}

#[test]
fn larger_tolerance_drops_what_a_smaller_one_dropped() {
    let line = heights(&[0, 4, 1, 9, 2, 2, 6, 0, 3, 0]);
    let mut previous = calc_rdp_mask(&line, 0);
    let mut size = rdp(&line, 0).unwrap().len();
    for epsilon in 1..11 {
        let mask = calc_rdp_mask(&line, epsilon);
        let kept = rdp(&line, epsilon).unwrap();
        assert!(kept.len() <= size);
        for i in 0..line.len() {
            assert!(!previous[i] || mask[i]);
        }
        previous = mask;
        size = kept.len();
    }
    assert_eq!(size, 2);
}

#[test]
fn mask_depends_on_the_deviations_alone() {
    let as_heights = heights(&[0, 5, 5, 0]);
    let as_probes = probes("abcd", |at, _, _| if at == 1 || at == 2 { 5 } else { 0 });

    for epsilon in [0, 4, 5, 6] {
        assert_eq!(calc_rdp_mask(&as_heights, epsilon), calc_rdp_mask(&as_probes, epsilon));
    }
}

#[test]
fn long_line_with_a_split_at_every_other_point() {
    let raw: Vec<u64> = (0..5001).map(|i| i % 2).collect();
    let line = heights(&raw);

    let mask = calc_rdp_mask(&line, 0);
    let kept = rdp(&line, 0).unwrap();

    assert_eq!(kept.len(), 2502);
    for i in 1..5000 {
        assert_eq!(mask[i], i % 2 == 0);
    }
}
