use bingo::fish::{Fish, School};
use bingo::fish_counts;
use bingo::sub::{Command, Sub};
use bingo::vents::{Point, Segment, VentMap, VentError};

#[test]
fn sub_runs_commands() {
    let commands = vec![
        Command::Forward(5),
        Command::Down(5),
        Command::Forward(8),
        Command::Up(3),
        Command::Down(8),
        Command::Forward(2),
    ];
    let mut sub = Sub::new();
    sub.run_commands(&commands);
    assert_eq!(sub.x, 15);
    assert_eq!(sub.depth, 10);
    assert_eq!(sub.x * sub.depth, 150);
}

#[test]
fn fish_counts_down_and_spawns() {
    let mut f = Fish { days_until_spawn: 2 };
    assert!(f.tick().is_none());
    assert_eq!(f.days_until_spawn, 1);
    assert!(f.tick().is_none());
    assert_eq!(f.days_until_spawn, 0);
    let baby = f.tick().expect("a fish at zero spawns");
    assert_eq!(f.days_until_spawn, 6);
    assert_eq!(baby.days_until_spawn, 9);
}

#[test]
fn school_grows_per_fish() {
    let fish: Vec<Fish> = vec![3i8, 4, 3, 1, 2]
        .into_iter()
        .map(|d| Fish { days_until_spawn: d })
        .collect();
    let mut school = School { fish };
    school.tick(18);
    assert_eq!(school.fish.len(), 26);
    school.tick(62);
    assert_eq!(school.fish.len(), 5934);
}

#[test]
fn school_counts_grow() {
    let mut counts = vec![0usize; 9];
    for d in [3usize, 4, 3, 1, 2] {
        counts[d] += 1;
    }
    let mut school = fish_counts::School { fish: counts };
    school.tick(18);
    let total: usize = school.fish.iter().sum();
    assert_eq!(total, 26);
    school.tick(62);
    let total80: usize = school.fish.iter().sum();
    assert_eq!(total80, 5934);
}

#[test]
fn slope_signs() {
    assert_eq!(Segment::_slope(3, 3), 0);
    assert_eq!(Segment::_slope(1, 5), 1);
    assert_eq!(Segment::_slope(5, 1), -1);
    let s = Segment(Point(0, 9), Point(5, 9));
    assert_eq!(s.slope(), (1, 0));
}

#[test]
fn coords_walks_segments() {
    let s = Segment(Point(1, 1), Point(3, 3));
    assert_eq!(
        s.coords(),
        Ok(vec![Point(1, 1), Point(2, 2), Point(3, 3)])
    );
    let h = Segment(Point(9, 7), Point(7, 7));
    assert_eq!(h.coords(), Ok(vec![Point(9, 7), Point(8, 7), Point(7, 7)]));
    let single = Segment(Point(2, 2), Point(2, 2));
    assert_eq!(single.coords(), Ok(vec![Point(2, 2)]));
    let crooked = Segment(Point(0, 0), Point(1, 2));
    assert_eq!(crooked.coords(), Err(VentError::Unreachable));
}

fn sample_vents() -> Vec<Segment> {
    vec![
        Segment(Point(0, 9), Point(5, 9)),
        Segment(Point(8, 0), Point(0, 8)),
        Segment(Point(9, 4), Point(3, 4)),
        Segment(Point(2, 2), Point(2, 1)),
        Segment(Point(7, 0), Point(7, 4)),
        Segment(Point(6, 4), Point(2, 0)),
        Segment(Point(0, 9), Point(2, 9)),
        Segment(Point(3, 4), Point(1, 4)),
        Segment(Point(0, 0), Point(8, 8)),
        Segment(Point(5, 5), Point(8, 2)),
    ]
}

#[test]
fn bounds_cover_all_segments() {
    let map = VentMap { vents: sample_vents() };
    let (lo, hi) = map.bounds();
    assert_eq!(lo, Point(0, 0));
    assert_eq!(hi, Point(9, 9));
}

#[test]
fn bounds_of_empty_map() {
    let map = VentMap { vents: Vec::new() };
    let (lo, hi) = map.bounds();
    assert_eq!(lo, Point(usize::MAX, usize::MAX));
    assert_eq!(hi, Point(0, 0));
}

#[test]
fn overlaps_count_crossings() {
    let map = VentMap { vents: sample_vents() };
    let overlapping = map.overlaps();
    assert_eq!(overlapping.len(), 5);
    for (_, count) in &overlapping {
        assert!(*count >= 2);
    }
    assert!(overlapping.iter().any(|(p, c)| *p == Point(3, 4) && *c == 2));
    assert!(overlapping.iter().any(|(p, c)| *p == Point(7, 4) && *c == 2));
}

#[test]
fn overlaps_of_parallel_lines() {
    let map = VentMap {
        vents: vec![
            Segment(Point(0, 0), Point(2, 0)),
            Segment(Point(1, 0), Point(3, 0)),
            Segment(Point(5, 5), Point(5, 5)),
        ],
    };
    let overlapping = map.overlaps();
    assert_eq!(overlapping.len(), 2);
    assert!(overlapping.iter().any(|(p, c)| *p == Point(1, 0) && *c == 2));
    assert!(overlapping.iter().any(|(p, c)| *p == Point(2, 0) && *c == 2));
}
