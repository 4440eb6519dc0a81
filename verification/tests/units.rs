use roadline::grid_algebra::LaneId;
use roadline::reified::{
    DownLane, DownLanePadding, DownLaneRange, DownStretch, DownStretchRange, JointUnit, ReifiedConfig, ReifiedUnit,
    Trim,
};
use roadline::stretch::{Stretch, StretchRange, StretchUnit};
use roadline::time::{Date, Duration};

#[test]
fn unit_lengths_in_seconds() {
    assert_eq!(StretchUnit::Hours.seconds(), 3600);
    assert_eq!(StretchUnit::Days.seconds(), 86_400);
    assert_eq!(StretchUnit::Weeks.seconds(), 604_800);
    assert_eq!(StretchUnit::Months.seconds(), 2_629_746);
    assert_eq!(StretchUnit::Years.seconds(), 31_556_952);
    assert_eq!(StretchUnit::BiYears.seconds(), 63_113_904);
}

#[test]
fn canonical_unit_is_one_below_the_largest_that_fits() {
    // The average of 30, 15 and 10 days fits two weeks; one below is weeks.
    assert_eq!(StretchUnit::canonical_from_average_seconds(55 * 86_400 / 3), StretchUnit::Weeks);
    assert_eq!(StretchUnit::canonical_from_average_seconds(0), StretchUnit::Hours);
    assert_eq!(StretchUnit::canonical_from_average_seconds(u64::MAX), StretchUnit::Years);
}

#[test]
fn closest_unit_prefers_the_smaller_on_ties() {
    assert_eq!(StretchUnit::from_average_seconds(86_400), StretchUnit::Days);
    assert_eq!(StretchUnit::from_average_seconds(10 * 86_400), StretchUnit::Weeks);
    assert_eq!(StretchUnit::from_average_seconds((604_800 + 1_209_600) / 2), StretchUnit::Weeks);
    assert_eq!(StretchUnit::from_average_seconds(0), StretchUnit::Hours);
    assert_eq!(StretchUnit::from_average_seconds(44_999), StretchUnit::Hours);
    assert_eq!(StretchUnit::from_average_seconds(45_000), StretchUnit::Hours);
    assert_eq!(StretchUnit::from_average_seconds(45_001), StretchUnit::Days);
}

#[test]
fn stepping_down_units() {
    assert_eq!(StretchUnit::Weeks.down_to_next_unit(), StretchUnit::Days);
    assert_eq!(StretchUnit::Hours.down_to_next_unit(), StretchUnit::Hours);
    assert_eq!(StretchUnit::Years.down(3), StretchUnit::BiMonths);
}

#[test]
fn stretch_ranges() {
    let a = StretchRange::new(2, 5);
    let b = StretchRange::new(5, 7);
    assert_eq!(a.duration(), 3);
    assert!(a.contains(4));
    assert!(!a.contains(5));
    assert!(!a.overlaps(&b));
    assert!(a.overlaps(&StretchRange::new(4, 6)));
    assert_eq!(a.seconds(StretchUnit::Days), (2 * 86_400, 5 * 86_400));
}

#[test]
fn stretch_seconds_and_scaling() {
    let s = Stretch::new(StretchRange::new(1, 3), StretchUnit::Weeks);
    assert_eq!(s.start(), 1);
    assert_eq!(s.end(), 3);
    assert_eq!(s.duration(), 2);
    assert_eq!(s.seconds(), (604_800, 3 * 604_800));
}

#[test]
fn down_stretch_from_a_stretch() {
    // Weeks 1..3 are days 7..21; the trim of 2 shortens the end.
    let s = Stretch::new(StretchRange::new(1, 3), StretchUnit::Weeks);
    let d = DownStretch::canonical_from_stretch(s, Trim::new(ReifiedUnit::new(2)));
    assert_eq!(d.down_stretch().start().value(), 7);
    assert_eq!(d.down_stretch().end().value(), 19);
    assert_eq!(d.incoming_connection_point().value(), 7);
    assert_eq!(d.outgoing_connection_point().value(), 19);
    assert_eq!(d.width().value(), 12);
}

#[test]
fn down_lane_from_a_lane() {
    // The pitch is two units and the padding.
    let lane = DownLane::canonical_from_lane(LaneId::new(3), DownLanePadding::new(ReifiedUnit::new(2)));
    assert_eq!(lane.range().start().value(), 12);
    assert_eq!(lane.range().end().value(), 16);
    assert_eq!(lane.midpoint().value(), 14);
    assert_eq!(lane.height().value(), 4);
}

#[test]
fn unit_wrappers_hand_back_their_values() {
    assert_eq!(ReifiedUnit::new(9).value(), 9);
    assert_eq!(Trim::new(ReifiedUnit::new(4)).value().value(), 4);
    assert_eq!(DownLanePadding::new(ReifiedUnit::new(3)).value().value(), 3);
    assert_eq!(JointUnit::new(ReifiedUnit::new(8)).value().value(), 8);
    let r = DownStretchRange::new(ReifiedUnit::new(1), ReifiedUnit::new(6));
    assert_eq!((r.start().value(), r.end().value()), (1, 6));
    let l = DownLaneRange::new(ReifiedUnit::new(2), ReifiedUnit::new(4));
    assert_eq!((l.start().value(), l.end().value()), (2, 4));
}

#[test]
fn default_spacing() {
    let config = ReifiedConfig::default_config();
    assert_eq!(config.connection_trim.value().value(), 10);
    assert_eq!(config.inter_lane_padding.value().value(), 2);
}

#[test]
fn dates_add_durations() {
    let d = Date::new(100, 0);
    assert_eq!(d.checked_add(Duration::from_days(1)).unwrap().timestamp(), 86_500);
    assert!(Date::new(i64::MAX, 0).checked_add(Duration::from_secs(1)).is_none());
    assert!(Date::new(200, 0).is_after(&d));
    assert!(!d.is_after(&d));
    assert_eq!(Date::start_of_epoch().timestamp(), 0);
}
