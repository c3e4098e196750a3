use gtfs_events::bounds::stops_bbox;
use gtfs_events::describe::{corners_format, point_format};
use gtfs_events::feed::{gtfs_load, Feed, FeedFiles};
use gtfs_events::model::{Date, Exception, Fixed, Point, Rectangle, Stop, Weekday, Weekdays};
use gtfs_events::query::last_exception;

fn files() -> FeedFiles {
    FeedFiles {
        agency: Some(String::from(
            "agency_id,agency_name,agency_url,agency_timezone\n\
             A1,Metro,http://m,UTC\nA2,Bus Co,http://b,UTC\nA3,Empty,http://e,UTC\n",
        )),
        stops: Some(String::from(
            "stop_id,stop_name,stop_lat,stop_lon\n\
             S1,First,51.5,-0.12\nS2,Second,51.6,0.1\nS3,Third,-33.9,151.2\nS4,Fourth,0,0\n",
        )),
        routes: Some(String::from(
            "route_id,agency_id,route_short_name,route_long_name,route_type\n\
             R1,A1,1,One,3\nR2,A2,2,Two,0\nR3,A1,3,Three,1\n",
        )),
        trips: Some(String::from(
            "route_id,service_id,trip_id\nR1,WK,A\nR1,WK,B\nR2,WK,C\nR3,SAT,D\nR1,XTRA,E\n",
        )),
        stop_times: Some(String::from(
            "trip_id,arrival_time,departure_time,stop_id,stop_sequence\n\
             A,08:00:00,08:00:00,S1,1\nA,08:01:00,08:01:00,S2,2\nA,08:02:00,08:02:00,S3,3\n\
             B,08:01:00,08:01:00,S1,1\nB,08:02:00,08:02:00,S2,2\n\
             C,09:00:00,09:00:00,S2,1\n\
             D,10:00:00,10:00:00,S4,1\nD,10:00:00,10:00:00,S1,2\n\
             E,07:00:00,07:00:00,S3,1\n",
        )),
        calendar: Some(String::from(
            "service_id,monday,tuesday,wednesday,thursday,friday,saturday,sunday,start_date,end_date\n\
             WK,1,1,1,1,1,0,0,20240101,20241231\nSAT,0,0,0,0,0,1,0,20240101,20241231\n",
        )),
        calendar_dates: Some(String::from(
            "service_id,date,exception_type\n\
             XTRA,20240101,1\nWK,20240102,2\nSAT,20240106,2\nSAT,20240106,1\n\
             Z,20240103,1\nZ,20240103,2\n",
        )),
    }
}

fn feed() -> Feed {
    match gtfs_load(&files()) {
        Ok(feed) => feed,
        Err(e) => panic!("the feed does not load: {:?}", e),
    }
}

fn date(year: u32, month: u32, day: u32) -> Date {
    Date { year, month, day }
}

fn ids(list: &[&str]) -> Vec<String> {
    list.iter().map(|s| String::from(*s)).collect()
}

#[test]
fn records_are_found_by_their_keys() {
    let feed = feed();
    assert_eq!(feed.find_agency("A2").map(|a| a.name.as_str()), Some("Bus Co"));
    assert_eq!(feed.find_agency("A9").map(|a| a.name.as_str()), None);
    assert_eq!(feed.find_stop("S3").map(|s| s.name.as_str()), Some("Third"));
    assert!(feed.find_stop("").is_none());
    assert_eq!(feed.find_route("R3").map(|r| r.long_name.as_str()), Some("Three"));
    assert!(feed.find_route("R4").is_none());
    assert_eq!(feed.find_trip("D").map(|t| t.service_id.as_str()), Some("SAT"));
    assert!(feed.find_trip("F").is_none());
    assert_eq!(feed.find_stop_times("A").map(|c| c.len()), Some(3));
    assert_eq!(feed.find_stop_times("E").map(|c| c[0].arrival_time), Some(25200));
    assert!(feed.find_stop_times("S1").is_none());
}

#[test]
fn lookups_answer_in_the_order_of_the_keys() {
    let feed = feed();
    let stops = feed.lookup_stops(&ids(&["S3", "S1", "S3"]));
    let names: Vec<&str> = stops.iter().map(|s| s.name.as_str()).collect();
    assert_eq!(names, vec!["Third", "First", "Third"]);
    let trips = feed.lookup_trips(&ids(&["E", "A"]));
    let routes: Vec<&str> = trips.iter().map(|t| t.id.as_str()).collect();
    assert_eq!(routes, vec!["E", "A"]);
    let routes = feed.lookup_routes(&ids(&["R2", "R1", "R3"]));
    let names: Vec<&str> = routes.iter().map(|r| r.long_name.as_str()).collect();
    assert_eq!(names, vec!["Two", "One", "Three"]);
    let calls = feed.lookup_stop_times(&ids(&["D", "C"]));
    let sizes: Vec<usize> = calls.iter().map(|c| c.len()).collect();
    assert_eq!(sizes, vec![2, 1]);
    assert_eq!(calls[0][1].stop_id, "S1");
    assert_eq!(feed.lookup_stops(&ids(&[])).len(), 0);
}

#[test]
fn routes_for_agency_keeps_the_order_of_the_feed() {
    let feed = feed();
    let routes: Vec<String> = feed.routes_for_agency("A1").iter().map(|r| r.id.clone()).collect();
    assert_eq!(routes, ids(&["R1", "R3"]));
    let routes: Vec<String> = feed.routes_for_agency("A2").iter().map(|r| r.id.clone()).collect();
    assert_eq!(routes, ids(&["R2"]));
    assert_eq!(feed.routes_for_agency("A3").len(), 0);
    assert_eq!(feed.routes_for_agency("nobody").len(), 0);
}

#[test]
fn stops_for_agency_names_each_stop_once() {
    let feed = feed();
    assert!(feed.trips_resolve());
    assert_eq!(feed.stops_for_agency("A1"), ids(&["S1", "S2", "S3", "S4"]));
    assert_eq!(feed.stops_for_agency("A2"), ids(&["S2"]));
    assert_eq!(feed.stops_for_agency("A3"), ids(&[]));
}

#[test]
fn references_that_dangle_are_found() {
    let feed = feed();
    assert!(feed.trips_resolve());
    assert!(feed.stops_resolve());
    let mut f = files();
    f.trips = Some(String::from("route_id,service_id,trip_id\nR1,WK,A\nR1,WK,B\nR2,WK,C\nR3,SAT,D\n"));
    let feed = match gtfs_load(&f) {
        Ok(feed) => feed,
        Err(e) => panic!("the feed does not load: {:?}", e),
    };
    assert!(!feed.trips_resolve());
    assert!(feed.stops_resolve());
    let mut f = files();
    f.routes = Some(String::from(
        "route_id,agency_id,route_short_name,route_long_name,route_type\nR1,A1,1,One,3\nR2,A2,2,Two,0\n",
    ));
    let feed = match gtfs_load(&f) {
        Ok(feed) => feed,
        Err(e) => panic!("the feed does not load: {:?}", e),
    };
    assert!(!feed.trips_resolve());
    let mut f = files();
    f.stops = Some(String::from("stop_id,stop_name,stop_lat,stop_lon\nS1,First,51.5,-0.12\n"));
    let feed = match gtfs_load(&f) {
        Ok(feed) => feed,
        Err(e) => panic!("the feed does not load: {:?}", e),
    };
    assert!(feed.trips_resolve());
    assert!(!feed.stops_resolve());
}

#[test]
fn the_services_of_a_day_are_those_of_its_weekday_and_its_exceptions() {
    let feed = feed();
    assert_eq!(feed.active_service_ids(Weekday::Monday, date(2024, 1, 1)), ids(&["WK", "XTRA"]));
    assert_eq!(feed.active_service_ids(Weekday::Monday, date(2024, 1, 8)), ids(&["WK"]));
    assert_eq!(feed.active_service_ids(Weekday::Sunday, date(2024, 1, 7)), ids(&[]));
    assert_eq!(feed.active_service_ids(Weekday::Saturday, date(2024, 1, 13)), ids(&["SAT"]));
}

#[test]
fn an_exception_that_removes_a_day_takes_the_service_out() {
    let feed = feed();
    let services = feed.active_service_ids(Weekday::Tuesday, date(2024, 1, 2));
    assert!(!services.contains(&String::from("WK")));
    assert_eq!(services, ids(&[]));
}

#[test]
fn a_removed_monday_does_not_run() {
    let f = FeedFiles {
        calendar: Some(String::from(
            "service_id,monday,tuesday,wednesday,thursday,friday,saturday,sunday,start_date,end_date\n\
             service_X,1,0,0,0,0,0,0,20240101,20241231\n",
        )),
        calendar_dates: Some(String::from("service_id,date,exception_type\nservice_X,20240101,2\n")),
        ..files()
    };
    let feed = match gtfs_load(&f) {
        Ok(feed) => feed,
        Err(e) => panic!("the feed does not load: {:?}", e),
    };
    let services = feed.active_service_ids(Weekday::Monday, date(2024, 1, 1));
    assert!(!services.contains(&String::from("service_X")));
    let services = feed.active_service_ids(Weekday::Monday, date(2024, 1, 8));
    assert!(services.contains(&String::from("service_X")));
}

#[test]
fn added_then_removed_on_one_day_cancels() {
    let feed = feed();
    let services = feed.active_service_ids(Weekday::Wednesday, date(2024, 1, 3));
    assert!(!services.contains(&String::from("Z")));
    assert_eq!(services, ids(&["WK"]));
}

#[test]
fn removed_then_added_on_one_day_runs() {
    let feed = feed();
    assert_eq!(feed.active_service_ids(Weekday::Saturday, date(2024, 1, 6)), ids(&["SAT"]));
    assert_eq!(feed.active_service_ids(Weekday::Friday, date(2024, 1, 6)), ids(&["WK", "SAT"]));
}

#[test]
fn the_first_and_last_dates_of_a_pattern_are_not_consulted() {
    let feed = feed();
    assert_eq!(feed.active_service_ids(Weekday::Monday, date(2030, 6, 3)), ids(&["WK"]));
    assert_eq!(feed.active_service_ids(Weekday::Monday, date(1999, 1, 4)), ids(&["WK"]));
}

#[test]
fn an_exception_written_twice_changes_nothing() {
    let once = feed();
    let mut f = files();
    f.calendar_dates = Some(String::from(
        "service_id,date,exception_type\n\
         XTRA,20240101,1\nXTRA,20240101,1\nWK,20240102,2\nWK,20240102,2\nSAT,20240106,2\n\
         SAT,20240106,1\nSAT,20240106,1\nZ,20240103,1\nZ,20240103,2\nZ,20240103,2\n",
    ));
    let twice = match gtfs_load(&f) {
        Ok(feed) => feed,
        Err(e) => panic!("the feed does not load: {:?}", e),
    };
    let days = [
        (Weekday::Monday, date(2024, 1, 1)),
        (Weekday::Tuesday, date(2024, 1, 2)),
        (Weekday::Wednesday, date(2024, 1, 3)),
        (Weekday::Saturday, date(2024, 1, 6)),
        (Weekday::Sunday, date(2024, 1, 7)),
    ];
    for (day, date) in days {
        assert_eq!(once.active_service_ids(day, date), twice.active_service_ids(day, date));
    }
}

#[test]
fn the_last_exception_of_a_day_decides() {
    let feed = feed();
    let groups = feed.calendar_dates();
    assert_eq!(groups[2].key, "SAT");
    assert_eq!(last_exception(&groups[2].items, date(2024, 1, 6)), Some(Exception::Added));
    assert_eq!(last_exception(&groups[2].items, date(2024, 1, 7)), None);
    assert_eq!(groups[3].key, "Z");
    assert_eq!(last_exception(&groups[3].items, date(2024, 1, 3)), Some(Exception::Removed));
    assert_eq!(last_exception(&Vec::new(), date(2024, 1, 3)), None);
}

#[test]
fn weekdays_are_told_apart() {
    let days = Weekdays {
        monday: true,
        tuesday: false,
        wednesday: true,
        thursday: false,
        friday: true,
        saturday: false,
        sunday: true,
    };
    assert!(days.contains(Weekday::Monday));
    assert!(!days.contains(Weekday::Tuesday));
    assert!(days.contains(Weekday::Wednesday));
    assert!(!days.contains(Weekday::Thursday));
    assert!(days.contains(Weekday::Friday));
    assert!(!days.contains(Weekday::Saturday));
    assert!(days.contains(Weekday::Sunday));
}

#[test]
fn trips_are_found_by_their_services() {
    let feed = feed();
    assert_eq!(feed.trip_ids_for_service_ids(&ids(&["WK", "XTRA"])), ids(&["A", "B", "C", "E"]));
    assert_eq!(feed.trip_ids_for_service_ids(&ids(&["XTRA", "SAT"])), ids(&["D", "E"]));
    assert_eq!(feed.trip_ids_for_service_ids(&ids(&["SAT", "SAT"])), ids(&["D"]));
    assert_eq!(feed.trip_ids_for_service_ids(&ids(&[])), ids(&[]));
    assert_eq!(feed.trip_ids_for_service_ids(&ids(&["none"])), ids(&[]));
}

fn point(lat: i64, lon: i64) -> Point {
    Point { lat: Fixed { nano: lat }, lon: Fixed { nano: lon } }
}

#[test]
fn the_box_of_all_stops_holds_them() {
    let feed = feed();
    assert_eq!(
        feed.bbox(),
        Some(Rectangle {
            sw: point(-33_900_000_000, -120_000_000),
            ne: point(51_600_000_000, 151_200_000_000),
        })
    );
}

#[test]
fn the_box_of_no_stops_is_none() {
    assert_eq!(stops_bbox(&Vec::new()), None);
    let mut f = files();
    f.stops = Some(String::from("stop_id,stop_name,stop_lat,stop_lon\n"));
    let feed = match gtfs_load(&f) {
        Ok(feed) => feed,
        Err(e) => panic!("the feed does not load: {:?}", e),
    };
    assert_eq!(feed.bbox(), None);
}

#[test]
fn the_box_of_stops_does_not_depend_on_their_order() {
    let feed = feed();
    let stops: Vec<&Stop> = feed.lookup_stops(&ids(&["S1", "S2", "S4"]));
    let turned: Vec<&Stop> = feed.lookup_stops(&ids(&["S4", "S2", "S1"]));
    let mixed: Vec<&Stop> = feed.lookup_stops(&ids(&["S2", "S4", "S1"]));
    let expected =
        Some(Rectangle { sw: point(0, -120_000_000), ne: point(51_600_000_000, 100_000_000) });
    assert_eq!(stops_bbox(&stops), expected);
    assert_eq!(stops_bbox(&turned), expected);
    assert_eq!(stops_bbox(&mixed), expected);
    let one: Vec<&Stop> = feed.lookup_stops(&ids(&["S3"]));
    assert_eq!(
        stops_bbox(&one),
        Some(Rectangle {
            sw: point(-33_900_000_000, 151_200_000_000),
            ne: point(-33_900_000_000, 151_200_000_000),
        })
    );
}

#[test]
fn a_place_is_told_with_two_decimal_places() {
    assert_eq!(point_format(point(51_500_000_000, -120_000_000)), "51.50N 0.12W");
    assert_eq!(point_format(point(-33_900_000_000, 151_200_000_000)), "33.90S 151.20E");
    assert_eq!(point_format(point(0, 0)), "0.00N 0.00W");
    assert_eq!(point_format(point(-1, 1)), "0.00S 0.00E");
    assert_eq!(point_format(point(1_005_000_000, 1_004_999_999)), "1.01N 1.00E");
    assert_eq!(point_format(point(-9_999_000_000, 99_995_000_000)), "10.00S 100.00E");
    assert_eq!(point_format(point(i64::MIN, i64::MAX)), "9223372036.85S 9223372036.85E");
}

#[test]
fn the_corners_of_no_box_are_at_infinity() {
    assert_eq!(corners_format(None), "SW (infN infE) NE (infS infW)");
    assert_eq!(
        corners_format(Some(Rectangle { sw: point(-1_000_000_000, 0), ne: point(2_000_000_000, 10_000_000) })),
        "SW (1.00S 0.00W) NE (2.00N 0.01E)"
    );
}

#[test]
fn a_feed_is_told_in_words() {
    let feed = feed();
    assert!(feed.trips_resolve());
    assert!(feed.stops_resolve());
    assert_eq!(
        feed.describe(),
        "3 agencies, 4 stops, 3 routes, 5 trips, 5 stop_times, 2 calendars, 4 calendar_dates\n\
         agency id A1: Metro (2 routes, 4 stops) SW (33.90S 0.12W) NE (51.60N 151.20E)\n\
         agency id A2: Bus Co (1 routes, 1 stops) SW (51.60N 0.10E) NE (51.60N 0.10E)\n\
         agency id A3: Empty (0 routes, 0 stops) SW (infN infE) NE (infS infW)\n"
    );
}
