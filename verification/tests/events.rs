use gtfs_events::events::{arrivals_in_order, day_roster, Event, ScheduleError};
use gtfs_events::feed::{gtfs_load, Feed, FeedFiles};
use gtfs_events::model::{Date, Weekday};
use gtfs_events::replay::{replay, simulate_events};

fn files(trips: &str, stop_times: &str) -> FeedFiles {
    FeedFiles {
        agency: Some(String::from(
            "agency_id,agency_name,agency_url,agency_timezone\nA1,Metro,http://m,UTC\nA2,Bus,http://b,UTC\n",
        )),
        stops: Some(String::from(
            "stop_id,stop_name,stop_lat,stop_lon\nS1,First,1,1\nS2,Second,2,2\nS3,Third,3,3\n",
        )),
        routes: Some(String::from(
            "route_id,agency_id,route_short_name,route_long_name,route_type\nR1,A1,1,One,3\nR2,A2,2,Two,3\n",
        )),
        trips: Some(String::from(trips)),
        stop_times: Some(String::from(stop_times)),
        calendar: Some(String::from(
            "service_id,monday,tuesday,wednesday,thursday,friday,saturday,sunday,start_date,end_date\n\
             WK,1,1,1,1,1,0,0,20240101,20241231\nSUN,0,0,0,0,0,0,1,20240101,20241231\n",
        )),
        calendar_dates: Some(String::from("service_id,date,exception_type\nWK,20240102,2\n")),
    }
}

fn load(files: &FeedFiles) -> Feed {
    match gtfs_load(files) {
        Ok(feed) => feed,
        Err(e) => panic!("the feed does not load: {:?}", e),
    }
}

fn two_trips() -> Feed {
    load(&files(
        "route_id,service_id,trip_id\nR1,WK,A\nR1,WK,B\n",
        "trip_id,arrival_time,departure_time,stop_id,stop_sequence\n\
         A,08:00:00,08:00:00,S1,1\nA,08:01:00,08:01:00,S2,2\nA,08:02:00,08:02:00,S3,3\n\
         B,08:01:00,08:01:00,S1,1\nB,08:02:00,08:02:00,S2,2\n",
    ))
}

fn monday() -> (Weekday, Date) {
    (Weekday::Monday, Date { year: 2024, month: 1, day: 1 })
}

fn told(feed: &Feed, agency: &str, day: Weekday, date: Date) -> Vec<Event> {
    match simulate_events(feed, agency, day, date) {
        Ok(events) => events,
        Err(e) => panic!("the day cannot be told: {:?}", e),
    }
}

fn start(feed: &Feed, time: u64, trip: &str) -> Event {
    match feed.find_trip(trip) {
        Some(t) => Event::StartTrip(time, t.clone()),
        None => panic!("no trip {}", trip),
    }
}

fn end(feed: &Feed, time: u64, trip: &str) -> Event {
    match feed.find_trip(trip) {
        Some(t) => Event::EndTrip(time, t.clone()),
        None => panic!("no trip {}", trip),
    }
}

fn arrival(feed: &Feed, time: u64, trip: &str, call: usize) -> Event {
    match (feed.find_trip(trip), feed.find_stop_times(trip)) {
        (Some(t), Some(calls)) => Event::StopArrival(time, t.clone(), calls[call].clone()),
        _ => panic!("no trip {}", trip),
    }
}

#[test]
fn two_trips_are_told_in_the_order_of_time() {
    let feed = two_trips();
    let (day, date) = monday();
    let events = told(&feed, "A1", day, date);
    let expected = vec![
        Event::StartEvents(1, 2),
        start(&feed, 28800, "A"),
        arrival(&feed, 28800, "A", 0),
        start(&feed, 28860, "B"),
        arrival(&feed, 28860, "A", 1),
        arrival(&feed, 28860, "B", 0),
        arrival(&feed, 28920, "A", 2),
        end(&feed, 28920, "A"),
        arrival(&feed, 28920, "B", 1),
        end(&feed, 28920, "B"),
        Event::EndEvents,
    ];
    assert_eq!(events, expected);
}

#[test]
fn the_arrivals_name_their_stops() {
    let feed = two_trips();
    let (day, date) = monday();
    let events = told(&feed, "A1", day, date);
    let stops: Vec<(u64, &str, &str)> = events
        .iter()
        .filter_map(|e| match e {
            Event::StopArrival(t, trip, call) => Some((*t, trip.id.as_str(), call.stop_id.as_str())),
            _ => None,
        })
        .collect();
    assert_eq!(
        stops,
        vec![
            (28800, "A", "S1"),
            (28860, "A", "S2"),
            (28860, "B", "S1"),
            (28920, "A", "S3"),
            (28920, "B", "S2"),
        ]
    );
}

#[test]
fn a_day_without_trips_opens_and_closes() {
    let feed = two_trips();
    let events = told(&feed, "A1", Weekday::Tuesday, Date { year: 2024, month: 1, day: 2 });
    assert_eq!(events, vec![Event::StartEvents(0, 0), Event::EndEvents]);
    let events = told(&feed, "A1", Weekday::Sunday, Date { year: 2024, month: 1, day: 7 });
    assert_eq!(events, vec![Event::StartEvents(1, 0), Event::EndEvents]);
    let (day, date) = monday();
    let events = told(&feed, "A2", day, date);
    assert_eq!(events, vec![Event::StartEvents(1, 0), Event::EndEvents]);
    let events = told(&feed, "nobody", day, date);
    assert_eq!(events, vec![Event::StartEvents(1, 0), Event::EndEvents]);
}

#[test]
fn trips_of_other_agencies_are_left_out() {
    let feed = load(&files(
        "route_id,service_id,trip_id\nR2,WK,X\nR1,WK,A\nR2,WK,Y\n",
        "trip_id,arrival_time,departure_time,stop_id,stop_sequence\n\
         X,07:00:00,07:00:00,S1,1\nA,08:00:00,08:00:00,S1,1\nY,08:00:00,08:00:00,S2,1\n",
    ));
    let (day, date) = monday();
    let events = told(&feed, "A1", day, date);
    assert_eq!(
        events,
        vec![
            Event::StartEvents(1, 1),
            start(&feed, 28800, "A"),
            arrival(&feed, 28800, "A", 0),
            end(&feed, 28800, "A"),
            Event::EndEvents,
        ]
    );
    let events = told(&feed, "A2", day, date);
    assert_eq!(
        events,
        vec![
            Event::StartEvents(1, 2),
            start(&feed, 25200, "X"),
            arrival(&feed, 25200, "X", 0),
            end(&feed, 25200, "X"),
            start(&feed, 28800, "Y"),
            arrival(&feed, 28800, "Y", 0),
            end(&feed, 28800, "Y"),
            Event::EndEvents,
        ]
    );
}

#[test]
fn trips_that_start_together_keep_the_order_of_the_feed() {
    let feed = load(&files(
        "route_id,service_id,trip_id\nR1,WK,L\nR1,WK,E\nR1,WK,M\nR1,WK,F\n",
        "trip_id,arrival_time,departure_time,stop_id,stop_sequence\n\
         L,09:00:00,09:00:00,S1,1\nL,09:00:00,09:00:00,S2,2\nL,09:10:00,09:10:00,S3,3\n\
         E,08:00:00,08:00:00,S1,1\nE,09:00:00,09:00:00,S2,2\n\
         M,09:00:00,09:00:00,S3,1\n\
         F,08:00:00,08:00:00,S2,1\nF,09:10:00,09:10:00,S3,2\n",
    ));
    let (day, date) = monday();
    let events = told(&feed, "A1", day, date);
    let expected = vec![
        Event::StartEvents(1, 4),
        start(&feed, 28800, "E"),
        start(&feed, 28800, "F"),
        arrival(&feed, 28800, "E", 0),
        arrival(&feed, 28800, "F", 0),
        start(&feed, 32400, "L"),
        start(&feed, 32400, "M"),
        arrival(&feed, 32400, "E", 1),
        end(&feed, 32400, "E"),
        arrival(&feed, 32400, "L", 0),
        arrival(&feed, 32400, "L", 1),
        arrival(&feed, 32400, "M", 0),
        end(&feed, 32400, "M"),
        arrival(&feed, 33000, "F", 1),
        end(&feed, 33000, "F"),
        arrival(&feed, 33000, "L", 2),
        end(&feed, 33000, "L"),
        Event::EndEvents,
    ];
    assert_eq!(events, expected);
}

#[test]
fn every_trip_starts_once_ends_once_and_makes_each_call_once() {
    let feed = load(&files(
        "route_id,service_id,trip_id\nR1,WK,L\nR1,WK,E\nR1,WK,M\nR1,WK,F\nR2,WK,O\n",
        "trip_id,arrival_time,departure_time,stop_id,stop_sequence\n\
         L,09:00:00,09:00:00,S1,1\nL,09:00:00,09:00:00,S2,2\nL,09:10:00,09:10:00,S3,3\n\
         E,08:00:00,08:00:00,S1,1\nE,09:00:00,09:00:00,S2,2\n\
         M,09:00:00,09:00:00,S3,1\n\
         F,08:00:00,08:00:00,S2,1\nF,09:10:00,09:10:00,S3,2\nO,01:00:00,01:00:00,S3,1\n",
    ));
    let (day, date) = monday();
    let events = told(&feed, "A1", day, date);
    assert_eq!(events.first(), Some(&Event::StartEvents(1, 4)));
    assert_eq!(events.last(), Some(&Event::EndEvents));
    for (trip, calls) in [("L", 3), ("E", 2), ("M", 1), ("F", 2), ("O", 0)] {
        let expected = if calls > 0 { 1 } else { 0 };
        let starts: Vec<u64> = events
            .iter()
            .filter_map(|e| match e {
                Event::StartTrip(t, x) if x.id == trip => Some(*t),
                _ => None,
            })
            .collect();
        let ends: Vec<u64> = events
            .iter()
            .filter_map(|e| match e {
                Event::EndTrip(t, x) if x.id == trip => Some(*t),
                _ => None,
            })
            .collect();
        let arrivals = events
            .iter()
            .filter(|e| matches!(e, Event::StopArrival(_, x, _) if x.id == trip))
            .count();
        assert_eq!(starts.len(), expected);
        assert_eq!(ends.len(), expected);
        assert_eq!(arrivals, calls);
        if calls > 0 {
            assert!(starts[0] <= ends[0]);
        }
    }
    let times: Vec<u64> = events
        .iter()
        .filter_map(|e| match e {
            Event::StartTrip(t, _) | Event::EndTrip(t, _) | Event::StopArrival(t, _, _) => Some(*t),
            _ => None,
        })
        .collect();
    assert!(times.windows(2).all(|w| w[0] <= w[1]));
}

#[test]
fn a_trip_whose_route_is_unknown_stops_the_day() {
    let feed = load(&files(
        "route_id,service_id,trip_id\nR1,WK,A\nR9,WK,B\n",
        "trip_id,arrival_time,departure_time,stop_id,stop_sequence\nA,08:00:00,08:00:00,S1,1\n",
    ));
    let (day, date) = monday();
    assert_eq!(simulate_events(&feed, "A1", day, date), Err(ScheduleError::UnknownRoute));
    assert_eq!(simulate_events(&feed, "A2", day, date), Err(ScheduleError::UnknownRoute));
    let sunday = Date { year: 2024, month: 1, day: 7 };
    assert_eq!(
        simulate_events(&feed, "A1", Weekday::Sunday, sunday),
        Ok(vec![Event::StartEvents(1, 0), Event::EndEvents])
    );
}

#[test]
fn a_trip_without_calls_stops_the_day() {
    let feed = load(&files(
        "route_id,service_id,trip_id\nR1,WK,A\nR1,WK,B\nR2,WK,C\n",
        "trip_id,arrival_time,departure_time,stop_id,stop_sequence\n\
         A,08:00:00,08:00:00,S1,1\nC,08:00:00,08:00:00,S1,1\n",
    ));
    let (day, date) = monday();
    assert_eq!(simulate_events(&feed, "A1", day, date), Err(ScheduleError::NoStopTimes));
    assert!(simulate_events(&feed, "A2", day, date).is_ok());
}

#[test]
fn calls_that_go_back_in_time_stop_the_day() {
    let feed = load(&files(
        "route_id,service_id,trip_id\nR1,WK,A\nR2,WK,C\n",
        "trip_id,arrival_time,departure_time,stop_id,stop_sequence\n\
         A,08:05:00,08:05:00,S1,1\nA,08:00:00,08:00:00,S2,2\nC,08:00:00,08:00:00,S1,1\n",
    ));
    let (day, date) = monday();
    assert_eq!(simulate_events(&feed, "A1", day, date), Err(ScheduleError::ArrivalsOutOfOrder));
    assert!(simulate_events(&feed, "A2", day, date).is_ok());
}

#[test]
fn a_missing_call_list_is_told_before_calls_out_of_order() {
    let feed = load(&files(
        "route_id,service_id,trip_id\nR1,WK,A\nR1,WK,B\n",
        "trip_id,arrival_time,departure_time,stop_id,stop_sequence\n\
         A,08:05:00,08:05:00,S1,1\nA,08:00:00,08:00:00,S2,2\n",
    ));
    let (day, date) = monday();
    assert_eq!(simulate_events(&feed, "A1", day, date), Err(ScheduleError::NoStopTimes));
}

#[test]
fn the_roster_is_in_the_order_of_first_arrivals() {
    let feed = load(&files(
        "route_id,service_id,trip_id\nR1,WK,L\nR1,WK,E\nR2,WK,O\nR1,SUN,S\n",
        "trip_id,arrival_time,departure_time,stop_id,stop_sequence\n\
         L,09:00:00,09:00:00,S1,1\nE,08:00:00,08:00:00,S1,1\nE,08:30:00,08:30:00,S2,2\n\
         O,07:00:00,07:00:00,S1,1\nS,06:00:00,06:00:00,S1,1\n",
    ));
    let (day, date) = monday();
    let (services, roster) = match day_roster(&feed, "A1", day, date) {
        Ok(r) => r,
        Err(e) => panic!("no roster: {:?}", e),
    };
    assert_eq!(services, 1);
    assert_eq!(roster.len(), 2);
    assert_eq!(roster[0].trip.id, "E");
    assert_eq!(roster[0].first_arrival, 28800);
    assert_eq!(roster[0].calls.len(), 2);
    assert_eq!(roster[1].trip.id, "L");
    assert_eq!(roster[1].first_arrival, 32400);
    let events = replay(services, &roster);
    assert_eq!(events, told(&feed, "A1", day, date));
    assert_eq!(events.len(), 9);
}

#[test]
fn arrival_times_are_checked_in_the_order_of_sequence() {
    let feed = two_trips();
    let calls = match feed.find_stop_times("A") {
        Some(calls) => calls,
        None => panic!("no calls"),
    };
    assert!(arrivals_in_order(calls));
    assert!(arrivals_in_order(&Vec::new()));
    let feed = load(&files(
        "route_id,service_id,trip_id\nR1,WK,A\n",
        "trip_id,arrival_time,departure_time,stop_id,stop_sequence\n\
         A,08:05:00,08:05:00,S1,1\nA,08:05:00,08:05:00,S2,2\nA,08:04:59,08:05:00,S2,3\n",
    ));
    let calls = match feed.find_stop_times("A") {
        Some(calls) => calls,
        None => panic!("no calls"),
    };
    assert!(!arrivals_in_order(calls));
}

#[test]
fn times_past_midnight_are_replayed_as_they_are_written() {
    let feed = load(&files(
        "route_id,service_id,trip_id\nR1,WK,N\nR1,WK,A\n",
        "trip_id,arrival_time,departure_time,stop_id,stop_sequence\n\
         N,23:59:59,23:59:59,S1,1\nN,25:00:00,25:00:00,S2,2\nA,08:00:00,08:00:00,S1,1\n",
    ));
    let (day, date) = monday();
    let events = told(&feed, "A1", day, date);
    assert_eq!(
        events,
        vec![
            Event::StartEvents(1, 2),
            start(&feed, 28800, "A"),
            arrival(&feed, 28800, "A", 0),
            end(&feed, 28800, "A"),
            start(&feed, 86399, "N"),
            arrival(&feed, 86399, "N", 0),
            arrival(&feed, 90000, "N", 1),
            end(&feed, 90000, "N"),
            Event::EndEvents,
        ]
    );
}

#[test]
fn faults_of_a_day_are_told_in_words() {
    assert_eq!(
        ScheduleError::UnknownRoute.message(),
        "a trip of the day names a route that the feed does not have"
    );
    assert_eq!(ScheduleError::NoStopTimes.message(), "a trip of the agency has no stop times");
    assert_eq!(
        ScheduleError::ArrivalsOutOfOrder.message(),
        "the stop times of a trip go back in time"
    );
}
