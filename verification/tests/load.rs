use gtfs_events::feed::{gtfs_load, load_tables, Feed, FeedFiles, Tables};
use gtfs_events::model::{
    Date, Direction, Exception, Fixed, LocationType, Marshal, Point, RouteType, Weekdays,
};
use gtfs_events::reader::{read_table, table_from};
use gtfs_events::schema::{bind_columns, find_column, names_column};
use gtfs_events::table::{Column, FileKind, LoadError};

fn files() -> FeedFiles {
    FeedFiles {
        agency: Some(String::from(
            "agency_id,agency_name,agency_url,agency_timezone\nA1,Metro,http://m,UTC\n",
        )),
        stops: Some(String::from(
            "stop_id,stop_name,stop_lat,stop_lon\nS1,First,51.5,-0.12\nS2,Second,51.6,0.1\n",
        )),
        routes: Some(String::from(
            "route_id,agency_id,route_short_name,route_long_name,route_type\nR1,A1,1,One,3\n",
        )),
        trips: Some(String::from("route_id,service_id,trip_id\nR1,WK,T1\n")),
        stop_times: Some(String::from(
            "trip_id,arrival_time,departure_time,stop_id,stop_sequence\n\
             T1,08:00:00,08:00:30,S1,1\nT1,08:05:00,08:05:30,S2,2\n",
        )),
        calendar: Some(String::from(
            "service_id,monday,tuesday,wednesday,thursday,friday,saturday,sunday,start_date,end_date\n\
             WK,1,1,1,1,1,0,0,20240101,20241231\n",
        )),
        calendar_dates: Some(String::from("service_id,date,exception_type\nWK,20240101,2\n")),
    }
}

fn load(files: &FeedFiles) -> Feed {
    match gtfs_load(files) {
        Ok(feed) => feed,
        Err(e) => panic!("the feed does not load: {:?}", e),
    }
}

fn fault(files: &FeedFiles) -> LoadError {
    match gtfs_load(files) {
        Ok(_) => panic!("the feed loads"),
        Err(e) => e,
    }
}

#[test]
fn a_feed_loads_every_file() {
    let feed = load(&files());
    assert_eq!(feed.agencies().len(), 1);
    assert_eq!(feed.stops().len(), 2);
    assert_eq!(feed.routes().len(), 1);
    assert_eq!(feed.trips().len(), 1);
    assert_eq!(feed.stop_times().len(), 1);
    assert_eq!(feed.calendars().len(), 1);
    assert_eq!(feed.calendar_dates().len(), 1);
    let agency = &feed.agencies()[0];
    assert_eq!(agency.id, "A1");
    assert_eq!(agency.name, "Metro");
    assert_eq!(agency.url, "http://m");
    assert_eq!(agency.timezone, "UTC");
    assert_eq!(agency.lang, None);
    let stop = &feed.stops()[0];
    assert_eq!(stop.id, "S1");
    assert_eq!(stop.name, "First");
    assert_eq!(
        stop.pt,
        Point { lat: Fixed { nano: 51_500_000_000 }, lon: Fixed { nano: -120_000_000 } }
    );
    assert_eq!(stop.location_type, None);
    let route = &feed.routes()[0];
    assert_eq!(route.id, "R1");
    assert_eq!(route.agency_id, "A1");
    assert_eq!(route.short_name, "1");
    assert_eq!(route.long_name, "One");
    assert_eq!(route.route_type, RouteType::Bus);
    let trip = &feed.trips()[0];
    assert_eq!(trip.id, "T1");
    assert_eq!(trip.route_id, "R1");
    assert_eq!(trip.service_id, "WK");
    assert_eq!(trip.direction, None);
    let calls = &feed.stop_times()[0];
    assert_eq!(calls.key, "T1");
    assert_eq!(calls.items.len(), 2);
    assert_eq!(calls.items[0].arrival_time, 28800);
    assert_eq!(calls.items[0].departure_time, 28830);
    assert_eq!(calls.items[0].stop_id, "S1");
    assert_eq!(calls.items[0].sequence, 1);
    assert_eq!(calls.items[1].arrival_time, 29100);
    let calendar = &feed.calendars()[0];
    assert_eq!(calendar.service_id, "WK");
    assert_eq!(
        calendar.weekdays,
        Weekdays {
            monday: true,
            tuesday: true,
            wednesday: true,
            thursday: true,
            friday: true,
            saturday: false,
            sunday: false,
        }
    );
    assert_eq!(calendar.start_date, Date { year: 2024, month: 1, day: 1 });
    assert_eq!(calendar.end_date, Date { year: 2024, month: 12, day: 31 });
    let dates = &feed.calendar_dates()[0];
    assert_eq!(dates.key, "WK");
    assert_eq!(dates.items[0].date, Date { year: 2024, month: 1, day: 1 });
    assert_eq!(dates.items[0].exception_type, Exception::Removed);
}

#[test]
fn optional_columns_are_read_where_they_are() {
    let mut f = files();
    f.agency = Some(String::from(
        "agency_phone,agency_name,agency_url,agency_timezone,agency_lang,agency_fare_url,agency_id\n\
         555,Metro,http://m,UTC,en,http://f,A1\n",
    ));
    f.stops = Some(String::from(
        "stop_id,stop_code,stop_name,stop_desc,stop_lat,stop_lon,zone_id,stop_url,location_type,parent_station,stop_timezone\n\
         S1,c1,First,d1,1.5,2.5,z1,u1,1,,tz\nS2,c2,Second,d2,3,4,z2,u2,,S1,tz\nS3,,Third,,5,6,,,0,,\n",
    ));
    f.routes = Some(String::from(
        "route_id,agency_id,route_short_name,route_long_name,route_desc,route_type,route_url,route_color,route_text_color\n\
         R1,A1,1,One,desc,2,url,FFFFFF,000000\n",
    ));
    f.trips = Some(String::from(
        "route_id,service_id,trip_id,trip_headsign,trip_short_name,direction_id,block_id,shape_id\n\
         R1,WK,T1,Head,Short,1,B1,SH1\nR1,WK,T2,Head,Short,0,B1,SH1\n",
    ));
    f.stop_times = Some(String::from(
        "trip_id,arrival_time,departure_time,stop_id,stop_sequence,stop_headsign,pickup_type,drop_off_type,shape_dist_travelled\n\
         T1,08:00:00,08:00:30,S1,1,hs,0,3,12.5\nT1,08:05:00,08:05:30,S2,2,hs,1,2,20\n",
    ));
    let feed = load(&f);
    let agency = &feed.agencies()[0];
    assert_eq!(agency.id, "A1");
    assert_eq!(agency.lang, Some(String::from("en")));
    assert_eq!(agency.phone, Some(String::from("555")));
    assert_eq!(agency.fare_url, Some(String::from("http://f")));
    let stops = feed.stops();
    assert_eq!(stops[0].code, Some(String::from("c1")));
    assert_eq!(stops[0].desc, Some(String::from("d1")));
    assert_eq!(stops[0].zone_id, Some(String::from("z1")));
    assert_eq!(stops[0].url, Some(String::from("u1")));
    assert_eq!(stops[0].location_type, Some(LocationType::Station));
    assert_eq!(stops[0].parent_station, Some(String::new()));
    assert_eq!(stops[0].timezone, Some(String::from("tz")));
    assert_eq!(stops[1].location_type, Some(LocationType::Stop));
    assert_eq!(stops[1].parent_station, Some(String::from("S1")));
    assert_eq!(stops[2].location_type, Some(LocationType::Stop));
    let route = &feed.routes()[0];
    assert_eq!(route.desc, Some(String::from("desc")));
    assert_eq!(route.route_type, RouteType::Rail);
    assert_eq!(route.url, Some(String::from("url")));
    assert_eq!(route.color, Some(String::from("FFFFFF")));
    assert_eq!(route.text_color, Some(String::from("000000")));
    let trips = feed.trips();
    assert_eq!(trips[0].headsign, Some(String::from("Head")));
    assert_eq!(trips[0].short_name, Some(String::from("Short")));
    assert_eq!(trips[0].direction, Some(Direction::B));
    assert_eq!(trips[1].direction, Some(Direction::A));
    assert_eq!(trips[0].block_id, Some(String::from("B1")));
    assert_eq!(trips[0].shape_id, Some(String::from("SH1")));
    let calls = &feed.stop_times()[0].items;
    assert_eq!(calls[0].headsign, Some(String::from("hs")));
    assert_eq!(calls[0].pickup_type, Some(Marshal::Scheduled));
    assert_eq!(calls[0].drop_off_type, Some(Marshal::CoordinateWithDriver));
    assert_eq!(calls[0].shape_dist_travelled, Some(Fixed { nano: 12_500_000_000 }));
    assert_eq!(calls[1].pickup_type, Some(Marshal::NoPickup));
    assert_eq!(calls[1].drop_off_type, Some(Marshal::PhoneAhead));
    assert_eq!(calls[1].shape_dist_travelled, Some(Fixed { nano: 20_000_000_000 }));
}

#[test]
fn an_agency_without_a_key_is_keyed_by_the_underscore() {
    let mut f = files();
    f.agency = Some(String::from("agency_name,agency_url,agency_timezone\nMetro,http://m,UTC\n"));
    let feed = load(&f);
    assert_eq!(feed.agencies().len(), 1);
    assert_eq!(feed.agencies()[0].id, "_");
    assert_eq!(feed.agencies()[0].name, "Metro");
    assert!(feed.find_agency("_").is_some());
}

#[test]
fn a_route_without_an_agency_is_of_the_underscore() {
    let mut f = files();
    f.agency = Some(String::from("agency_name,agency_url,agency_timezone\nMetro,http://m,UTC\n"));
    f.routes = Some(String::from(
        "route_id,route_short_name,route_long_name,route_type\nR1,1,One,3\nR2,2,Two,1\n",
    ));
    let feed = load(&f);
    assert_eq!(feed.routes()[0].agency_id, "_");
    assert_eq!(feed.routes()[1].agency_id, "_");
    assert!(feed.find_agency(&feed.routes()[0].agency_id).is_some());
    let routes = feed.routes_for_agency("_");
    assert_eq!(routes.len(), 2);
    assert_eq!(routes[0].id, "R1");
    assert_eq!(routes[1].id, "R2");
}

#[test]
fn two_agencies_without_keys_share_the_underscore() {
    let mut f = files();
    f.agency = Some(String::from(
        "agency_name,agency_url,agency_timezone\nMetro,http://m,UTC\nBus,http://b,UTC\n",
    ));
    assert_eq!(fault(&f), LoadError::DuplicateId(FileKind::Agency, 2));
}

#[test]
fn calls_are_put_in_the_order_of_their_sequence() {
    let mut f = files();
    f.stop_times = Some(String::from(
        "trip_id,arrival_time,departure_time,stop_id,stop_sequence\n\
         T1,08:05:00,08:05:30,S2,2\nT1,08:00:00,08:00:30,S1,1\n",
    ));
    let feed = load(&f);
    let calls = &feed.stop_times()[0].items;
    assert_eq!(calls.len(), 2);
    assert_eq!(calls[0].sequence, 1);
    assert_eq!(calls[0].stop_id, "S1");
    assert_eq!(calls[1].sequence, 2);
    assert_eq!(calls[1].stop_id, "S2");
}

#[test]
fn calls_of_one_sequence_keep_the_order_of_their_rows() {
    let mut f = files();
    f.stop_times = Some(String::from(
        "trip_id,arrival_time,departure_time,stop_id,stop_sequence\n\
         T1,08:05:00,08:05:00,S2,5\nT2,09:00:00,09:00:00,S1,9\nT1,08:06:00,08:06:00,S1,3\n\
         T1,08:07:00,08:07:00,S3,5\nT1,08:08:00,08:08:00,S4,3\nT1,08:09:00,08:09:00,S5,1\n\
         T2,09:01:00,09:01:00,S2,2\n",
    ));
    let feed = load(&f);
    let groups = feed.stop_times();
    assert_eq!(groups.len(), 2);
    assert_eq!(groups[0].key, "T1");
    assert_eq!(groups[1].key, "T2");
    let stops: Vec<&str> = groups[0].items.iter().map(|c| c.stop_id.as_str()).collect();
    assert_eq!(stops, vec!["S5", "S1", "S4", "S2", "S3"]);
    let ranks: Vec<u64> = groups[0].items.iter().map(|c| c.sequence).collect();
    assert_eq!(ranks, vec![1, 3, 3, 5, 5]);
    let stops: Vec<&str> = groups[1].items.iter().map(|c| c.stop_id.as_str()).collect();
    assert_eq!(stops, vec!["S2", "S1"]);
}

#[test]
fn exceptions_are_gathered_by_service_in_the_order_of_the_rows() {
    let mut f = files();
    f.calendar_dates = Some(String::from(
        "service_id,date,exception_type\nX,20240101,1\nY,20240102,2\nX,20240103,2\n",
    ));
    let feed = load(&f);
    let groups = feed.calendar_dates();
    assert_eq!(groups.len(), 2);
    assert_eq!(groups[0].key, "X");
    assert_eq!(groups[0].items.len(), 2);
    assert_eq!(groups[0].items[0].exception_type, Exception::Added);
    assert_eq!(groups[0].items[1].exception_type, Exception::Removed);
    assert_eq!(groups[0].items[1].date, Date { year: 2024, month: 1, day: 3 });
    assert_eq!(groups[1].key, "Y");
    assert_eq!(groups[1].items.len(), 1);
}

#[test]
fn header_cells_are_trimmed_and_other_columns_passed_over() {
    let tables = Tables {
        agency: vec![
            vec![String::from(" agency_name "), String::from("extra"), String::from("\tagency_url"),
                 String::from("agency_timezone\n")],
            vec![String::from("Metro"), String::from("x"), String::from("http://m"), String::from("UTC")],
        ],
        stops: vec![vec![String::from("stop_id"), String::from("stop_name"), String::from("stop_lat"),
                         String::from("stop_lon")]],
        routes: vec![vec![String::from("route_id"), String::from("route_short_name"),
                          String::from("route_long_name"), String::from("route_type")]],
        trips: vec![vec![String::from("route_id"), String::from("service_id"), String::from("trip_id")]],
        stop_times: vec![vec![String::from("trip_id"), String::from("arrival_time"),
                              String::from("departure_time"), String::from("stop_id"),
                              String::from("stop_sequence")]],
        calendar: vec![vec![String::from("service_id"), String::from("monday"), String::from("tuesday"),
                            String::from("wednesday"), String::from("thursday"), String::from("friday"),
                            String::from("saturday"), String::from("sunday"), String::from("start_date"),
                            String::from("end_date")]],
        calendar_dates: vec![vec![String::from("service_id"), String::from("date"),
                                  String::from("exception_type")]],
    };
    let feed = match load_tables(&tables) {
        Ok(feed) => feed,
        Err(e) => panic!("the tables do not load: {:?}", e),
    };
    assert_eq!(feed.agencies().len(), 1);
    assert_eq!(feed.agencies()[0].id, "_");
    assert_eq!(feed.agencies()[0].name, "Metro");
    assert_eq!(feed.agencies()[0].url, "http://m");
    assert_eq!(feed.agencies()[0].timezone, "UTC");
    assert_eq!(feed.stops().len(), 0);
    assert_eq!(feed.stop_times().len(), 0);
}

#[test]
fn the_reader_trims_cells_and_takes_quotes() {
    let mut f = files();
    f.agency = Some(String::from(
        "agency_id , agency_name,agency_url,agency_timezone\n A1 ,\"Metro, the\",http://m, UTC\n",
    ));
    let feed = load(&f);
    assert_eq!(feed.agencies()[0].id, "A1");
    assert_eq!(feed.agencies()[0].name, "Metro, the");
    assert_eq!(feed.agencies()[0].timezone, "UTC");
}

#[test]
fn read_table_splits_a_text_into_rows() {
    let text = Some(String::from("a,b\n1,2\n3\n"));
    let table = read_table(FileKind::Stops, &text);
    assert_eq!(
        table,
        Ok(vec![
            vec![String::from("a"), String::from("b")],
            vec![String::from("1"), String::from("2")],
            vec![String::from("3")],
        ])
    );
    assert_eq!(read_table(FileKind::Stops, &None), Err(LoadError::MissingFile(FileKind::Stops)));
    assert_eq!(read_table(FileKind::Trips, &Some(String::new())), Ok(vec![]));
}

#[test]
fn a_missing_file_is_a_fault() {
    let mut f = files();
    f.agency = None;
    assert_eq!(fault(&f), LoadError::MissingFile(FileKind::Agency));
    let mut f = files();
    f.stops = None;
    assert_eq!(fault(&f), LoadError::MissingFile(FileKind::Stops));
    let mut f = files();
    f.routes = None;
    assert_eq!(fault(&f), LoadError::MissingFile(FileKind::Routes));
    let mut f = files();
    f.trips = None;
    assert_eq!(fault(&f), LoadError::MissingFile(FileKind::Trips));
    let mut f = files();
    f.stop_times = None;
    assert_eq!(fault(&f), LoadError::MissingFile(FileKind::StopTimes));
    let mut f = files();
    f.calendar = None;
    assert_eq!(fault(&f), LoadError::MissingFile(FileKind::Calendar));
    let mut f = files();
    f.calendar_dates = None;
    assert_eq!(fault(&f), LoadError::MissingFile(FileKind::CalendarDates));
}

#[test]
fn a_file_without_a_header_is_a_fault() {
    let mut f = files();
    f.trips = Some(String::new());
    assert_eq!(fault(&f), LoadError::NoHeader(FileKind::Trips));
}

#[test]
fn a_missing_required_column_is_a_fault() {
    let mut f = files();
    f.agency = Some(String::from("agency_id,agency_name,agency_timezone\nA1,Metro,UTC\n"));
    assert_eq!(fault(&f), LoadError::MissingColumn(FileKind::Agency, 1));
    let mut f = files();
    f.stops = Some(String::from("stop_id,stop_name,stop_lat\nS1,First,1\n"));
    assert_eq!(fault(&f), LoadError::MissingColumn(FileKind::Stops, 3));
    let mut f = files();
    f.calendar = Some(String::from("service_id,monday\nWK,1\n"));
    assert_eq!(fault(&f), LoadError::MissingColumn(FileKind::Calendar, 2));
    let mut f = files();
    f.calendar_dates = Some(String::from("date,exception_type\n20240101,1\n"));
    assert_eq!(fault(&f), LoadError::MissingColumn(FileKind::CalendarDates, 0));
}

#[test]
fn a_cell_that_does_not_parse_is_a_fault() {
    let mut f = files();
    f.stops = Some(String::from(
        "stop_id,stop_name,stop_lat,stop_lon\nS1,First,51.5,-0.12\nS2,Second,north,0.1\n",
    ));
    assert_eq!(fault(&f), LoadError::BadCell(FileKind::Stops, 2, Column::Required(2)));
    let mut f = files();
    f.stops = Some(String::from(
        "stop_id,stop_name,stop_lat,stop_lon,location_type\nS1,First,51.5,-0.12,2\n",
    ));
    assert_eq!(fault(&f), LoadError::BadCell(FileKind::Stops, 1, Column::Optional(4)));
    let mut f = files();
    f.routes = Some(String::from(
        "route_id,agency_id,route_short_name,route_long_name,route_type\nR1,A1,1,One,8\n",
    ));
    assert_eq!(fault(&f), LoadError::BadCell(FileKind::Routes, 1, Column::Required(3)));
    let mut f = files();
    f.trips = Some(String::from("route_id,service_id,trip_id,direction_id\nR1,WK,T1,2\n"));
    assert_eq!(fault(&f), LoadError::BadCell(FileKind::Trips, 1, Column::Optional(2)));
    let mut f = files();
    f.stop_times = Some(String::from(
        "trip_id,arrival_time,departure_time,stop_id,stop_sequence\nT1,08:00:00,08:00:30,S1,1\n\
         T1,,08:05:30,S2,2\n",
    ));
    assert_eq!(fault(&f), LoadError::BadCell(FileKind::StopTimes, 2, Column::Required(1)));
    let mut f = files();
    f.stop_times = Some(String::from(
        "trip_id,arrival_time,departure_time,stop_id,stop_sequence\nT1,08:00:00,08:00:30,S1,one\n",
    ));
    assert_eq!(fault(&f), LoadError::BadCell(FileKind::StopTimes, 1, Column::Required(4)));
    let mut f = files();
    f.stop_times = Some(String::from(
        "trip_id,arrival_time,departure_time,stop_id,stop_sequence,pickup_type\n\
         T1,08:00:00,08:00:30,S1,1,4\n",
    ));
    assert_eq!(fault(&f), LoadError::BadCell(FileKind::StopTimes, 1, Column::Optional(1)));
    let mut f = files();
    f.calendar = Some(String::from(
        "service_id,monday,tuesday,wednesday,thursday,friday,saturday,sunday,start_date,end_date\n\
         WK,1,1,1,1,1,0,yes,20240101,20241231\n",
    ));
    assert_eq!(fault(&f), LoadError::BadCell(FileKind::Calendar, 1, Column::Required(7)));
    let mut f = files();
    f.calendar = Some(String::from(
        "service_id,monday,tuesday,wednesday,thursday,friday,saturday,sunday,start_date,end_date\n\
         WK,1,1,1,1,1,0,0,20241301,20241231\n",
    ));
    assert_eq!(fault(&f), LoadError::BadCell(FileKind::Calendar, 1, Column::Required(8)));
    let mut f = files();
    f.calendar_dates = Some(String::from("service_id,date,exception_type\nWK,20240101,3\n"));
    assert_eq!(fault(&f), LoadError::BadCell(FileKind::CalendarDates, 1, Column::Required(2)));
}

#[test]
fn the_first_bad_cell_of_a_row_is_told() {
    let mut f = files();
    f.stop_times = Some(String::from(
        "trip_id,arrival_time,departure_time,stop_id,stop_sequence,drop_off_type,shape_dist_travelled\n\
         T1,8h,08:00:30,S1,first,9,far\n",
    ));
    assert_eq!(fault(&f), LoadError::BadCell(FileKind::StopTimes, 1, Column::Required(4)));
    f.stop_times = Some(String::from(
        "trip_id,arrival_time,departure_time,stop_id,stop_sequence,drop_off_type,shape_dist_travelled\n\
         T1,8h,08:00:30,S1,1,9,far\n",
    ));
    assert_eq!(fault(&f), LoadError::BadCell(FileKind::StopTimes, 1, Column::Required(1)));
    f.stop_times = Some(String::from(
        "trip_id,arrival_time,departure_time,stop_id,stop_sequence,drop_off_type,shape_dist_travelled\n\
         T1,08:00:00,08:00:60,S1,1,9,far\n",
    ));
    assert_eq!(fault(&f), LoadError::BadCell(FileKind::StopTimes, 1, Column::Required(2)));
    f.stop_times = Some(String::from(
        "trip_id,arrival_time,departure_time,stop_id,stop_sequence,drop_off_type,shape_dist_travelled\n\
         T1,08:00:00,08:00:30,S1,1,9,far\n",
    ));
    assert_eq!(fault(&f), LoadError::BadCell(FileKind::StopTimes, 1, Column::Optional(2)));
    f.stop_times = Some(String::from(
        "trip_id,arrival_time,departure_time,stop_id,stop_sequence,drop_off_type,shape_dist_travelled\n\
         T1,08:00:00,08:00:30,S1,1,3,far\n",
    ));
    assert_eq!(fault(&f), LoadError::BadCell(FileKind::StopTimes, 1, Column::Optional(3)));
    f.stops = Some(String::from("stop_id,stop_name,stop_lat,stop_lon\nS1,First,1,east\n"));
    assert_eq!(fault(&f), LoadError::BadCell(FileKind::Stops, 1, Column::Required(3)));
    f.stops = Some(String::from("stop_id,stop_name,stop_lat,stop_lon\nS1,First,1,2\nS1,Again\n"));
    assert_eq!(fault(&f), LoadError::ShortRow(FileKind::Stops, 2));
}

#[test]
fn an_unreadable_text_is_a_fault() {
    let mut reader = csv::ReaderBuilder::new().has_headers(false).from_reader(&b"a,b\n\xff,c\n"[..]);
    let found: Result<Vec<Vec<String>>, csv::Error> = reader
        .records()
        .map(|row| row.map(|cells| cells.iter().map(String::from).collect()))
        .collect();
    assert!(found.is_err());
    assert_eq!(table_from(FileKind::Routes, found), Err(LoadError::Unreadable(FileKind::Routes)));
    let rows = vec![vec![String::from("a")]];
    assert_eq!(table_from(FileKind::Routes, Ok(rows.clone())), Ok(rows));
}

#[test]
fn a_row_that_is_too_short_is_a_fault() {
    let mut f = files();
    f.trips = Some(String::from("route_id,service_id,trip_id\nR1,WK,T1\nR1,WK\n"));
    assert_eq!(fault(&f), LoadError::ShortRow(FileKind::Trips, 2));
}

#[test]
fn a_key_that_comes_twice_is_a_fault() {
    let mut f = files();
    f.agency = Some(String::from(
        "agency_id,agency_name,agency_url,agency_timezone\nA1,Metro,http://m,UTC\nA2,B,u,UTC\nA1,C,u,UTC\n",
    ));
    assert_eq!(fault(&f), LoadError::DuplicateId(FileKind::Agency, 3));
    let mut f = files();
    f.stops = Some(String::from("stop_id,stop_name,stop_lat,stop_lon\nS1,First,1,2\nS1,Second,3,4\n"));
    assert_eq!(fault(&f), LoadError::DuplicateId(FileKind::Stops, 2));
    let mut f = files();
    f.routes = Some(String::from(
        "route_id,agency_id,route_short_name,route_long_name,route_type\nR1,A1,1,One,3\nR1,A1,2,Two,3\n",
    ));
    assert_eq!(fault(&f), LoadError::DuplicateId(FileKind::Routes, 2));
    let mut f = files();
    f.trips = Some(String::from("route_id,service_id,trip_id\nR1,WK,T1\nR1,WK,T1\n"));
    assert_eq!(fault(&f), LoadError::DuplicateId(FileKind::Trips, 2));
    let mut f = files();
    f.calendar = Some(String::from(
        "service_id,monday,tuesday,wednesday,thursday,friday,saturday,sunday,start_date,end_date\n\
         WK,1,1,1,1,1,0,0,20240101,20241231\nWK,0,0,0,0,0,1,1,20240101,20241231\n",
    ));
    assert_eq!(fault(&f), LoadError::DuplicateId(FileKind::Calendar, 2));
}

#[test]
fn the_first_fault_in_the_order_of_the_files_is_told() {
    let mut f = files();
    f.stops = None;
    f.agency = Some(String::from(
        "agency_id,agency_name,agency_url,agency_timezone\nA1,Metro,http://m,UTC\nA1,B,u,UTC\n",
    ));
    f.calendar_dates = Some(String::from("nothing\n"));
    assert_eq!(fault(&f), LoadError::DuplicateId(FileKind::Agency, 2));
    let mut f = files();
    f.trips = Some(String::from("route_id,service_id\nR1,WK\n"));
    f.calendar = None;
    assert_eq!(fault(&f), LoadError::MissingColumn(FileKind::Trips, 2));
}

#[test]
fn a_bad_row_before_a_repeated_key_is_told_first() {
    let mut f = files();
    f.stops = Some(String::from(
        "stop_id,stop_name,stop_lat,stop_lon\nS1,First,1,2\nS2,Second,x,4\nS1,Third,5,6\n",
    ));
    assert_eq!(fault(&f), LoadError::BadCell(FileKind::Stops, 2, Column::Required(2)));
}

#[test]
fn loading_twice_gives_the_same_feed() {
    let a = load(&files());
    let b = load(&files());
    assert_eq!(a, b);
}

#[test]
fn tables_and_texts_give_the_same_feed() {
    let f = files();
    let cut = |kind: FileKind, text: &Option<String>| match read_table(kind, text) {
        Ok(t) => t,
        Err(e) => panic!("no table: {:?}", e),
    };
    let tables = Tables {
        agency: cut(FileKind::Agency, &f.agency),
        stops: cut(FileKind::Stops, &f.stops),
        routes: cut(FileKind::Routes, &f.routes),
        trips: cut(FileKind::Trips, &f.trips),
        stop_times: cut(FileKind::StopTimes, &f.stop_times),
        calendar: cut(FileKind::Calendar, &f.calendar),
        calendar_dates: cut(FileKind::CalendarDates, &f.calendar_dates),
    };
    assert_eq!(load_tables(&tables), Ok(load(&f)));
}

#[test]
fn columns_are_bound_to_the_first_cell_of_their_name() {
    let header = vec![
        String::from("b"),
        String::from(" a "),
        String::from("c"),
        String::from("a"),
    ];
    assert!(names_column(" a ", "a"));
    assert!(names_column("a\t\n", "a"));
    assert!(!names_column("a b", "a"));
    assert!(names_column("a b", "a b"));
    assert!(names_column("   ", ""));
    assert!(!names_column("", "a"));
    assert_eq!(find_column(&header, "a"), Some(1));
    assert_eq!(find_column(&header, "c"), Some(2));
    assert_eq!(find_column(&header, "d"), None);
    let cols = match bind_columns(&header, &vec!["c", "a"], &vec!["d", "b"]) {
        Ok(cols) => cols,
        Err(k) => panic!("column {} is missing", k),
    };
    assert_eq!(cols.required, vec![2, 1]);
    assert_eq!(cols.optional, vec![None, Some(0)]);
    assert_eq!(bind_columns(&header, &vec!["a", "x", "y"], &vec![]), Err(1));
}

#[test]
fn faults_are_told_in_words() {
    assert_eq!(LoadError::MissingFile(FileKind::Agency).message(), "cannot open agency.txt");
    assert_eq!(
        LoadError::Unreadable(FileKind::Stops).message(),
        "stops.txt: cannot be read as rows"
    );
    assert_eq!(LoadError::NoHeader(FileKind::Routes).message(), "routes.txt: no column row");
    assert_eq!(
        LoadError::MissingColumn(FileKind::Trips, 2).message(),
        "trips.txt: required field trip_id not found in file"
    );
    assert_eq!(
        LoadError::MissingColumn(FileKind::Trips, 3).message(),
        "trips.txt: required field ? not found in file"
    );
    assert_eq!(LoadError::ShortRow(FileKind::StopTimes, 120).message(), "stop_times.txt: row 120 is too short");
    assert_eq!(
        LoadError::BadCell(FileKind::Calendar, 7, Column::Required(9)).message(),
        "calendar.txt: row 7: the cell of end_date does not hold a value of its kind"
    );
    assert_eq!(
        LoadError::BadCell(FileKind::Stops, 1, Column::Optional(4)).message(),
        "stops.txt: row 1: the cell of location_type does not hold a value of its kind"
    );
    assert_eq!(
        LoadError::BadCell(FileKind::CalendarDates, 0, Column::Optional(0)).message(),
        "calendar_dates.txt: row 0: the cell of ? does not hold a value of its kind"
    );
    assert_eq!(
        LoadError::DuplicateId(FileKind::CalendarDates, 18446744073709551615).message(),
        "calendar_dates.txt: row 18446744073709551615 repeats the key of an earlier row"
    );
}

#[test]
fn files_name_their_columns() {
    assert_eq!(FileKind::Agency.name(), "agency.txt");
    assert_eq!(FileKind::StopTimes.name(), "stop_times.txt");
    assert_eq!(
        FileKind::StopTimes.required_names(),
        vec!["trip_id", "arrival_time", "departure_time", "stop_id", "stop_sequence"]
    );
    assert_eq!(
        FileKind::StopTimes.optional_names(),
        vec!["stop_headsign", "pickup_type", "drop_off_type", "shape_dist_travelled"]
    );
    assert_eq!(FileKind::Calendar.required_names().len(), 10);
    assert_eq!(FileKind::Calendar.optional_names().len(), 0);
    assert_eq!(FileKind::Routes.column_name(Column::Optional(0)), "agency_id");
    assert_eq!(FileKind::Routes.column_name(Column::Required(3)), "route_type");
    assert_eq!(FileKind::Routes.column_name(Column::Required(4)), "?");
}
