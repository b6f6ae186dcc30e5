use dbip::parse_ip;
use dbip::Converter;
use dbip::ConverterError;
use dbip::Error;
use dbip::ProgressLog;
use dbip::DBIP;

fn header() -> &'static str {
    "ip_start,ip_end,country,stateprov,district,city,zipcode,latitude,longitude,\
     geoname_id,timezone_offset,timezone_name,isp_name,connection_type,organization_name\n"
}

fn ingest(rows: &str) -> (Result<(), ConverterError>, DBIP, ProgressLog) {
    let data = format!("{}{}", header(), rows);
    let mut db = DBIP::new();
    let mut log = ProgressLog::new();
    let r = Converter::csv_to_db(data.as_bytes(), &mut db, &mut log);
    (r, db, log)
}

#[test]
fn single_row_scenario() {
    let (r, db, log) = ingest(
        "5.58.93.0,5.58.93.255,US,California,,Los Angeles,90001,34.05,-118.25,,,\
         America/Los_Angeles,ExampleISP,,ExampleOrg\n",
    );
    assert!(r.is_ok());
    assert_eq!(db.committed_rows(), 1);
    assert_eq!(log.counts, Vec::<usize>::new());
    let loc = db.location_by_ip(&parse_ip("5.58.93.247").unwrap()).unwrap();
    assert_eq!(loc.country, "US");
    assert_eq!(loc.stateprov, "California");
    assert_eq!(loc.district, "");
    assert_eq!(loc.city, "Los Angeles");
    assert_eq!(loc.zipcode, "90001");
    assert_eq!(loc.latitude, "34.05");
    assert_eq!(loc.longitude, "-118.25");
    assert_eq!(loc.geoname_id, 0);
    assert_eq!(loc.timezone_offset, "0");
    assert_eq!(loc.timezone_name, "America/Los_Angeles");
    assert_eq!(loc.isp_name, "ExampleISP");
    assert_eq!(loc.connection_type, None);
    assert_eq!(loc.organization_name, "ExampleOrg");
}

#[test]
fn empty_dataset_scenario() {
    let (r, db, log) = ingest("");
    assert!(r.is_ok());
    assert_eq!(db.committed_rows(), 0);
    assert_eq!(log.counts, Vec::<usize>::new());
    assert!(matches!(
        db.location_by_ip(&parse_ip("1.2.3.4").unwrap()),
        Err(Error::NotFound)
    ));
    assert!(matches!(
        db.location_by_ip(&parse_ip("::1").unwrap()),
        Err(Error::NotFound)
    ));
}

#[test]
fn wholly_empty_input_ingests_nothing() {
    let mut db = DBIP::new();
    let mut log = ProgressLog::new();
    let r = Converter::csv_to_db(b"", &mut db, &mut log);
    assert!(r.is_ok());
    assert_eq!(db.committed_rows(), 0);
    assert_eq!(log.counts, Vec::<usize>::new());
}

#[test]
fn covering_ranges_and_gaps() {
    let (r, db, _) = ingest(
        "1.0.0.10,1.0.0.19,AA,,,,,,,,,tz,isp,,org\n\
         1.0.0.20,1.0.0.29,BB,,,,,,,,,tz,isp,,org\n\
         1.0.0.40,1.0.0.49,CC,,,,,,,,,tz,isp,,org\n\
         2001:db8::,2001:db8::ff,DD,,,,,,,,,tz,isp,,org\n",
    );
    assert!(r.is_ok());
    assert_eq!(db.committed_rows(), 4);
    let at = |t: &str| db.location_by_ip(&parse_ip(t).unwrap());
    assert_eq!(at("1.0.0.15").unwrap().country, "AA");
    assert_eq!(at("1.0.0.20").unwrap().country, "BB");
    assert_eq!(at("1.0.0.29").unwrap().country, "BB");
    assert_eq!(at("1.0.0.44").unwrap().country, "CC");
    assert_eq!(at("2001:db8::42").unwrap().country, "DD");
    assert!(matches!(at("1.0.0.9"), Err(Error::NotFound)));
    assert!(matches!(at("1.0.0.30"), Err(Error::NotFound)));
    assert!(matches!(at("1.0.0.50"), Err(Error::NotFound)));
    assert!(matches!(at("2001:db8::1:0"), Err(Error::NotFound)));
    // a v4 value read as a v6 literal must miss: the families stay apart
    assert!(matches!(at("::1.0.0.15"), Err(Error::NotFound)));
}

#[test]
fn endpoints_answer_their_own_row() {
    let rows = [
        ("10.0.0.0", "10.0.0.255", "R0"),
        ("10.0.1.0", "10.0.1.255", "R1"),
        ("10.0.2.0", "10.0.2.255", "R2"),
    ];
    let body: String = rows
        .iter()
        .map(|(s, e, c)| format!("{},{},{},,,,,,,,,tz,isp,,org\n", s, e, c))
        .collect();
    let (r, db, _) = ingest(&body);
    assert!(r.is_ok());
    for (s, e, c) in rows.iter() {
        let ls = db.location_by_ip(&parse_ip(s).unwrap()).unwrap();
        let le = db.location_by_ip(&parse_ip(e).unwrap()).unwrap();
        assert_eq!(ls.country, *c);
        assert_eq!(le.country, *c);
    }
}

#[test]
fn smallest_end_wins_when_ranges_overlap() {
    let (r, db, _) = ingest(
        "9.0.0.0,9.0.0.200,WIDE,,,,,,,,,tz,isp,,org\n\
         9.0.0.10,9.0.0.20,NARROW,,,,,,,,,tz,isp,,org\n",
    );
    assert!(r.is_ok());
    let inside = db.location_by_ip(&parse_ip("9.0.0.15").unwrap()).unwrap();
    assert_eq!(inside.country, "NARROW");
    let outside = db.location_by_ip(&parse_ip("9.0.0.100").unwrap()).unwrap();
    assert_eq!(outside.country, "WIDE");
}

#[test]
fn short_row_aborts_with_missing_field_and_commits_nothing() {
    let (r, db, log) = ingest(
        "1.0.0.0,1.0.0.9,AA,,,,,,,,,tz,isp,,org\n\
         2.0.0.0,2.0.0.9,BB,,,,,,,,,tz,isp,\n",
    );
    assert_eq!(r, Err(ConverterError::MissingField(14)));
    assert_eq!(db.committed_rows(), 0);
    assert_eq!(log.counts, Vec::<usize>::new());
    assert!(matches!(
        db.location_by_ip(&parse_ip("1.0.0.5").unwrap()),
        Err(Error::NotFound)
    ));
    assert!(matches!(
        db.location_by_ip(&parse_ip("2.0.0.5").unwrap()),
        Err(Error::NotFound)
    ));
}

#[test]
fn very_short_row_names_the_field_where_it_ended() {
    let (r, _, _) = ingest("3.0.0.0,3.0.0.9,AA,x\n");
    assert_eq!(r, Err(ConverterError::MissingField(4)));
    let (r2, _, _) = ingest("3.0.0.0\n");
    assert_eq!(r2, Err(ConverterError::MissingField(1)));
}

#[test]
fn malformed_address_aborts_the_run() {
    let (r, db, _) = ingest("not-an-ip,1.0.0.9,AA,,,,,,,,,tz,isp,,org\n");
    assert_eq!(r, Err(ConverterError::AddressParse));
    assert_eq!(db.committed_rows(), 0);
    let (r2, _, _) = ingest("1.0.0.0,1.0.0.300,AA,,,,,,,,,tz,isp,,org\n");
    assert_eq!(r2, Err(ConverterError::AddressParse));
}

#[test]
fn mixed_families_in_one_row_abort_the_run() {
    let (r, db, _) = ingest("1.0.0.0,::ff,AA,,,,,,,,,tz,isp,,org\n");
    assert_eq!(r, Err(ConverterError::FamilyMismatch));
    assert_eq!(db.committed_rows(), 0);
}

#[test]
fn malformed_latitude_defaults_to_zero_without_aborting() {
    let (r, db, _) = ingest("7.0.0.0,7.0.0.9,AA,,,,,N/A,10.5,,,tz,isp,,org\n");
    assert!(r.is_ok());
    let loc = db.location_by_ip(&parse_ip("7.0.0.3").unwrap()).unwrap();
    assert_eq!(loc.latitude, "0");
    assert_eq!(loc.longitude, "10.5");
}

#[test]
fn numeric_fields_parse_or_default() {
    let (r, db, _) = ingest("8.0.0.0,8.0.0.9,AA,,,,,1.5,-2.5,424242,-8,tz,isp,wired,org\n");
    assert!(r.is_ok());
    let loc = db.location_by_ip(&parse_ip("8.0.0.1").unwrap()).unwrap();
    assert_eq!(loc.geoname_id, 424242);
    assert_eq!(loc.timezone_offset, "-8");
    assert_eq!(loc.connection_type, Some("wired".to_string()));
}

#[test]
fn batches_commit_at_the_bound_and_report_progress() {
    let body: String = (0u32..5)
        .map(|k| format!("11.0.{}.0,11.0.{}.255,C{},,,,,,,,,tz,isp,,org\n", k, k, k))
        .collect();
    let data = format!("{}{}", header(), body);
    let mut db = DBIP::new();
    let mut log = ProgressLog::new();
    let r = Converter::csv_to_db_batched(data.as_bytes(), &mut db, 2, &mut log);
    assert!(r.is_ok());
    assert_eq!(db.committed_rows(), 5);
    assert_eq!(log.counts, vec![2, 4]);
    let loc = db.location_by_ip(&parse_ip("11.0.4.7").unwrap()).unwrap();
    assert_eq!(loc.country, "C4");
}

#[test]
fn a_fault_keeps_batches_already_committed() {
    let data = format!(
        "{}12.0.0.0,12.0.0.9,AA,,,,,,,,,tz,isp,,org\n\
         12.0.1.0,12.0.1.9,BB,,,,,,,,,tz,isp,,org\n\
         bad,12.0.2.9,CC,,,,,,,,,tz,isp,,org\n",
        header()
    );
    let mut db = DBIP::new();
    let mut log = ProgressLog::new();
    let r = Converter::csv_to_db_batched(data.as_bytes(), &mut db, 2, &mut log);
    assert_eq!(r, Err(ConverterError::AddressParse));
    assert_eq!(db.committed_rows(), 2);
    assert_eq!(log.counts, vec![2]);
    assert_eq!(
        db.location_by_ip(&parse_ip("12.0.0.5").unwrap()).unwrap().country,
        "AA"
    );
}

#[test]
fn unreadable_input_reports_input_access() {
    let mut data: Vec<u8> = header().as_bytes().to_vec();
    data.extend_from_slice(b"\xff\xfe,1.0.0.9,AA,,,,,,,,,tz,isp,,org\n");
    let mut db = DBIP::new();
    let mut log = ProgressLog::new();
    let r = Converter::csv_to_db(&data, &mut db, &mut log);
    assert_eq!(r, Err(ConverterError::InputAccess));
    assert_eq!(db.committed_rows(), 0);
    assert_eq!(log.counts, Vec::<usize>::new());
}

#[test]
fn ingestion_rebuilds_the_store() {
    let (r, mut db, _) = ingest("6.0.0.0,6.0.0.9,OLD,,,,,,,,,tz,isp,,org\n");
    assert!(r.is_ok());
    let mut log = ProgressLog::new();
    let data = format!("{}6.1.0.0,6.1.0.9,NEW,,,,,,,,,tz,isp,,org\n", header());
    let r2 = Converter::csv_to_db(data.as_bytes(), &mut db, &mut log);
    assert!(r2.is_ok());
    assert_eq!(db.committed_rows(), 1);
    assert!(matches!(
        db.location_by_ip(&parse_ip("6.0.0.5").unwrap()),
        Err(Error::NotFound)
    ));
    assert_eq!(
        db.location_by_ip(&parse_ip("6.1.0.5").unwrap()).unwrap().country,
        "NEW"
    );
}

#[test]
fn quoted_fields_pass_through_the_reader() {
    let (r, db, _) = ingest(
        "13.0.0.0,13.0.0.9,US,\"New York\",,\"City, The\",,,,,,tz,\"O'Brien ISP\",,org\n",
    );
    assert!(r.is_ok());
    let loc = db.location_by_ip(&parse_ip("13.0.0.1").unwrap()).unwrap();
    assert_eq!(loc.stateprov, "New York");
    assert_eq!(loc.city, "City, The");
    assert_eq!(loc.isp_name, "O'Brien ISP");
}

#[test]
fn missing_field_index_names_the_column() {
    let (r, _, _) = ingest("4.0.0.0,4.0.0.9,AA,x,y\n");
    match r {
        Err(ConverterError::MissingField(i)) => {
            assert_eq!(i, 5);
            assert_eq!(dbip::convert::field_name(i), "city");
        }
        other => panic!("expected a missing-field fault, got {:?}", other),
    }
    assert_eq!(dbip::convert::field_name(0), "ip_start");
    assert_eq!(dbip::convert::field_name(14), "organization_name");
}
