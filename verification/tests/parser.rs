use kplc_outage_parser::client::{
    Area, Date, KPLCClient, KPLCData, KPLCError, Time, filter_lines, segment_page,
};

fn parse(text: &str) -> Result<KPLCData, KPLCError> {
    let mut client = KPLCClient::new();
    client.parse_text_as_data_object(text)
}

#[test]
fn test_round_trip_single_area() {
    // One region, one part, one area with two places; the date line keeps
    // its runs of spaces under three so the page stays single-column.
    let text = "REGION A\nPARTS OF B\nAREA: C\nDATE: Sunday 19.06.2022  TIME: 9.00 A.M. - 5.00 P.M.\nPlace1, Place2\n\n";
    let data = parse(text).unwrap();
    assert_eq!(data.regions.len(), 1);
    let region = &data.regions[0];
    assert_eq!(region.region, String::from("A"));
    assert_eq!(region.parts.len(), 1);
    let part = &region.parts[0];
    assert_eq!(part.part, String::from("B"));
    assert_eq!(part.areas.len(), 1);
    let area = &part.areas[0];
    assert_eq!(area.area, String::from("C"));
    assert_eq!(area.places, vec![String::from("Place1"), String::from("Place2")]);
    assert_eq!(area.date.day, 19);
    assert_eq!(area.date.month, 6);
    assert_eq!(area.date.year, 2022);
    assert_eq!(area.time.start, String::from("9.00 A.M"));
    assert_eq!(area.time.end, String::from("5.00 P.M"));
}

#[test]
fn test_gutter_run_on_date_line_splits_page() {
    // With a run of three spaces the page counts as two-column, the date
    // line is cut at the gutter, and the date/time extraction fails.
    let text = "REGION A\nPARTS OF B\nAREA: C\nDATE: Sunday 19.06.2022   TIME: 9.00 A.M. - 5.00 P.M.\nPlace1, Place2\n\n";
    let err = parse(text).unwrap_err();
    assert!(matches!(err, KPLCError::DateTimeFormatViolation(_)));
}

#[test]
fn test_segmentation_passthrough_without_gap() {
    let lines = vec![
        String::from("alpha beta"),
        String::from("gamma  delta"),
        String::from("epsilon"),
    ];
    let out = segment_page(&lines);
    assert_eq!(out, lines);
}

#[test]
fn test_segmentation_uniform_gap() {
    // Both lines have their only gap ending at column 6: left lines are cut
    // at column 4, right lines start at column 5.
    let lines = vec![String::from("aaa   bbb"), String::from("ccc   ddd")];
    let out = segment_page(&lines);
    assert_eq!(
        out,
        vec![
            String::from("aaa "),
            String::from("ccc "),
            String::from(" bbb"),
            String::from(" ddd"),
        ]
    );
    assert!(out.len() <= 2 * lines.len());
}

#[test]
fn test_segmentation_short_line_stays_left() {
    let lines = vec![String::from("aaa   bbb"), String::from("ccc")];
    let out = segment_page(&lines);
    assert_eq!(
        out,
        vec![String::from("aaa "), String::from("ccc"), String::from(" bbb")]
    );
}

#[test]
fn test_filter_drops_blank_and_boilerplate() {
    let lines = vec![
        String::from("REGION A"),
        String::from("   "),
        String::from("Interruption of"),
        String::from("see www.kplc.co.ke for details"),
        String::from("Place1"),
        String::from(""),
    ];
    let out = filter_lines(&lines);
    assert_eq!(out, vec![String::from("REGION A"), String::from("Place1")]);
}

#[test]
fn test_filter_idempotent() {
    let lines = vec![
        String::from("REGION A"),
        String::from(" "),
        String::from("the nearest Kenya Power office"),
        String::from("Place1, Place2"),
    ];
    let once = filter_lines(&lines);
    let twice = filter_lines(&once);
    assert_eq!(once, twice);
}

#[test]
fn test_boilerplate_only_parses_empty() {
    let text = "Interruption of\nwww.kplc.co.ke\n   \n\n";
    let data = parse(text).unwrap();
    assert_eq!(data.regions.len(), 0);
}

#[test]
fn test_area_without_part_gets_auto_part() {
    let text = "REGION X\nAREA: Y\nDATE: Sunday 19.06.2022  TIME: 9.00 A.M. - 5.00 P.M.\nPlaceA\n\n";
    let data = parse(text).unwrap();
    assert_eq!(data.regions.len(), 1);
    let region = &data.regions[0];
    assert_eq!(region.parts.len(), 1);
    assert_eq!(region.parts[0].part, String::new());
    assert_eq!(region.parts[0].areas.len(), 1);
    assert_eq!(region.parts[0].areas[0].area, String::from("Y"));
}

#[test]
fn test_missing_time_segment_is_format_violation() {
    let text = "REGION X\nAREA: Y\nDATE: Sunday 19.06.2022\nPlaceA\n\n";
    let err = parse(text).unwrap_err();
    match err {
        KPLCError::DateTimeFormatViolation(line) => {
            assert_eq!(line, String::from("DATE: Sunday 19.06.2022"));
        },
        KPLCError::StructureViolation(_) => panic!("wrong error kind"),
    }
}

#[test]
fn test_region_persists_across_pages() {
    let text = "REGION X\nAREA: A1\nDATE: Sunday 19.06.2022  TIME: 9.00 A.M. - 5.00 P.M.\nPlace1\n\nAREA: A2\nDATE: Monday 20.06.2022  TIME: 8.00 A.M. - 4.00 P.M.\nPlace2\n";
    let data = parse(text).unwrap();
    assert_eq!(data.regions.len(), 1);
    let region = &data.regions[0];
    assert_eq!(region.parts.len(), 1);
    assert_eq!(region.parts[0].areas.len(), 2);
    assert_eq!(region.parts[0].areas[0].area, String::from("A1"));
    assert_eq!(region.parts[0].areas[1].area, String::from("A2"));
    assert_eq!(region.parts[0].areas[1].date.day, 20);
}

#[test]
fn test_part_without_region_is_structure_violation() {
    let text = "PARTS OF B\nfiller\n";
    let err = parse(text).unwrap_err();
    match err {
        KPLCError::StructureViolation(line) => {
            assert_eq!(line, String::from("PARTS OF B"));
        },
        KPLCError::DateTimeFormatViolation(_) => panic!("wrong error kind"),
    }
    let err2 = parse(text).unwrap_err();
    assert_eq!(err2.offending_line(), &String::from("PARTS OF B"));
}

#[test]
fn test_area_as_last_line_is_structure_violation() {
    let text = "REGION X\nAREA: Y\n";
    let err = parse(text).unwrap_err();
    assert!(matches!(err, KPLCError::StructureViolation(_)));
}

#[test]
fn test_area_without_region_is_structure_violation() {
    let text = "AREA: Y\nDATE: Sunday 19.06.2022  TIME: 9.00 A.M. - 5.00 P.M.\nPlaceA\n";
    let err = parse(text).unwrap_err();
    assert!(matches!(err, KPLCError::StructureViolation(_)));
}

#[test]
fn test_date_out_of_range_is_format_violation() {
    let text = "REGION X\nAREA: Y\nDATE: Sunday 32.06.2022  TIME: 9.00 A.M. - 5.00 P.M.\nPlaceA\n";
    assert!(matches!(parse(text), Err(KPLCError::DateTimeFormatViolation(_))));
    let text2 = "REGION X\nAREA: Y\nDATE: Sunday 19.13.2022  TIME: 9.00 A.M. - 5.00 P.M.\nPlaceA\n";
    assert!(matches!(parse(text2), Err(KPLCError::DateTimeFormatViolation(_))));
}

#[test]
fn test_trailing_comma_keeps_empty_place() {
    let text = "REGION X\nAREA: Y\nDATE: Sunday 19.06.2022  TIME: 9.00 A.M. - 5.00 P.M.\nPlace1,\n";
    let data = parse(text).unwrap();
    let area = &data.regions[0].parts[0].areas[0];
    assert_eq!(area.places, vec![String::from("Place1"), String::new()]);
}

#[test]
fn test_single_line_page_is_skipped() {
    let text = "REGION X\n";
    let data = parse(text).unwrap();
    assert_eq!(data.regions.len(), 0);
}

#[test]
fn test_data_object_building() {
    let mut data = KPLCData::new();
    data.insert_region(String::from("R"));
    data.insert_part_to_prev_region(String::from("P"));
    assert_eq!(data.get_last_part().part, String::from("P"));
    let area = Area {
        area: String::from("A"),
        places: vec![String::from("p1")],
        date: Date { day: 1, month: 2, year: 2023 },
        time: Time { start: String::from("9.00 A.M"), end: String::from("5.00 P.M") },
    };
    data.insert_area_to_last_part(area);
    assert_eq!(data.regions.len(), 1);
    assert_eq!(data.regions[0].parts.len(), 1);
    assert_eq!(data.regions[0].parts[0].areas.len(), 1);
    assert_eq!(data.regions[0].parts[0].areas[0].date.year, 2023);
}

#[test]
fn test_area_name_is_text_after_keyword() {
    // the area name is the text after the keyword, not the rest of the line
    let text = "REGION X\n14 AREA: KITALE TOWN\nDATE: Sunday 19.06.2022  TIME: 9.00 A.M. - 5.00 P.M.\nMilimani\n";
    let data = parse(text).unwrap();
    assert_eq!(data.regions[0].parts[0].areas[0].area, String::from("KITALE TOWN"));
}

#[test]
fn test_marker_is_substring_match() {
    // markers match as substrings, and the keyword is removed wherever it
    // occurs
    let text = "REGIONAL NOTES\nfiller\n";
    let data = parse(text).unwrap();
    assert_eq!(data.regions.len(), 1);
    assert_eq!(data.regions[0].region, String::from("AL NOTES"));
}

#[test]
fn test_area_date_line_does_not_cross_pages() {
    // the date/time line must follow the area marker on the same page
    let text = "REGION X\nAREA: Y\n\nDATE: Sunday 19.06.2022  TIME: 9.00 A.M. - 5.00 P.M.\nPlaceA\n";
    let err = parse(text).unwrap_err();
    assert!(matches!(err, KPLCError::StructureViolation(_)));
}

#[test]
fn test_empty_text_parses_empty() {
    let data = parse("").unwrap();
    assert_eq!(data.regions.len(), 0);
}

#[test]
fn test_crlf_line_endings() {
    let text = "REGION X\r\nfiller\r\n";
    let data = parse(text).unwrap();
    assert_eq!(data.regions.len(), 1);
    assert_eq!(data.regions[0].region, String::from("X"));
}

#[test]
fn test_region_keyword_stripped_everywhere() {
    // the keyword is removed wherever it occurs on the marker line
    let text = "REGION NORTH REGION\nfiller\n";
    let data = parse(text).unwrap();
    assert_eq!(data.regions[0].region, String::from("NORTH"));
}

#[test]
fn test_two_column_page_reading_order() {
    // Two print columns side by side: the whole left column is read first,
    // then the whole right column.
    let text = "REGION N1    REGION N2\nPARTS OF A   PARTS OF B\n";
    let data = parse(text).unwrap();
    assert_eq!(data.regions.len(), 2);
    assert_eq!(data.regions[0].region, String::from("N1"));
    assert_eq!(data.regions[0].parts.len(), 1);
    assert_eq!(data.regions[0].parts[0].part, String::from("A"));
    assert_eq!(data.regions[1].region, String::from("N2"));
    assert_eq!(data.regions[1].parts.len(), 1);
    assert_eq!(data.regions[1].parts[0].part, String::from("B"));
}

#[test]
fn test_auto_part_via_insert_area() {
    let mut data = KPLCData::new();
    data.insert_region(String::from("R"));
    let area = Area {
        area: String::from("A"),
        places: vec![],
        date: Date { day: 3, month: 4, year: 2022 },
        time: Time { start: String::from("9.00 A.M"), end: String::from("5.00 P.M") },
    };
    data.insert_area_to_last_part(area);
    assert_eq!(data.regions[0].parts.len(), 1);
    assert_eq!(data.regions[0].parts[0].part, String::new());
    assert_eq!(data.regions[0].parts[0].areas.len(), 1);
}
