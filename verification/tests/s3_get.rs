use sector_store::s3::datastore::{Datastore, Object};
use sector_store::s3::error::S3Error;
use sector_store::s3::extract::check_parts_fit;
use sector_store::s3::get::get_object_with_ranges;
use sector_store::s3::parts::{part_key, Part};
use sector_store::s3::plan::{plan_ranges, GetObject, PartRequest, Span};
use sector_store::s3::range::{parse_range, range_header, range_to_string};
use sector_store::s3::response::{
    entries_to_parts, find_boundary, response_body, MultipartEntry, ResponseBody,
};
use sector_store::text::{contains, numeral_at};

fn text(s: &str) -> Option<String> {
    Some(s.to_string())
}

fn object(len: usize) -> Vec<u8> {
    (0..len).map(|i| (i * 7 % 251) as u8).collect()
}

/// The part `num` of an object.
fn part_of(object: &[u8], part_size: usize, num: u64) -> Vec<u8> {
    let from = num as usize * part_size;
    let mut part = object[from..std::cmp::min(object.len(), from + part_size)].to_vec();
    part.resize(part_size, 0);
    part
}

/// Answers every request of a plan with exactly the runs that were asked for.
fn answer(plan: &GetObject, object: &[u8]) -> Vec<Vec<Part>> {
    plan.requests
        .iter()
        .map(|request| {
            let part = part_of(object, plan.part_size as usize, request.parts_num);
            request
                .spans
                .iter()
                .map(|span| Part {
                    offset: span.start as u64,
                    data: part[span.start..span.start + span.len].to_vec(),
                })
                .collect()
        })
        .collect()
}

#[test]
fn byte_ranges_are_written() {
    assert_eq!(range_to_string((Some(5), Some(9))).unwrap(), "5-9");
    assert_eq!(range_to_string((Some(5), None)).unwrap(), "5-");
    assert_eq!(range_to_string((None, Some(9))).unwrap(), "-9");
    assert_eq!(
        range_to_string((Some(0), Some(u64::MAX))).unwrap(),
        "0-18446744073709551615"
    );
    let error = range_to_string((None, None)).unwrap_err();
    assert_eq!(error, S3Error::InvalidRange);
    assert_eq!(error.message(), "range params is invalid");
    assert_eq!(range_header(0, 99), "bytes=0-99");
}

#[test]
fn content_ranges_are_read() {
    assert_eq!(parse_range("bytes 0-9/100"), Ok((0, 9, 100)));
    assert_eq!(parse_range("bytes 007-+9/18446744073709551615"), Ok((7, 9, u64::MAX)));
    for wrong in [
        "",
        "bytes",
        "bytes 0-9",
        "bytes 0-9/",
        "bytes 0-9/*",
        "bytes -9/100",
        "bytes=0-9/100",
        " bytes 0-9/100",
        "bytes 0-9/100 ",
        "bytes 18446744073709551616-0/0",
        "bytes 000000000000000000000-1/1",
        "bytes 1 -2/3",
    ] {
        assert_eq!(parse_range(wrong), Err(S3Error::ParseRange));
    }
    assert_eq!(S3Error::ParseRange.message(), "parse range error");
}

#[test]
fn a_written_content_range_reads_back() {
    for (start, end, total) in [(0, 0, 1), (7, 1234567890, u64::MAX), (u64::MAX, 0, 10)] {
        let written = format!("bytes {}-{}/{}", start, end, total);
        assert_eq!(parse_range(&written), Ok((start, end, total)));
    }
}

#[test]
fn numerals_end_where_the_digits_do() {
    let chars: Vec<char> = "x+42-7".chars().collect();
    assert_eq!(numeral_at(&chars, 1), Some((42, 4)));
    assert_eq!(numeral_at(&chars, 0), None);
    assert_eq!(numeral_at(&chars, 5), Some((7, 6)));
    assert_eq!(numeral_at(&chars, 6), None);
}

#[test]
fn part_keys_name_object_and_number() {
    assert_eq!(part_key("plots/a", 0), "plots/a/0");
    assert_eq!(part_key("plots/a", 120), "plots/a/120");
    assert_ne!(part_key("a/1", 2), part_key("a", 12));
}

#[test]
fn single_run_responses() {
    assert_eq!(
        response_body(text("binary/octet-stream"), text("bytes 3-9/100")),
        Ok(ResponseBody::Single { start: 3 })
    );
    assert_eq!(
        response_body(None, text("bytes 3-9/100")),
        Err(S3Error::MissingContentType)
    );
    assert_eq!(
        response_body(text("application/octet-stream"), None),
        Err(S3Error::MissingContentRange)
    );
    assert_eq!(
        response_body(text("application/octet-stream"), text("3-9")),
        Err(S3Error::ParseRange)
    );
    for backward in ["bytes 9-0/100", "bytes 1-0/100", "bytes 0-18446744073709551615/1"] {
        assert_eq!(
            response_body(text("application/octet-stream"), text(backward)),
            Err(S3Error::ParseRange)
        );
    }
    assert_eq!(
        response_body(text("application/octet-stream"), text("bytes 9-9/100")),
        Ok(ResponseBody::Single { start: 9 })
    );
    assert_eq!(S3Error::MissingContentType.message(), "Content-Type can't be empty");
    assert_eq!(S3Error::MissingContentRange.message(), "Content-Range can't be empty");
    assert!(contains("a octet-stream b", "octet-stream"));
    assert!(!contains("octet stream", "octet-stream"));
}

#[test]
fn multi_run_responses() {
    assert_eq!(
        response_body(text("multipart/byteranges; boundary=abc"), None),
        Ok(ResponseBody::Multipart { boundary: "abc".to_string() })
    );
    assert_eq!(
        response_body(text("multipart/byteranges;boundary=x y"), None),
        Ok(ResponseBody::Multipart { boundary: "x y".to_string() })
    );
    for wrong in ["text/plain", "multipart/byteranges; boundary=", "multipart/byteranges;boundary=a\nb"] {
        assert_eq!(response_body(text(wrong), None), Err(S3Error::MissingBoundary));
        assert_eq!(find_boundary(wrong), None);
    }
    assert_eq!(S3Error::MissingBoundary.message(), "get boundary error");
}

#[test]
fn entries_become_runs_of_bytes() {
    let entry = |range: Option<&str>, data: &[u8]| MultipartEntry {
        content_range: range.map(|r| r.to_string()),
        data: data.to_vec(),
    };
    let entries = vec![entry(Some("bytes 4-5/9"), &[1, 2]), entry(Some("bytes 0-0/9"), &[3])];
    let parts = entries_to_parts(entries, None).unwrap();
    assert!(
        parts
            == vec![
                Part { offset: 4, data: vec![1, 2] },
                Part { offset: 0, data: vec![3] }
            ]
    );
    assert_eq!(
        entries_to_parts(vec![entry(None, &[1])], text("broken")).unwrap_err(),
        S3Error::MissingEntryContentRange
    );
    assert_eq!(
        entries_to_parts(vec![entry(Some("4"), &[1])], None).unwrap_err(),
        S3Error::ParseRange
    );
    assert_eq!(
        entries_to_parts(vec![entry(Some("bytes 5-4/9"), &[1])], text("broken")).unwrap_err(),
        S3Error::ParseRange
    );
    let error = entries_to_parts(vec![entry(Some("bytes 4-5/9"), &[1, 2])], text("broken")).unwrap_err();
    assert_eq!(error, S3Error::Multipart { error: "broken".to_string() });
    assert_eq!(error.message(), "broken");
    assert_eq!(S3Error::MissingEntryContentRange.message(), "content-Range can't be empty");
}

#[test]
fn ranges_are_laid_out_over_parts() {
    let plan = plan_ranges(&[(8, 15), (0, 3), (12, 0), (29, 1)], 10);
    let spans: Vec<(u64, Vec<Span>)> =
        plan.requests.iter().map(|r| (r.parts_num, r.spans.clone())).collect();
    assert_eq!(
        spans,
        vec![
            (
                0,
                vec![
                    Span { start: 8, len: 2, range: 0, at: 0 },
                    Span { start: 0, len: 3, range: 1, at: 0 }
                ]
            ),
            (1, vec![Span { start: 0, len: 10, range: 0, at: 2 }]),
            (
                2,
                vec![
                    Span { start: 0, len: 3, range: 0, at: 12 },
                    Span { start: 9, len: 1, range: 3, at: 0 }
                ]
            ),
        ]
    );
    let headers: Vec<String> = plan.requests.iter().map(|r| r.range_header()).collect();
    assert_eq!(headers, vec!["bytes=8-9, 0-2", "bytes=0-9", "bytes=0-2, 9-9"]);
}

#[test]
fn ranges_read_back_as_the_object() {
    let whole = object(95);
    let ranges = [(0u64, 95u64), (8, 15), (19, 1), (20, 0), (40, 40), (8, 15)];
    let plan = plan_ranges(&ranges, 10);
    let runs = answer(&plan, &whole);
    assert!(runs.iter().all(check_parts_fit));
    let parts = plan.finish(&runs).unwrap();
    assert_eq!(parts.len(), ranges.len());
    for (part, (offset, len)) in parts.iter().zip(ranges) {
        assert_eq!(part.offset, offset);
        assert_eq!(part.data, whole[offset as usize..(offset + len) as usize].to_vec());
    }
}

#[test]
fn a_merged_response_serves_several_spans() {
    let whole = object(30);
    let plan = plan_ranges(&[(2, 3), (6, 2)], 30);
    let runs = vec![vec![
        Part { offset: 20, data: whole[20..22].to_vec() },
        Part { offset: 1, data: whole[1..10].to_vec() },
        Part { offset: 2, data: Vec::new() },
    ]];
    let parts = plan.finish(&runs).unwrap();
    assert_eq!(parts[0].data, whole[2..5].to_vec());
    assert_eq!(parts[1].data, whole[6..8].to_vec());
}

#[test]
fn the_first_run_by_position_serves() {
    let request = PartRequest {
        parts_num: 0,
        spans: vec![Span { start: 5, len: 2, range: 0, at: 0 }],
    };
    let run = |offset: u64, data: &[u8]| Part { offset, data: data.to_vec() };
    // The run that starts earlier goes first, then the shorter one, then the one named earlier.
    let later = run(5, &[1, 1]);
    let earlier = run(4, &[2, 2, 2, 2]);
    let shorter = run(4, &[3, 3, 3]);
    let same = run(4, &[4, 4, 4]);
    assert_eq!(request.extract(&vec![run(5, &[1, 1])]).unwrap(), vec![vec![1, 1]]);
    assert_eq!(
        request.extract(&vec![later.clone(), earlier.clone()]).unwrap(),
        vec![vec![2, 2]]
    );
    assert_eq!(
        request.extract(&vec![later.clone(), earlier.clone(), shorter.clone()]).unwrap(),
        vec![vec![3, 3]]
    );
    assert_eq!(
        request.extract(&vec![same.clone(), later, earlier, shorter]).unwrap(),
        vec![vec![4, 4]]
    );
}

#[test]
fn a_response_without_the_bytes_is_refused() {
    let plan = plan_ranges(&[(2, 3)], 10);
    for runs in [
        vec![],
        vec![Part { offset: 3, data: vec![0; 7] }],
        vec![Part { offset: 0, data: vec![0; 4] }],
        vec![Part { offset: 2, data: vec![0; 2] }, Part { offset: 4, data: vec![0; 1] }],
    ] {
        let error = plan.finish(&vec![runs]).unwrap_err();
        assert_eq!(error, S3Error::ParseRanges);
        assert_eq!(error.message(), "parse ranges failed");
    }
}

#[test]
fn runs_beyond_the_numbers_are_noticed() {
    assert!(check_parts_fit(&vec![Part { offset: u64::MAX - 2, data: vec![0; 2] }]));
    assert!(!check_parts_fit(&vec![Part { offset: u64::MAX - 1, data: vec![0; 2] }]));
}

#[test]
fn only_known_objects_are_read() {
    let mut store = Datastore::new(None);
    assert!(matches!(get_object_with_ranges(&store, "a", &[]), Ok(None)));
    let error = get_object_with_ranges(&store, "a", &[(0, 1)]).unwrap_err();
    assert_eq!(error, S3Error::NotFound { key: "a".to_string() });
    assert_eq!(error.message(), "a not found");
    store.put(Object { key: "a".to_string(), total_size: 5, part_size: 4, parts_len: 2 });
    let plan = get_object_with_ranges(&store, "a", &[(3, 2)]).unwrap().unwrap();
    assert_eq!(plan.part_size, 4);
    assert_eq!(plan.requests.len(), 2);
}

#[test]
fn more_bytes_than_a_buffer_can_hold_are_refused() {
    let most = isize::MAX as u64;
    let range = |len: u64| text(&format!("bytes 3-{}/0", 3 + (len - 1)));
    let kind = || text("application/octet-stream");
    assert_eq!(response_body(kind(), range(most)), Ok(ResponseBody::Single { start: 3 }));
    assert_eq!(response_body(kind(), range(most + 1)), Err(S3Error::ParseRange));
}
