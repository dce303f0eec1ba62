use std::cmp::Ordering;

use updock::display_error;
use updock::extractor::VersionExtractor;
use updock::image::{Image, ImageName};
use updock::pattern::{PatternError, Segment, VersionPattern};
use updock::search::{search_step, Step};
use updock::tag_fetcher::{ArrayFetcher, FetchError, TagSource};
use updock::version::{UpdateType, Version};
use updock::{find_update, FindUpdateError, Update};

fn v(components: &[u64]) -> Version {
    Version { components: components.to_vec() }
}

fn ubuntu() -> Image {
    Image { name: ImageName::new(None, "ubuntu".to_string()), tag: "14.04".to_string() }
}

#[test]
fn compiles_markers_and_literals() {
    let pattern = VersionPattern::parse("v<!>.<>-alpine").unwrap();
    assert_eq!(
        pattern.segments(),
        &vec![
            Segment::Literal(vec!['v']),
            Segment::Placeholder { breaking: true },
            Segment::Literal(vec!['.']),
            Segment::Placeholder { breaking: false },
            Segment::Literal("-alpine".chars().collect()),
        ]
    );
    assert_eq!(pattern.to_string(), "v<!>.<>-alpine".to_string());
}

#[test]
fn refuses_pattern_without_placeholder() {
    assert_eq!(VersionPattern::parse("latest").unwrap_err(), PatternError::NoPlaceholder);
    assert_eq!(VersionPattern::parse("").unwrap_err(), PatternError::NoPlaceholder);
}

#[test]
fn refuses_malformed_markers() {
    assert_eq!(VersionPattern::parse("<").unwrap_err(), PatternError::MalformedMarker);
    assert_eq!(VersionPattern::parse("<!.<>").unwrap_err(), PatternError::MalformedMarker);
    assert_eq!(VersionPattern::parse("<>>").unwrap_err(), PatternError::MalformedMarker);
    assert_eq!(VersionPattern::parse("<x>").unwrap_err(), PatternError::MalformedMarker);
}

#[test]
fn breaking_degree_is_last_breaking_placeholder() {
    assert_eq!(VersionPattern::parse("<!>.<!>.<>").unwrap().breaking_degree(), Some(1));
    assert_eq!(VersionPattern::parse("<>.<!>.<>").unwrap().breaking_degree(), Some(1));
    assert_eq!(VersionPattern::parse("<!>.<>").unwrap().breaking_degree(), Some(0));
    assert_eq!(VersionPattern::parse("<>.<>").unwrap().breaking_degree(), None);
}

#[test]
fn extracts_components() {
    let x = VersionExtractor::parse("<!>.<>-alpine").unwrap();
    assert_eq!(x.extract_from("3.12-alpine"), Some(v(&[3, 12])));
    assert_eq!(x.extract_from("03.012-alpine"), Some(v(&[3, 12])));
}

#[test]
fn extraction_needs_whole_tag() {
    let x = VersionExtractor::parse("<>.<>").unwrap();
    assert_eq!(x.extract_from("14.04-rc"), None);
    assert_eq!(x.extract_from("v14.04"), None);
    assert_eq!(x.extract_from("14."), None);
    assert_eq!(x.extract_from("14.x"), None);
    assert_eq!(x.extract_from(""), None);
    assert_eq!(x.extract_from("14.04"), Some(v(&[14, 4])));
}

#[test]
fn extraction_refuses_overflowing_digits() {
    let x = VersionExtractor::parse("<>").unwrap();
    assert_eq!(x.extract_from("18446744073709551615"), Some(v(&[u64::MAX])));
    assert_eq!(x.extract_from("18446744073709551616"), None);
    assert_eq!(x.extract_from("99999999999999999999999"), None);
}

#[test]
fn extraction_round_trips_numbers() {
    let x = VersionExtractor::parse("<!>.<>.<>").unwrap();
    for (a, b, c) in [(0u64, 0u64, 0u64), (1, 22, 333), (u64::MAX, 7, 0)] {
        let tag = format!("{}.{}.{}", a, b, c);
        assert_eq!(x.extract_from(&tag), Some(v(&[a, b, c])));
    }
}

#[test]
fn filter_keeps_matching_tags_in_order() {
    let x = VersionExtractor::parse("<>.<>").unwrap();
    let tags = vec![
        "latest".to_string(),
        "14.04".to_string(),
        "focal".to_string(),
        "13.10".to_string(),
    ];
    assert_eq!(x.filter(tags), vec!["14.04".to_string(), "13.10".to_string()]);
}

#[test]
fn compares_lexicographically() {
    assert_eq!(v(&[14, 5]).compare(&v(&[14, 4])), Ordering::Greater);
    assert_eq!(v(&[13, 9]).compare(&v(&[14, 0])), Ordering::Less);
    assert_eq!(v(&[14, 4]).compare(&v(&[14, 4])), Ordering::Equal);
    assert!(v(&[15, 0]).is_newer_than(&v(&[14, 9])));
    assert!(!v(&[14, 4]).is_newer_than(&v(&[14, 4])));
}

#[test]
fn classifies_updates() {
    let current = v(&[14, 4, 1]);
    assert_eq!(v(&[15, 0, 0]).update_type(&current, Some(0)), UpdateType::Breaking);
    assert_eq!(v(&[14, 5, 0]).update_type(&current, Some(0)), UpdateType::Compatible);
    assert_eq!(v(&[14, 5, 0]).update_type(&current, Some(1)), UpdateType::Breaking);
    assert_eq!(v(&[14, 4, 2]).update_type(&current, Some(1)), UpdateType::Compatible);
    assert_eq!(v(&[15, 0, 0]).update_type(&current, None), UpdateType::Compatible);
}

#[test]
fn same_items_give_same_update() {
    let image = ubuntu();
    let extractor = VersionExtractor::parse("<!>.<>").unwrap();
    let list = vec!["15.02".to_string(), "14.05".to_string(), "14.04".to_string()];
    let first = ArrayFetcher::with(image.name.clone(), list.clone());
    let second = ArrayFetcher::with(image.name.clone(), list);
    let a = find_update(&mut first.fetch(&image.name), &image, &extractor);
    let b = find_update(&mut second.fetch(&image.name), &image, &extractor);
    assert_eq!(a, b);
}

#[test]
fn stops_pulling_at_first_compatible_update() {
    let image = ubuntu();
    let extractor = VersionExtractor::parse("<!>.<>").unwrap();
    let fetcher = ArrayFetcher::with(
        image.name.clone(),
        vec!["14.06".to_string(), "14.05".to_string(), "14.04".to_string()],
    );
    let mut tags = fetcher.fetch(&image.name);
    let result = find_update(&mut tags, &image, &extractor);
    assert_eq!(
        result,
        Ok(Update { compatible: Some("14.06".to_string()), breaking: None })
    );
    assert_eq!(tags.next_tag(), Some(Ok("14.05".to_string())));
}

#[test]
fn skips_unrelated_tags() {
    let image = ubuntu();
    let extractor = VersionExtractor::parse("<!>.<>").unwrap();
    let fetcher = ArrayFetcher::with(
        image.name.clone(),
        vec!["latest".to_string(), "16.04".to_string(), "15.10".to_string(), "14.04".to_string()],
    );
    let result = find_update(&mut fetcher.fetch(&image.name), &image, &extractor);
    assert_eq!(result, Ok(Update { compatible: None, breaking: Some("16.04".to_string()) }));
}

#[test]
fn breaking_update_without_current_tag() {
    let image = ubuntu();
    let extractor = VersionExtractor::parse("<!>.<>").unwrap();
    let fetcher = ArrayFetcher::with(image.name.clone(), vec!["15.02".to_string()]);
    let result = find_update(&mut fetcher.fetch(&image.name), &image, &extractor);
    assert_eq!(result, Ok(Update { compatible: None, breaking: Some("15.02".to_string()) }));
}

#[test]
fn empty_source_signals_missing_tag() {
    let image = ubuntu();
    let extractor = VersionExtractor::parse("<!>.<>").unwrap();
    let fetcher = ArrayFetcher::with(image.name.clone(), vec![]);
    let result = find_update(&mut fetcher.fetch(&image.name), &image, &extractor);
    assert_eq!(result, Err(FindUpdateError::CurrentTagNotEncountered { searched_amount: 0 }));
}

#[test]
fn rejects_current_tag_outside_pattern() {
    let image = Image { name: ImageName::new(None, "ubuntu".to_string()), tag: "focal".to_string() };
    let extractor = VersionExtractor::parse("<!>.<>").unwrap();
    let fetcher = ArrayFetcher::with(image.name.clone(), vec!["14.04".to_string()]);
    let mut tags = fetcher.fetch(&image.name);
    let result = find_update(&mut tags, &image, &extractor);
    assert_eq!(
        result,
        Err(FindUpdateError::CurrentTagPatternConflict {
            current_tag: "focal".to_string(),
            pattern: "<!>.<>".to_string(),
        })
    );
    assert_eq!(tags.next_tag(), Some(Ok("14.04".to_string())));
}

#[test]
fn step_decides_each_kind_of_item() {
    let extractor = VersionExtractor::parse("<!>.<>").unwrap();
    let tag = "14.04".to_string();
    let current = v(&[14, 4]);
    let done = |s: Step<FetchError>| match s {
        Step::Done(r) => Some(r),
        Step::Continue(_) => None,
    };
    let cont = |s: Step<FetchError>| match s {
        Step::Continue(b) => Some(b),
        Step::Done(_) => None,
    };
    assert_eq!(
        done(search_step(&extractor, &tag, &current, None, Err(FetchError::new("x".to_string())))),
        Some(Err(FindUpdateError::FetchError(FetchError::new("x".to_string()))))
    );
    assert_eq!(
        cont(search_step(&extractor, &tag, &current, None, Ok("15.01".to_string()))),
        Some(Some("15.01".to_string()))
    );
    assert_eq!(
        cont(search_step(
            &extractor,
            &tag,
            &current,
            Some("16.01".to_string()),
            Ok("15.01".to_string())
        )),
        Some(Some("16.01".to_string()))
    );
    assert_eq!(
        cont(search_step(&extractor, &tag, &current, None, Ok("14.03".to_string()))),
        Some(None)
    );
    assert_eq!(
        cont(search_step(&extractor, &tag, &current, None, Ok("14.4".to_string()))),
        Some(None)
    );
    assert_eq!(
        done(search_step(&extractor, &tag, &current, None, Ok("14.04".to_string()))),
        Some(Ok(Update { compatible: None, breaking: None }))
    );
}

#[test]
fn fetcher_fails_for_unknown_image() {
    let fetcher = ArrayFetcher::with(ImageName::new(None, "ubuntu".to_string()), vec![]);
    let name = ImageName::new(Some("library".to_string()), "alpine".to_string());
    let mut tags = fetcher.fetch(&name);
    assert_eq!(tags.next_tag(), Some(Err(FetchError::new("library/alpine".to_string()))));
    assert_eq!(tags.next_tag(), None);
}

#[test]
fn image_name_text() {
    assert_eq!(ImageName::new(None, "ubuntu".to_string()).to_string(), "ubuntu".to_string());
    assert_eq!(
        ImageName::new(Some("bitnami".to_string()), "redis".to_string()).to_string(),
        "bitnami/redis".to_string()
    );
}

#[test]
fn displays_error_chain() {
    let messages = vec![
        "Failed to fetch tags".to_string(),
        "connection refused".to_string(),
        "timeout".to_string(),
    ];
    assert_eq!(
        display_error(&messages),
        "Failed to fetch tags: connection refused: timeout".to_string()
    );
    assert_eq!(display_error(&vec!["alone".to_string()]), "alone".to_string());
    assert_eq!(display_error(&vec![]), String::new());
}
