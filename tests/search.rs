use updock::extractor::VersionExtractor;
use updock::image::{Image, ImageName};
use updock::tag_fetcher::{ArrayFetcher, FetchError};
use updock::{find_update, FindUpdateError, Update};

#[test]
fn finds_compatible_update() {
    let image = Image {
        name: ImageName::new(None, "ubuntu".to_string()),
        tag: "14.04".to_string(),
    };
    let extractor = VersionExtractor::parse("<!>.<>").unwrap();

    let fetcher = ArrayFetcher::with(
        image.name.clone(),
        vec![
            "14.05".to_string(),
            "14.04".to_string(),
            "14.03".to_string(),
            "13.03".to_string(),
        ],
    );

    let mut tags = fetcher.fetch(&image.name);
    let result = find_update(&mut tags, &image, &extractor);
    let actual = result.unwrap_or_else(|error| panic!("{:?}", error));
    assert_eq!(
        actual,
        Update {
            compatible: Some("14.05".to_string()),
            breaking: None,
        },
    );
}

#[test]
fn finds_breaking_update() {
    let image = Image {
        name: ImageName::new(None, "ubuntu".to_string()),
        tag: "14.04".to_string(),
    };
    let extractor = VersionExtractor::parse("<!>.<>").unwrap();

    let fetcher = ArrayFetcher::with(
        image.name.clone(),
        vec![
            "15.02".to_string(),
            "14.04".to_string(),
            "14.03".to_string(),
            "13.03".to_string(),
        ],
    );

    let mut tags = fetcher.fetch(&image.name);
    let result = find_update(&mut tags, &image, &extractor);
    let actual = result.unwrap_or_else(|error| panic!("{:?}", error));
    assert_eq!(
        actual,
        Update {
            compatible: None,
            breaking: Some("15.02".to_string()),
        },
    );
}

#[test]
fn finds_compatible_and_breaking_update() {
    let image = Image {
        name: ImageName::new(None, "ubuntu".to_string()),
        tag: "14.04".to_string(),
    };
    let extractor = VersionExtractor::parse("<!>.<>").unwrap();

    let fetcher = ArrayFetcher::with(
        image.name.clone(),
        vec![
            "15.02".to_string(),
            "14.05".to_string(),
            "14.04".to_string(),
            "14.03".to_string(),
            "13.03".to_string(),
        ],
    );

    let mut tags = fetcher.fetch(&image.name);
    let result = find_update(&mut tags, &image, &extractor);
    let actual = result.unwrap_or_else(|error| panic!("{:?}", error));
    assert_eq!(
        actual,
        Update {
            compatible: Some("14.05".to_string()),
            breaking: Some("15.02".to_string()),
        },
    );
}

#[test]
fn ignores_lesser_version() {
    let image = Image {
        name: ImageName::new(None, "ubuntu".to_string()),
        tag: "14.04".to_string(),
    };
    let extractor = VersionExtractor::parse("<>.<>").unwrap();

    let fetcher = ArrayFetcher::with(
        image.name.clone(),
        vec![
            "14.04".to_string(),
            "14.03".to_string(),
            "13.03".to_string(),
        ],
    );

    let mut tags = fetcher.fetch(&image.name);
    let result = find_update(&mut tags, &image, &extractor);
    let actual = result.unwrap_or_else(|error| panic!("{:?}", error));
    assert_eq!(
        actual,
        Update {
            compatible: None,
            breaking: None,
        },
    );
}

#[test]
fn signals_missing_tag() {
    let image = Image {
        name: ImageName::new(None, "ubuntu".to_string()),
        tag: "14.04".to_string(),
    };
    let extractor = VersionExtractor::parse("<!>.<>").unwrap();

    let fetcher = ArrayFetcher::with(
        image.name.clone(),
        vec![
            "14.03".to_string(),
            "14.02".to_string(),
            "13.03".to_string(),
        ],
    );

    let mut tags = fetcher.fetch(&image.name);
    let result = find_update(&mut tags, &image, &extractor);
    assert_eq!(
        result,
        Err(FindUpdateError::CurrentTagNotEncountered { searched_amount: 3 })
    );
}

#[test]
fn forwards_fetch_failure() {
    let image = Image {
        name: ImageName::new(None, "ubuntu".to_string()),
        tag: "14.04".to_string(),
    };
    let extractor = VersionExtractor::parse("<!>.<>").unwrap();

    // An empty fetcher knows no image, so every pull of tags fails.
    let fetcher = ArrayFetcher::new();

    let mut tags = fetcher.fetch(&image.name);
    let result = find_update(&mut tags, &image, &extractor);
    assert_eq!(
        result,
        Err(FindUpdateError::FetchError(FetchError::new(image.name.to_string())))
    );
}
