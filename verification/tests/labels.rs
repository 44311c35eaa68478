use knn::parse::breast_cancer::{opposite_diagnosis, Diagnosis};
use knn::parse::phones::{gender_value, is_numeric_field, parse_os, to_os, PhoneOs};
use knn::parse::subtitles::{is_source_text, is_value_field, parse_source, to_source, Source};
use knn::text::text_is;

#[test]
fn operating_systems_are_read_by_name() {
    assert_eq!(to_os("Android"), PhoneOs::Android);
    assert_eq!(to_os("iOS"), PhoneOs::IOs);
    assert_eq!(parse_os("Android"), Some(PhoneOs::Android));
    assert_eq!(parse_os("iOS"), Some(PhoneOs::IOs));
}

#[test]
fn other_operating_systems_are_not_read() {
    for text in ["", "android", "IOS", "ios", "Android ", " iOS", "Windows", "iOSS"] {
        assert_eq!(parse_os(text), None);
    }
}

#[test]
fn genders_are_read_as_feature_values() {
    assert_eq!(gender_value("Female"), Some(0));
    assert_eq!(gender_value("Male"), Some(1));
    assert_eq!(gender_value("male"), None);
    assert_eq!(gender_value(""), None);
}

#[test]
fn phone_features_are_columns_three_to_eight() {
    let numeric: Vec<usize> = (0..12).filter(|index| is_numeric_field(*index)).collect();
    assert_eq!(numeric, vec![3, 4, 5, 6, 7, 8]);
    assert!(!is_numeric_field(usize::MAX));
}

#[test]
fn sources_are_read_by_name() {
    let named = [
        ("Original", Source::Original),
        ("Manga", Source::Manga),
        ("Light Novel", Source::LightNovel),
        ("Web Novel", Source::WebNovel),
        ("Novel", Source::Novel),
        ("Anime", Source::Anime),
        ("Visual Novel", Source::VisualNovel),
        ("Video Game", Source::VideoGame),
        ("Doujinshi", Source::Doujinshi),
        ("Comic", Source::Comic),
        ("Live Action", Source::LiveAction),
        ("Game", Source::Game),
        ("Multimedia Project", Source::MultimediaProject),
        ("Other", Source::Other),
    ];
    for (text, source) in named {
        assert_eq!(to_source(text), Ok(source));
        assert_eq!(parse_source(text), Some(source));
        assert!(is_source_text(text));
    }
}

#[test]
fn unknown_source_mark_is_an_error() {
    assert_eq!(to_source("?"), Err("no source"));
    assert_eq!(parse_source("?"), None);
    assert!(is_source_text("?"));
}

#[test]
fn other_texts_are_no_source_texts() {
    for text in ["", "manga", "LightNovel", "Light  Novel", "??", "Game ", "Novell", "Unknown"] {
        assert_eq!(parse_source(text), None);
        assert!(!is_source_text(text));
    }
}

#[test]
fn anime_features_skip_the_source_and_the_company_flags() {
    assert!(!is_value_field(0));
    assert!(!is_value_field(30));
    assert!(is_value_field(31));
    assert!(is_value_field(36));
    assert!(!is_value_field(37));
    assert!(!is_value_field(500));
    assert!(!is_value_field(970));
    assert!(is_value_field(971));
    assert!(is_value_field(usize::MAX));
    assert_eq!((0..1000).filter(|index| is_value_field(*index)).count(), 6 + 29);
}

#[test]
fn diagnoses_are_each_other_s_opposite() {
    assert_eq!(opposite_diagnosis(Diagnosis::Malignant), Diagnosis::Benign);
    assert_eq!(opposite_diagnosis(Diagnosis::Benign), Diagnosis::Malignant);
}

#[test]
fn texts_are_compared_character_by_character() {
    assert!(text_is("", ""));
    assert!(text_is("abc", "abc"));
    assert!(!text_is("abc", "abd"));
    assert!(!text_is("abc", "ab"));
    assert!(!text_is("ab", "abc"));
    assert!(text_is("naïve café", "naïve café"));
    assert!(!text_is("naïve", "naive"));
    assert!(!text_is("é", "e\u{301}"));
}
