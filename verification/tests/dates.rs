use pnk2json::colors::{civil_from_days, iso_from_millis};

#[test]
fn civil_dates_of_day_numbers() {
    assert_eq!(civil_from_days(0), (1970, 1, 1));
    // 2001-01-01 is day 11323 after 1970-01-01
    assert_eq!(civil_from_days(11_323), (2001, 1, 1));
    assert_eq!(civil_from_days(11_323 + 59), (2001, 3, 1));
    assert_eq!(civil_from_days(11_322), (2000, 12, 31));
    assert_eq!(civil_from_days(-1), (1969, 12, 31));
    // leap days
    assert_eq!(civil_from_days(11_016), (2000, 2, 29));
    assert_eq!(civil_from_days(-25_508), (1900, 3, 1));
    assert_eq!(civil_from_days(-25_509), (1900, 2, 28));
    assert_eq!(civil_from_days(-719_468), (0, 3, 1));
    assert_eq!(civil_from_days(-719_469), (0, 2, 29));
}

#[test]
fn iso_text_of_timestamps() {
    // 2001-01-01T00:00:00Z = 978307200 unix seconds
    assert_eq!(iso_from_millis(978_307_200_000), "2001-01-01T00:00:00Z");
    assert_eq!(iso_from_millis(978_307_200_000 + 86_400_000), "2001-01-02T00:00:00Z");
    // 1971-01-01T00:00:00Z
    assert_eq!(iso_from_millis(31_536_000_000), "1971-01-01T00:00:00Z");
    assert_eq!(iso_from_millis(1_500), "1970-01-01T00:00:01.500Z");
    assert_eq!(iso_from_millis(-1), "1969-12-31T23:59:59.999Z");
    assert_eq!(iso_from_millis(3_723_004), "1970-01-01T01:02:03.004Z");
    assert_eq!(iso_from_millis(-62_198_755_200_000), "-001-01-01T00:00:00Z");
    assert_eq!(iso_from_millis(253_402_300_800_000), "10000-01-01T00:00:00Z");
}
