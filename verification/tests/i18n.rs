use diskharitasi::builder::TreeBuilder;
use diskharitasi::i18n::{date, date_pattern, human, t, thousands, Lang};

#[test]
fn binlik_ayirici() {
    assert_eq!(thousands(4269932544, Lang::En), "4,269,932,544");
    assert_eq!(thousands(999, Lang::Tr), "999");
    assert_eq!(thousands(1000, Lang::Tr), "1.000");
}

#[test]
fn thousands_edges() {
    assert_eq!(thousands(0, Lang::Tr), "0");
    assert_eq!(thousands(12, Lang::En), "12");
    assert_eq!(thousands(123456, Lang::Tr), "123.456");
    assert_eq!(thousands(1234567, Lang::Tr), "1.234.567");
    assert_eq!(thousands(u64::MAX, Lang::En), "18,446,744,073,709,551,615");
}

#[test]
fn human_bytes_below_a_kib() {
    assert_eq!(human(0, Lang::En), "0 B");
    assert_eq!(human(1023, Lang::Tr), "1023 B");
}

#[test]
fn human_units_and_rounding() {
    assert_eq!(human(1024, Lang::En), "1.0 KiB");
    assert_eq!(human(1536, Lang::Tr), "1,5 KiB");
    // 1280 B is 1.25 KiB exactly: the tie goes to the even digit.
    assert_eq!(human(1280, Lang::En), "1.2 KiB");
    assert_eq!(human(1331, Lang::En), "1.3 KiB");
    assert_eq!(human(1048575, Lang::En), "1024.0 KiB");
    assert_eq!(human(7146825580544, Lang::Tr), "6,5 TiB");
    assert_eq!(human(1125899906842624, Lang::En), "1.0 PiB");
}

#[test]
fn human_large_values_go_through_f64() {
    assert_eq!(human(9007199254740993, Lang::En), "8.0 PiB");
    assert_eq!(human(u64::MAX, Lang::En), "16384.0 PiB");
}

#[test]
fn string_tables() {
    assert_eq!(t(Lang::Tr).app, "Disk Haritası");
    assert_eq!(t(Lang::En).app, "Disk Map");
    assert_eq!(t(Lang::Tr).delete, "Sil");
    assert_eq!(t(Lang::En).col_date, "Modified");
    assert!(Lang::default() == Lang::Tr);
}

#[test]
fn date_formats() {
    assert_eq!(date_pattern(Lang::Tr), "%d.%m.%Y  %H:%M:%S");
    assert_eq!(date_pattern(Lang::En), "%d %b %Y  %H:%M:%S");
    assert_eq!(date(0, 0, Lang::Tr), "01.01.1970  00:00:00");
    assert_eq!(date(0, 0, Lang::En), "01 Jan 1970  00:00:00");
    assert_eq!(date(0, 3600, Lang::Tr), "01.01.1970  01:00:00");
    assert_eq!(date(0, -3600, Lang::En), "31 Dec 1969  23:00:00");
    assert_eq!(date(1_000_000_000, 10800, Lang::Tr), "09.09.2001  04:46:40");
    assert_eq!(date(i64::MAX, 0, Lang::En), "");
}

#[test]
fn date_range_edges() {
    assert!(!date(8_210_266_876_799, 0, Lang::Tr).is_empty());
    assert!(!date(8_210_266_876_799, 86_399, Lang::Tr).is_empty());
    assert!(!date(-8_334_601_228_800, -86_399, Lang::En).is_empty());
    assert_eq!(date(8_210_266_876_800, 0, Lang::Tr), "");
    assert!(!date(-8_334_601_228_800, 0, Lang::En).is_empty());
    assert_eq!(date(-8_334_601_228_801, 0, Lang::En), "");
    assert_eq!(date(i64::MIN, 0, Lang::Tr), "");
}

#[test]
fn date_shapes_follow_the_language() {
    let tr: Vec<char> = date(86_400 * 400, 0, Lang::Tr).chars().collect();
    assert_eq!(tr.len(), 20);
    assert_eq!(tr[2], '.');
    assert_eq!(tr[5], '.');
    assert_eq!(tr[10], ' ');
    assert_eq!(tr[11], ' ');
    assert_eq!(tr[14], ':');
    assert_eq!(tr[17], ':');
    assert!(tr.iter().enumerate().all(|(i, c)| [2, 5, 10, 11, 14, 17].contains(&i) || c.is_ascii_digit()));
    let en: Vec<char> = date(86_400 * 400, 0, Lang::En).chars().collect();
    assert_eq!(en.len(), 21);
    assert_eq!(en[2], ' ');
    assert_eq!(en[6], ' ');
    let month: String = en[3..6].iter().collect();
    assert!(["Jan", "Feb", "Mar", "Apr", "May", "Jun", "Jul", "Aug", "Sep", "Oct", "Nov", "Dec"].contains(&month.as_str()));
    let far: Vec<char> = date(8_210_266_876_799, 0, Lang::Tr).chars().collect();
    assert_eq!(far[6], '+');
}

#[test]
fn root_counts_itself() {
    let b = TreeBuilder::new("/e".to_string(), None, 0, 0, true, 1, false);
    let mut t = b.into_tree(b"/e".to_vec(), 0, 0, false);
    assert!(t.totals_fit());
    t.finalize();
    assert_eq!(t.nodes[0].dirs, 1);
    assert_eq!(t.nodes[0].files, 0);
}
