use dynon_usb_updater::checker::{self, FetchError, Listing, Selection, SimpleDate, Validity};
use dynon_usb_updater::scan::Cycle;

fn date(year: i32, month: u8, day: u8) -> SimpleDate {
    SimpleDate { year, month, day }
}

fn parse(html: &str) -> Vec<Listing> {
    assert!(checker::page_is_readable(html));
    checker::parse_dynon_page(html)
}

const CERTIFIED_PAGE: &str = r#"
<h2>Current Data</h2>
<p>Aviation Valid: July 9 - August 5 (Cycle: 2607)</p>
<p>Obstacle Valid: June 12 - August 6 (Cycle: 2604)</p>
<a href="software/data/FAA_av2607_ob2604.duc">Download</a>
<h2>Upcoming Data</h2>
<p>Aviation Valid: August 6 - September 2 (Cycle: 2608)</p>
<p>Obstacle Valid: June 12 - August 6 (Cycle: 2604)</p>
<a href="software/data/FAA_av2608_ob2604.duc">Download</a>
"#;

const EXPERIMENTAL_PAGE: &str = r#"
<table><tr><td>Valid: August 6 - September 2 (Cycle: 2608)</td>
<td>Valid:June 12 - August 6(Cycle:2604)</td>
<td><a href="/downloads/Software/Us-av-ob/FAA_av2608_ob2604.duc">get</a></td></tr></table>
<!-- <h2>Upcoming Data</h2>
Valid: September 3 - October 1 (Cycle: 2609)
<a href="/downloads/Software/Us-av-ob/FAA_av2609_ob2604.duc">commented-out block leaked through</a> -->
"#;

#[test]
fn no_listings_selects_nothing() {
    assert_eq!(
        checker::select(
            &[],
            SimpleDate {
                year: 2026,
                month: 1,
                day: 1
            }
        ),
        None
    );
}

#[test]
fn page_url_is_gated_by_system_type_never_inferred() {
    assert_eq!(checker::page_url("certified"), checker::CERTIFIED_PAGE_URL);
    assert_eq!(
        checker::page_url("experimental"),
        checker::EXPERIMENTAL_PAGE_URL
    );
    // An unset/unknown value must not silently resolve to certified.
    assert_eq!(checker::page_url("unset"), checker::EXPERIMENTAL_PAGE_URL);
}

#[test]
fn an_inline_experimental_page_yields_one_current_listing() {
    let listings = parse(EXPERIMENTAL_PAGE);
    assert_eq!(listings.len(), 1, "commented-out block leaked through");
    let l = &listings[0];
    assert_eq!(l.href, "/downloads/Software/Us-av-ob/FAA_av2608_ob2604.duc");
    assert_eq!(l.filename(), "FAA_av2608_ob2604.duc");
    assert_eq!(l.aviation_cycle.unwrap().label(), "2608");
    assert_eq!(l.obstacle_cycle.unwrap().label(), "2604");
    let v = l.aviation_valid.as_ref().unwrap();
    assert_eq!(v.text, "August 6 - September 2");
    assert_eq!(v.start, date(2026, 8, 6));
    assert_eq!(v.end, date(2026, 9, 2));
    match checker::select(&listings, date(2026, 7, 1)) {
        Some(Selection::Current(x)) => assert_eq!(x, listings[0]),
        other => panic!("a single listing is current, got {other:?}"),
    }
}

#[test]
fn an_inline_certified_page_yields_current_and_upcoming_separately() {
    let listings = parse(CERTIFIED_PAGE);
    assert_eq!(listings.len(), 2);
    assert_eq!(listings[0].href, "software/data/FAA_av2607_ob2604.duc");
    assert_eq!(listings[0].aviation_cycle.unwrap().label(), "2607");
    assert_eq!(
        listings[0].aviation_valid.as_ref().unwrap().text,
        "July 9 - August 5"
    );
    assert_eq!(listings[1].aviation_cycle.unwrap().label(), "2608");
    assert_eq!(listings[1].obstacle_cycle.unwrap().label(), "2604");

    // Picked by the validity window, not by the page's own labels.
    match checker::select(&listings, date(2026, 7, 20)) {
        Some(Selection::Current(l)) => assert_eq!(l.aviation_cycle.unwrap().label(), "2607"),
        other => panic!("expected 2607 current, got {other:?}"),
    }
    match checker::select(&listings, date(2026, 8, 24)) {
        Some(Selection::Current(l)) => assert_eq!(l.aviation_cycle.unwrap().label(), "2608"),
        other => panic!("expected 2608 current, got {other:?}"),
    }
    match checker::select(&listings, date(2026, 7, 1)) {
        Some(Selection::UpcomingOnly(l)) => {
            assert_eq!(l.aviation_cycle.unwrap().label(), "2607")
        }
        other => panic!("expected 2607 surfaced as upcoming, got {other:?}"),
    }
    assert_eq!(checker::select(&listings, date(2030, 1, 1)), None);
}

#[test]
fn a_window_crossing_new_year_ends_the_next_year() {
    let listings = parse(
        r#"Valid: December 25 - January 21 (Cycle: 2613) <a href="x/FAA_av2613_ob2612.duc">x</a>"#,
    );
    let v = listings[0].aviation_valid.as_ref().unwrap();
    assert_eq!(v.start, date(2026, 12, 25));
    assert_eq!(v.end, date(2027, 1, 21));
    assert!(v.contains(date(2026, 12, 31)));
    assert!(v.contains(date(2027, 1, 21)));
    assert!(!v.contains(date(2027, 1, 22)));
    assert_eq!(listings[0].obstacle_valid, None);
}

#[test]
fn a_link_without_validity_lines_has_no_cycles() {
    let listings = parse(r#"<a href="FAA.duc">a</a> <a href="other.zip">b</a>"#);
    assert_eq!(listings.len(), 1);
    assert_eq!(listings[0].aviation_cycle, None);
    assert_eq!(listings[0].aviation_valid, None);
}

#[test]
fn the_page_patterns_agree_with_regular_expressions() {
    let href = regex::Regex::new(r#"href="([^"]+\.duc)""#).unwrap();
    for page in [CERTIFIED_PAGE, EXPERIMENTAL_PAGE] {
        let cleaned = {
            let mut out = String::new();
            let mut rest = page;
            while let Some(start) = rest.find("<!--") {
                out.push_str(&rest[..start]);
                rest = match rest[start..].find("-->") {
                    Some(end) => &rest[start + end + 3..],
                    None => "",
                };
            }
            out.push_str(rest);
            out
        };
        let want: Vec<String> = href.captures_iter(&cleaned).map(|c| c[1].to_string()).collect();
        let got: Vec<String> = parse(page).into_iter().map(|l| l.href).collect();
        assert_eq!(got, want);
    }
}

fn listing(cycle: Cycle, start: SimpleDate, end: SimpleDate) -> Listing {
    Listing {
        href: format!("d/FAA_av{}.duc", cycle.label()),
        aviation_cycle: Some(cycle),
        obstacle_cycle: None,
        aviation_valid: Some(Validity {
            start,
            end,
            text: String::new(),
        }),
        obstacle_valid: None,
    }
}

#[test]
fn of_several_upcoming_listings_the_earliest_is_surfaced() {
    let ls = vec![
        listing(Cycle { year: 2026, number: 10 }, date(2026, 10, 1), date(2026, 10, 28)),
        listing(Cycle { year: 2026, number: 9 }, date(2026, 9, 3), date(2026, 9, 30)),
        listing(Cycle { year: 2026, number: 11 }, date(2026, 10, 29), date(2026, 11, 25)),
    ];
    match checker::select(&ls, date(2026, 8, 1)) {
        Some(Selection::UpcomingOnly(l)) => assert_eq!(l.aviation_cycle.unwrap().number, 9),
        other => panic!("expected the 2609 listing, got {other:?}"),
    }
}

#[test]
fn server_replies_are_read_by_status() {
    let r = checker::page_reply(304, Some("abc"), Some("new".into()), None, b"ignored").unwrap();
    assert_eq!(r.body, None);
    assert_eq!(r.etag.as_deref(), Some("abc"));

    let r = checker::page_reply(200, None, None, Some("Tue".into()), b"<html>\xff</html>").unwrap();
    assert_eq!(r.body.as_deref(), Some("<html>\u{fffd}</html>"));
    assert_eq!(r.etag.as_deref(), Some("Tue"));

    match checker::page_reply(404, None, None, None, b"") {
        Err(FetchError::Network(m)) => assert_eq!(m, "server returned 404"),
        _ => panic!("a 404 is an error"),
    }
    assert!(checker::server_error(399).is_none());
    assert_eq!(
        checker::server_error(503).unwrap().message(),
        "server returned 503"
    );
    let io = FetchError::Io(std::io::Error::new(std::io::ErrorKind::Other, "disk full"));
    assert_eq!(io.message(), "disk full");
}

#[test]
fn packages_are_saved_under_the_last_piece_of_their_url() {
    assert_eq!(
        checker::package_file_name("https://x.com/a/b/FAA_av2608_ob2604.duc"),
        "FAA_av2608_ob2604.duc"
    );
    assert_eq!(checker::package_file_name("plain.duc"), "plain.duc");
    assert_eq!(checker::package_file_name("https://x.com/dir/"), "");
}

#[test]
fn dates_are_written_year_month_day() {
    assert_eq!(date(2026, 8, 6).text(), "2026-08-06");
    assert_eq!(date(5, 1, 2).text(), "0005-01-02");
    assert_eq!(date(-1, 12, 31).text(), "-001-12-31");
    assert_eq!(date(12345, 10, 10).text(), "12345-10-10");
    assert_eq!(date(2026, 8, 6).text(), format!("{:04}-{:02}-{:02}", 2026, 8, 6));
}
