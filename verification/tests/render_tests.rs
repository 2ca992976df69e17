use trexanh::app::App;
use trexanh::config::Config;
use trexanh::models::{ContributionCalendar, ContributionDay, Week};
use trexanh::ui::{get_contribution_color, get_month_labels, parse_date, render, RenderOutput, UiColor};

fn config(username: &str) -> Config {
    Config { username: username.to_string(), token: "not-a-real-token".to_string() }
}

fn day(date: &str, count: u32) -> ContributionDay {
    ContributionDay { date: date.to_string(), contribution_count: count }
}

fn week(date: &str, count: u32) -> Week {
    Week { contribution_days: vec![day(date, count)] }
}

fn app_with_weeks(weeks: Vec<Week>) -> App {
    let mut app = App::new(config("alice"));
    app.set_calendar(ContributionCalendar { weeks });
    app
}

#[test]
fn color_tier_boundaries() {
    let t0 = UiColor::Rgb(55, 55, 55);
    let t1 = UiColor::Rgb(90, 140, 120);
    let t2 = UiColor::Rgb(120, 180, 130);
    let t3 = UiColor::Rgb(160, 210, 150);
    let t4 = UiColor::Rgb(220, 240, 170);
    assert_eq!(get_contribution_color(0), t0);
    assert_eq!(get_contribution_color(1), t1);
    assert_eq!(get_contribution_color(3), t1);
    assert_eq!(get_contribution_color(4), t2);
    assert_eq!(get_contribution_color(6), t2);
    assert_eq!(get_contribution_color(7), t3);
    assert_eq!(get_contribution_color(10), t3);
    assert_eq!(get_contribution_color(11), t4);
    assert_eq!(get_contribution_color(4294967295), t4);
}

#[test]
fn viewport_below_width_floor_degrades() {
    let app = app_with_weeks(vec![week("2024-01-01", 3)]);
    match render(&app, 29, 40) {
        RenderOutput::TooSmall { min_width, min_height, width, height } => {
            assert_eq!(min_width, 30);
            assert_eq!(min_height, 12);
            assert_eq!(width, 29);
            assert_eq!(height, 40);
        },
        _ => panic!("expected the too-small diagnostic"),
    }
}

#[test]
fn viewport_below_height_floor_degrades() {
    let app = app_with_weeks(vec![week("2024-01-01", 3)]);
    assert!(matches!(render(&app, 80, 11), RenderOutput::TooSmall { .. }));
}

#[test]
fn empty_calendar_renders_blank() {
    let app = app_with_weeks(vec![]);
    assert!(matches!(render(&app, 80, 24), RenderOutput::Blank));
}

#[test]
fn missing_calendar_renders_blank() {
    let app = App::new(config("alice"));
    assert!(matches!(render(&app, 80, 24), RenderOutput::Blank));
}

#[test]
fn week_window_keeps_the_most_recent_weeks() {
    // 60 weeks; a width of 67 fits exactly (67 - 7) / 3 = 20 of them, so
    // the window must be weeks 40 to 59. Weeks before 40 count 0, the
    // rest count 11: every visible cell is the top tier.
    let mut weeks = Vec::new();
    for i in 0..60 {
        let count = if i < 40 { 0 } else { 11 };
        weeks.push(week("2024-01-01", count));
    }
    let app = app_with_weeks(weeks);
    match render(&app, 67, 24) {
        RenderOutput::Heatmap(hm) => {
            assert_eq!(hm.width, 67);
            assert_eq!(hm.height, 12);
            assert_eq!(hm.x, 0);
            assert_eq!(hm.y, 6);
            assert_eq!(hm.lines.len(), 10);
            let row = &hm.lines[1];
            assert_eq!(row.spans.len(), 40);
            for k in 0..20 {
                let cell = &row.spans[1 + 2 * k];
                assert_eq!(cell.text, "██");
                assert_eq!(cell.color, UiColor::Rgb(220, 240, 170));
            }
        },
        _ => panic!("expected a heatmap"),
    }
}

#[test]
fn heatmap_shape_and_title() {
    let app = app_with_weeks(vec![week("2024-01-01", 0), week("2024-01-08", 5)]);
    match render(&app, 80, 24) {
        RenderOutput::Heatmap(hm) => {
            assert_eq!(hm.title, "trexanh - @alice");
            assert_eq!(hm.width, 7 + 3 * 2);
            assert_eq!(hm.lines.len(), 10);
            assert_eq!(hm.lines[0].spans.len(), 2);
            assert_eq!(hm.lines[0].spans[1].text, "Jan");
            // day row 0: label, two cells, one separator
            let row = &hm.lines[1];
            assert_eq!(row.spans.len(), 4);
            assert_eq!(row.spans[0].text, "     ");
            assert_eq!(row.spans[1].text, "██");
            assert_eq!(row.spans[1].color, UiColor::Rgb(55, 55, 55));
            assert_eq!(row.spans[2].text, " ");
            assert_eq!(row.spans[3].text, "██");
            assert_eq!(row.spans[3].color, UiColor::Rgb(120, 180, 130));
            // day row 1 has the Mon gutter and blank cells (one-day weeks)
            let row1 = &hm.lines[2];
            assert_eq!(row1.spans[0].text, " Mon ");
            assert_eq!(row1.spans[1].text, "  ");
            // blank line, then the legend
            assert_eq!(hm.lines[8].spans.len(), 0);
            let legend = &hm.lines[9];
            assert_eq!(legend.spans.len(), 12);
            assert_eq!(legend.spans[0].text, "  Less ");
            assert_eq!(legend.spans[1].color, UiColor::Rgb(55, 55, 55));
            assert_eq!(legend.spans[9].color, UiColor::Rgb(220, 240, 170));
            assert_eq!(legend.spans[11].text, "More");
        },
        _ => panic!("expected a heatmap"),
    }
}

#[test]
fn month_labels_place_qualifying_months() {
    let weeks = vec![
        week("2024-01-01", 1),
        week("2024-01-08", 1),
        week("2024-02-05", 1),
    ];
    assert_eq!(get_month_labels(&weeks), "Jan   Feb");
}

#[test]
fn month_labels_skip_late_first_days() {
    let weeks = vec![week("2024-03-15", 1)];
    assert_eq!(get_month_labels(&weeks), "");
}

#[test]
fn month_labels_skip_unparsable_dates() {
    let weeks = vec![week("garbage", 1), week("2024-04-03", 1)];
    assert_eq!(get_month_labels(&weeks), "   Apr");
}

#[test]
fn month_labels_abut_when_columns_collide() {
    // Two qualifying months one week apart: the second label's column (3)
    // equals the end of the first, so they stand back to back.
    let weeks = vec![week("2024-01-01", 1), week("2024-02-05", 1)];
    assert_eq!(get_month_labels(&weeks), "JanFeb");
}

#[test]
fn month_labels_empty_for_empty_weeks() {
    let weeks: Vec<Week> = vec![];
    assert_eq!(get_month_labels(&weeks), "");
}

#[test]
fn viewport_at_the_floor_renders() {
    let app = app_with_weeks(vec![week("2024-01-01", 3)]);
    assert!(matches!(render(&app, 30, 12), RenderOutput::Heatmap(_)));
}

#[test]
fn dates_parse_only_when_they_exist() {
    assert_eq!(parse_date("2024-01-31"), Some((2024, 1, 31)));
    assert_eq!(parse_date("2024-02-29"), Some((2024, 2, 29)));
    assert_eq!(parse_date("2023-02-29"), None);
    assert_eq!(parse_date("1900-02-29"), None);
    assert_eq!(parse_date("2000-02-29"), Some((2000, 2, 29)));
    assert_eq!(parse_date("2024-04-31"), None);
    assert_eq!(parse_date("2024-13-01"), None);
    assert_eq!(parse_date("2024-00-01"), None);
    assert_eq!(parse_date("2024-01-00"), None);
    assert_eq!(parse_date("2024/01/01"), None);
    assert_eq!(parse_date("24-01-01"), None);
    assert_eq!(parse_date("garbage"), None);
}

#[test]
fn text_dump_is_deterministic_and_trimmed() {
    let app = app_with_weeks(vec![week("2024-01-01", 0)]);
    let hm = match render(&app, 80, 24) {
        RenderOutput::Heatmap(hm) => hm,
        _ => panic!("expected a heatmap"),
    };
    let text = hm.to_text();
    let rows: Vec<&str> = text.split('\n').collect();
    assert_eq!(rows.len(), 10);
    // the header: a bare gutter, then the styled month label
    assert_eq!(rows[0], "     \u{1b}[37mJan\u{1b}[0m");
    // the first day row: a bare gutter and one tier-zero cell
    assert_eq!(rows[1], "     \u{1b}[38;2;55;55;55m██\u{1b}[0m");
    // the Mon gutter row: its blank cell is trimmed away
    assert_eq!(rows[2], "\u{1b}[37m Mon \u{1b}[0m");
    // a row that is entirely blank trims to nothing
    assert_eq!(rows[3], "");
    assert_eq!(rows[8], "");
    // the legend keeps its styled swatches
    assert!(rows[9].starts_with("\u{1b}[37m  Less \u{1b}[0m"));
    // rendering twice yields the same text
    let again = match render(&app, 80, 24) {
        RenderOutput::Heatmap(h) => h.to_text(),
        _ => panic!("expected a heatmap"),
    };
    assert_eq!(text, again);
}
