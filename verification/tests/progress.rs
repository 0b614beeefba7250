use bili_add_on::i18n::Lang;
use bili_add_on::progress::{render_progress, Pace};

fn expected(current: u64, total: u64) -> String {
    let pct = (current as f64 / total as f64 * 100.0) as u32;
    let filled = ((30f64 * current as f64 / total as f64) as usize).min(30);
    format!(
        "\r[{}{}] {:>3}% ({current}/{total})",
        "█".repeat(filled),
        "░".repeat(30 - filled),
        pct,
    )
}

#[test]
fn the_bar_grows_with_the_frames() {
    for (current, total) in [(0, 7), (1, 3), (29, 100), (57, 100), (99, 100), (100, 100), (7, 5)] {
        let line = render_progress(current, 0, total, Lang::En);
        assert_eq!(line.text, expected(current, total));
        assert_eq!(line.ends, current >= total);
    }
    assert!(render_progress(24, 0, 24, Lang::En).text.ends_with("] 100% (24/24)"));
}

#[test]
fn an_estimate_counts_until_the_number_is_known() {
    let line = render_progress(10, 40, 0, Lang::En);
    assert_eq!(line.text, expected(10, 40));
    assert!(!line.ends);
    let line = render_progress(50, 40, 0, Lang::En);
    assert_eq!(line.text, expected(50, 50));
    assert!(!line.ends);
    let line = render_progress(0, 0, 0, Lang::En);
    assert_eq!(line.text, "\rRendering danmaku... 0 frames processed");
    assert_eq!(
        render_progress(0, 0, 0, Lang::Zh).text,
        "\r正在渲染弹幕... 已处理 0 帧"
    );
}

#[test]
fn lines_come_at_intervals_and_at_the_end() {
    let mut pace = Pace::new();
    assert!(pace.step(1, 0, 1000));
    assert!(!pace.step(2, 0, 1099));
    assert!(pace.step(3, 0, 1100));
    assert!(!pace.step(4, 0, 1150));
    assert_eq!(pace.finish(4, 0), (true, true));
    assert_eq!(pace.finish(5, 5), (true, false));
    assert!(pace.step(5, 5, 1151));
    assert_eq!(pace.finish(5, 5), (false, false));
}
