use dutop::output::{select_color, Colors, OutputConfig};

#[test]
fn test_select_color() {
    let colors = Colors::enabled();

    // Low usage - green
    assert_eq!(select_color(5, 30, &colors), colors.green);

    // Medium usage - yellow
    assert_eq!(select_color(12, 30, &colors), colors.yellow);

    // High usage - red
    assert_eq!(select_color(20, 30, &colors), colors.red);
}

#[test]
fn test_colors_disabled() {
    let colors = Colors::disabled();
    assert_eq!(colors.green, "");
    assert_eq!(colors.yellow, "");
    assert_eq!(colors.red, "");
    assert_eq!(colors.reset, "");
}

#[test]
fn test_output_config_defaults() {
    let config = OutputConfig::default();
    assert_eq!(config.bar_width, 30);
    assert_eq!(config.size_width, 8);
    assert_eq!(config.percent_width, 5);
    assert_eq!(config.name_width, 30);
}
