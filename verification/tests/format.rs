use dutop::format::{format_percentage, format_size, format_size_auto, UnitSystem};

#[test]
fn test_format_size_binary() {
    assert_eq!(format_size(0, UnitSystem::Binary, 1), "0 B");
    assert_eq!(format_size(500, UnitSystem::Binary, 1), "500 B");
    assert_eq!(format_size(1024, UnitSystem::Binary, 1), "1.0 K");
    assert_eq!(format_size(1536, UnitSystem::Binary, 1), "1.5 K");
    assert_eq!(format_size(1048576, UnitSystem::Binary, 1), "1.0 M");
    assert_eq!(format_size(1073741824, UnitSystem::Binary, 1), "1.0 G");
}

#[test]
fn test_format_size_si() {
    assert_eq!(format_size(1000, UnitSystem::Si, 1), "1.0 KB");
    assert_eq!(format_size(1500, UnitSystem::Si, 1), "1.5 KB");
    assert_eq!(format_size(1000000, UnitSystem::Si, 1), "1.0 MB");
    assert_eq!(format_size(1000000000, UnitSystem::Si, 1), "1.0 GB");
}

#[test]
fn test_format_size_auto() {
    assert_eq!(format_size_auto(0), "0 B");
    assert_eq!(format_size_auto(1024), "1.0 K");
    assert_eq!(format_size_auto(1572864), "1.5 M");
}

#[test]
fn test_format_percentage() {
    assert_eq!(format_percentage(50, 100), " 50%");
    assert_eq!(format_percentage(1, 3), " 33%");
    assert_eq!(format_percentage(0, 100), "  0%");
    assert_eq!(format_percentage(100, 100), "100%");
}

#[test]
fn test_format_size_more_precision() {
    assert_eq!(format_size(1536, UnitSystem::Binary, 2), "1.50 K");
    assert_eq!(format_size(1536, UnitSystem::Binary, 0), "2 K");
    assert_eq!(format_size(1664, UnitSystem::Binary, 1), "1.6 K");
}

#[test]
fn test_format_size_near_unit_boundary() {
    // 1048575 bytes is 1023.9990234375 K: one decimal rounds up to the
    // boundary value in the same unit
    assert_eq!(format_size(1048575, UnitSystem::Binary, 1), "1024.0 K");
}

#[test]
fn test_format_percentage_over_hundred() {
    assert_eq!(format_percentage(300, 100), "300%");
    assert_eq!(format_percentage(5, 0), "0%");
}
