use bittenhumans::consts::{Magnitude, System};
use bittenhumans::ByteSizeFormatter;

#[test]
fn new() {
    let kibibyte = ByteSizeFormatter::new(System::Binary, Magnitude::Kilo);
    assert_eq!("KiB", kibibyte.get_unit());
    assert_eq!(1024_u64, *kibibyte.get_divisor());

    let exabyte = ByteSizeFormatter::new(System::Decimal, Magnitude::Exa);
    assert_eq!("EB", exabyte.get_unit());
    assert_eq!(1_000_000_000_000_000_000_u64, *exabyte.get_divisor());
}

#[test]
fn fit() {
    let kibibyte = ByteSizeFormatter::fit(1, System::Binary);
    assert_eq!("KiB", kibibyte.get_unit());
    assert_eq!(1024_u64, *kibibyte.get_divisor());

    let exabyte = ByteSizeFormatter::fit(1_000_000_000_000_000_001_u64, System::Decimal);
    assert_eq!("EB", exabyte.get_unit());
    assert_eq!(1_000_000_000_000_000_000_u64, *exabyte.get_divisor());
}

#[test]
fn format() {
    let kib = ByteSizeFormatter::new(System::Binary, Magnitude::Kilo);
    assert_eq!("0.50 KiB".to_string(), kib.format_value(512));
    let gb = ByteSizeFormatter::new(System::Decimal, Magnitude::Giga);
    assert_eq!("1.00 GB".to_string(), gb.format_value(1_000_000_000));
}

#[test]
fn units_of_every_scale() {
    let magnitudes = [
        (Magnitude::Kilo, "K"),
        (Magnitude::Mega, "M"),
        (Magnitude::Giga, "G"),
        (Magnitude::Tera, "T"),
        (Magnitude::Peta, "P"),
        (Magnitude::Exa, "E"),
    ];
    for (magnitude, prefix) in magnitudes {
        let decimal = ByteSizeFormatter::new(System::Decimal, magnitude);
        assert_eq!(format!("{prefix}B"), decimal.get_unit());
        let binary = ByteSizeFormatter::new(System::Binary, magnitude);
        assert_eq!(format!("{prefix}iB"), binary.get_unit());
    }
    assert_eq!("KB", ByteSizeFormatter::new(System::Decimal, Magnitude::Kilo).get_unit());
}

#[test]
fn divisors_of_every_scale() {
    let magnitudes = [
        Magnitude::Kilo,
        Magnitude::Mega,
        Magnitude::Giga,
        Magnitude::Tera,
        Magnitude::Peta,
        Magnitude::Exa,
    ];
    let mut decimal: u64 = 1;
    let mut binary: u64 = 1;
    for magnitude in magnitudes {
        decimal *= 1000;
        binary *= 1024;
        assert_eq!(decimal, *ByteSizeFormatter::new(System::Decimal, magnitude).get_divisor());
        assert_eq!(binary, *ByteSizeFormatter::new(System::Binary, magnitude).get_divisor());
        assert_eq!(decimal, ByteSizeFormatter::compute_divisor(System::Decimal, magnitude));
        assert_eq!(binary, ByteSizeFormatter::compute_divisor(System::Binary, magnitude));
    }
    assert_eq!(1_000_000_000_000_000_000_u64, decimal);
    assert_eq!(1_u64 << 60, binary);
}

#[test]
fn magnitudes_in_order() {
    let mut seen = Vec::new();
    let mut cursor = Some(Magnitude::first());
    while let Some(magnitude) = cursor {
        seen.push((magnitude.ordinal(), magnitude.prefix_str()));
        cursor = magnitude.next();
    }
    assert_eq!(vec![(1, "K"), (2, "M"), (3, "G"), (4, "T"), (5, "P"), (6, "E")], seen);
    assert_eq!(None, Magnitude::Exa.next());
    assert_eq!(Some(Magnitude::Mega), Magnitude::Kilo.next());
}

#[test]
fn systems() {
    assert_eq!(1024, System::Binary.base_value());
    assert_eq!(1000, System::Decimal.base_value());
    assert_eq!("i", System::Binary.infix_str());
    assert_eq!("", System::Decimal.infix_str());
}

#[test]
fn fit_below_one_kilo_stays_at_kilo() {
    for value in [0_u64, 1, 999] {
        let decimal = ByteSizeFormatter::fit(value, System::Decimal);
        assert_eq!("KB", decimal.get_unit());
        assert_eq!(1000, *decimal.get_divisor());
    }
    for value in [0_u64, 1, 1023] {
        let binary = ByteSizeFormatter::fit(value, System::Binary);
        assert_eq!("KiB", binary.get_unit());
        assert_eq!(1024, *binary.get_divisor());
    }
    assert_eq!("0.00 KB", ByteSizeFormatter::format_auto(0, System::Decimal));
    assert_eq!("0.00 KiB", ByteSizeFormatter::format_auto(1, System::Binary));
}

#[test]
fn fit_at_exact_powers() {
    assert_eq!("KiB", ByteSizeFormatter::fit(1024, System::Binary).get_unit());
    assert_eq!("1.00 KiB", ByteSizeFormatter::format_auto(1024, System::Binary));
    assert_eq!("KB", ByteSizeFormatter::fit(1000, System::Decimal).get_unit());
    assert_eq!("1.00 KB", ByteSizeFormatter::format_auto(1000, System::Decimal));
    assert_eq!("KiB", ByteSizeFormatter::fit(1024 * 1024 - 1, System::Binary).get_unit());
    assert_eq!("MiB", ByteSizeFormatter::fit(1024 * 1024, System::Binary).get_unit());
    assert_eq!("KB", ByteSizeFormatter::fit(999_999, System::Decimal).get_unit());
    assert_eq!("MB", ByteSizeFormatter::fit(1_000_000, System::Decimal).get_unit());
    assert_eq!("PB", ByteSizeFormatter::fit(999_999_999_999_999_000, System::Decimal).get_unit());
    assert_eq!("EB", ByteSizeFormatter::fit(1_000_000_000_000_000_000, System::Decimal).get_unit());
    assert_eq!("EiB", ByteSizeFormatter::fit(1 << 60, System::Binary).get_unit());
}

#[test]
fn fit_at_the_top() {
    assert_eq!("EB", ByteSizeFormatter::fit(u64::MAX, System::Decimal).get_unit());
    assert_eq!("EiB", ByteSizeFormatter::fit(u64::MAX, System::Binary).get_unit());
    assert_eq!("18.45 EB", ByteSizeFormatter::format_auto(u64::MAX, System::Decimal));
    assert_eq!("16.00 EiB", ByteSizeFormatter::format_auto(u64::MAX, System::Binary));
}

#[test]
fn fit_where_widening_rounds_up() {
    // Within 64 of the exa divisor a count is, as a double, the divisor.
    let exbi: u64 = 1 << 60;
    assert_eq!("EiB", ByteSizeFormatter::fit(exbi - 1, System::Binary).get_unit());
    assert_eq!("EiB", ByteSizeFormatter::fit(exbi - 64, System::Binary).get_unit());
    assert_eq!("PiB", ByteSizeFormatter::fit(exbi - 65, System::Binary).get_unit());
    let exa: u64 = 1_000_000_000_000_000_000;
    assert_eq!("EB", ByteSizeFormatter::fit(exa - 1, System::Decimal).get_unit());
    assert_eq!("EB", ByteSizeFormatter::fit(exa - 64, System::Decimal).get_unit());
    assert_eq!("PB", ByteSizeFormatter::fit(exa - 65, System::Decimal).get_unit());
    assert_eq!("1.00 EB", ByteSizeFormatter::format_auto(exa - 1, System::Decimal));
}

#[test]
fn format_auto_scenarios() {
    assert_eq!("1.50 MB", ByteSizeFormatter::format_auto(1_500_000, System::Decimal));
    assert_eq!("1.43 MiB", ByteSizeFormatter::format_auto(1_500_000, System::Binary));
}

#[test]
fn one_formatter_for_two_counts() {
    let disk_total: u64 = 1_000_000_000;
    let disk_used = disk_total / 1000;
    let formatter = ByteSizeFormatter::fit(disk_total, System::Binary);
    assert_eq!("MiB", formatter.get_unit());
    assert_eq!("953.67 MiB", formatter.format_value(disk_total));
    assert_eq!("0.95 MiB", formatter.format_value(disk_used));
}

#[test]
fn format_value_examples() {
    let kb = ByteSizeFormatter::new(System::Decimal, Magnitude::Kilo);
    assert_eq!("1.00 KB", kb.format_value(1000));
    let mib = ByteSizeFormatter::new(System::Binary, Magnitude::Mega);
    assert_eq!("1.00 MiB", mib.format_value(1024 * 1024));
    assert_eq!("0.00 MiB", mib.format_value(0));
    assert_eq!("18446744073709552.00 KB", kb.format_value(u64::MAX));
}

#[test]
fn format_value_rounds_the_double() {
    let kb = ByteSizeFormatter::new(System::Decimal, Magnitude::Kilo);
    // 0.005 is no double; the nearest one lies just above it.
    assert_eq!("0.01 KB", kb.format_value(5));
    assert_eq!("0.01 KB", kb.format_value(15));
    assert_eq!("0.03 KB", kb.format_value(25));
    let kib = ByteSizeFormatter::new(System::Binary, Magnitude::Kilo);
    // 0.125 and 0.375 are doubles, midway between two hundredths.
    assert_eq!("0.12 KiB", kib.format_value(128));
    assert_eq!("0.38 KiB", kib.format_value(384));
}

#[test]
fn format_auto_ends_in_the_unit() {
    let mut value: u64 = 1;
    for _ in 0..64 {
        let binary = ByteSizeFormatter::format_auto(value, System::Binary);
        assert!(binary.ends_with("iB"));
        let decimal = ByteSizeFormatter::format_auto(value, System::Decimal);
        assert!(decimal.ends_with('B'));
        assert!(!decimal.contains('i'));
        value = value.wrapping_mul(2).wrapping_add(1);
    }
}

#[test]
fn fit_never_goes_down() {
    for system in [System::Binary, System::Decimal] {
        let mut value: u64 = 0;
        let mut before: u64 = 0;
        for step in 0..4000_u64 {
            let divisor = *ByteSizeFormatter::fit(value, system).get_divisor();
            assert!(before <= divisor);
            before = divisor;
            value = value.saturating_add(1 + value / 97 + step);
        }
        assert_eq!(u64::MAX, value);
    }
}
