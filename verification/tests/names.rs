use workassisting::names::{decimal_string, filename, lud_name, lud_title, push_hex, push_hex2, sort_name, sum_array_name, sum_function_name};

#[test]
fn benchmark_names() {
    assert_eq!(sum_array_name(33555666), "Sum array (n = 33,555,666)");
    assert_eq!(sum_function_name(263378), "Sum function (n = 263,378)");
    assert_eq!(sort_name(1024), "Sort (n = 1,024)");
    assert_eq!(sort_name(999), "Sort (n = 999)");
    assert_eq!(lud_name(512, 2), "LUD (n = 512, m = 2)");
    assert_eq!(lud_title(16), "m = 16");
}

#[test]
fn lud_filename() {
    assert_eq!(filename(512), "./rodinia_3.1/data/lud/512.dat");
    assert_eq!(filename(0), "./rodinia_3.1/data/lud/0.dat");
}

#[test]
fn decimal_strings() {
    assert_eq!(decimal_string(0), "0");
    assert_eq!(decimal_string(7), "7");
    assert_eq!(decimal_string(1234567), "1234567");
    assert_eq!(decimal_string(1000), "1000");
}

#[test]
fn hex_pairs() {
    let mut s = String::new();
    push_hex2(&mut s, 0);
    push_hex2(&mut s, 10);
    push_hex2(&mut s, 255);
    push_hex2(&mut s, 0xA5);
    assert_eq!(s, "000AFFA5");
}

#[test]
fn hex_numbers() {
    let mut s = String::new();
    push_hex(&mut s, 0);
    assert_eq!(s, "0");
    let mut s = String::new();
    push_hex(&mut s, 0xBEEF07);
    assert_eq!(s, "BEEF07");
    let mut s = String::from("x");
    push_hex(&mut s, u128::MAX);
    assert_eq!(s, format!("x{:X}", u128::MAX));
}
