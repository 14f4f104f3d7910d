use barbuilder::util::{
    calc_precision, err_detail, fix_czce_inst, get_inst_month, get_tail_numbers, restore_czce_inst,
    set_cstr_from_str_truncate, simple_bisect, simple_bisect_ord, trim_num_and_after,
};

#[test]
fn bisect_ord() {
    let v = [-8, -6, -4, 0, 7, 7, 7, 7, 7, 9, 23];
    let (l, m, r) = simple_bisect_ord(&v, &-9);
    assert!(l == -1 && m == -1 && r == 0);

    let (l, m, r) = simple_bisect_ord(&v, &-4);
    assert!(l == 1 && m == 2 && r == 3);

    let (l, m, r) = simple_bisect_ord(&v, &28);
    assert!(l == 10 && m == -1 && r == -1);

    let (l, m, r) = simple_bisect_ord(&v, &-5);
    assert!(l == 1 && m == -1 && r == 2);

    let (l, m, r) = simple_bisect_ord(&v, &7);
    assert!(l == 3 && m == 4 && r == 5);
}

#[test]
fn bisect_with_comparison() {
    let v = [1u32, 3, 3, 8];
    let by_value = |a: &u32, b: &u32| a.cmp(b);
    assert_eq!(simple_bisect(&v, &3, &by_value), (0, 1, 2));
    assert_eq!(simple_bisect(&v, &8, &by_value), (2, 3, -1));
    assert_eq!(simple_bisect(&v, &9, &by_value), (3, -1, -1));
    assert_eq!(simple_bisect(&v, &0, &by_value), (-1, -1, 0));
    let empty: [u32; 0] = [];
    assert_eq!(simple_bisect(&empty, &0, &by_value), (-1, -1, -1));
}

#[test]
fn _trim_num_and_after() {
    let prd = trim_num_and_after("IF1603");
    println!("{}", prd);
    assert_eq!(prd, "IF");

    let prd = trim_num_and_after("黄大豆1号1501");
    println!("{}", prd);
    assert_eq!(prd, "黄大豆");

    let prd = trim_num_and_after("10年国债2003");
    println!("{}", prd);
    assert_eq!(prd, "10年国债");

    assert_eq!(trim_num_and_after("1605"), "1605");

    assert_eq!(trim_num_and_after("IF"), "IF");

    assert_eq!(trim_num_and_after(""), "");
}

#[test]
fn trim_keeps_leading_digits_and_cuts_at_next() {
    assert_eq!(trim_num_and_after("y1605"), "y");
    assert_eq!(trim_num_and_after("12ab3c4"), "12ab");
}

#[test]
fn _get_tail_numbers() {
    let res = get_tail_numbers("IF1603");
    println!("{}", res);
    assert_eq!(res, "1603");

    let res = get_tail_numbers("黄大豆1号1501");
    println!("{}", res);
    assert_eq!(res, "1501");

    let res = get_tail_numbers("IF1905A");
    println!("{}", res);
    assert_eq!(res, "");

    let res = get_tail_numbers("12345");
    println!("{}", res);
    assert_eq!(res, "12345");

    assert_eq!(get_tail_numbers(""), "");
}

#[test]
fn czce_inst() {
    assert_eq!(fix_czce_inst("tick_cf001", 2020), "tick_cf2001");
    assert_eq!(fix_czce_inst("CF001", 2020), "CF2001");
    assert_eq!(fix_czce_inst("CF001", 2024), "CF2001");
    assert_eq!(fix_czce_inst("CF001", 2025), "CF3001");
    assert_eq!(fix_czce_inst("CF2001", 2029), "CF2001");
    assert_eq!(fix_czce_inst("CF901", 2010), "CF0901");
    assert_eq!(fix_czce_inst("CF01", 2020), "CF01");
    assert_eq!(fix_czce_inst("大豆", 1999), "大豆");
    assert_eq!(fix_czce_inst("", 2020), "");

    assert_eq!(restore_czce_inst("CF2001"), "CF001");
    assert_eq!(restore_czce_inst("CF001"), "CF001");
    assert_eq!(restore_czce_inst("1001"), "001"); // bad input
}

#[test]
fn czce_round_trip() {
    for name in ["CF001", "TA109", "tick_sr505", "MA999"] {
        assert_eq!(restore_czce_inst(&fix_czce_inst(name, 2021)), name);
    }
    assert_eq!(fix_czce_inst("TA109", 2021), "TA2109");
    assert_eq!(fix_czce_inst("TA109", 2016), "TA2109");
    assert_eq!(fix_czce_inst("TA109", 2015), "TA1109");
}

#[test]
fn inst_month() {
    assert_eq!(get_inst_month("sc2205", 2022), (2022, 5));
    assert_eq!(get_inst_month("sc2002", 2020), (2020, 2));
    // the last trading day of 3001 may fall in December 2029
    assert_eq!(get_inst_month("sc3001", 2029), (2030, 1));
    // 0001 with its last trading day in 1999 is the year 2000
    assert_eq!(get_inst_month("sc0001", 1999), (2000, 1));
    // month 12 and month 00 (read as 12)
    assert_eq!(get_inst_month("IF2212", 2022), (2022, 12));
}

#[test]
fn precision_of_tick_text() {
    assert_eq!(calc_precision(&format!("{}", 0.02f64)), 2);
    assert_eq!(calc_precision(&format!("{}", 0.2f64)), 1);
    assert_eq!(calc_precision(&format!("{}", 5f64)), 0);
    assert_eq!(calc_precision("12.500"), 3);
}

#[test]
fn error_chain_details() {
    let chain = vec!["outer".to_string()];
    assert_eq!(err_detail(&chain), "outer");
    let chain = vec!["outer".to_string(), "middle".to_string(), "inner".to_string()];
    assert_eq!(err_detail(&chain), "inner, middle, outer");
}

#[test]
fn cstr_copy_and_truncate() {
    let mut buf = [7u8; 6];
    set_cstr_from_str_truncate(&mut buf, "abc");
    assert_eq!(buf, [b'a', b'b', b'c', 0, 7, 7]);
    let mut buf = [7u8; 4];
    set_cstr_from_str_truncate(&mut buf, "abcdef");
    assert_eq!(buf, [b'a', b'b', b'c', 0]);
    let mut buf = [7u8; 1];
    set_cstr_from_str_truncate(&mut buf, "abc");
    assert_eq!(buf, [0]);
}
