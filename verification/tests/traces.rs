use mba::linear_congruences::{bold, entry_error, parse_entry, solve_congruences, underbrace};
use mba::obfuscate::Bitness;
use mba::words::{split_lines, split_words};

fn one(entry: &str) -> String {
    format!("\\left[\\begin{{array}}{{}}{}\\\\\\end{{array}}\\right]", entry)
}

fn column(entries: &[&str]) -> String {
    let mut s = String::from("\\left[\\begin{array}{}");
    for e in entries {
        s += e;
        s += "\\\\";
    }
    s += "\\end{array}\\right]";
    s
}

fn labelled(inner: &str, label: &str) -> String {
    format!("\\underbrace{{{}}}_{{\\mathbf{{{}}}}}", inner, label)
}

#[test]
fn lines_are_split_at_line_feeds() {
    assert_eq!(split_lines("a\nb\n"), vec!["a".to_string(), "b".to_string()]);
    assert_eq!(split_lines("a\n\nb"), vec!["a".to_string(), "".to_string(), "b".to_string()]);
    assert_eq!(split_lines(""), Vec::<String>::new());
    assert_eq!(split_lines("\n"), vec!["".to_string()]);
    assert_eq!(split_lines("1 2"), vec!["1 2".to_string()]);
    assert_eq!(split_lines("\u{e9}\n\u{4e2d}x"), vec!["\u{e9}".to_string(), "\u{4e2d}x".to_string()]);
}

#[test]
fn words_are_split_at_white_space() {
    assert_eq!(
        split_words(" a  b\tc\r\n"),
        vec!["a".to_string(), "b".to_string(), "c".to_string()]
    );
    assert_eq!(split_words(""), Vec::<String>::new());
    assert_eq!(split_words(" \t "), Vec::<String>::new());
    assert_eq!(split_words("12"), vec!["12".to_string()]);
    assert_eq!(split_words("a\u{c}b"), vec!["a".to_string(), "b".to_string()]);
}

#[test]
fn a_vertical_tabulator_parts_no_words() {
    assert_eq!(split_words("a\u{b}b"), vec!["a\u{b}b".to_string()]);
}

#[test]
fn words_of_any_alphabet_are_split() {
    assert_eq!(
        split_words("\u{e9}t\u{e9} 1\u{a0}2"),
        vec!["\u{e9}t\u{e9}".to_string(), "1\u{a0}2".to_string()]
    );
}

#[test]
fn an_entry_is_a_number_of_the_ring() {
    assert_eq!(parse_entry::<u8>("0"), Some(0));
    assert_eq!(parse_entry::<u8>("255"), Some(255));
    assert_eq!(parse_entry::<u8>("+7"), Some(7));
    assert_eq!(parse_entry::<u8>("007"), Some(7));
    assert_eq!(parse_entry::<u8>("000000000000000000000000000000000000000000255"), Some(255));
    assert_eq!(parse_entry::<u16>("256"), Some(256));
    assert_eq!(parse_entry::<u64>("18446744073709551615"), Some(u64::MAX));
    assert_eq!(
        parse_entry::<u128>("340282366920938463463374607431768211455"),
        Some(u128::MAX)
    );
}

#[test]
fn an_entry_beyond_the_ring_is_reduced() {
    assert_eq!(parse_entry::<u8>("256"), Some(0));
    assert_eq!(parse_entry::<u8>("257"), Some(1));
    assert_eq!(parse_entry::<u8>("1000"), Some(232));
    assert_eq!(parse_entry::<u16>("65536"), Some(0));
    assert_eq!(parse_entry::<u16>("+65537"), Some(1));
    assert_eq!(parse_entry::<u64>("18446744073709551616"), Some(0));
    assert_eq!(parse_entry::<u128>("340282366920938463463374607431768211456"), Some(0));
    assert_eq!(parse_entry::<u128>("340282366920938463463374607431768211457"), Some(1));
    // 10^39 = 2^128 * 2 + 319435266158123073073250785136463577088.
    assert_eq!(
        parse_entry::<u128>("1000000000000000000000000000000000000000"),
        Some(319435266158123073073250785136463577088)
    );
    assert_eq!(parse_entry::<u8>("1000000000000000000000000000000000000000"), Some(0));
}

#[test]
fn an_entry_of_another_form_is_none() {
    assert_eq!(parse_entry::<u8>(""), None);
    assert_eq!(parse_entry::<u8>("+"), None);
    assert_eq!(parse_entry::<u8>("-1"), None);
    assert_eq!(parse_entry::<u8>("-"), None);
    assert_eq!(parse_entry::<u8>("1a"), None);
    assert_eq!(parse_entry::<u8>("a1"), None);
    assert_eq!(parse_entry::<u8>("1+"), None);
    assert_eq!(parse_entry::<u8>("++1"), None);
    assert_eq!(parse_entry::<u8>("1 "), None);
    assert_eq!(parse_entry::<u8>("0x10"), None);
    assert_eq!(parse_entry::<u8>("\u{661}"), None);
    assert_eq!(parse_entry::<u8>("1\u{e9}"), None);
}

#[test]
fn entry_error_counts_from_one() {
    assert_eq!(entry_error(0, 0), "Failed to parse entry (1, 1).");
    assert_eq!(entry_error(9, 11), "Failed to parse entry (10, 12).");
}

#[test]
fn underbrace_and_bold_write_latex() {
    assert_eq!(bold("D"), "\\mathbf{D}");
    assert_eq!(underbrace("x", "y"), "\\underbrace{x}_{y}");
    assert_eq!(underbrace("", ""), "\\underbrace{}_{}");
}

#[test]
fn trace_of_one_congruence_with_one_solution() {
    let tr = solve_congruences("3 1".to_string(), Bitness::U8).unwrap();
    assert_eq!(
        tr.diag(),
        format!(
            "{}={}{}{}",
            labelled(&one("3"), "D"),
            labelled(&one("1"), "S"),
            labelled(&one("3"), "A"),
            labelled(&one("1"), "T")
        )
    );
    assert_eq!(
        tr.scalar_system(),
        format!(
            "{}\\mathbf{{x'}}={}{}={}",
            labelled(&one("3"), "D"),
            labelled(&one("1"), "S"),
            labelled(&one("1"), "b"),
            one("1")
        )
    );
    assert_eq!(
        tr.linear_solutions(),
        "\\begin{align}3x'_{1}&=1 &\\implies x'_{1}&=171\\\\\\end{align}"
    );
    assert_eq!(tr.vector_solution(), format!("\\mathbf{{x'}}={}", one("-85")));
    assert_eq!(
        tr.final_solution(),
        format!(
            "\\mathbf{{x}}={}{}={}",
            labelled(&one("1"), "T"),
            labelled(&one("-85"), "x'"),
            one("-85")
        )
    );
}

#[test]
fn trace_of_a_congruence_without_solution() {
    let tr = solve_congruences("2 1".to_string(), Bitness::U8).unwrap();
    assert_eq!(
        tr.diag(),
        format!(
            "{}={}{}{}",
            labelled(&one("2"), "D"),
            labelled(&one("1"), "S"),
            labelled(&one("2"), "A"),
            labelled(&one("1"), "T")
        )
    );
    assert_eq!(
        tr.linear_solutions(),
        "\\begin{align}2x'_{1}&=1 &\\implies \\text{No solution!}&\\end{align}"
    );
    assert_eq!(tr.vector_solution(), "");
    assert_eq!(tr.final_solution(), "");
}

#[test]
fn trace_of_a_row_without_unknown() {
    let tr = solve_congruences("1 1\n1 2\n".to_string(), Bitness::U8).unwrap();
    let s = "\\left[\\begin{array}{}1 & 0\\\\-1 & 1\\\\\\end{array}\\right]";
    assert_eq!(
        tr.diag(),
        format!(
            "{}={}{}{}",
            labelled(&column(&["1", "0"]), "D"),
            labelled(s, "S"),
            labelled(&column(&["1", "1"]), "A"),
            labelled(&one("1"), "T")
        )
    );
    assert_eq!(
        tr.scalar_system(),
        format!(
            "{}\\mathbf{{x'}}={}{}={}",
            labelled(&column(&["1", "0"]), "D"),
            labelled(s, "S"),
            labelled(&column(&["1", "2"]), "b"),
            column(&["1", "1"])
        )
    );
    assert_eq!(
        tr.linear_solutions(),
        "\\text{Row 2: } 0=1\\implies \\text{No solution}"
    );
    assert_eq!(tr.vector_solution(), "");
    assert_eq!(tr.final_solution(), "");
}

#[test]
fn trace_with_a_kernel_and_a_free_unknown() {
    let tr = solve_congruences("2 4 2".to_string(), Bitness::U8).unwrap();
    let d = "\\left[\\begin{array}{}2 & 0\\\\\\end{array}\\right]";
    let a = "\\left[\\begin{array}{}2 & 4\\\\\\end{array}\\right]";
    let t = "\\left[\\begin{array}{}1 & -2\\\\0 & 1\\\\\\end{array}\\right]";
    assert_eq!(
        tr.diag(),
        format!(
            "{}={}{}{}",
            labelled(d, "D"),
            labelled(&one("1"), "S"),
            labelled(a, "A"),
            labelled(t, "T")
        )
    );
    assert_eq!(
        tr.scalar_system(),
        format!(
            "{}\\mathbf{{x'}}={}{}={}",
            labelled(d, "D"),
            labelled(&one("1"), "S"),
            labelled(&one("2"), "b"),
            one("2")
        )
    );
    assert_eq!(
        tr.linear_solutions(),
        "\\begin{align}2x'_{1}&=2 &\\implies x'_{1}&=1+128a_{1}\\\\&&x'_{2}&=a_{2}\\\\\\end{align}"
    );
    let old = format!(
        "\\left({}+a_1{}+a_2{}\\right)",
        column(&["1", "0"]),
        column(&["-128", "0"]),
        column(&["0", "1"])
    );
    assert_eq!(tr.vector_solution(), format!("\\mathbf{{x'}}={}", old));
    assert_eq!(
        tr.final_solution(),
        format!(
            "\\mathbf{{x}}={}{}={}+a_1{}+a_2{}",
            labelled(t, "T"),
            labelled(&old, "x'"),
            column(&["1", "0"]),
            column(&["-128", "0"]),
            column(&["-2", "1"])
        )
    );
}

#[test]
fn trace_reads_the_width_of_the_ring() {
    let tr = solve_congruences("3 1".to_string(), Bitness::U16).unwrap();
    assert_eq!(
        tr.linear_solutions(),
        "\\begin{align}3x'_{1}&=1 &\\implies x'_{1}&=43691\\\\\\end{align}"
    );
    let tr = solve_congruences("300 1".to_string(), Bitness::U16).unwrap();
    assert_eq!(
        tr.linear_solutions(),
        "\\begin{align}300x'_{1}&=1 &\\implies \\text{No solution!}&\\end{align}"
    );
    // An entry beyond the ring is reduced in it: 259 is 3 in the ring of 256 elements.
    let tr = solve_congruences("259 1".to_string(), Bitness::U8).unwrap();
    assert_eq!(
        tr.linear_solutions(),
        "\\begin{align}3x'_{1}&=1 &\\implies x'_{1}&=171\\\\\\end{align}"
    );
}

#[test]
fn trace_takes_white_space_as_it_comes() {
    let plain = solve_congruences("3 1\n5 7".to_string(), Bitness::U32).unwrap();
    let spaced = solve_congruences("  +3\t1 \r\n5   007\n".to_string(), Bitness::U32).unwrap();
    assert_eq!(plain.diag(), spaced.diag());
    assert_eq!(plain.scalar_system(), spaced.scalar_system());
    assert_eq!(plain.linear_solutions(), spaced.linear_solutions());
    assert_eq!(plain.vector_solution(), spaced.vector_solution());
    assert_eq!(plain.final_solution(), spaced.final_solution());
}

#[test]
fn a_text_without_matrix_is_refused() {
    assert_eq!(solve_congruences("".to_string(), Bitness::U8).err(), Some("Empty matrix.".to_string()));
    assert_eq!(solve_congruences("5".to_string(), Bitness::U8).err(), Some("Empty matrix.".to_string()));
    assert_eq!(
        solve_congruences("\n1 2".to_string(), Bitness::U8).err(),
        Some("Empty matrix.".to_string())
    );
}

#[test]
fn an_uneven_row_is_refused() {
    assert_eq!(
        solve_congruences("1 2\n3".to_string(), Bitness::U8).err(),
        Some("Row 2 has a different number of entries than the first row.".to_string())
    );
    assert_eq!(
        solve_congruences("1 2\n3 4\n5 6 7\n8".to_string(), Bitness::U8).err(),
        Some("Row 3 has a different number of entries than the first row.".to_string())
    );
    assert_eq!(
        solve_congruences("1 2\n\n3 4".to_string(), Bitness::U8).err(),
        Some("Row 2 has a different number of entries than the first row.".to_string())
    );
}

#[test]
fn an_entry_that_is_no_number_is_refused() {
    assert_eq!(
        solve_congruences("1 x".to_string(), Bitness::U8).err(),
        Some("Failed to parse entry (1, 2).".to_string())
    );
    assert_eq!(
        solve_congruences("1 2 3\nq 4 z".to_string(), Bitness::U8).err(),
        Some("Failed to parse entry (2, 1).".to_string())
    );
    assert_eq!(
        solve_congruences("1 2 y\nq 4 5".to_string(), Bitness::U8).err(),
        Some("Failed to parse entry (2, 1).".to_string())
    );
    assert_eq!(
        solve_congruences("-1 2".to_string(), Bitness::U8).err(),
        Some("Failed to parse entry (1, 1).".to_string())
    );
    assert_eq!(
        solve_congruences("1 2.5".to_string(), Bitness::U8).err(),
        Some("Failed to parse entry (1, 2).".to_string())
    );
    assert_eq!(
        solve_congruences("1 \u{e9}".to_string(), Bitness::U8).err(),
        Some("Failed to parse entry (1, 2).".to_string())
    );
}
