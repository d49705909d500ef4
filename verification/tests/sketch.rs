use lart::sketch::next_free_name;

fn strings(v: &[&str]) -> Vec<String> {
    v.iter().map(|s| s.to_string()).collect()
}

// The same by the means of the standard library.
fn by_std(name: &str, stems: &[String]) -> String {
    let mut last: i64 = 0;
    for stem in stems {
        let n: Option<i32> =
            stem.trim_start_matches(name).trim_start_matches('-').parse().ok();
        if let Some(n) = n {
            last = last.max(i64::from(n));
        }
    }
    format!("{}-{}.svg", name, last + 1)
}

#[test]
fn the_first_drawing_has_the_number_one() {
    assert_eq!(next_free_name("waves", &[]), "waves-1.svg");
    assert_eq!(next_free_name("", &[]), "-1.svg");
}

#[test]
fn the_next_number_is_one_more_than_the_greatest() {
    let stems = strings(&["waves-1", "waves-12", "waves-3"]);
    assert_eq!(next_free_name("waves", &stems), "waves-13.svg");
    let stems = strings(&["waves-9"]);
    assert_eq!(next_free_name("waves", &stems), "waves-10.svg");
    let stems = strings(&["waves-99", "waves-100"]);
    assert_eq!(next_free_name("waves", &stems), "waves-101.svg");
    let stems = strings(&["waves-1099"]);
    assert_eq!(next_free_name("waves", &stems), "waves-1100.svg");
}

#[test]
fn stems_that_spell_no_number_do_not_count() {
    let stems = strings(&["notes", "waves", "waves-", "waves-x", "waves-1x", "waves- 4", "other-7", "waves-2-3"]);
    assert_eq!(next_free_name("waves", &stems), "waves-1.svg");
    let stems = strings(&["waves-2147483648", "waves-99999999999999999999999", "waves-5"]);
    assert_eq!(next_free_name("waves", &stems), "waves-6.svg");
}

#[test]
fn names_and_dashes_are_taken_off_however_many() {
    let stems = strings(&["waveswaves-4", "waves---7", "wavesw-9", "-waves-11", "8", "--6"]);
    assert_eq!(next_free_name("waves", &stems), "waves-9.svg");
    let stems = strings(&["aaa5", "aa-6", "a7"]);
    assert_eq!(next_free_name("aa", &stems), "aa-7.svg");
}

#[test]
fn a_plus_and_zeros_may_stand_before_the_digits() {
    let stems = strings(&["waves-+5", "waves-007", "waves-++9", "waves-+", "waves+3"]);
    assert_eq!(next_free_name("waves", &stems), "waves-8.svg");
    let stems = strings(&["waves-0", "waves-000"]);
    assert_eq!(next_free_name("waves", &stems), "waves-1.svg");
}

#[test]
fn the_greatest_number_that_counts() {
    let stems = strings(&["waves-2147483647"]);
    assert_eq!(next_free_name("waves", &stems), "waves-2147483648.svg");
    let stems = strings(&["waves-2147483646"]);
    assert_eq!(next_free_name("waves", &stems), "waves-2147483647.svg");
}

#[test]
fn names_that_are_not_ascii() {
    let stems = strings(&["caf\u{e9}-3", "caf\u{e9}caf\u{e9}-\u{664}", "cafe-9"]);
    assert_eq!(next_free_name("caf\u{e9}", &stems), "caf\u{e9}-4.svg");
}

#[test]
fn next_free_name_is_what_the_standard_library_gives() {
    let names = ["waves", "", "a", "aa", "-", "1", "w-1"];
    let parts = ["", "waves", "a", "aa", "-", "--", "+", "0", "1", "7", "42", "007", "x", " ", "2147483647", "2147483648", "w-1"];
    for name in names {
        let mut stems = vec![];
        for a in parts {
            for b in parts {
                for c in parts {
                    stems.push(format!("{a}{b}{c}"));
                }
            }
        }
        for stem in &stems {
            let one = vec![stem.clone()];
            assert_eq!(next_free_name(name, &one), by_std(name, &one), "{name:?} {stem:?}");
        }
        assert_eq!(next_free_name(name, &stems), by_std(name, &stems));
        let few: Vec<String> = stems.iter().filter(|s| s.len() < 4).cloned().collect();
        assert_eq!(next_free_name(name, &few), by_std(name, &few));
    }
}
